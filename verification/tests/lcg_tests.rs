use fsci_harness::{signal, Lcg};

#[test]
fn lcg_first_states_match_wrapping_arithmetic() {
    let mut g = Lcg(0);
    assert_eq!(g.next_u64(), 1442695040888963407);
    assert_eq!(g.0, 1442695040888963407);
    let expected = 1442695040888963407u64
        .wrapping_mul(6364136223846793005)
        .wrapping_add(1442695040888963407);
    assert_eq!(g.next_u64(), expected);
    assert_eq!(g.0, expected);
}

#[test]
fn lcg_wraps_at_the_top_of_the_range() {
    let mut g = Lcg(u64::MAX);
    let expected = u64::MAX
        .wrapping_mul(6364136223846793005)
        .wrapping_add(1442695040888963407);
    assert_eq!(g.next_u64(), expected);
}

#[test]
fn signal_draws_are_top_53_bits_of_consecutive_states() {
    let draws = signal(3, 42);
    assert_eq!(
        draws,
        vec![
            (5118163774668235, 2030794029189534),
            (3718516997689703, 5678120844705401),
            (6126226822504904, 236249024909153),
        ]
    );
    let mut g = Lcg(42);
    for &(re, im) in &draws {
        assert_eq!(re, g.next_u64() >> 11);
        assert_eq!(im, g.next_u64() >> 11);
        assert!(re < (1u64 << 53) && im < (1u64 << 53));
    }
}

#[test]
fn signal_of_length_zero_is_empty() {
    assert!(signal(0, 7).is_empty());
}
