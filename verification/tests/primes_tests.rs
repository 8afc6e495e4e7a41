use fsci_harness::{factor_string, legacy_radix, prime_factors, smallest_prime_factor};

#[test]
fn smallest_prime_factor_values() {
    assert_eq!(smallest_prime_factor(0), 2);
    assert_eq!(smallest_prime_factor(1), 1);
    assert_eq!(smallest_prime_factor(2), 2);
    assert_eq!(smallest_prime_factor(9), 3);
    assert_eq!(smallest_prime_factor(15), 3);
    assert_eq!(smallest_prime_factor(91), 7);
    assert_eq!(smallest_prime_factor(97), 97);
    assert_eq!(smallest_prime_factor(1_000_003), 1_000_003);
    assert_eq!(smallest_prime_factor(1_000_003 * 999_983), 999_983);
}

#[test]
fn smallest_prime_factor_of_a_large_prime() {
    // the largest prime below 2^64
    assert_eq!(smallest_prime_factor(18446744073709551557), 18446744073709551557);
}

#[test]
fn factor_string_writes_nondecreasing_prime_factors() {
    assert_eq!(factor_string(0), "");
    assert_eq!(factor_string(1), "");
    assert_eq!(factor_string(12), "2*2*3");
    assert_eq!(factor_string(97), "97");
    assert_eq!(factor_string(360), "2*2*2*3*3*5");
    assert_eq!(factor_string(720), "2*2*2*2*3*3*5");
    assert_eq!(factor_string(10000), "2*2*2*2*5*5*5*5");
    assert_eq!(factor_string(1920), "2*2*2*2*2*2*2*3*5");
}

#[test]
fn prime_factors_multiply_back() {
    for n in 1..2000usize {
        let fs = prime_factors(n);
        assert_eq!(fs.iter().product::<usize>(), n);
        assert!(fs.windows(2).all(|w| w[0] <= w[1]));
        for &f in &fs {
            assert_eq!(smallest_prime_factor(f), f);
        }
    }
}

#[test]
fn legacy_radix_prefers_four_then_smallest_prime() {
    assert_eq!(legacy_radix(0), 4);
    assert_eq!(legacy_radix(1), 1);
    assert_eq!(legacy_radix(2), 2);
    assert_eq!(legacy_radix(4), 4);
    assert_eq!(legacy_radix(6), 2);
    assert_eq!(legacy_radix(12), 4);
    assert_eq!(legacy_radix(15), 3);
    assert_eq!(legacy_radix(49), 7);
    assert_eq!(legacy_radix(7), 7);
}
