use fsci_harness::{
    checksum_bits, digest_bits, digest_labels, digest_labels_and_bits, golden_bits, rotate_left,
};

#[test]
fn fnv_digests_of_known_inputs() {
    assert_eq!(digest_labels(&[]), 1469598103934665603);
    assert_eq!(digest_labels(&[-1, 0, 1]), 5625630012427579527);
    assert_eq!(digest_bits(&[1.0f64.to_bits(), 0]), 16220016426982357243);
    assert_eq!(digest_labels_and_bits(&[2, 0], &[2.0f64.to_bits()]), 6336933352226051371);
}

#[test]
fn rotate_checksum_and_golden_fingerprint() {
    assert_eq!(checksum_bits(&[]), 0);
    assert_eq!(checksum_bits(&[1, 2, 3]), 16643);
    assert_eq!(golden_bits(&[]), (0, 0, 0));
    assert_eq!(golden_bits(&[vec![1, 2], vec![3]]), (2, 2, 6442450949));
}

#[test]
fn rotate_left_matches_std() {
    for &x in &[0u64, 1, 0x8000_0000_0000_0001, 0x0123_4567_89ab_cdef, u64::MAX] {
        for r in 0..64u32 {
            assert_eq!(rotate_left(x, r), x.rotate_left(r));
        }
    }
}
