use fsci_harness::{make_labels, purity_matches};

#[test]
fn make_labels_round_robin() {
    assert_eq!(make_labels(5, 2), vec![0, 1, 0, 1, 0]);
    assert_eq!(make_labels(3, 7), vec![0, 1, 2]);
    assert!(make_labels(0, 0).is_empty());
}

#[test]
fn purity_matches_counts_best_overlaps() {
    assert_eq!(purity_matches(&[0, 0, 1, 1, 1], &[0, 1, 1, 1, 0], 2), 3);
    // perfect clustering under relabelling
    assert_eq!(purity_matches(&[1, 1, 0, 0], &[0, 0, 1, 1], 2), 4);
    // labels outside 0..k are not counted
    assert_eq!(purity_matches(&[5, 0], &[0, 0], 1), 1);
    assert_eq!(purity_matches(&[], &[], 3), 0);
    // a truth list may stop before labels that no cluster below k claims
    assert_eq!(purity_matches(&[0, 1, 4, 9], &[1, 1], 2), 2);
}
