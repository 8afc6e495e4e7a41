use fsci_harness::initial_medoids;

#[test]
fn initial_medoids_first_free_draws() {
    assert_eq!(initial_medoids(64, 4, 0x1234_5678), vec![34, 7, 43, 40]);
    assert_eq!(
        initial_medoids(300, 16, 0x1234_5678),
        vec![194, 107, 67, 204, 268, 285, 71, 234, 0, 157, 33, 250, 265, 116, 244, 138]
    );
}

#[test]
fn initial_medoids_take_every_point_when_k_equals_n() {
    let m = initial_medoids(10, 10, 0);
    assert_eq!(m, vec![0, 6, 5, 8, 4, 2, 9, 1, 3, 7]);
    let mut sorted = m.clone();
    sorted.sort();
    assert_eq!(sorted, (0..10).collect::<Vec<usize>>());
}

#[test]
fn initial_medoids_edge_cases() {
    assert_eq!(initial_medoids(1, 1, 5), vec![0]);
    assert!(initial_medoids(0, 0, 9).is_empty());
    assert!(initial_medoids(7, 0, 9).is_empty());
}
