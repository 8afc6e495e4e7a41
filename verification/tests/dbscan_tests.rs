use fsci_harness::{dbscan_from_neighbors, digest_labels};

#[test]
fn dbscan_one_cluster_with_border_and_noise() {
    let nbrs = vec![
        vec![0, 1, 2],
        vec![0, 1, 2],
        vec![0, 1, 2, 3],
        vec![2, 3],
        vec![4],
    ];
    let (labels, cores, n_clusters) = dbscan_from_neighbors(&nbrs, 3);
    assert_eq!(labels, vec![0, 0, 0, 0, -1]);
    assert_eq!(cores, vec![0, 1, 2]);
    assert_eq!(n_clusters, 1);
}

#[test]
fn dbscan_shared_border_point_goes_to_the_first_cluster() {
    let nbrs = vec![
        vec![0, 1, 3],
        vec![0, 1, 3],
        vec![2],
        vec![3],
        vec![3, 4, 5],
        vec![3, 4, 5],
    ];
    let (labels, cores, n_clusters) = dbscan_from_neighbors(&nbrs, 3);
    assert_eq!(labels, vec![0, 0, -1, 0, 1, 1]);
    assert_eq!(cores, vec![0, 1, 4, 5]);
    assert_eq!(n_clusters, 2);
}

#[test]
fn dbscan_edge_cases() {
    let (labels, cores, n) = dbscan_from_neighbors(&[], 3);
    assert!(labels.is_empty() && cores.is_empty() && n == 0);
    // min_samples 0: every point is core and its own cluster seed unless reached
    let nbrs = vec![vec![], vec![]];
    assert_eq!(dbscan_from_neighbors(&nbrs, 0), (vec![0, 1], vec![0, 1], 2));
    // nobody dense enough: all noise
    let nbrs = vec![vec![0, 1], vec![0, 1]];
    assert_eq!(dbscan_from_neighbors(&nbrs, 3), (vec![-1, -1], vec![], 0));
}

#[test]
fn dbscan_chain_of_cores_is_one_cluster() {
    // 0-1-2-3-4 path, each point lists itself and its path neighbours
    let nbrs = vec![
        vec![0, 1],
        vec![0, 1, 2],
        vec![1, 2, 3],
        vec![2, 3, 4],
        vec![3, 4],
    ];
    let (labels, cores, n) = dbscan_from_neighbors(&nbrs, 3);
    assert_eq!(labels, vec![0, 0, 0, 0, 0]);
    assert_eq!(cores, vec![1, 2, 3]);
    assert_eq!(n, 1);
    assert_eq!(digest_labels(&labels), digest_labels(&[0, 0, 0, 0, 0]));
}
