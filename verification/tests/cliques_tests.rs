use fsci_harness::{bron_kerbosch, cliques_within, digest_cliques, proximity_adjacency};

fn triangle_with_tail() -> Vec<Vec<usize>> {
    // 0-1-2 triangle, 2-3 edge, 4 isolated
    vec![vec![1, 2], vec![0, 2], vec![0, 1, 3], vec![2], vec![]]
}

#[test]
fn bron_kerbosch_lists_every_maximal_clique_in_order() {
    let adj = triangle_with_tail();
    let mut r = Vec::new();
    let mut p: Vec<usize> = (0..5).collect();
    let mut x = Vec::new();
    let mut cliques = Vec::new();
    bron_kerbosch(&adj, &mut r, &mut p, &mut x, &mut cliques);
    assert_eq!(cliques, vec![vec![0, 1, 2], vec![2, 3], vec![4]]);
    assert!(r.is_empty());
    assert!(p.is_empty());
    assert_eq!(x, vec![0, 1, 2, 3, 4]);
}

#[test]
fn bron_kerbosch_appends_after_existing_cliques() {
    let adj = vec![vec![1], vec![0]];
    let mut r = Vec::new();
    let mut p = vec![0, 1];
    let mut x = Vec::new();
    let mut cliques = vec![vec![9, 9]];
    bron_kerbosch(&adj, &mut r, &mut p, &mut x, &mut cliques);
    assert_eq!(cliques, vec![vec![9, 9], vec![0, 1]]);
}

#[test]
fn bron_kerbosch_with_nothing_left_reports_current_clique() {
    let adj: Vec<Vec<usize>> = vec![vec![]];
    let mut r = vec![0];
    let mut p = Vec::new();
    let mut x = Vec::new();
    let mut cliques = Vec::new();
    bron_kerbosch(&adj, &mut r, &mut p, &mut x, &mut cliques);
    assert_eq!(cliques, vec![vec![0]]);
    // an excluded vertex blocks the report
    let mut r = vec![0];
    let mut x = vec![3];
    let mut cliques = Vec::new();
    bron_kerbosch(&adj, &mut r, &mut Vec::new(), &mut x, &mut cliques);
    assert!(cliques.is_empty());
    // an empty clique is never reported
    let mut cliques = Vec::new();
    bron_kerbosch(&adj, &mut Vec::new(), &mut Vec::new(), &mut Vec::new(), &mut cliques);
    assert!(cliques.is_empty());
}

#[test]
fn bron_kerbosch_repeated_candidate_is_reported_twice() {
    let adj: Vec<Vec<usize>> = vec![vec![]];
    let mut p = vec![0, 0];
    let mut x = Vec::new();
    let mut cliques = Vec::new();
    bron_kerbosch(&adj, &mut Vec::new(), &mut p, &mut x, &mut cliques);
    assert_eq!(cliques, vec![vec![0], vec![0]]);
    assert_eq!(x, vec![0, 0]);
}

fn mask(n: usize, pairs: &[(usize, usize)]) -> Vec<Vec<bool>> {
    let mut m = vec![vec![false; n]; n];
    for &(i, j) in pairs {
        m[i][j] = true;
    }
    m
}

#[test]
fn proximity_adjacency_reads_upper_triangle() {
    let m = mask(4, &[(0, 1), (1, 2), (0, 2)]);
    let adj = proximity_adjacency(&m);
    assert_eq!(adj, vec![vec![1, 2], vec![0, 2], vec![0, 1], vec![]]);
    // marks below the diagonal and on it are ignored
    let mut m = mask(3, &[(0, 2)]);
    m[2][1] = true;
    m[1][1] = true;
    assert_eq!(proximity_adjacency(&m), vec![vec![2], vec![], vec![0]]);
}

#[test]
fn cliques_within_finds_maximal_cliques() {
    let m = mask(4, &[(0, 1), (1, 2), (0, 2)]);
    assert_eq!(cliques_within(&m), vec![vec![0, 1, 2], vec![3]]);
    let m = mask(5, &[(0, 1), (1, 2), (2, 3), (3, 4), (0, 4)]);
    assert_eq!(
        cliques_within(&m),
        vec![vec![0, 1], vec![0, 4], vec![1, 2], vec![2, 3], vec![3, 4]]
    );
    assert!(cliques_within(&Vec::new()).is_empty());
}

#[test]
fn every_reported_clique_is_maximal_and_every_maximal_clique_is_reported() {
    // deterministic pseudo-random graphs; brute force over subsets as the reference
    let mut state = 12345u64;
    for n in 1..9usize {
        let mut m = vec![vec![false; n]; n];
        for i in 0..n {
            for j in i + 1..n {
                state = state
                    .wrapping_mul(6364136223846793005)
                    .wrapping_add(1442695040888963407);
                m[i][j] = (state >> 60) % 2 == 0;
            }
        }
        let linked = |a: usize, b: usize| if a < b { m[a][b] } else { m[b][a] };
        let mut want = Vec::new();
        for set in 1u32..(1u32 << n) {
            let members: Vec<usize> = (0..n).filter(|&v| set & (1 << v) != 0).collect();
            let clique = members
                .iter()
                .all(|&a| members.iter().all(|&b| a == b || linked(a, b)));
            let maximal = clique
                && (0..n).all(|u| set & (1 << u) != 0 || !members.iter().all(|&a| linked(a, u)));
            if maximal {
                want.push(members);
            }
        }
        want.sort();
        assert_eq!(cliques_within(&m), want, "n={n}");
    }
}

#[test]
fn digest_cliques_folds_vertices_and_separators() {
    assert_eq!(digest_cliques(&[]), 1469598103934665603);
    assert_eq!(digest_cliques(&[vec![0, 1, 2], vec![2, 3]]), 5597995320474462029);
    // order matters
    assert_ne!(
        digest_cliques(&[vec![2, 3], vec![0, 1, 2]]),
        digest_cliques(&[vec![0, 1, 2], vec![2, 3]])
    );
}
