//! Verified integer kernels of the FrankenSciPy benchmark and conformance harnesses:
//! the deterministic generator that seeds every data set, maximal-clique enumeration,
//! DBSCAN labelling from neighbour lists, trial-division factoring, and the digests
//! that fingerprint results.
pub mod cliques;
pub mod cluster_golden;
pub mod dbscan;
pub mod digest;
pub mod ivp_golden;
pub mod labels;
pub mod lcg;
pub mod medoids;
pub mod primes;
pub mod text;

pub use cliques::{bron_kerbosch, cliques_within, proximity_adjacency};
pub use digest::{
    checksum_bits, digest_bits, digest_cliques, digest_labels, digest_labels_and_bits,
    golden_bits, rotate_left,
};
pub use labels::{make_labels, purity_matches};
pub use ivp_golden::{write_result, write_result_quoted, IvpSummary};
pub use cluster_golden::ClusterGoldenCase;
pub use dbscan::dbscan_from_neighbors;
pub use lcg::{signal, Lcg};
pub use medoids::initial_medoids;
pub use primes::{factor_string, legacy_radix, prime_factors, smallest_prime_factor};
