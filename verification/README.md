# fsci_harness

The integer kernels behind the FrankenSciPy benchmark and conformance harnesses,
written in Verus and proved against their contracts.

- `src/lcg.rs`: the 64-bit linear congruential generator that seeds every data set,
  and the raw draws of the complex test signal.
- `src/cliques.rs`: Bron–Kerbosch without pivoting, proved to list exactly the maximal
  cliques of a simple graph, each increasing, in lexicographic order; the proximity
  graph of a mask of marked pairs.
- `src/dbscan.rs`: DBSCAN labelling from neighbour lists, with its labels, core points
  and cluster count given by density reachability.
- `src/medoids.rs`: the starting medoids of k-medoids, each the first free index the
  seeding generator draws; the generator is proved to have full period, so the search
  always ends.
- `src/primes.rs`: trial-division smallest prime factor, the legacy mixed-radix split,
  and prime factorizations proved to multiply back to their input.
- `src/labels.rs`: round-robin labels and the cluster-purity match count.
- `src/digest.rs`, `src/text.rs`, `src/cluster_golden.rs`, `src/ivp_golden.rs`: the
  FNV and rotate–xor fingerprints and the bit-exact golden text of the harnesses.

`app/` is the command-line harness: the floating-point data sets, distances and
reference transforms, which call into the library for everything else.
`tests/` holds the tests of the library.
