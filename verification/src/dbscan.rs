//! DBSCAN labelling from precomputed neighbour lists: seeds in index order, each cluster
//! grown breadth-first through core points.
use vstd::prelude::*;

verus! {

/// The neighbour lists held by a vector of vectors.
pub open spec fn lists_view(v: Seq<Vec<usize>>) -> Seq<Seq<usize>> {
    v.map_values(|l: Vec<usize>| l@)
}

/// `q` is a core point: it has at least `min_samples` listed neighbours.
pub open spec fn is_core(nbrs: Seq<Seq<usize>>, min_samples: usize, q: int) -> bool {
    nbrs[q].len() >= min_samples
}

/// `path` steps from each entry to a listed neighbour of it, and every entry but the
/// last is a core point.
pub open spec fn is_core_path(nbrs: Seq<Seq<usize>>, min_samples: usize, path: Seq<usize>) -> bool {
    &&& path.len() >= 1
    &&& forall|i: int| 0 <= i < path.len() ==> (#[trigger] path[i] as int) < nbrs.len()
    &&& forall|i: int|
        0 <= i < path.len() - 1 ==> is_core(nbrs, min_samples, #[trigger] path[i] as int)
            && nbrs[path[i] as int].contains(path[i + 1])
}

/// `u` is density-reachable from `s`: some core path leads from `s` to `u`.
pub open spec fn reaches(nbrs: Seq<Seq<usize>>, min_samples: usize, s: usize, u: usize) -> bool {
    exists|path: Seq<usize>|
        #[trigger] is_core_path(nbrs, min_samples, path) && path[0] == s && path.last() == u
}

/// The position of the first seed in `seeds`, from position `c` on, that reaches `u`,
/// or -1 when none does.
pub open spec fn first_reach(
    nbrs: Seq<Seq<usize>>,
    min_samples: usize,
    seeds: Seq<usize>,
    u: usize,
    c: int,
) -> int
    decreases seeds.len() - c,
{
    if c < 0 || c >= seeds.len() {
        -1
    } else if reaches(nbrs, min_samples, seeds[c], u) {
        c
    } else {
        first_reach(nbrs, min_samples, seeds, u, c + 1)
    }
}

/// The seeds among the points below `k`, in increasing order: the core points that no
/// earlier seed reaches.
pub open spec fn seeds_below(nbrs: Seq<Seq<usize>>, min_samples: usize, k: nat) -> Seq<usize>
    decreases k,
{
    if k == 0 {
        Seq::empty()
    } else {
        let prev = seeds_below(nbrs, min_samples, (k - 1) as nat);
        let q = (k - 1) as usize;
        if is_core(nbrs, min_samples, q as int) && first_reach(nbrs, min_samples, prev, q, 0) == -1 {
            prev.push(q)
        } else {
            prev
        }
    }
}

/// The seeds of all points, in increasing order; cluster `c` is grown from seed `c`.
pub open spec fn dbscan_seeds(nbrs: Seq<Seq<usize>>, min_samples: usize) -> Seq<usize> {
    seeds_below(nbrs, min_samples, nbrs.len())
}

/// The DBSCAN label of `u`: the cluster of the first seed that reaches it, or -1 (noise).
pub open spec fn dbscan_label(nbrs: Seq<Seq<usize>>, min_samples: usize, u: usize) -> int {
    first_reach(nbrs, min_samples, dbscan_seeds(nbrs, min_samples), u, 0)
}

/// The core points below `k`, in increasing order.
pub open spec fn core_points_below(nbrs: Seq<Seq<usize>>, min_samples: usize, k: nat) -> Seq<usize>
    decreases k,
{
    if k == 0 {
        Seq::empty()
    } else {
        let prev = core_points_below(nbrs, min_samples, (k - 1) as nat);
        if is_core(nbrs, min_samples, k - 1) {
            prev.push((k - 1) as usize)
        } else {
            prev
        }
    }
}

/// Number of `false` entries.
pub open spec fn count_unvisited(v: Seq<bool>) -> nat
    decreases v.len(),
{
    if v.len() == 0 {
        0
    } else {
        count_unvisited(v.drop_last()) + if v.last() {
            0nat
        } else {
            1nat
        }
    }
}

proof fn lemma_count_unvisited_mark(v: Seq<bool>, j: int)
    requires
        0 <= j < v.len(),
        !v[j],
    ensures
        count_unvisited(v.update(j, true)) + 1 == count_unvisited(v),
    decreases v.len(),
{
    let w = v.update(j, true);
    if j == v.len() - 1 {
        assert(w.drop_last() =~= v.drop_last());
    } else {
        assert(w.drop_last() =~= v.drop_last().update(j, true));
        lemma_count_unvisited_mark(v.drop_last(), j);
    }
}

pub proof fn lemma_reaches_self(nbrs: Seq<Seq<usize>>, min_samples: usize, s: usize)
    requires
        (s as int) < nbrs.len(),
    ensures
        reaches(nbrs, min_samples, s, s),
{
    let path = seq![s];
    assert(is_core_path(nbrs, min_samples, path));
}

/// Reachability extends through a listed neighbour of a reached core point.
pub proof fn lemma_reaches_step(nbrs: Seq<Seq<usize>>, min_samples: usize, s: usize, q: usize, v: usize)
    requires
        reaches(nbrs, min_samples, s, q),
        is_core(nbrs, min_samples, q as int),
        nbrs[q as int].contains(v),
        (v as int) < nbrs.len(),
    ensures
        reaches(nbrs, min_samples, s, v),
{
    let path = choose|path: Seq<usize>|
        #[trigger] is_core_path(nbrs, min_samples, path) && path[0] == s && path.last() == q;
    let p2 = path.push(v);
    assert forall|i: int| 0 <= i < p2.len() - 1 implies is_core(nbrs, min_samples, #[trigger] p2[i] as int)
        && nbrs[p2[i] as int].contains(p2[i + 1]) by {
        if i < path.len() - 1 {
            assert(p2[i] == path[i] && p2[i + 1] == path[i + 1]);
        } else {
            assert(p2[i] == q && p2[i + 1] == v);
        }
    }
    assert(is_core_path(nbrs, min_samples, p2));
}

/// A set of points (given by `labels[u] != -1`) that holds `s` and every listed
/// neighbour of each of its core points holds every point that `s` reaches.
pub proof fn lemma_closed_set_holds_reach(
    nbrs: Seq<Seq<usize>>,
    min_samples: usize,
    labels: Seq<i64>,
    s: usize,
    u: usize,
)
    requires
        labels.len() == nbrs.len(),
        (s as int) < nbrs.len(),
        labels[s as int] != -1,
        forall|q: int|
            0 <= q < nbrs.len() && is_core(nbrs, min_samples, q) && labels[q] != -1 ==> forall|v: usize|
                #[trigger] nbrs[q].contains(v) ==> (v as int) < nbrs.len() && labels[v as int] != -1,
        reaches(nbrs, min_samples, s, u),
    ensures
        labels[u as int] != -1,
{
    let path = choose|path: Seq<usize>|
        #[trigger] is_core_path(nbrs, min_samples, path) && path[0] == s && path.last() == u;
    lemma_path_stays_labelled(nbrs, min_samples, labels, path, 0);
}

proof fn lemma_path_stays_labelled(
    nbrs: Seq<Seq<usize>>,
    min_samples: usize,
    labels: Seq<i64>,
    path: Seq<usize>,
    k: int,
)
    requires
        is_core_path(nbrs, min_samples, path),
        0 <= k < path.len(),
        labels.len() == nbrs.len(),
        labels[path[k] as int] != -1,
        forall|q: int|
            0 <= q < nbrs.len() && is_core(nbrs, min_samples, q) && labels[q] != -1 ==> forall|v: usize|
                #[trigger] nbrs[q].contains(v) ==> (v as int) < nbrs.len() && labels[v as int] != -1,
    ensures
        labels[path.last() as int] != -1,
    decreases path.len() - k,
{
    if k < path.len() - 1 {
        let q = path[k];
        assert(is_core(nbrs, min_samples, q as int) && nbrs[q as int].contains(path[k + 1]));
        lemma_path_stays_labelled(nbrs, min_samples, labels, path, k + 1);
    }
}

proof fn lemma_first_reach_range(nbrs: Seq<Seq<usize>>, min_samples: usize, seeds: Seq<usize>, u: usize, c: int)
    requires
        0 <= c,
    ensures
        first_reach(nbrs, min_samples, seeds, u, c) == -1 || (c <= first_reach(nbrs, min_samples, seeds, u, c) < seeds.len()
            && reaches(nbrs, min_samples, seeds[first_reach(nbrs, min_samples, seeds, u, c)], u)),
        first_reach(nbrs, min_samples, seeds, u, c) == -1 ==> forall|t: int|
            c <= t < seeds.len() ==> !reaches(nbrs, min_samples, #[trigger] seeds[t], u),
    decreases seeds.len() - c,
{
    if c < seeds.len() && !reaches(nbrs, min_samples, seeds[c], u) {
        lemma_first_reach_range(nbrs, min_samples, seeds, u, c + 1);
        assert forall|t: int| c <= t < seeds.len() && first_reach(nbrs, min_samples, seeds, u, c) == -1 implies !reaches(
            nbrs,
            min_samples,
            #[trigger] seeds[t],
            u,
        ) by {
            if t > c {
                assert(c + 1 <= t);
            }
        }
    }
}

/// Extending the seed list keeps every earlier answer, and a point no earlier seed
/// reaches gets the new seed's position exactly when the new seed reaches it.
proof fn lemma_first_reach_push(
    nbrs: Seq<Seq<usize>>,
    min_samples: usize,
    seeds: Seq<usize>,
    s: usize,
    u: usize,
    c: int,
)
    requires
        0 <= c <= seeds.len(),
    ensures
        first_reach(nbrs, min_samples, seeds.push(s), u, c) == if first_reach(
            nbrs,
            min_samples,
            seeds,
            u,
            c,
        ) != -1 {
            first_reach(nbrs, min_samples, seeds, u, c)
        } else if reaches(nbrs, min_samples, s, u) {
            seeds.len() as int
        } else {
            -1
        },
    decreases seeds.len() - c,
{
    let ext = seeds.push(s);
    if c < seeds.len() {
        assert(ext[c] == seeds[c]);
        lemma_first_reach_push(nbrs, min_samples, seeds, s, u, c + 1);
    } else {
        assert(ext[c] == s);
        assert(first_reach(nbrs, min_samples, ext, u, c + 1) == -1);
    }
}

/// Grows the cluster of seed `s` breadth-first: every point that `s` reaches and no
/// earlier cluster holds gets label `c`, and each such core point is expanded once.
fn expand_cluster(
    neighbors: &[Vec<usize>],
    min_samples: usize,
    labels: &mut Vec<i64>,
    visited: &mut Vec<bool>,
    s: usize,
    c: usize,
    Ghost(seeds): Ghost<Seq<usize>>,
)
    requires
        (s as int) < neighbors@.len(),
        neighbors@.len() <= i64::MAX,
        c <= s,
        c == seeds.len(),
        is_core(lists_view(neighbors@), min_samples, s as int),
        forall|q: int, k: int|
            0 <= q < neighbors@.len() && is_core(lists_view(neighbors@), min_samples, q) && 0 <= k
                < neighbors@[q]@.len() ==> (#[trigger] neighbors@[q]@[k] as int) < neighbors@.len(),
        old(labels)@.len() == neighbors@.len(),
        old(visited)@.len() == neighbors@.len(),
        forall|u: int|
            0 <= u < neighbors@.len() ==> (#[trigger] old(labels)@[u]) as int == first_reach(
                lists_view(neighbors@),
                min_samples,
                seeds,
                u as usize,
                0,
            ),
        forall|u: int|
            0 <= u < neighbors@.len() ==> (#[trigger] old(visited)@[u] <==> (u <= s || old(labels)@[u] != -1)),
        forall|q: int|
            0 <= q < s && is_core(lists_view(neighbors@), min_samples, q) ==> #[trigger] old(labels)@[q] != -1,
        old(labels)@[s as int] == -1,
        forall|q: int|
            0 <= q < neighbors@.len() && is_core(lists_view(neighbors@), min_samples, q) && #[trigger] old(labels)@[q]
                != -1 ==> forall|v: usize|
                #[trigger] lists_view(neighbors@)[q].contains(v) ==> (v as int) < neighbors@.len()
                    && old(labels)@[v as int] != -1,
    ensures
        final(labels)@.len() == neighbors@.len(),
        final(visited)@.len() == neighbors@.len(),
        forall|u: int|
            0 <= u < neighbors@.len() ==> (#[trigger] final(labels)@[u]) as int == first_reach(
                lists_view(neighbors@),
                min_samples,
                seeds.push(s),
                u as usize,
                0,
            ),
        forall|u: int|
            0 <= u < neighbors@.len() ==> (#[trigger] final(visited)@[u] <==> (u <= s || final(labels)@[u] != -1)),
        forall|q: int|
            0 <= q <= s && is_core(lists_view(neighbors@), min_samples, q) ==> #[trigger] final(labels)@[q] != -1,
        forall|q: int|
            0 <= q < neighbors@.len() && is_core(lists_view(neighbors@), min_samples, q) && #[trigger] final(labels)@[q]
                != -1 ==> forall|v: usize|
                #[trigger] lists_view(neighbors@)[q].contains(v) ==> (v as int) < neighbors@.len()
                    && final(labels)@[v as int] != -1,
{
    let ghost nb = lists_view(neighbors@);
    let ghost n = neighbors@.len();
    let ghost l0 = labels@;
    labels.set(s, c as i64);
    let mut queue: Vec<usize> = Vec::new();
    let seed_list = &neighbors[s];
    let mut k: usize = 0;
    while k < seed_list.len()
        invariant
            k <= seed_list@.len(),
            seed_list@ == nb[s as int],
            nb == lists_view(neighbors@),
            queue@ == seed_list@.take(k as int),
        decreases seed_list@.len() - k,
    {
        queue.push(seed_list[k]);
        k += 1;
        assert(queue@ =~= seed_list@.take(k as int));
    }
    assert(seed_list@.take(k as int) =~= seed_list@);
    proof {
        lemma_reaches_self(nb, min_samples, s);
        assert forall|t: int| 0 <= t < queue@.len() implies (#[trigger] queue@[t] as int) < n
            && reaches(nb, min_samples, s, queue@[t]) by {
            assert(nb[s as int].contains(queue@[t]));
            assert(neighbors@[s as int]@[t] == queue@[t]);
            lemma_reaches_step(nb, min_samples, s, s, queue@[t]);
        }
    }
    let mut head: usize = 0;
    while head < queue.len()
        invariant
            nb == lists_view(neighbors@),
            n == neighbors@.len(),
            n <= i64::MAX,
            (s as int) < n,
            c <= s,
            c == seeds.len(),
            forall|q: int, k: int|
                0 <= q < n && is_core(nb, min_samples, q) && 0 <= k < neighbors@[q]@.len()
                    ==> (#[trigger] neighbors@[q]@[k] as int) < n,
            labels@.len() == n,
            visited@.len() == n,
            head <= queue@.len(),
            labels@[s as int] == c as i64,
            forall|t: int| head <= t < queue@.len() ==> (#[trigger] queue@[t] as int) < n
                && reaches(nb, min_samples, s, queue@[t]),
            forall|u: int|
                0 <= u < n && first_reach(nb, min_samples, seeds, u as usize, 0) != -1 ==> (
                #[trigger] labels@[u]) as int == first_reach(nb, min_samples, seeds, u as usize, 0),
            forall|u: int|
                0 <= u < n && first_reach(nb, min_samples, seeds, u as usize, 0) == -1 ==> (
                #[trigger] labels@[u] == -1 || (labels@[u] == c as i64 && reaches(nb, min_samples, s, u as usize))),
            forall|u: int| 0 <= u < n ==> (#[trigger] visited@[u] <==> (u <= s || labels@[u] != -1)),
            forall|q: int| 0 <= q < s && is_core(nb, min_samples, q) ==> #[trigger] labels@[q] != -1,
            forall|q: int|
                0 <= q < n && is_core(nb, min_samples, q) && #[trigger] labels@[q] != -1 ==> forall|v: usize|
                    #[trigger] nb[q].contains(v) ==> (v as int) < n && (labels@[v as int] != -1
                        || queue@.skip(head as int).contains(v)),
        decreases count_unvisited(visited@), queue@.len() - head,
    {
        let j = queue[head];
        let ghost pending_before = queue@.skip(head as int);
        head += 1;
        let ghost pending_after = queue@.skip(head as int);
        assert(pending_before =~= seq![j] + pending_after);
        if labels[j] == -1 {
            labels.set(j, c as i64);
        }
        let ghost q_pop = queue@;
        if !visited[j] {
            proof {
                lemma_count_unvisited_mark(visited@, j as int);
            }
            visited.set(j, true);
            if neighbors[j].len() >= min_samples {
                let list = &neighbors[j];
                let ghost q_mid = queue@;
                let mut k: usize = 0;
                while k < list.len()
                    invariant
                        queue@.len() >= q_mid.len(),
                        forall|t: int| 0 <= t < q_mid.len() ==> #[trigger] queue@[t] == q_mid[t],
                        nb == lists_view(neighbors@),
                        n == neighbors@.len(),
                        list@ == nb[j as int],
                        (j as int) < n,
                        is_core(nb, min_samples, j as int),
                        reaches(nb, min_samples, s, j),
                        labels@[j as int] != -1,
                        forall|q: int, k: int|
                            0 <= q < n && is_core(nb, min_samples, q) && 0 <= k < neighbors@[q]@.len()
                                ==> (#[trigger] neighbors@[q]@[k] as int) < n,
                        labels@.len() == n,
                        k <= list@.len(),
                        head <= queue@.len(),
                        forall|t: int| head <= t < queue@.len() ==> (#[trigger] queue@[t] as int) < n
                            && reaches(nb, min_samples, s, queue@[t]),
                        forall|q: int|
                            0 <= q < n && q != j && is_core(nb, min_samples, q) && #[trigger] labels@[q] != -1 ==> forall|v: usize|
                                #[trigger] nb[q].contains(v) ==> (v as int) < n && (labels@[v as int] != -1
                                    || queue@.skip(head as int).contains(v)),
                        forall|v: usize|
                            #[trigger] list@.take(k as int).contains(v) ==> (v as int) < n && (labels@[v as int] != -1
                                || queue@.skip(head as int).contains(v)),
                    decreases list@.len() - k,
                {
                    let v = list[k];
                    let ghost before = queue@.skip(head as int);
                    assert(neighbors@[j as int]@[k as int] == v);
                    if labels[v] == -1 {
                        queue.push(v);
                        proof {
                            assert(nb[j as int].contains(v));
                            lemma_reaches_step(nb, min_samples, s, j, v);
                        }
                    }
                    proof {
                        let after = queue@.skip(head as int);
                        assert forall|w: usize| #[trigger] before.contains(w) implies after.contains(w) by {
                            let t = choose|t: int| 0 <= t < before.len() && before[t] == w;
                            assert(after[t] == w);
                        }
                        if labels@[v as int] == -1 {
                            assert(after[after.len() - 1] == v);
                        }
                        let grown = list@.take(k + 1);
                        let prior = list@.take(k as int);
                        assert forall|w: usize| #[trigger] grown.contains(w) implies (w as int) < n
                            && (labels@[w as int] != -1 || after.contains(w)) by {
                            let t = choose|t: int| 0 <= t < grown.len() && grown[t] == w;
                            if t < k {
                                assert(prior[t] == w);
                                assert(prior.contains(w));
                                if !(labels@[w as int] != -1) {
                                    assert(before.contains(w));
                                    assert(after.contains(w));
                                }
                            } else {
                                assert(w == v);
                                assert(neighbors@[j as int]@[k as int] == v);
                                if labels@[v as int] == -1 {
                                    assert(after[after.len() - 1] == v);
                                    assert(after.contains(v));
                                }
                            }
                        }
                    }
                    k += 1;
                }
                assert(list@.take(k as int) =~= list@);
            }
        }
        assert(queue@.len() >= q_pop.len());
        assert(forall|t: int| 0 <= t < q_pop.len() ==> #[trigger] queue@[t] == q_pop[t]);
        proof {
            let pend = queue@.skip(head as int);
            assert forall|q: int|
                0 <= q < n && is_core(nb, min_samples, q) && #[trigger] labels@[q] != -1 implies forall|v: usize|
                    #[trigger] nb[q].contains(v) ==> (v as int) < n && (labels@[v as int] != -1
                        || pend.contains(v)) by {
                assert forall|v: usize| #[trigger] nb[q].contains(v) implies (v as int) < n && (labels@[v as int] != -1
                    || pend.contains(v)) by {
                    if q == j {
                    } else {
                        if pending_before.contains(v) && v != j {
                            let t = choose|t: int| 0 <= t < pending_before.len() && pending_before[t] == v;
                            assert(t > 0);
                            assert(pending_after[t - 1] == v);
                            assert(q_pop[head + t - 1] == v);
                            assert(queue@[head + t - 1] == v);
                            if labels@[v as int] == -1 {
                                assert(pend[t - 1] == v);
                            }
                        }
                    }
                }
            }
        }
    }
    proof {
        assert forall|u: int| 0 <= u < n implies (#[trigger] labels@[u]) as int == first_reach(
            nb,
            min_samples,
            seeds.push(s),
            u as usize,
            0,
        ) by {
            lemma_first_reach_push(nb, min_samples, seeds, s, u as usize, 0);
            if first_reach(nb, min_samples, seeds, u as usize, 0) == -1 && reaches(nb, min_samples, s, u as usize) {
                lemma_closed_set_holds_reach(nb, min_samples, labels@, s, u as usize);
            }
        }
    }
}

/// DBSCAN labelling from the neighbour list of every point (a point counts among its
/// own neighbours when it is listed). Points are taken in index order; an unvisited core
/// point starts a new cluster, grown breadth-first through core points. Returns the
/// labels (the cluster of the first seed that reaches each point, -1 for noise), the
/// core points in increasing order, and the number of clusters.
pub fn dbscan_from_neighbors(neighbors: &[Vec<usize>], min_samples: usize) -> (res: (
    Vec<i64>,
    Vec<usize>,
    usize,
))
    requires
        neighbors@.len() <= i64::MAX,
        forall|q: int, k: int|
            0 <= q < neighbors@.len() && is_core(lists_view(neighbors@), min_samples, q) && 0 <= k
                < neighbors@[q]@.len() ==> (#[trigger] neighbors@[q]@[k] as int) < neighbors@.len(),
    ensures
        res.0@.len() == neighbors@.len(),
        forall|u: int|
            0 <= u < neighbors@.len() ==> (#[trigger] res.0@[u]) as int == dbscan_label(
                lists_view(neighbors@),
                min_samples,
                u as usize,
            ),
        res.1@ == core_points_below(lists_view(neighbors@), min_samples, neighbors@.len()),
        res.2 == dbscan_seeds(lists_view(neighbors@), min_samples).len(),
{
    let ghost nb = lists_view(neighbors@);
    let n = neighbors.len();
    let mut labels: Vec<i64> = Vec::new();
    let mut visited: Vec<bool> = Vec::new();
    let mut t: usize = 0;
    while t < n
        invariant
            t <= n,
            labels@.len() == t,
            visited@.len() == t,
            forall|u: int| 0 <= u < t ==> #[trigger] labels@[u] == -1,
            forall|u: int| 0 <= u < t ==> !#[trigger] visited@[u],
        decreases n - t,
    {
        labels.push(-1);
        visited.push(false);
        t += 1;
    }
    let mut cluster_id: usize = 0;
    let ghost mut seeds: Seq<usize> = Seq::empty();
    let mut i: usize = 0;
    while i < n
        invariant
            nb == lists_view(neighbors@),
            n == neighbors@.len(),
            n <= i64::MAX,
            forall|q: int, k: int|
                0 <= q < n && is_core(nb, min_samples, q) && 0 <= k < neighbors@[q]@.len()
                    ==> (#[trigger] neighbors@[q]@[k] as int) < n,
            i <= n,
            labels@.len() == n,
            visited@.len() == n,
            seeds == seeds_below(nb, min_samples, i as nat),
            cluster_id == seeds.len(),
            cluster_id <= i,
            forall|u: int|
                0 <= u < n ==> (#[trigger] labels@[u]) as int == first_reach(nb, min_samples, seeds, u as usize, 0),
            forall|u: int| 0 <= u < n ==> (#[trigger] visited@[u] <==> (u < i || labels@[u] != -1)),
            forall|q: int| 0 <= q < i && is_core(nb, min_samples, q) ==> #[trigger] labels@[q] != -1,
            forall|q: int|
                0 <= q < n && is_core(nb, min_samples, q) && #[trigger] labels@[q] != -1 ==> forall|v: usize|
                    #[trigger] nb[q].contains(v) ==> (v as int) < n && labels@[v as int] != -1,
        decreases n - i,
    {
        proof {
            assert(nb[i as int] == neighbors@[i as int]@);
        }
        if visited[i] {
            assert(first_reach(nb, min_samples, seeds, i, 0) != -1);
            assert(seeds_below(nb, min_samples, (i + 1) as nat) == seeds);
        } else {
            visited.set(i, true);
            if neighbors[i].len() < min_samples {
                assert(seeds_below(nb, min_samples, (i + 1) as nat) == seeds);
            } else {
                assert(seeds_below(nb, min_samples, (i + 1) as nat) == seeds.push(i));
                expand_cluster(neighbors, min_samples, &mut labels, &mut visited, i, cluster_id, Ghost(seeds));
                proof {
                    seeds = seeds.push(i);
                }
                cluster_id += 1;
            }
        }
        i += 1;
    }
    let mut cores: Vec<usize> = Vec::new();
    let mut q: usize = 0;
    while q < n
        invariant
            nb == lists_view(neighbors@),
            n == neighbors@.len(),
            q <= n,
            cores@ == core_points_below(nb, min_samples, q as nat),
        decreases n - q,
    {
        assert(nb[q as int] == neighbors@[q as int]@);
        if neighbors[q].len() >= min_samples {
            cores.push(q);
        }
        q += 1;
    }
    (labels, cores, cluster_id)
}

proof fn lemma_first_reach_le(nbrs: Seq<Seq<usize>>, min_samples: usize, seeds: Seq<usize>, u: usize, c: int, t: int)
    requires
        0 <= c <= t < seeds.len(),
        reaches(nbrs, min_samples, seeds[t], u),
    ensures
        c <= first_reach(nbrs, min_samples, seeds, u, c) <= t,
    decreases t - c,
{
    if !reaches(nbrs, min_samples, seeds[c], u) {
        lemma_first_reach_le(nbrs, min_samples, seeds, u, c + 1, t);
    }
}

/// Later seed lists extend earlier ones, so an answer found among the seeds below `k`
/// stays the answer among the seeds below any `j >= k`.
proof fn lemma_seeds_keep_reach(nbrs: Seq<Seq<usize>>, min_samples: usize, k: nat, j: nat, u: usize)
    requires
        k <= j,
        first_reach(nbrs, min_samples, seeds_below(nbrs, min_samples, k), u, 0) != -1,
    ensures
        first_reach(nbrs, min_samples, seeds_below(nbrs, min_samples, j), u, 0) == first_reach(
            nbrs,
            min_samples,
            seeds_below(nbrs, min_samples, k),
            u,
            0,
        ),
    decreases j - k,
{
    if j > k {
        lemma_seeds_keep_reach(nbrs, min_samples, k, (j - 1) as nat, u);
        let prev = seeds_below(nbrs, min_samples, (j - 1) as nat);
        lemma_first_reach_push(nbrs, min_samples, prev, (j - 1) as usize, u, 0);
    }
}

/// Every core point is reached by a seed no later than itself, within the seeds below
/// it plus itself.
proof fn lemma_core_point_reached(nbrs: Seq<Seq<usize>>, min_samples: usize, q: usize)
    requires
        (q as int) < nbrs.len(),
        is_core(nbrs, min_samples, q as int),
    ensures
        first_reach(nbrs, min_samples, seeds_below(nbrs, min_samples, (q + 1) as nat), q, 0) != -1,
{
    let prev = seeds_below(nbrs, min_samples, q as nat);
    lemma_reaches_self(nbrs, min_samples, q);
    if first_reach(nbrs, min_samples, prev, q, 0) == -1 {
        lemma_first_reach_push(nbrs, min_samples, prev, q, q, 0);
    }
}

/// Law: every core point belongs to a cluster.
pub proof fn lemma_dbscan_core_points_clustered(nbrs: Seq<Seq<usize>>, min_samples: usize, q: usize)
    requires
        (q as int) < nbrs.len(),
        is_core(nbrs, min_samples, q as int),
    ensures
        0 <= dbscan_label(nbrs, min_samples, q) < dbscan_seeds(nbrs, min_samples).len(),
{
    lemma_core_point_reached(nbrs, min_samples, q);
    lemma_seeds_keep_reach(nbrs, min_samples, (q + 1) as nat, nbrs.len(), q);
    lemma_first_reach_range(nbrs, min_samples, dbscan_seeds(nbrs, min_samples), q, 0);
}

/// Law: labels are -1 (noise) or a cluster number below the number of clusters, and a
/// point in cluster `c` is reached from the seed of cluster `c`.
pub proof fn lemma_dbscan_label_range(nbrs: Seq<Seq<usize>>, min_samples: usize, u: usize)
    ensures
        -1 <= dbscan_label(nbrs, min_samples, u) < dbscan_seeds(nbrs, min_samples).len(),
        dbscan_label(nbrs, min_samples, u) >= 0 ==> reaches(
            nbrs,
            min_samples,
            dbscan_seeds(nbrs, min_samples)[dbscan_label(nbrs, min_samples, u)],
            u,
        ),
{
    lemma_first_reach_range(nbrs, min_samples, dbscan_seeds(nbrs, min_samples), u, 0);
}

/// Law: a noise point is not a core point and is not a listed neighbour of any core point.
pub proof fn lemma_dbscan_noise(nbrs: Seq<Seq<usize>>, min_samples: usize, u: usize)
    requires
        (u as int) < nbrs.len(),
        nbrs.len() <= usize::MAX,
        dbscan_label(nbrs, min_samples, u) == -1,
    ensures
        !is_core(nbrs, min_samples, u as int),
        forall|q: int|
            0 <= q < nbrs.len() && is_core(nbrs, min_samples, q) ==> !#[trigger] nbrs[q].contains(u),
{
    let seeds = dbscan_seeds(nbrs, min_samples);
    if is_core(nbrs, min_samples, u as int) {
        lemma_dbscan_core_points_clustered(nbrs, min_samples, u);
    }
    assert forall|q: int| 0 <= q < nbrs.len() && is_core(nbrs, min_samples, q) implies !#[trigger] nbrs[q].contains(u) by {
        if nbrs[q].contains(u) {
            lemma_dbscan_core_points_clustered(nbrs, min_samples, q as usize);
            lemma_dbscan_label_range(nbrs, min_samples, q as usize);
            let c = dbscan_label(nbrs, min_samples, q as usize);
            lemma_reaches_step(nbrs, min_samples, seeds[c], q as usize, u);
            lemma_first_reach_le(nbrs, min_samples, seeds, u, 0, c);
        }
    }
}

/// Law: two core points that list each other are in the same cluster.
pub proof fn lemma_dbscan_linked_cores_share_cluster(
    nbrs: Seq<Seq<usize>>,
    min_samples: usize,
    q1: usize,
    q2: usize,
)
    requires
        (q1 as int) < nbrs.len(),
        (q2 as int) < nbrs.len(),
        is_core(nbrs, min_samples, q1 as int),
        is_core(nbrs, min_samples, q2 as int),
        nbrs[q1 as int].contains(q2),
        nbrs[q2 as int].contains(q1),
    ensures
        dbscan_label(nbrs, min_samples, q1) == dbscan_label(nbrs, min_samples, q2),
{
    let seeds = dbscan_seeds(nbrs, min_samples);
    lemma_dbscan_core_points_clustered(nbrs, min_samples, q1);
    lemma_dbscan_core_points_clustered(nbrs, min_samples, q2);
    lemma_dbscan_label_range(nbrs, min_samples, q1);
    lemma_dbscan_label_range(nbrs, min_samples, q2);
    let c1 = dbscan_label(nbrs, min_samples, q1);
    let c2 = dbscan_label(nbrs, min_samples, q2);
    lemma_reaches_step(nbrs, min_samples, seeds[c1], q1, q2);
    lemma_reaches_step(nbrs, min_samples, seeds[c2], q2, q1);
    lemma_first_reach_le(nbrs, min_samples, seeds, q2, 0, c1);
    lemma_first_reach_le(nbrs, min_samples, seeds, q1, 0, c2);
}

/// Law: the seeds are increasing core points, and the seed of cluster `c` is labelled `c`.
pub proof fn lemma_dbscan_seed_labels(nbrs: Seq<Seq<usize>>, min_samples: usize, c: int)
    requires
        0 <= c < dbscan_seeds(nbrs, min_samples).len(),
        nbrs.len() <= usize::MAX,
    ensures
        is_core(nbrs, min_samples, dbscan_seeds(nbrs, min_samples)[c] as int),
        (dbscan_seeds(nbrs, min_samples)[c] as int) < nbrs.len(),
        dbscan_label(nbrs, min_samples, dbscan_seeds(nbrs, min_samples)[c]) == c,
        forall|d: int| 0 <= d < c ==> dbscan_seeds(nbrs, min_samples)[d] < #[trigger] dbscan_seeds(
            nbrs,
            min_samples,
        )[c],
{
    lemma_seed_facts(nbrs, min_samples, nbrs.len(), c);
    let s = dbscan_seeds(nbrs, min_samples)[c];
    lemma_seeds_keep_reach(nbrs, min_samples, (s + 1) as nat, nbrs.len(), s);
}

/// Seed `c` of the points below `k`: a core point below `k`, above every earlier seed,
/// whose own answer among the seeds below it plus itself is `c`.
proof fn lemma_seed_facts(nbrs: Seq<Seq<usize>>, min_samples: usize, k: nat, c: int)
    requires
        0 <= c < seeds_below(nbrs, min_samples, k).len(),
        k <= nbrs.len(),
        nbrs.len() <= usize::MAX,
    ensures
        ({
            let s = seeds_below(nbrs, min_samples, k)[c];
            &&& (s as int) < k
            &&& is_core(nbrs, min_samples, s as int)
            &&& seeds_below(nbrs, min_samples, (s + 1) as nat).len() == c + 1
            &&& seeds_below(nbrs, min_samples, (s + 1) as nat)[c] == s
            &&& first_reach(nbrs, min_samples, seeds_below(nbrs, min_samples, (s + 1) as nat), s, 0) == c
            &&& forall|d: int| 0 <= d < c ==> seeds_below(nbrs, min_samples, k)[d] < s
        }),
    decreases k,
{
    let cur = seeds_below(nbrs, min_samples, k);
    let prev = seeds_below(nbrs, min_samples, (k - 1) as nat);
    let q = (k - 1) as usize;
    if c < prev.len() {
        assert(cur[c] == prev[c]);
        lemma_seed_facts(nbrs, min_samples, (k - 1) as nat, c);
        assert forall|d: int| 0 <= d < c implies cur[d] < cur[c] by {
            assert(cur[d] == prev[d]);
        }
    } else {
        assert(cur == prev.push(q));
        assert(cur[c] == q);
        assert(((q + 1) as nat) == k);
        lemma_reaches_self(nbrs, min_samples, q);
        lemma_first_reach_push(nbrs, min_samples, prev, q, q, 0);
        assert forall|d: int| 0 <= d < c implies cur[d] < cur[c] by {
            assert(cur[d] == prev[d]);
            lemma_seed_below_bound(nbrs, min_samples, (k - 1) as nat, d);
        }
    }
}

proof fn lemma_seed_below_bound(nbrs: Seq<Seq<usize>>, min_samples: usize, k: nat, d: int)
    requires
        0 <= d < seeds_below(nbrs, min_samples, k).len(),
    ensures
        (seeds_below(nbrs, min_samples, k)[d] as int) < k,
    decreases k,
{
    let prev = seeds_below(nbrs, min_samples, (k - 1) as nat);
    if d < prev.len() {
        assert(seeds_below(nbrs, min_samples, k)[d] == prev[d]);
        lemma_seed_below_bound(nbrs, min_samples, (k - 1) as nat, d);
    }
}

/// Law: the core points below `k` are exactly the core points, listed in increasing order.
pub proof fn lemma_core_points_below(nbrs: Seq<Seq<usize>>, min_samples: usize, k: nat)
    requires
        k <= usize::MAX + 1,
    ensures
        forall|i: int, j: int|
            0 <= i < j < core_points_below(nbrs, min_samples, k).len() ==> core_points_below(
                nbrs,
                min_samples,
                k,
            )[i] < core_points_below(nbrs, min_samples, k)[j],
        forall|q: usize|
            #[trigger] core_points_below(nbrs, min_samples, k).contains(q) <==> ((q as int) < k
                && is_core(nbrs, min_samples, q as int)),
    decreases k,
{
    if k > 0 {
        lemma_core_points_below(nbrs, min_samples, (k - 1) as nat);
        let prev = core_points_below(nbrs, min_samples, (k - 1) as nat);
        let cur = core_points_below(nbrs, min_samples, k);
        let last = (k - 1) as usize;
        assert forall|q: usize| #[trigger] cur.contains(q) <==> ((q as int) < k && is_core(nbrs, min_samples, q as int)) by {
            if is_core(nbrs, min_samples, k - 1) {
                assert(cur == prev.push(last));
                if cur.contains(q) && q != last {
                    let t = choose|t: int| 0 <= t < cur.len() && cur[t] == q;
                    assert(prev[t] == q);
                }
                if prev.contains(q) {
                    let t = choose|t: int| 0 <= t < prev.len() && prev[t] == q;
                    assert(cur[t] == q);
                }
                if q == last {
                    assert(cur[prev.len() as int] == q);
                }
            }
        }
        assert forall|i: int, j: int| 0 <= i < j < cur.len() implies cur[i] < cur[j] by {
            if is_core(nbrs, min_samples, k - 1) && j == cur.len() - 1 {
                assert(prev.contains(cur[i])) by {
                    assert(prev[i] == cur[i]);
                }
            }
        }
    }
}

} // verus!
