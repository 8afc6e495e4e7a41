//! Maximal-clique enumeration (Bron–Kerbosch without pivoting) over adjacency lists.
use std::collections::HashSet;
use vstd::prelude::*;

verus! {

broadcast use vstd::std_specs::hash::group_hash_axioms;

/// The sequences held by a vector of vectors.
pub open spec fn nested_view(v: Seq<Vec<usize>>) -> Seq<Seq<usize>> {
    v.map_values(|l: Vec<usize>| l@)
}

/// The entries of `s`, in order, that also occur in `keep`.
pub open spec fn common_with(s: Seq<usize>, keep: Seq<usize>) -> Seq<usize>
    decreases s.len(),
{
    if s.len() == 0 {
        s
    } else {
        let rest = common_with(s.drop_last(), keep);
        if keep.contains(s.last()) {
            rest.push(s.last())
        } else {
            rest
        }
    }
}

/// The entries of `s`, in order, that differ from `v`.
pub open spec fn without(s: Seq<usize>, v: usize) -> Seq<usize>
    decreases s.len(),
{
    if s.len() == 0 {
        s
    } else {
        let rest = without(s.drop_last(), v);
        if s.last() != v {
            rest.push(s.last())
        } else {
            rest
        }
    }
}

/// The cliques reported by one Bron–Kerbosch call with current clique `r`,
/// candidates `p` and excluded vertices `x`, in the order they are reported.
pub open spec fn bk_cliques(
    adj: Seq<Seq<usize>>,
    r: Seq<usize>,
    p: Seq<usize>,
    x: Seq<usize>,
) -> Seq<Seq<usize>>
    decreases p.len(), 1nat,
{
    if p.len() == 0 && x.len() == 0 {
        if r.len() > 0 {
            seq![r]
        } else {
            seq![]
        }
    } else {
        bk_branches(adj, r, p, p, x, p.len())
    }
}

/// The cliques reported by the branches still `pending` in a Bron–Kerbosch call, where
/// `p` and `x` are the candidate and excluded lists at that point and `bound` is the
/// number of candidates the call started with (every branch has fewer).
pub open spec fn bk_branches(
    adj: Seq<Seq<usize>>,
    r: Seq<usize>,
    pending: Seq<usize>,
    p: Seq<usize>,
    x: Seq<usize>,
    bound: nat,
) -> Seq<Seq<usize>>
    decreases bound, 0nat, pending.len(),
{
    if pending.len() == 0 {
        seq![]
    } else {
        let v = pending[0];
        let np = common_with(p, adj[v as int]);
        let nx = common_with(x, adj[v as int]);
        let here = if np.len() < bound {
            bk_cliques(adj, r.push(v), np, nx)
        } else {
            seq![]
        };
        here + bk_branches(adj, r, pending.drop_first(), without(p, v), x.push(v), bound)
    }
}

pub proof fn lemma_common_with_contains(s: Seq<usize>, keep: Seq<usize>, u: usize)
    ensures
        common_with(s, keep).contains(u) <==> (s.contains(u) && keep.contains(u)),
    decreases s.len(),
{
    if s.len() > 0 {
        lemma_common_with_contains(s.drop_last(), keep, u);
        assert(s =~= s.drop_last().push(s.last()));
        let rest = common_with(s.drop_last(), keep);
        if s.contains(u) && keep.contains(u) {
            let k = choose|k: int| 0 <= k < s.len() && s[k] == u;
            if k < s.len() - 1 {
                assert(s.drop_last()[k] == u);
            }
        }
        if keep.contains(s.last()) {
            assert(rest.push(s.last()).last() == s.last());
            if rest.push(s.last()).contains(u) && u != s.last() {
                let k = choose|k: int| 0 <= k < rest.len() + 1 && rest.push(s.last())[k] == u;
                assert(rest[k] == u);
            }
            if rest.contains(u) {
                let k = choose|k: int| 0 <= k < rest.len() && rest[k] == u;
                assert(rest.push(s.last())[k] == u);
            }
        }
        if s.drop_last().contains(u) {
            let k = choose|k: int| 0 <= k < s.len() - 1 && s.drop_last()[k] == u;
            assert(s[k] == u);
        }
    }
}

pub proof fn lemma_common_with_len(s: Seq<usize>, keep: Seq<usize>)
    ensures
        common_with(s, keep).len() <= s.len(),
    decreases s.len(),
{
    if s.len() > 0 {
        lemma_common_with_len(s.drop_last(), keep);
    }
}

/// Dropping an entry that is not kept shortens the list.
pub proof fn lemma_common_with_len_lt(s: Seq<usize>, keep: Seq<usize>, i: int)
    requires
        0 <= i < s.len(),
        !keep.contains(s[i]),
    ensures
        common_with(s, keep).len() < s.len(),
    decreases s.len(),
{
    if i == s.len() - 1 {
        lemma_common_with_len(s.drop_last(), keep);
    } else {
        assert(s.drop_last()[i] == s[i]);
        lemma_common_with_len_lt(s.drop_last(), keep, i);
    }
}

pub proof fn lemma_without_contains(s: Seq<usize>, v: usize, u: usize)
    ensures
        without(s, v).contains(u) <==> (s.contains(u) && u != v),
    decreases s.len(),
{
    if s.len() > 0 {
        lemma_without_contains(s.drop_last(), v, u);
        let rest = without(s.drop_last(), v);
        if s.contains(u) && u != v {
            let k = choose|k: int| 0 <= k < s.len() && s[k] == u;
            if k < s.len() - 1 {
                assert(s.drop_last()[k] == u);
            }
        }
        if s.last() != v {
            assert(rest.push(s.last()).last() == s.last());
            if rest.push(s.last()).contains(u) && u != s.last() {
                let k = choose|k: int| 0 <= k < rest.len() + 1 && rest.push(s.last())[k] == u;
                assert(rest[k] == u);
            }
            if rest.contains(u) {
                let k = choose|k: int| 0 <= k < rest.len() && rest[k] == u;
                assert(rest.push(s.last())[k] == u);
            }
        }
        if s.drop_last().contains(u) {
            let k = choose|k: int| 0 <= k < s.len() - 1 && s.drop_last()[k] == u;
            assert(s[k] == u);
        }
    }
}

pub proof fn lemma_without_len(s: Seq<usize>, v: usize)
    ensures
        without(s, v).len() <= s.len(),
        s.contains(v) ==> without(s, v).len() < s.len(),
    decreases s.len(),
{
    if s.len() > 0 {
        lemma_without_len(s.drop_last(), v);
        if s.contains(v) && s.last() != v {
            let k = choose|k: int| 0 <= k < s.len() && s[k] == v;
            assert(s.drop_last()[k] == v);
        }
    }
}

/// `u` and `v` are joined by an edge listed at `u`.
pub open spec fn adjacent(adj: Seq<Seq<usize>>, u: usize, v: usize) -> bool {
    adj[u as int].contains(v)
}

/// A simple undirected graph on the vertices `0..adj.len()`: every listed neighbour is a
/// vertex, every edge is listed at both ends, and no vertex lists itself.
pub open spec fn is_simple_graph(adj: Seq<Seq<usize>>) -> bool {
    forall|u: usize, v: usize|
        (u as int) < adj.len() && #[trigger] adj[u as int].contains(v) ==> (v as int) < adj.len()
            && adj[v as int].contains(u) && u != v
}

/// Every entry of `c` is a vertex adjacent to `u`.
pub open spec fn joined_to_all(adj: Seq<Seq<usize>>, c: Seq<usize>, u: usize) -> bool {
    forall|i: int| 0 <= i < c.len() ==> #[trigger] adjacent(adj, c[i], u)
}

/// The entries of `c` are vertices, pairwise adjacent.
pub open spec fn is_clique(adj: Seq<Seq<usize>>, c: Seq<usize>) -> bool {
    &&& forall|i: int| 0 <= i < c.len() ==> (#[trigger] c[i] as int) < adj.len()
    &&& forall|i: int, j: int|
        0 <= i < c.len() && 0 <= j < c.len() && i != j ==> #[trigger] adjacent(adj, c[i], c[j])
}

/// A non-empty clique that no further vertex joins.
pub open spec fn is_maximal_clique(adj: Seq<Seq<usize>>, c: Seq<usize>) -> bool {
    &&& c.len() > 0
    &&& is_clique(adj, c)
    &&& forall|u: usize|
        (u as int) < adj.len() && !c.contains(u) ==> !#[trigger] joined_to_all(adj, c, u)
}

pub open spec fn strictly_increasing(c: Seq<usize>) -> bool {
    forall|i: int, j: int| 0 <= i < j < c.len() ==> c[i] < c[j]
}

/// `a` comes strictly before `b` in lexicographic order, at a position both reach.
pub open spec fn lex_less(a: Seq<usize>, b: Seq<usize>) -> bool {
    exists|k: int|
        0 <= k < a.len() && k < b.len() && a[k] < b[k] && forall|j: int|
            0 <= j < k ==> a[j] == b[j]
}

/// The vertices `0..n` in increasing order.
pub open spec fn vertex_range(n: nat) -> Seq<usize> {
    Seq::new(n, |i: int| i as usize)
}

/// The state of a Bron–Kerbosch call on a simple graph: `r` is an increasing clique,
/// `p` increasing candidates above `r` that join all of `r`, `x` excluded vertices that
/// join all of `r`, and every vertex that joins all of `r` is a candidate or excluded.
pub open spec fn bk_state(adj: Seq<Seq<usize>>, r: Seq<usize>, p: Seq<usize>, x: Seq<usize>) -> bool {
    &&& is_simple_graph(adj)
    &&& strictly_increasing(r)
    &&& is_clique(adj, r)
    &&& strictly_increasing(p)
    &&& forall|i: int|
        0 <= i < p.len() ==> (#[trigger] p[i] as int) < adj.len() && joined_to_all(adj, r, p[i])
            && (r.len() > 0 ==> r.last() < p[i])
    &&& forall|i: int|
        0 <= i < x.len() ==> (#[trigger] x[i] as int) < adj.len() && joined_to_all(adj, r, x[i])
            && !r.contains(x[i])
    &&& forall|u: usize|
        (u as int) < adj.len() && !r.contains(u) && #[trigger] joined_to_all(adj, r, u)
            ==> p.contains(u) || x.contains(u)
}

/// What one call reports: increasing maximal cliques that extend `r`, in increasing
/// lexicographic order.
pub open spec fn bk_sound(adj: Seq<Seq<usize>>, r: Seq<usize>, res: Seq<Seq<usize>>) -> bool {
    &&& forall|i: int|
        0 <= i < res.len() ==> is_maximal_clique(adj, #[trigger] res[i]) && strictly_increasing(
            res[i],
        ) && res[i].len() >= r.len() && res[i].take(r.len() as int) == r
    &&& forall|i: int, j: int| 0 <= i < j < res.len() ==> lex_less(res[i], res[j])
}

/// Every increasing maximal clique that extends `r` by candidates in `p` and avoids `x`
/// is reported.
pub open spec fn bk_complete(
    adj: Seq<Seq<usize>>,
    r: Seq<usize>,
    p: Seq<usize>,
    x: Seq<usize>,
    res: Seq<Seq<usize>>,
) -> bool {
    forall|c: Seq<usize>|
        #![trigger is_maximal_clique(adj, c)]
        is_maximal_clique(adj, c) && strictly_increasing(c) && c.len() >= r.len() && c.take(
            r.len() as int,
        ) == r && (forall|k: int| r.len() <= k < c.len() ==> p.contains(#[trigger] c[k])) && (
        forall|k: int| 0 <= k < c.len() ==> !x.contains(#[trigger] c[k])) ==> res.contains(c)
}

proof fn lemma_common_with_increasing(s: Seq<usize>, keep: Seq<usize>)
    requires
        strictly_increasing(s),
    ensures
        strictly_increasing(common_with(s, keep)),
        forall|i: int|
            0 <= i < common_with(s, keep).len() ==> s.contains(#[trigger] common_with(s, keep)[i]),
    decreases s.len(),
{
    if s.len() > 0 {
        let d = s.drop_last();
        assert(strictly_increasing(d));
        lemma_common_with_increasing(d, keep);
        let rest = common_with(d, keep);
        assert forall|i: int| 0 <= i < rest.len() implies rest[i] < s.last() by {
            let k = choose|k: int| 0 <= k < d.len() && d[k] == rest[i];
        }
        assert forall|i: int| 0 <= i < rest.len() implies s.contains(rest[i]) by {
            let k = choose|k: int| 0 <= k < d.len() && d[k] == rest[i];
            assert(s[k] == rest[i]);
        }
        if keep.contains(s.last()) {
            let out = rest.push(s.last());
            assert forall|i: int| 0 <= i < out.len() implies s.contains(out[i]) by {
                if i < rest.len() {
                    assert(out[i] == rest[i]);
                } else {
                    assert(s[s.len() - 1] == out[i]);
                }
            }
        }
    }
}

proof fn lemma_without_first(s: Seq<usize>)
    requires
        s.len() > 0,
        strictly_increasing(s),
    ensures
        without(s, s[0]) == s.drop_first(),
    decreases s.len(),
{
    if s.len() == 1 {
        assert(s.drop_last().len() == 0);
        assert(without(s.drop_last(), s[0]).len() == 0);
        assert(s.last() == s[0]);
        assert(without(s, s[0]) == without(s.drop_last(), s[0]));
        assert(without(s, s[0]) =~= s.drop_first());
    } else {
        let d = s.drop_last();
        assert(strictly_increasing(d));
        lemma_without_first(d);
        assert(d[0] == s[0]);
        assert(s.last() != s[0]);
        assert(without(s, s[0]) == without(d, s[0]).push(s.last()));
        assert(d.drop_first().push(s.last()) =~= s.drop_first());
    }
}

/// A clique that is a vertex extension of `r` by `v`.
proof fn lemma_push_clique(adj: Seq<Seq<usize>>, r: Seq<usize>, v: usize)
    requires
        is_simple_graph(adj),
        is_clique(adj, r),
        (v as int) < adj.len(),
        joined_to_all(adj, r, v),
    ensures
        is_clique(adj, r.push(v)),
{
    let c = r.push(v);
    assert forall|i: int, j: int|
        0 <= i < c.len() && 0 <= j < c.len() && i != j implies #[trigger] adjacent(adj, c[i], c[j]) by {
        if i < r.len() && j < r.len() {
            assert(adjacent(adj, r[i], r[j]));
        } else if i < r.len() {
            assert(adjacent(adj, r[i], v));
        } else {
            assert(adjacent(adj, r[j], v));
            assert(adj[r[j] as int].contains(v));
        }
    }
}

/// Law: from any state of a Bron–Kerbosch call on a simple graph (`bk_state`), the call
/// reports increasing maximal cliques that extend `r`, in increasing lexicographic order
/// (`bk_sound`), and reports every increasing maximal clique that extends `r` by
/// candidates of `p` and avoids `x` (`bk_complete`).
pub proof fn lemma_bk_cliques_law(adj: Seq<Seq<usize>>, r: Seq<usize>, p: Seq<usize>, x: Seq<usize>)
    requires
        bk_state(adj, r, p, x),
    ensures
        bk_sound(adj, r, bk_cliques(adj, r, p, x)),
        bk_complete(adj, r, p, x, bk_cliques(adj, r, p, x)),
    decreases p.len(), 1nat,
{
    let res = bk_cliques(adj, r, p, x);
    if p.len() == 0 && x.len() == 0 {
        if r.len() > 0 {
            assert forall|u: usize|
                (u as int) < adj.len() && !r.contains(u) implies !#[trigger] joined_to_all(adj, r, u) by {
                if joined_to_all(adj, r, u) {
                    assert(p.contains(u) || x.contains(u));
                }
            }
            assert(is_maximal_clique(adj, r));
            assert(r.take(r.len() as int) =~= r);
            assert(res =~= seq![r]);
        }
        assert forall|c: Seq<usize>|
            is_maximal_clique(adj, c) && strictly_increasing(c) && c.len() >= r.len() && c.take(
                r.len() as int,
            ) == r && (forall|k: int| r.len() <= k < c.len() ==> p.contains(#[trigger] c[k])) && (
            forall|k: int| 0 <= k < c.len() ==> !x.contains(#[trigger] c[k])) implies res.contains(
            c,
        ) by {
            if c.len() > r.len() {
                assert(p.contains(c[r.len() as int]));
            }
            assert(c =~= r);
            assert(res[0] == r);
        }
    } else if p.len() == 0 {
        assert(res =~= Seq::<Seq<usize>>::empty());
        assert forall|c: Seq<usize>|
            is_maximal_clique(adj, c) && strictly_increasing(c) && c.len() >= r.len() && c.take(
                r.len() as int,
            ) == r && (forall|k: int| r.len() <= k < c.len() ==> p.contains(#[trigger] c[k])) && (
            forall|k: int| 0 <= k < c.len() ==> !x.contains(#[trigger] c[k])) implies res.contains(
            c,
        ) by {
            if c.len() > r.len() {
                assert(p.contains(c[r.len() as int]));
            }
            assert(c =~= r);
            let u = x[0];
            assert(joined_to_all(adj, r, u));
            assert(!r.contains(u));
        }
    } else {
        lemma_bk_branches_law(adj, r, p, x, p.len());
    }
}

proof fn lemma_bk_branches_law(
    adj: Seq<Seq<usize>>,
    r: Seq<usize>,
    p: Seq<usize>,
    x: Seq<usize>,
    bound: nat,
)
    requires
        bk_state(adj, r, p, x),
        p.len() <= bound,
        p.len() > 0 || x.len() > 0,
    ensures
        bk_sound(adj, r, bk_branches(adj, r, p, p, x, bound)),
        bk_complete(adj, r, p, x, bk_branches(adj, r, p, p, x, bound)),
        forall|i: int|
            0 <= i < bk_branches(adj, r, p, p, x, bound).len() ==> (
            #[trigger] bk_branches(adj, r, p, p, x, bound)[i]).len() > r.len() && p.contains(
                bk_branches(adj, r, p, p, x, bound)[i][r.len() as int],
            ),
    decreases p.len(), 0nat,
{
    let res = bk_branches(adj, r, p, p, x, bound);
    if p.len() == 0 {
        assert(res =~= Seq::<Seq<usize>>::empty());
        assert forall|c: Seq<usize>|
            is_maximal_clique(adj, c) && strictly_increasing(c) && c.len() >= r.len() && c.take(
                r.len() as int,
            ) == r && (forall|k: int| r.len() <= k < c.len() ==> p.contains(#[trigger] c[k])) && (
            forall|k: int| 0 <= k < c.len() ==> !x.contains(#[trigger] c[k])) implies res.contains(
            c,
        ) by {
            if c.len() > r.len() {
                assert(p.contains(c[r.len() as int]));
            }
            assert(c =~= r);
            let u = x[0];
            assert(joined_to_all(adj, r, u));
        }
        return;
    }
    let v = p[0];
    let av = adj[v as int];
    let np = common_with(p, av);
    let nx = common_with(x, av);
    let rv = r.push(v);
    let rest_p = p.drop_first();
    let xv = x.push(v);
    assert(!av.contains(v));
    lemma_common_with_len_lt(p, av, 0);
    lemma_without_first(p);
    let here = bk_cliques(adj, rv, np, nx);
    let rest = bk_branches(adj, r, rest_p, rest_p, xv, bound);
    assert(res == here + rest);
    // the branch on `v`
    lemma_common_with_increasing(p, av);
    lemma_push_clique(adj, r, v);
    assert(strictly_increasing(rv));
    assert forall|i: int| 0 <= i < np.len() implies (#[trigger] np[i] as int) < adj.len()
        && joined_to_all(adj, rv, np[i]) && (rv.len() > 0 ==> rv.last() < np[i]) by {
        let u = np[i];
        lemma_common_with_contains(p, av, u);
        let k = choose|k: int| 0 <= k < p.len() && p[k] == u;
        assert(u != v);
        assert(k != 0);
        assert forall|j: int| 0 <= j < rv.len() implies #[trigger] adjacent(adj, rv[j], u) by {
            if j < r.len() {
                assert(joined_to_all(adj, r, p[k]));
                assert(adjacent(adj, r[j], u));
            }
        }
    }
    assert forall|i: int| 0 <= i < nx.len() implies (#[trigger] nx[i] as int) < adj.len()
        && joined_to_all(adj, rv, nx[i]) && !rv.contains(nx[i]) by {
        let u = nx[i];
        assert(nx.contains(u));
        lemma_common_with_contains(x, av, u);
        let k = choose|k: int| 0 <= k < x.len() && x[k] == u;
        assert(joined_to_all(adj, r, x[k]));
        assert(!r.contains(x[k]));
        assert forall|j: int| 0 <= j < rv.len() implies #[trigger] adjacent(adj, rv[j], u) by {
            if j < r.len() {
                assert(adjacent(adj, r[j], u));
            }
        }
        if rv.contains(u) {
            let j = choose|j: int| 0 <= j < rv.len() && rv[j] == u;
            if j < r.len() {
                assert(r.contains(u));
            }
        }
    }
    assert forall|u: usize|
        (u as int) < adj.len() && !rv.contains(u) && #[trigger] joined_to_all(adj, rv, u) implies np.contains(u)
        || nx.contains(u) by {
        assert(!r.contains(u)) by {
            if r.contains(u) {
                let j = choose|j: int| 0 <= j < r.len() && r[j] == u;
                assert(rv[j] == u);
            }
        }
        assert(joined_to_all(adj, r, u)) by {
            assert forall|j: int| 0 <= j < r.len() implies #[trigger] adjacent(adj, r[j], u) by {
                assert(rv[j] == r[j]);
                assert(adjacent(adj, rv[j], u));
            }
        }
        assert(adjacent(adj, rv[r.len() as int], u));
        lemma_common_with_contains(p, av, u);
        lemma_common_with_contains(x, av, u);
    }
    assert(bk_state(adj, rv, np, nx));
    lemma_bk_cliques_law(adj, rv, np, nx);
    // the remaining branches
    assert(strictly_increasing(rest_p));
    assert forall|i: int| 0 <= i < rest_p.len() implies (#[trigger] rest_p[i] as int) < adj.len()
        && joined_to_all(adj, r, rest_p[i]) && (r.len() > 0 ==> r.last() < rest_p[i]) by {
        assert(rest_p[i] == p[i + 1]);
    }
    assert(!r.contains(v)) by {
        if r.contains(v) {
            let j = choose|j: int| 0 <= j < r.len() && r[j] == v;
            assert(r[j] <= r.last());
        }
    }
    assert forall|i: int| 0 <= i < xv.len() implies (#[trigger] xv[i] as int) < adj.len()
        && joined_to_all(adj, r, xv[i]) && !r.contains(xv[i]) by {
        if i < x.len() {
            assert(xv[i] == x[i]);
        }
    }
    assert forall|u: usize|
        (u as int) < adj.len() && !r.contains(u) && #[trigger] joined_to_all(adj, r, u) implies rest_p.contains(u)
        || xv.contains(u) by {
        if p.contains(u) {
            let k = choose|k: int| 0 <= k < p.len() && p[k] == u;
            if k == 0 {
                assert(xv[x.len() as int] == u);
            } else {
                assert(rest_p[k - 1] == u);
            }
        } else {
            assert(x.contains(u));
            let k = choose|k: int| 0 <= k < x.len() && x[k] == u;
            assert(xv[k] == u);
        }
    }
    assert(bk_state(adj, r, rest_p, xv));
    lemma_bk_branches_law(adj, r, rest_p, xv, bound);
    // soundness of the concatenation
    assert forall|i: int| 0 <= i < res.len() implies is_maximal_clique(adj, #[trigger] res[i])
        && strictly_increasing(res[i]) && res[i].len() >= r.len() && res[i].take(r.len() as int)
        == r && res[i].len() > r.len() && p.contains(res[i][r.len() as int]) by {
        if i < here.len() {
            let c = here[i];
            assert(res[i] == c);
            assert(c.take(rv.len() as int) == rv);
            assert(c.take(r.len() as int) =~= r) by {
                assert forall|j: int| 0 <= j < r.len() implies c[j] == r[j] by {
                    assert(c.take(rv.len() as int)[j] == rv[j]);
                }
            }
            assert(c[r.len() as int] == v) by {
                assert(c.take(rv.len() as int)[r.len() as int] == rv[r.len() as int]);
            }
        } else {
            let c = rest[i - here.len()];
            assert(res[i] == c);
            let w = c[r.len() as int];
            assert(rest_p.contains(w));
            let k = choose|k: int| 0 <= k < rest_p.len() && rest_p[k] == w;
            assert(p[k + 1] == w);
        }
    }
    assert forall|i: int, j: int| 0 <= i < j < res.len() implies lex_less(res[i], res[j]) by {
        if j < here.len() {
            assert(res[i] == here[i] && res[j] == here[j]);
        } else if i >= here.len() {
            assert(res[i] == rest[i - here.len()] && res[j] == rest[j - here.len()]);
        } else {
            let a = here[i];
            let b = rest[j - here.len()];
            assert(res[i] == a && res[j] == b);
            let k = r.len() as int;
            assert(a.take(rv.len() as int) == rv);
            assert(a[k] == v) by {
                assert(a.take(rv.len() as int)[k] == rv[k]);
            }
            let w = b[k];
            assert(rest_p.contains(w));
            let m = choose|m: int| 0 <= m < rest_p.len() && rest_p[m] == w;
            assert(p[m + 1] == w);
            assert(v < w);
            assert forall|j2: int| 0 <= j2 < k implies a[j2] == b[j2] by {
                assert(a.take(rv.len() as int)[j2] == rv[j2]);
                assert(b.take(k)[j2] == r[j2]);
            }
            assert(lex_less(a, b));
        }
    }
    // completeness
    assert forall|c: Seq<usize>|
        is_maximal_clique(adj, c) && strictly_increasing(c) && c.len() >= r.len() && c.take(
            r.len() as int,
        ) == r && (forall|k: int| r.len() <= k < c.len() ==> p.contains(#[trigger] c[k])) && (
        forall|k: int| 0 <= k < c.len() ==> !x.contains(#[trigger] c[k])) implies res.contains(c) by {
        let n = r.len() as int;
        if c.len() == r.len() {
            assert(c =~= r);
            assert(joined_to_all(adj, r, v));
            assert(!r.contains(v));
            assert(false);
        }
        let w = c[n];
        assert(p.contains(w));
        assert forall|j: int| 0 <= j < n implies c[j] == r[j] by {
            assert(c.take(n)[j] == r[j]);
        }
        if w == v {
            assert(c.take(rv.len() as int) =~= rv);
            assert forall|k: int| rv.len() <= k < c.len() implies np.contains(#[trigger] c[k]) by {
                assert(p.contains(c[k]));
                assert(adjacent(adj, c[n], c[k]));
                lemma_common_with_contains(p, av, c[k]);
            }
            assert forall|k: int| 0 <= k < c.len() implies !nx.contains(#[trigger] c[k]) by {
                lemma_common_with_contains(x, av, c[k]);
            }
            assert(is_maximal_clique(adj, c));
            assert(here.contains(c));
            let m = choose|m: int| 0 <= m < here.len() && here[m] == c;
            assert(res[m] == c);
        } else {
            let m0 = choose|m: int| 0 <= m < p.len() && p[m] == w;
            assert(m0 != 0);
            assert(v < w);
            assert forall|k: int| 0 <= k < c.len() implies c[k] != v by {
                if k < n {
                    assert(c[k] == r[k]);
                    assert(r[k] <= r.last());
                } else if k > n {
                    assert(c[n] < c[k]);
                }
            }
            assert forall|k: int| r.len() <= k < c.len() implies rest_p.contains(#[trigger] c[k]) by {
                assert(p.contains(c[k]));
                let m = choose|m: int| 0 <= m < p.len() && p[m] == c[k];
                assert(m != 0);
                assert(rest_p[m - 1] == c[k]);
            }
            assert forall|k: int| 0 <= k < c.len() implies !xv.contains(#[trigger] c[k]) by {
                if xv.contains(c[k]) {
                    let m = choose|m: int| 0 <= m < xv.len() && xv[m] == c[k];
                    if m < x.len() {
                        assert(x[m] == c[k]);
                    }
                }
            }
            assert(is_maximal_clique(adj, c));
            assert(rest.contains(c));
            let m = choose|m: int| 0 <= m < rest.len() && rest[m] == c;
            assert(res[here.len() + m] == c);
        }
    }
}

/// `res` lists every maximal clique of `adj` exactly once, each as an increasing list
/// of vertices, the lists in increasing lexicographic order.
pub open spec fn lists_all_maximal_cliques(adj: Seq<Seq<usize>>, res: Seq<Seq<usize>>) -> bool {
    &&& forall|i: int|
        0 <= i < res.len() ==> is_maximal_clique(adj, #[trigger] res[i]) && strictly_increasing(
            res[i],
        )
    &&& forall|c: Seq<usize>|
        is_maximal_clique(adj, c) && strictly_increasing(c) ==> #[trigger] res.contains(c)
    &&& forall|i: int, j: int| 0 <= i < j < res.len() ==> lex_less(res[i], res[j])
}

/// Law: on a simple graph, Bron–Kerbosch started from the empty clique with every vertex
/// as a candidate and nothing excluded reports exactly the maximal cliques, each as an
/// increasing list, in increasing lexicographic order (hence each once).
pub proof fn lemma_bron_kerbosch_lists_maximal_cliques(adj: Seq<Seq<usize>>)
    requires
        is_simple_graph(adj),
        adj.len() <= usize::MAX,
    ensures
        lists_all_maximal_cliques(
            adj,
            bk_cliques(adj, Seq::empty(), vertex_range(adj.len()), Seq::empty()),
        ),
{
    let r = Seq::<usize>::empty();
    let p = vertex_range(adj.len());
    let x = Seq::<usize>::empty();
    assert forall|u: usize|
        (u as int) < adj.len() && !r.contains(u) && #[trigger] joined_to_all(adj, r, u) implies p.contains(u)
        || x.contains(u) by {
        assert(p[u as int] == u);
    }
    assert forall|i: int| 0 <= i < p.len() implies (#[trigger] p[i] as int) < adj.len()
        && joined_to_all(adj, r, p[i]) && (r.len() > 0 ==> r.last() < p[i]) by {}
    assert(strictly_increasing(p));
    assert(is_clique(adj, r));
    assert(bk_state(adj, r, p, x));
    lemma_bk_cliques_law(adj, r, p, x);
    let res = bk_cliques(adj, r, p, x);
    assert forall|c: Seq<usize>|
        is_maximal_clique(adj, c) && strictly_increasing(c) implies #[trigger] res.contains(c) by {
        assert(c.take(0) =~= r);
        assert forall|k: int| r.len() <= k < c.len() implies p.contains(#[trigger] c[k]) by {
            assert(p[c[k] as int] == c[k]);
        }
    }
}

/// Copies the entries of `v`.
fn copy_list(v: &Vec<usize>) -> (c: Vec<usize>)
    ensures
        c@ == v@,
{
    let mut c: Vec<usize> = Vec::new();
    let mut i: usize = 0;
    while i < v.len()
        invariant
            i <= v.len(),
            c@ == v@.take(i as int),
        decreases v.len() - i,
    {
        c.push(v[i]);
        i += 1;
        assert(c@ =~= v@.take(i as int));
    }
    assert(v@.take(v.len() as int) =~= v@);
    c
}

/// The entries of `s`, in order, that belong to `set`.
fn keep_members(s: &Vec<usize>, set: &HashSet<usize>, Ghost(keep): Ghost<Seq<usize>>) -> (out: Vec<usize>)
    requires
        forall|u: usize| set@.contains(u) <==> keep.contains(u),
    ensures
        out@ == common_with(s@, keep),
{
    let mut out: Vec<usize> = Vec::new();
    let mut i: usize = 0;
    while i < s.len()
        invariant
            i <= s.len(),
            forall|u: usize| set@.contains(u) <==> keep.contains(u),
            out@ == common_with(s@.take(i as int), keep),
        decreases s.len() - i,
    {
        let u = s[i];
        assert(s@.take(i + 1).drop_last() =~= s@.take(i as int));
        if set.contains(&u) {
            out.push(u);
        }
        i += 1;
    }
    assert(s@.take(s.len() as int) =~= s@);
    out
}

/// The entries of `s`, in order, other than `v`.
fn drop_value(s: &Vec<usize>, v: usize) -> (out: Vec<usize>)
    ensures
        out@ == without(s@, v),
{
    let mut out: Vec<usize> = Vec::new();
    let mut i: usize = 0;
    while i < s.len()
        invariant
            i <= s.len(),
            out@ == without(s@.take(i as int), v),
        decreases s.len() - i,
    {
        let u = s[i];
        assert(s@.take(i + 1).drop_last() =~= s@.take(i as int));
        if u != v {
            out.push(u);
        }
        i += 1;
    }
    assert(s@.take(s.len() as int) =~= s@);
    out
}

/// The neighbours listed in `list`, as a hash set.
fn neighbor_set(list: &Vec<usize>) -> (set: HashSet<usize>)
    ensures
        forall|u: usize| set@.contains(u) <==> list@.contains(u),
{
    let mut set: HashSet<usize> = HashSet::new();
    let mut i: usize = 0;
    while i < list.len()
        invariant
            i <= list.len(),
            forall|u: usize| set@.contains(u) <==> list@.take(i as int).contains(u),
        decreases list.len() - i,
    {
        let u = list[i];
        set.insert(u);
        i += 1;
        let ghost prev = list@.take(i - 1);
        let ghost cur = list@.take(i as int);
        assert forall|w: usize| set@.contains(w) <==> cur.contains(w) by {
            if cur.contains(w) {
                let k = choose|k: int| 0 <= k < cur.len() && cur[k] == w;
                if k < i - 1 {
                    assert(prev[k] == w);
                }
            }
            if prev.contains(w) {
                let k = choose|k: int| 0 <= k < prev.len() && prev[k] == w;
                assert(cur[k] == w);
            }
            if w == u {
                assert(cur[i - 1] == w);
            }
        }
    }
    assert(list@.take(list.len() as int) =~= list@);
    set
}

/// Bron–Kerbosch without pivoting: appends to `cliques` every clique reported from the
/// current clique `r`, candidates `p` and excluded vertices `x` (exactly `bk_cliques`).
/// On return `r` is unchanged, `p` is empty and `x` has had the old `p` appended. From a
/// well-formed state on a simple graph the reported cliques are exactly the increasing
/// maximal cliques extending `r` by candidates and avoiding `x`, in lexicographic order.
pub fn bron_kerbosch(
    adj: &[Vec<usize>],
    r: &mut Vec<usize>,
    p: &mut Vec<usize>,
    x: &mut Vec<usize>,
    cliques: &mut Vec<Vec<usize>>,
)
    requires
        forall|i: int|
            0 <= i < old(p)@.len() ==> (#[trigger] old(p)@[i] as int) < adj@.len()
                && !adj@[old(p)@[i] as int]@.contains(old(p)@[i]),
    ensures
        nested_view(final(cliques)@) == nested_view(old(cliques)@) + bk_cliques(
            nested_view(adj@),
            old(r)@,
            old(p)@,
            old(x)@,
        ),
        final(r)@ == old(r)@,
        final(p)@ == Seq::<usize>::empty(),
        final(x)@ == old(x)@ + old(p)@,
        bk_state(nested_view(adj@), old(r)@, old(p)@, old(x)@) ==> bk_sound(
            nested_view(adj@),
            old(r)@,
            bk_cliques(nested_view(adj@), old(r)@, old(p)@, old(x)@),
        ) && bk_complete(
            nested_view(adj@),
            old(r)@,
            old(p)@,
            old(x)@,
            bk_cliques(nested_view(adj@), old(r)@, old(p)@, old(x)@),
        ),
    decreases old(p)@.len(),
{
    proof {
        if bk_state(nested_view(adj@), r@, p@, x@) {
            lemma_bk_cliques_law(nested_view(adj@), r@, p@, x@);
        }
    }
    let ghost a = nested_view(adj@);
    let ghost c0 = nested_view(cliques@);
    let ghost r0 = r@;
    let ghost p0 = p@;
    let ghost x0 = x@;
    if p.len() == 0 && x.len() == 0 {
        if r.len() > 0 {
            let c = copy_list(r);
            cliques.push(c);
            assert(nested_view(cliques@) =~= c0 + seq![r0]);
        } else {
            assert(nested_view(cliques@) =~= c0 + Seq::<Seq<usize>>::empty());
        }
        assert(x@ =~= x0 + p0);
        return;
    }
    let p_copy = copy_list(p);
    let mut i: usize = 0;
    assert(p0.skip(0) =~= p0);
    assert(x@ =~= x0 + p0.take(0));
    while i < p_copy.len()
        invariant
            i <= p_copy.len(),
            p_copy@ == p0,
            p0 == old(p)@,
            a == nested_view(adj@),
            r@ == r0,
            x@ == x0 + p0.take(i as int),
            i == 0 ==> p@ == p0,
            i > 0 ==> p@.len() < p0.len(),
            forall|u: usize| #[trigger] p@.contains(u) ==> p0.contains(u) && !p0.take(i as int).contains(u),
            forall|k: int|
                0 <= k < p0.len() ==> (#[trigger] p0[k] as int) < adj@.len() && !adj@[p0[k] as int]@.contains(p0[k]),
            nested_view(cliques@) + bk_branches(a, r0, p0.skip(i as int), p@, x@, p0.len())
                == c0 + bk_cliques(a, r0, p0, x0),
        decreases p_copy.len() - i,
    {
        let v = p_copy[i];
        let ghost pi = p@;
        let ghost xi = x@;
        let ghost ci = nested_view(cliques@);
        assert(a[v as int] == adj@[v as int]@);
        r.push(v);
        let neighbors = neighbor_set(&adj[v]);
        let mut new_p = keep_members(p, &neighbors, Ghost(a[v as int]));
        let mut new_x = keep_members(x, &neighbors, Ghost(a[v as int]));
        proof {
            lemma_common_with_len(pi, a[v as int]);
            if i == 0 {
                assert(p0[0] == v);
                lemma_common_with_len_lt(pi, a[v as int], 0);
            }
            assert forall|k: int| 0 <= k < new_p@.len() implies (#[trigger] new_p@[k] as int) < adj@.len()
                && !adj@[new_p@[k] as int]@.contains(new_p@[k]) by {
                let u = new_p@[k];
                assert(new_p@.contains(u));
                lemma_common_with_contains(pi, a[v as int], u);
                assert(p0.contains(u));
            }
            assert(new_p@.len() < p0.len());
            assert(p0.skip(i as int)[0] == v);
            assert(p0.skip(i as int).drop_first() =~= p0.skip(i + 1));
        }
        bron_kerbosch(adj, r, &mut new_p, &mut new_x, cliques);
        r.pop();
        assert(r@ =~= r0);
        let rest = drop_value(p, v);
        *p = rest;
        x.push(v);
        proof {
            let np = common_with(pi, a[v as int]);
            let nx = common_with(xi, a[v as int]);
            let here = bk_cliques(a, r0.push(v), np, nx);
            let tail = bk_branches(a, r0, p0.skip(i + 1), without(pi, v), xi.push(v), p0.len());
            assert(bk_branches(a, r0, p0.skip(i as int), pi, xi, p0.len()) == here + tail);
            assert(nested_view(cliques@) == ci + here);
            assert(ci + (here + tail) =~= (ci + here) + tail);
            assert(x@ =~= x0 + p0.take(i + 1));
            lemma_without_len(pi, v);
            if i == 0 {
                assert(pi.contains(v)) by { assert(pi[0] == v); }
            }
            let ghost seen = p0.take(i + 1);
            let ghost seen_before = p0.take(i as int);
            assert forall|u: usize| #[trigger] p@.contains(u) implies p0.contains(u) && !seen.contains(u) by {
                lemma_without_contains(pi, v, u);
                if seen.contains(u) {
                    let k = choose|k: int| 0 <= k < seen.len() && seen[k] == u;
                    if k < i {
                        assert(seen_before[k] == u);
                    }
                }
            }
        }
        i += 1;
    }
    proof {
        assert(p0.skip(i as int).len() == 0);
        assert(c0 + bk_cliques(a, r0, p0, x0) == nested_view(cliques@) + Seq::<Seq<usize>>::empty());
        assert(nested_view(cliques@) + Seq::<Seq<usize>>::empty() =~= nested_view(cliques@));
        assert(p0.take(i as int) =~= p0);
        if p@.len() > 0 {
            let u = p@[0];
            assert(p@.contains(u));
        }
        assert(p@ =~= Seq::<usize>::empty());
    }
}

/// The rows held by a boolean matrix.
pub open spec fn mask_view(w: Seq<Vec<bool>>) -> Seq<Seq<bool>> {
    w.map_values(|row: Vec<bool>| row@)
}

/// `u` and `v` are distinct and their pair is marked in `within`, which is read with
/// the smaller index as the row.
pub open spec fn marked(within: Seq<Seq<bool>>, u: int, v: int) -> bool {
    u != v && if u < v {
        within[u][v]
    } else {
        within[v][u]
    }
}

/// The vertices below `m` whose pair with `u` is marked, in increasing order.
pub open spec fn marked_below(within: Seq<Seq<bool>>, u: int, m: nat) -> Seq<usize>
    decreases m,
{
    if m == 0 {
        Seq::empty()
    } else {
        let prev = marked_below(within, u, (m - 1) as nat);
        if marked(within, u, m - 1) {
            prev.push((m - 1) as usize)
        } else {
            prev
        }
    }
}

/// The graph on `0..n` whose edges are the marked pairs.
pub open spec fn proximity_graph(within: Seq<Seq<bool>>, n: nat) -> Seq<Seq<usize>> {
    Seq::new(n, |u: int| marked_below(within, u, n))
}

pub proof fn lemma_marked_below_contains(within: Seq<Seq<bool>>, u: int, m: nat, v: usize)
    requires
        m <= usize::MAX + 1,
    ensures
        marked_below(within, u, m).contains(v) <==> (v < m && marked(within, u, v as int)),
    decreases m,
{
    if m > 0 {
        lemma_marked_below_contains(within, u, (m - 1) as nat, v);
        let prev = marked_below(within, u, (m - 1) as nat);
        if marked(within, u, m - 1) {
            let cur = prev.push((m - 1) as usize);
            if cur.contains(v) && v != (m - 1) as usize {
                let k = choose|k: int| 0 <= k < cur.len() && cur[k] == v;
                assert(prev[k] == v);
            }
            if prev.contains(v) {
                let k = choose|k: int| 0 <= k < prev.len() && prev[k] == v;
                assert(cur[k] == v);
            }
            if v == (m - 1) as usize {
                assert(cur[prev.len() as int] == v);
            }
        }
    }
}

/// The marked pairs of any matrix form a simple graph.
pub proof fn lemma_proximity_graph_is_simple(within: Seq<Seq<bool>>, n: nat)
    requires
        n <= usize::MAX,
    ensures
        is_simple_graph(proximity_graph(within, n)),
        forall|u: usize, v: usize|
            (u as int) < n ==> (#[trigger] proximity_graph(within, n)[u as int].contains(v) <==> (v
                < n && marked(within, u as int, v as int))),
{
    let g = proximity_graph(within, n);
    assert forall|u: usize, v: usize|
        (u as int) < n implies (#[trigger] g[u as int].contains(v) <==> (v < n && marked(
            within,
            u as int,
            v as int,
        ))) by {
        lemma_marked_below_contains(within, u as int, n, v);
    }
    assert forall|u: usize, v: usize|
        (u as int) < g.len() && #[trigger] g[u as int].contains(v) implies (v as int) < g.len()
        && g[v as int].contains(u) && u != v by {
        lemma_marked_below_contains(within, u as int, n, v);
        lemma_marked_below_contains(within, v as int, n, u);
    }
}

/// Builds the adjacency lists of the marked pairs: for each `i < j` with `within[i][j]`,
/// `j` is appended to the list of `i` and `i` to the list of `j`.
pub fn proximity_adjacency(within: &Vec<Vec<bool>>) -> (adj: Vec<Vec<usize>>)
    requires
        forall|i: int| 0 <= i < within@.len() ==> #[trigger] within@[i]@.len() >= within@.len(),
    ensures
        nested_view(adj@) == proximity_graph(mask_view(within@), within@.len()),
{
    let ghost w = mask_view(within@);
    let n = within.len();
    let mut adj: Vec<Vec<usize>> = Vec::new();
    let mut k: usize = 0;
    while k < n
        invariant
            k <= n,
            adj@.len() == k,
            forall|u: int| 0 <= u < k ==> (#[trigger] adj@[u])@ == Seq::<usize>::empty(),
        decreases n - k,
    {
        adj.push(Vec::new());
        k += 1;
    }
    let mut i: usize = 0;
    while i < n
        invariant
            n == within@.len(),
            w == mask_view(within@),
            forall|t: int| 0 <= t < within@.len() ==> #[trigger] within@[t]@.len() >= within@.len(),
            i <= n,
            adj@.len() == n,
            forall|u: int| 0 <= u < i ==> (#[trigger] adj@[u])@ == marked_below(w, u, n as nat),
            forall|u: int| i <= u < n ==> (#[trigger] adj@[u])@ == marked_below(w, u, i as nat),
        decreases n - i,
    {
        assert(adj@[i as int]@ == marked_below(w, i as int, (i + 1) as nat));
        let mut j: usize = i + 1;
        while j < n
            invariant
                n == within@.len(),
                w == mask_view(within@),
                forall|t: int| 0 <= t < within@.len() ==> #[trigger] within@[t]@.len() >= within@.len(),
                i < n,
                i + 1 <= j <= n,
                adj@.len() == n,
                forall|u: int| 0 <= u < i ==> (#[trigger] adj@[u])@ == marked_below(w, u, n as nat),
                adj@[i as int]@ == marked_below(w, i as int, j as nat),
                forall|u: int| i < u < j ==> (#[trigger] adj@[u])@ == marked_below(w, u, (i + 1) as nat),
                forall|u: int| j <= u < n ==> (#[trigger] adj@[u])@ == marked_below(w, u, i as nat),
            decreases n - j,
        {
            assert(w[i as int] == within@[i as int]@);
            if within[i][j] {
                adj[i].push(j);
                adj[j].push(i);
            }
            j += 1;
        }
        i += 1;
    }
    assert(nested_view(adj@) =~= proximity_graph(w, n as nat));
    adj
}

/// The maximal cliques of the graph of marked pairs, each as an increasing list of
/// vertices, the lists in increasing lexicographic order: the adjacency of
/// `proximity_adjacency` enumerated by `bron_kerbosch` from the empty clique with every
/// vertex as a candidate.
pub fn cliques_within(within: &Vec<Vec<bool>>) -> (cliques: Vec<Vec<usize>>)
    requires
        forall|i: int| 0 <= i < within@.len() ==> #[trigger] within@[i]@.len() >= within@.len(),
    ensures
        nested_view(cliques@) == bk_cliques(
            proximity_graph(mask_view(within@), within@.len()),
            Seq::empty(),
            vertex_range(within@.len()),
            Seq::empty(),
        ),
        lists_all_maximal_cliques(proximity_graph(mask_view(within@), within@.len()), nested_view(cliques@)),
{
    let ghost g = proximity_graph(mask_view(within@), within@.len());
    let n = within.len();
    let adj = proximity_adjacency(within);
    proof {
        lemma_proximity_graph_is_simple(mask_view(within@), n as nat);
        lemma_bron_kerbosch_lists_maximal_cliques(g);
    }
    let mut r: Vec<usize> = Vec::new();
    let mut p: Vec<usize> = Vec::new();
    let mut v: usize = 0;
    while v < n
        invariant
            v <= n,
            p@ == vertex_range(v as nat),
        decreases n - v,
    {
        p.push(v);
        v += 1;
        assert(p@ =~= vertex_range(v as nat));
    }
    let mut x: Vec<usize> = Vec::new();
    let mut cliques: Vec<Vec<usize>> = Vec::new();
    proof {
        assert forall|i: int| 0 <= i < p@.len() implies (#[trigger] p@[i] as int) < adj@.len()
            && !adj@[p@[i] as int]@.contains(p@[i]) by {
            assert(nested_view(adj@)[p@[i] as int] == adj@[p@[i] as int]@);
        }
    }
    bron_kerbosch(adj.as_slice(), &mut r, &mut p, &mut x, &mut cliques);
    assert(nested_view(Seq::<Vec<usize>>::empty()) =~= Seq::<Seq<usize>>::empty());
    assert(nested_view(cliques@) =~= bk_cliques(g, Seq::empty(), vertex_range(n as nat), Seq::empty()));
    cliques
}

} // verus!
