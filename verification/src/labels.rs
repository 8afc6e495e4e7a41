//! Cluster label helpers: round-robin labels and the cluster-purity match count.
use vstd::prelude::*;

verus! {

/// Number of `i < m` with `labels[i] == pred` and `truth[i] == t`.
pub open spec fn count_pair(labels: Seq<usize>, truth: Seq<usize>, pred: usize, t: usize, m: int) -> nat
    decreases m,
{
    if m <= 0 {
        0
    } else {
        count_pair(labels, truth, pred, t, m - 1) + if labels[m - 1] == pred && truth[m - 1] == t {
            1nat
        } else {
            0nat
        }
    }
}

/// Number of `i < m` with `labels[i] == pred`.
pub open spec fn count_label(labels: Seq<usize>, pred: usize, m: int) -> nat
    decreases m,
{
    if m <= 0 {
        0
    } else {
        count_label(labels, pred, m - 1) + if labels[m - 1] == pred {
            1nat
        } else {
            0nat
        }
    }
}

/// Number of `i < m` with `labels[i] < k`.
pub open spec fn count_below(labels: Seq<usize>, k: int, m: int) -> nat
    decreases m,
{
    if m <= 0 {
        0
    } else {
        count_below(labels, k, m - 1) + if (labels[m - 1] as int) < k {
            1nat
        } else {
            0nat
        }
    }
}

/// The largest `count_pair(labels, truth, pred, t, m)` over `t < k` (0 when `k == 0`).
pub open spec fn best_match(labels: Seq<usize>, truth: Seq<usize>, pred: usize, k: int, m: int) -> nat
    decreases k,
{
    if k <= 0 {
        0
    } else {
        let prev = best_match(labels, truth, pred, k - 1, m);
        let c = count_pair(labels, truth, pred, (k - 1) as usize, m);
        if c > prev {
            c
        } else {
            prev
        }
    }
}

/// Sum of `best_match(.., pred, k, m)` over `pred < q`.
pub open spec fn purity_sum(labels: Seq<usize>, truth: Seq<usize>, q: int, k: int, m: int) -> nat
    decreases q,
{
    if q <= 0 {
        0
    } else {
        purity_sum(labels, truth, q - 1, k, m) + best_match(labels, truth, (q - 1) as usize, k, m)
    }
}

proof fn lemma_count_pair_le(labels: Seq<usize>, truth: Seq<usize>, pred: usize, t: usize, m: int)
    ensures
        count_pair(labels, truth, pred, t, m) <= count_label(labels, pred, m),
    decreases m,
{
    if m > 0 {
        lemma_count_pair_le(labels, truth, pred, t, m - 1);
    }
}

proof fn lemma_best_match_le(labels: Seq<usize>, truth: Seq<usize>, pred: usize, k: int, m: int)
    ensures
        best_match(labels, truth, pred, k, m) <= count_label(labels, pred, m),
    decreases k,
{
    if k > 0 {
        lemma_best_match_le(labels, truth, pred, k - 1, m);
        lemma_count_pair_le(labels, truth, pred, (k - 1) as usize, m);
    }
}

proof fn lemma_count_below_step(labels: Seq<usize>, p: usize, m: int)
    ensures
        count_below(labels, p + 1, m) == count_below(labels, p as int, m) + count_label(labels, p, m),
    decreases m,
{
    if m > 0 {
        lemma_count_below_step(labels, p, m - 1);
    }
}

proof fn lemma_count_below_le(labels: Seq<usize>, k: int, m: int)
    ensures
        count_below(labels, k, m) <= if m > 0 { m } else { 0 },
    decreases m,
{
    if m > 0 {
        lemma_count_below_le(labels, k, m - 1);
    }
}

/// The labels `i % k` for `i` in `0..n`, assigning points to clusters round-robin.
pub fn make_labels(n: usize, k: usize) -> (labels: Vec<usize>)
    requires
        n == 0 || k > 0,
    ensures
        labels@.len() == n,
        forall|i: int| 0 <= i < n ==> #[trigger] labels@[i] == i % (k as int),
{
    let mut labels: Vec<usize> = Vec::new();
    let mut i: usize = 0;
    while i < n
        invariant
            i <= n,
            i < n ==> k > 0,
            labels@.len() == i,
            forall|j: int| 0 <= j < i ==> #[trigger] labels@[j] == j % (k as int),
        decreases n - i,
    {
        labels.push(i % k);
        i += 1;
    }
    labels
}

/// The number of points a best matching of clusters to classes gets right: for every
/// predicted cluster `pred < k`, the size of its largest overlap with one true class
/// `t < k`, summed over the clusters (the numerator of cluster purity).
pub fn purity_matches(labels: &[usize], truth: &[usize], k: usize) -> (hits: usize)
    requires
        forall|i: int|
            0 <= i < labels@.len() && #[trigger] labels@[i] < k ==> i < truth@.len() && truth@[i] < k,
    ensures
        hits == purity_sum(labels@, truth@, k as int, k as int, labels@.len() as int),
        hits <= labels@.len(),
        forall|p: int, t: int|
            0 <= p < k && 0 <= t < k ==> #[trigger] count_pair(
                labels@,
                truth@,
                p as usize,
                t as usize,
                labels@.len() as int,
            ) <= hits,
{
    let n = labels.len();
    let mut correct: usize = 0;
    let mut pred: usize = 0;
    while pred < k
        invariant
            n == labels@.len(),
            forall|i: int|
                0 <= i < labels@.len() && #[trigger] labels@[i] < k ==> i < truth@.len() && truth@[i] < k,
            pred <= k,
            correct == purity_sum(labels@, truth@, pred as int, k as int, n as int),
            correct <= count_below(labels@, pred as int, n as int),
        decreases k - pred,
    {
        let mut counts: Vec<usize> = Vec::new();
        let mut t: usize = 0;
        while t < k
            invariant
                t <= k,
                counts@.len() == t,
                forall|u: int| 0 <= u < t ==> #[trigger] counts@[u] == 0,
            decreases k - t,
        {
            counts.push(0);
            t += 1;
        }
        let mut i: usize = 0;
        while i < n
            invariant
                n == labels@.len(),
                forall|j: int|
                    0 <= j < labels@.len() && #[trigger] labels@[j] < k ==> j < truth@.len() && truth@[j] < k,
                pred < k,
                i <= n,
                counts@.len() == k,
                forall|u: int|
                    0 <= u < k ==> #[trigger] counts@[u] == count_pair(labels@, truth@, pred, u as usize, i as int),
                forall|u: int| 0 <= u < k ==> #[trigger] counts@[u] <= i,
            decreases n - i,
        {
            if labels[i] == pred {
                let t = truth[i];
                counts.set(t, counts[t] + 1);
            }
            i += 1;
        }
        let mut best: usize = 0;
        let mut t: usize = 0;
        while t < k
            invariant
                t <= k,
                counts@.len() == k,
                forall|u: int|
                    0 <= u < k ==> #[trigger] counts@[u] == count_pair(labels@, truth@, pred, u as usize, n as int),
                best == best_match(labels@, truth@, pred, t as int, n as int),
            decreases k - t,
        {
            if counts[t] > best {
                best = counts[t];
            }
            t += 1;
        }
        proof {
            lemma_best_match_le(labels@, truth@, pred, k as int, n as int);
            lemma_count_below_step(labels@, pred, n as int);
            lemma_count_below_le(labels@, (pred + 1) as int, n as int);
        }
        correct = correct + best;
        pred += 1;
    }
    proof {
        lemma_count_below_le(labels@, k as int, n as int);
        lemma_purity_sum_covers_overlaps(labels@, truth@, k as int, k as int, n as int);
    }
    correct
}

/// Law: the best match of cluster `pred` is the largest overlap with one class: at least
/// the overlap with every class `t < k`, and equal to one of them (0 when `k <= 0`).
pub proof fn lemma_best_match_is_largest_overlap(
    labels: Seq<usize>,
    truth: Seq<usize>,
    pred: usize,
    k: int,
    m: int,
)
    ensures
        forall|t: int|
            0 <= t < k ==> #[trigger] count_pair(labels, truth, pred, t as usize, m) <= best_match(
                labels,
                truth,
                pred,
                k,
                m,
            ),
        k <= 0 ==> best_match(labels, truth, pred, k, m) == 0,
        k > 0 ==> exists|t: int|
            0 <= t < k && best_match(labels, truth, pred, k, m) == #[trigger] count_pair(
                labels,
                truth,
                pred,
                t as usize,
                m,
            ),
    decreases k,
{
    if k > 0 {
        lemma_best_match_is_largest_overlap(labels, truth, pred, k - 1, m);
        let b = best_match(labels, truth, pred, k, m);
        let c = count_pair(labels, truth, pred, (k - 1) as usize, m);
        if k - 1 > 0 {
            let t0 = choose|t: int|
                0 <= t < k - 1 && best_match(labels, truth, pred, k - 1, m) == #[trigger] count_pair(
                    labels,
                    truth,
                    pred,
                    t as usize,
                    m,
                );
            if b != c {
                assert(b == count_pair(labels, truth, pred, t0 as usize, m));
            }
        } else {
            assert(b == c);
        }
        assert(b == count_pair(labels, truth, pred, (k - 1) as usize, m) || b == best_match(
            labels,
            truth,
            pred,
            k - 1,
            m,
        ));
        assert forall|t: int| 0 <= t < k implies #[trigger] count_pair(labels, truth, pred, t as usize, m)
            <= best_match(labels, truth, pred, k, m) by {
            if t < k - 1 {
                assert(count_pair(labels, truth, pred, t as usize, m) <= best_match(
                    labels,
                    truth,
                    pred,
                    k - 1,
                    m,
                ));
            }
        }
    }
}

/// Law: the purity numerator is at least every single overlap: for each cluster `p < q`
/// and class `t < k`, the points of cluster `p` in class `t` are counted.
pub proof fn lemma_purity_sum_covers_overlaps(labels: Seq<usize>, truth: Seq<usize>, q: int, k: int, m: int)
    ensures
        forall|p: int, t: int|
            0 <= p < q && 0 <= t < k ==> #[trigger] count_pair(labels, truth, p as usize, t as usize, m)
                <= purity_sum(labels, truth, q, k, m),
    decreases q,
{
    if q > 0 {
        lemma_purity_sum_covers_overlaps(labels, truth, q - 1, k, m);
        lemma_best_match_is_largest_overlap(labels, truth, (q - 1) as usize, k, m);
        assert forall|p: int, t: int| 0 <= p < q && 0 <= t < k implies #[trigger] count_pair(
            labels,
            truth,
            p as usize,
            t as usize,
            m,
        ) <= purity_sum(labels, truth, q, k, m) by {
            if p == q - 1 {
                assert(count_pair(labels, truth, (q - 1) as usize, t as usize, m) <= best_match(
                    labels,
                    truth,
                    (q - 1) as usize,
                    k,
                    m,
                ));
            }
        }
    }
}

/// The positions `i < m` of points labelled `pred` whose true class is `t`.
pub open spec fn pair_positions(labels: Seq<usize>, truth: Seq<usize>, pred: usize, t: usize, m: int) -> Set<
    int,
> {
    Set::new(|i: int| 0 <= i < m && labels[i] == pred && truth[i] == t)
}

/// Law: `count_pair` is the number of positions below `m` whose label is `pred` and
/// whose true class is `t`.
pub proof fn lemma_count_pair_counts_positions(
    labels: Seq<usize>,
    truth: Seq<usize>,
    pred: usize,
    t: usize,
    m: int,
)
    requires
        0 <= m,
    ensures
        pair_positions(labels, truth, pred, t, m).finite(),
        count_pair(labels, truth, pred, t, m) == pair_positions(labels, truth, pred, t, m).len(),
    decreases m,
{
    let cur = pair_positions(labels, truth, pred, t, m);
    if m == 0 {
        assert(cur =~= Set::<int>::empty());
    } else {
        lemma_count_pair_counts_positions(labels, truth, pred, t, m - 1);
        let prev = pair_positions(labels, truth, pred, t, m - 1);
        if labels[m - 1] == pred && truth[m - 1] == t {
            assert(cur =~= prev.insert(m - 1));
            assert(!prev.contains(m - 1));
        } else {
            assert(cur =~= prev);
        }
    }
}

} // verus!
