//! The starting medoids of k-medoids: indices drawn from a 64-bit linear congruential
//! generator with increment 1, each index the first draw not already taken. The
//! generator has full period, so every draw sequence reaches a free index.
use vstd::arithmetic::div_mod::{
    lemma_add_mod_noop, lemma_mod_add_multiples_vanish, lemma_mod_bound, lemma_mod_mod,
    lemma_mod_multiples_vanish, lemma_mul_mod_noop_right, lemma_small_mod,
};
use vstd::prelude::*;

verus! {

/// Multiplier of the seeding generator.
pub const MEDOID_MULTIPLIER: u64 = 6364136223846793005u64;

/// `2^e`.
pub open spec fn two_pow(e: nat) -> int
    decreases e,
{
    if e == 0 {
        1
    } else {
        2 * two_pow((e - 1) as nat)
    }
}

/// The generator state after `s`: `s * MEDOID_MULTIPLIER + 1` modulo 2^64.
pub open spec fn medoid_step(s: u64) -> u64 {
    ((s as int * MEDOID_MULTIPLIER as int + 1) % 0x1_0000_0000_0000_0000int) as u64
}

/// The state `j` steps after `s`.
pub open spec fn step_iter(s: u64, j: nat) -> u64
    decreases j,
{
    if j == 0 {
        s
    } else {
        medoid_step(step_iter(s, (j - 1) as nat))
    }
}

/// Multiplier of `2^k` steps taken at once.
pub open spec fn aff_a(k: nat) -> int
    decreases k,
{
    if k == 0 {
        MEDOID_MULTIPLIER as int
    } else {
        aff_a((k - 1) as nat) * aff_a((k - 1) as nat)
    }
}

/// Increment of `2^k` steps taken at once.
pub open spec fn aff_c(k: nat) -> int
    decreases k,
{
    if k == 0 {
        1
    } else {
        aff_c((k - 1) as nat) * (aff_a((k - 1) as nat) + 1)
    }
}

proof fn lemma_two_pow_pos(e: nat)
    ensures
        two_pow(e) > 0,
    decreases e,
{
    if e > 0 {
        lemma_two_pow_pos((e - 1) as nat);
    }
}

proof fn lemma_two_pow_add(a: nat, b: nat)
    ensures
        two_pow(a + b) == two_pow(a) * two_pow(b),
    decreases a,
{
    if a > 0 {
        lemma_two_pow_add((a - 1) as nat, b);
        assert(two_pow(a + b) == 2 * two_pow((a - 1 + b) as nat));
        let x = two_pow((a - 1) as nat);
        let y = two_pow(b);
        assert(2 * (x * y) == (2 * x) * y) by (nonlinear_arith);
    }
}

proof fn lemma_two_pow_64()
    ensures
        two_pow(64) == 0x1_0000_0000_0000_0000int,
{
    reveal_with_fuel(two_pow, 17);
    assert(two_pow(16) == 0x1_0000int);
    lemma_two_pow_add(16, 16);
    lemma_two_pow_add(32, 32);
    assert(two_pow(32) == 0x1_0000_0000int);
    assert(two_pow(64) == two_pow(32) * two_pow(32));
    assert(0x1_0000_0000int * 0x1_0000_0000int == 0x1_0000_0000_0000_0000int) by (nonlinear_arith);
}

proof fn lemma_iter_add(s: u64, i: nat, j: nat)
    ensures
        step_iter(s, i + j) == step_iter(step_iter(s, i), j),
    decreases j,
{
    if j > 0 {
        lemma_iter_add(s, i, (j - 1) as nat);
        assert(step_iter(s, i + j) == medoid_step(step_iter(s, (i + j - 1) as nat)));
    }
}

/// `2^k` steps of the generator are one affine map modulo 2^64.
proof fn lemma_aff_iter(s: u64, k: nat)
    ensures
        step_iter(s, two_pow(k) as nat) as int == (aff_a(k) * s + aff_c(k)) % 0x1_0000_0000_0000_0000int,
    decreases k,
{
    let m = 0x1_0000_0000_0000_0000int;
    lemma_two_pow_pos(k);
    if k == 0 {
        assert(step_iter(s, 1) == medoid_step(step_iter(s, 0)));
        assert(s as int * MEDOID_MULTIPLIER as int == MEDOID_MULTIPLIER as int * s) by (nonlinear_arith);
    } else {
        let k1 = (k - 1) as nat;
        let p = two_pow(k1) as nat;
        lemma_two_pow_pos(k1);
        let a = aff_a(k1);
        let c = aff_c(k1);
        lemma_aff_iter(s, k1);
        let u = step_iter(s, p);
        lemma_aff_iter(u, k1);
        lemma_iter_add(s, p, p);
        assert(two_pow(k) as nat == p + p);
        let x = a * s + c;
        assert(u as int == x % m);
        lemma_mul_mod_noop_right(a, x, m);
        lemma_add_mod_noop(a * (x % m), c, m);
        lemma_add_mod_noop(a * x, c, m);
        assert((a * (x % m) + c) % m == (a * x + c) % m);
        assert(a * x + c == (a * a) * s + c * (a + 1)) by (nonlinear_arith)
            requires
                x == a * s + c,
        ;
    }
}

/// Witnesses that `aff_a(k) == 1 (mod 2^(k+2))` and `aff_c(k) == 2^k (mod 2^(k+1))`.
proof fn lemma_aff_congruence(k: nat) -> (qr: (int, int))
    ensures
        aff_a(k) == 1 + 4 * two_pow(k) * qr.0,
        aff_c(k) == two_pow(k) + 2 * two_pow(k) * qr.1,
    decreases k,
{
    if k == 0 {
        (1591034055961698251int, 0int)
    } else {
        let k1 = (k - 1) as nat;
        let (q0, r0) = lemma_aff_congruence(k1);
        let p0 = two_pow(k1);
        let a0 = aff_a(k1);
        let c0 = aff_c(k1);
        let q = q0 + 2 * p0 * q0 * q0;
        let r = r0 + p0 * q0 + 2 * r0 * p0 * q0;
        assert(two_pow(k) == 2 * p0);
        assert(a0 * a0 == 1 + 4 * (2 * p0) * q) by (nonlinear_arith)
            requires
                a0 == 1 + 4 * p0 * q0,
                q == q0 + 2 * p0 * q0 * q0,
        ;
        assert(c0 * (a0 + 1) == 2 * p0 + 2 * (2 * p0) * r) by (nonlinear_arith)
            requires
                a0 == 1 + 4 * p0 * q0,
                c0 == p0 + 2 * p0 * r0,
                r == r0 + p0 * q0 + 2 * r0 * p0 * q0,
        ;
        (q, r)
    }
}

/// `2^k` steps add `2^k` modulo `2^(k+1)`.
proof fn lemma_power_step(s: u64, k: nat)
    requires
        k <= 63,
    ensures
        (step_iter(s, two_pow(k) as nat) as int) % (2 * two_pow(k)) == (s + two_pow(k)) % (2
            * two_pow(k)),
{
    let m = 0x1_0000_0000_0000_0000int;
    let p = two_pow(k);
    lemma_two_pow_pos(k);
    lemma_two_pow_pos((63 - k) as nat);
    lemma_two_pow_add(k + 1, (63 - k) as nat);
    lemma_two_pow_64();
    assert(two_pow(k + 1) == 2 * p);
    let b = two_pow((63 - k) as nat);
    assert(m == (2 * p) * b);
    lemma_aff_iter(s, k);
    let (q, r) = lemma_aff_congruence(k);
    let x = aff_a(k) * s + aff_c(k);
    lemma_mod_mod(x, 2 * p, b);
    assert(x == (2 * p) * (2 * q * s + r) + (s + p)) by (nonlinear_arith)
        requires
            x == aff_a(k) * s + aff_c(k),
            aff_a(k) == 1 + 4 * p * q,
            aff_c(k) == p + 2 * p * r,
    ;
    lemma_mod_multiples_vanish(2 * q * s + r, s + p, 2 * p);
}

/// Some `j < 2^e` steps take `s` to a state equal to `t` modulo `2^e`.
proof fn lemma_reach(s: u64, t: u64, e: nat) -> (j: nat)
    requires
        e <= 64,
    ensures
        j < two_pow(e),
        (step_iter(s, j) as int) % two_pow(e) == (t as int) % two_pow(e),
    decreases e,
{
    if e == 0 {
        lemma_mod_bound(s as int, 1);
        lemma_mod_bound(t as int, 1);
        0
    } else {
        let e1 = (e - 1) as nat;
        let q = two_pow(e1);
        lemma_two_pow_pos(e1);
        assert(two_pow(e) == 2 * q);
        let j0 = lemma_reach(s, t, e1);
        let u = step_iter(s, j0);
        let uu = (u as int) % (2 * q);
        let tt = (t as int) % (2 * q);
        lemma_mod_bound(u as int, 2 * q);
        lemma_mod_bound(t as int, 2 * q);
        if uu == tt {
            j0
        } else {
            assert(q * 2 == 2 * q);
            lemma_mod_mod(u as int, q, 2);
            lemma_mod_mod(t as int, q, 2);
            assert(uu % q == tt % q);
            if uu < q {
                lemma_small_mod(uu as nat, q as nat);
            } else {
                lemma_mod_add_multiples_vanish(uu - q, q);
                lemma_small_mod((uu - q) as nat, q as nat);
            }
            if tt < q {
                lemma_small_mod(tt as nat, q as nat);
            } else {
                lemma_mod_add_multiples_vanish(tt - q, q);
                lemma_small_mod((tt - q) as nat, q as nat);
            }
            let j = j0 + q as nat;
            lemma_iter_add(s, j0, q as nat);
            lemma_power_step(u, e1);
            lemma_add_mod_noop(u as int, q, 2 * q);
            lemma_small_mod(q as nat, (2 * q) as nat);
            if uu < q {
                lemma_small_mod((uu + q) as nat, (2 * q) as nat);
            } else {
                lemma_mod_add_multiples_vanish(uu - q, 2 * q);
                lemma_small_mod((uu - q) as nat, (2 * q) as nat);
            }
            j
        }
    }
}

/// Law: the seeding generator has full period: from any state, every state is reached
/// within fewer than 2^64 steps.
pub proof fn lemma_full_period(s: u64, t: u64) -> (j: nat)
    ensures
        j < 0x1_0000_0000_0000_0000int,
        step_iter(s, j) == t,
{
    lemma_two_pow_64();
    let j = lemma_reach(s, t, 64);
    let m = 0x1_0000_0000_0000_0000int;
    lemma_small_mod(step_iter(s, j) as nat, m as nat);
    lemma_small_mod(t as nat, m as nat);
    j
}

/// The index that a generator state draws among `n` points: its top 31 bits modulo `n`.
pub open spec fn draw_index(state: u64, n: usize) -> usize {
    (((state >> 33u64) as usize) as int % (n as int)) as usize
}

/// Draw `j` (counted from 1) after state `s` gives an index not yet in `taken`.
#[verifier::opaque]
pub open spec fn is_free_draw(s: u64, n: usize, taken: Seq<usize>, j: nat) -> bool {
    j >= 1 && !taken.contains(draw_index(step_iter(s, j), n))
}

/// The first draw after `s` that gives an index not yet in `taken`.
pub open spec fn first_free(s: u64, n: usize, taken: Seq<usize>) -> nat {
    choose|j: nat|
        is_free_draw(s, n, taken, j) && forall|i: nat| i < j ==> !#[trigger] is_free_draw(s, n, taken, i)
}

/// The first `m` starting medoids drawn from `seed` among `n` points, and the generator
/// state after the last of them: each medoid is the first draw not already taken.
pub open spec fn seeding(n: usize, seed: u64, m: nat) -> (Seq<usize>, u64)
    decreases m,
{
    if m == 0 {
        (Seq::empty(), seed)
    } else {
        let (taken, s) = seeding(n, seed, (m - 1) as nat);
        let st = step_iter(s, first_free(s, n, taken));
        (taken.push(draw_index(st, n)), st)
    }
}

proof fn lemma_missing_index(taken: Seq<usize>, l: int)
    requires
        0 <= l <= usize::MAX,
        taken.len() < l,
    ensures
        exists|i: usize| (i as int) < l && !taken.contains(i),
{
    let ti = taken.map_values(|x: usize| x as int);
    if forall|i: usize| (i as int) < l ==> taken.contains(i) {
        vstd::set_lib::lemma_int_range(0, l);
        assert forall|v: int| #[trigger] vstd::set_lib::set_int_range(0, l).contains(v) implies ti.to_set().contains(v) by {
            let i = v as usize;
            assert(taken.contains(i));
            let k = choose|k: int| 0 <= k < taken.len() && taken[k] == i;
            assert(ti[k] == taken[k] as int);
        }
        vstd::set_lib::lemma_len_subset(vstd::set_lib::set_int_range(0, l), ti.to_set());
        ti.lemma_cardinality_of_set();
        assert(false);
    }
}

/// A free draw exists after any state while fewer than `min(n, 2^31)` indices are taken.
proof fn lemma_free_draw_exists(s: u64, n: usize, taken: Seq<usize>) -> (j: nat)
    requires
        taken.len() < n,
        taken.len() < 0x8000_0000,
    ensures
        is_free_draw(s, n, taken, j),
{
    let l: int = if (n as int) < 0x8000_0000 { n as int } else { 0x8000_0000 };
    lemma_missing_index(taken, l);
    let idx = choose|i: usize| (i as int) < l && !taken.contains(i);
    let t: u64 = (idx as u64) << 33u64;
    let idx64 = idx as u64;
    assert(idx64 < 0x8000_0000);
    assert((idx64 << 33u64) >> 33u64 == idx64) by (bit_vector)
        requires
            idx64 < 0x8000_0000,
    ;
    let j0 = lemma_full_period(medoid_step(s), t);
    lemma_iter_add(s, 1, j0);
    assert(step_iter(s, 1) == medoid_step(step_iter(s, 0)));
    lemma_small_mod(idx as nat, n as nat);
    assert(draw_index(step_iter(s, 1 + j0), n) == idx);
    reveal(is_free_draw);
    1 + j0
}

/// The first free draw exists, and no earlier draw is free.
proof fn lemma_first_free(s: u64, n: usize, taken: Seq<usize>, j: nat)
    requires
        is_free_draw(s, n, taken, j),
    ensures
        is_free_draw(s, n, taken, first_free(s, n, taken)),
        first_free(s, n, taken) <= j,
        forall|i: nat| i < first_free(s, n, taken) ==> !#[trigger] is_free_draw(s, n, taken, i),
    decreases j,
{
    if exists|i: nat| i < j && is_free_draw(s, n, taken, i) {
        let i = choose|i: nat| i < j && is_free_draw(s, n, taken, i);
        lemma_first_free(s, n, taken, i);
    } else {
        assert(is_free_draw(s, n, taken, j) && forall|i: nat| i < j ==> !#[trigger] is_free_draw(s, n, taken, i));
    }
}

proof fn lemma_free_draw_iff(s: u64, n: usize, taken: Seq<usize>, c: nat, state: u64)
    requires
        c >= 1,
        state == step_iter(s, c),
    ensures
        is_free_draw(s, n, taken, c) <==> !taken.contains(draw_index(state, n)),
{
    reveal(is_free_draw);
}

proof fn lemma_no_free_draw_zero(s: u64, n: usize, taken: Seq<usize>)
    ensures
        !is_free_draw(s, n, taken, 0),
{
    reveal(is_free_draw);
}

/// The generator state after `state`.
fn medoid_next(state: u64) -> (r: u64)
    ensures
        r == medoid_step(state),
{
    proof {
        crate::lcg::lemma_wrapping_mul_add(state, MEDOID_MULTIPLIER, 1);
    }
    state.wrapping_mul(MEDOID_MULTIPLIER).wrapping_add(1)
}

/// The index that `state` draws among `n > 0` points.
fn medoid_draw(state: u64, n: usize) -> (idx: usize)
    requires
        n > 0,
    ensures
        idx == draw_index(state, n),
        (idx as int) < n,
{
    let top = state >> 33;
    assert(top < 0x8000_0000) by (bit_vector)
        requires
            top == state >> 33,
    ;
    (top as usize) % n
}

/// Draws from `rng` until an index not marked in `used` comes up: the new state, the
/// index, and the number of draws taken.
#[verifier::rlimit(40)]
fn next_free_draw(rng: u64, used: &Vec<bool>, n: usize, Ghost(taken): Ghost<Seq<usize>>) -> (res: (
    u64,
    usize,
    Ghost<nat>,
))
    requires
        used@.len() == n,
        taken.len() < n,
        taken.len() < 0x8000_0000,
        forall|u: int| 0 <= u < n ==> (#[trigger] used@[u] <==> taken.contains(u as usize)),
    ensures
        1 <= res.2@,
        res.0 == step_iter(rng, res.2@),
        is_free_draw(rng, n, taken, res.2@),
        forall|i: nat| i < res.2@ ==> !#[trigger] is_free_draw(rng, n, taken, i),
        res.1 == draw_index(res.0, n),
        (res.1 as int) < n,
{
    let ghost s0 = rng;
    let ghost goal = lemma_free_draw_exists(s0, n, taken);
    let ghost mut c: nat = 0;
    let mut state = rng;
    proof {
        lemma_no_free_draw_zero(s0, n, taken);
        assert forall|i: nat| i <= c implies !#[trigger] is_free_draw(s0, n, taken, i) by {}
    }
    loop
        invariant
            used@.len() == n,
            taken.len() < n,
            s0 == rng,
            state == step_iter(s0, c),
            is_free_draw(s0, n, taken, goal),
            c < goal,
            forall|i: nat| i <= c ==> !#[trigger] is_free_draw(s0, n, taken, i),
            forall|u: int| 0 <= u < n ==> (#[trigger] used@[u] <==> taken.contains(u as usize)),
        decreases goal - c,
    {
        state = medoid_next(state);
        proof {
            let prev = c;
            c = c + 1;
            assert(step_iter(s0, c) == medoid_step(step_iter(s0, prev)));
        }
        let idx = medoid_draw(state, n);
        proof {
            lemma_free_draw_iff(s0, n, taken, c, state);
            assert(used@[idx as int] <==> taken.contains(idx));
        }
        if !used[idx] {
            return (state, idx, Ghost(c));
        }
        proof {
            assert(!is_free_draw(s0, n, taken, c));
            assert(c != goal);
            assert forall|i: nat| i <= c implies !#[trigger] is_free_draw(s0, n, taken, i) by {
                if i < c {
                    assert(i <= (c - 1) as nat);
                }
            }
        }
    }
}

/// The starting medoids of k-medoids for `n` points from `seed`: `k` distinct indices,
/// each the index of the first generator draw (state times `MEDOID_MULTIPLIER` plus 1,
/// top 31 bits, modulo `n`) that is not already taken.
pub fn initial_medoids(n: usize, k: usize, seed: u64) -> (medoids: Vec<usize>)
    requires
        k <= n,
        k <= 0x8000_0000,
    ensures
        medoids@ == seeding(n, seed, k as nat).0,
        forall|i: int| 0 <= i < k ==> (#[trigger] medoids@[i] as int) < n,
        forall|i: int, j: int| 0 <= i < j < k ==> medoids@[i] != medoids@[j],
{
    let mut rng: u64 = seed;
    let mut medoids: Vec<usize> = Vec::new();
    let mut used: Vec<bool> = Vec::new();
    let mut t: usize = 0;
    while t < n
        invariant
            t <= n,
            used@.len() == t,
            forall|u: int| 0 <= u < t ==> !#[trigger] used@[u],
        decreases n - t,
    {
        used.push(false);
        t += 1;
    }
    let mut m: usize = 0;
    while m < k
        invariant
            m <= k,
            k <= n,
            k <= 0x8000_0000,
            used@.len() == n,
            medoids@ == seeding(n, seed, m as nat).0,
            rng == seeding(n, seed, m as nat).1,
            medoids@.len() == m,
            forall|i: int| 0 <= i < m ==> (#[trigger] medoids@[i] as int) < n,
            forall|i: int, j: int| 0 <= i < j < m ==> medoids@[i] != medoids@[j],
            forall|u: int| 0 <= u < n ==> (#[trigger] used@[u] <==> medoids@.contains(u as usize)),
        decreases k - m,
    {
        let ghost s0 = rng;
        let ghost taken = medoids@;
        let (new_rng, idx, Ghost(c)) = next_free_draw(rng, &used, n, Ghost(taken));
        rng = new_rng;
        proof {
            lemma_first_free(s0, n, taken, c);
            let f = first_free(s0, n, taken);
            if f < c {
                assert(!is_free_draw(s0, n, taken, f));
            }
            if c < f {
                assert(!is_free_draw(s0, n, taken, c));
            }
            assert(f == c);
            assert(rng == step_iter(s0, f));
        }
        used.set(idx, true);
        medoids.push(idx);
        m += 1;
        proof {
            assert(seeding(n, seed, m as nat).0 == taken.push(idx));
            assert forall|u: int| 0 <= u < n implies (#[trigger] used@[u] <==> medoids@.contains(u as usize)) by {
                if u == idx as int {
                    assert(medoids@[m - 1] == idx);
                } else {
                    if medoids@.contains(u as usize) {
                        let q = choose|q: int| 0 <= q < medoids@.len() && medoids@[q] == u as usize;
                        assert(q < m - 1);
                        assert(taken[q] == u as usize);
                    }
                    if taken.contains(u as usize) {
                        let q = choose|q: int| 0 <= q < taken.len() && taken[q] == u as usize;
                        assert(medoids@[q] == u as usize);
                    }
                }
            }
            assert forall|i: int, j: int| 0 <= i < j < m implies medoids@[i] != medoids@[j] by {
                if j == m - 1 {
                    assert(taken[i] == medoids@[i]);
                    lemma_free_draw_iff(s0, n, taken, c, rng);
                    assert(!taken.contains(idx));
                }
            }
        }
    }
    medoids
}

} // verus!
