//! A 64-bit linear congruential generator with Knuth's MMIX constants.
use vstd::prelude::*;

verus! {

/// Multiplier of the 64-bit linear congruential generator (Knuth's MMIX constants).
pub const LCG_MULTIPLIER: u64 = 6364136223846793005u64;

/// Increment of the 64-bit linear congruential generator.
pub const LCG_INCREMENT: u64 = 1442695040888963407u64;

/// 2^64, the modulus of every wrapping `u64` operation.
pub open spec fn two_pow_64() -> int {
    0x1_0000_0000_0000_0000int
}

/// The state that follows `s`: `s * LCG_MULTIPLIER + LCG_INCREMENT` modulo 2^64.
pub open spec fn lcg_next_state(s: u64) -> u64 {
    ((s as int * LCG_MULTIPLIER as int + LCG_INCREMENT as int) % two_pow_64()) as u64
}

pub(crate) proof fn lemma_wrapping_mul_add(x: u64, a: u64, c: u64)
    ensures
        vstd::wrapping::u64_specs::wrapping_add(vstd::wrapping::u64_specs::wrapping_mul(x, a), c)
            == ((x as int * a as int + c as int) % two_pow_64()) as u64,
{
    let m = two_pow_64();
    let p = x as int * a as int;
    assert(p >= 0) by (nonlinear_arith) requires x >= 0, a >= 0, p == x as int * a as int;
    vstd::arithmetic::div_mod::lemma_add_mod_noop(p, c as int, m);
    vstd::arithmetic::div_mod::lemma_mod_twice(c as int, m);
    vstd::arithmetic::div_mod::lemma_small_mod(c as nat, m as nat);
    let w = (p % m) + c as int;
    assert(0 <= p % m < m) by { vstd::arithmetic::div_mod::lemma_mod_bound(p, m); }
    if w >= m {
        vstd::arithmetic::div_mod::lemma_mod_sub_multiples_vanish(w, m);
        vstd::arithmetic::div_mod::lemma_small_mod((w - m) as nat, m as nat);
    } else {
        vstd::arithmetic::div_mod::lemma_small_mod(w as nat, m as nat);
    }
}

/// A deterministic 64-bit linear congruential generator.
pub struct Lcg(pub u64);

impl Lcg {
    /// Advances the generator and returns the new state.
    pub fn next_u64(&mut self) -> (r: u64)
        ensures
            r == lcg_next_state(old(self).0),
            final(self).0 == r,
    {
        proof { lemma_wrapping_mul_add(self.0, LCG_MULTIPLIER, LCG_INCREMENT); }
        self.0 = self.0.wrapping_mul(LCG_MULTIPLIER).wrapping_add(LCG_INCREMENT);
        self.0
    }
}

/// The generator state after `j` steps from `s`.
pub open spec fn lcg_state_after(s: u64, j: nat) -> u64
    decreases j,
{
    if j == 0 {
        s
    } else {
        lcg_next_state(lcg_state_after(s, (j - 1) as nat))
    }
}

/// The 53-bit draw taken from a generator state: its top 53 bits.
pub open spec fn draw_of(state: u64) -> u64 {
    state >> 11u64
}

/// Every draw is below 2^53, so the component `2 * d / 2^53 - 1` it stands for lies in
/// `[-1, 1)`.
pub proof fn lemma_draw_below_two_pow_53(state: u64)
    ensures
        draw_of(state) < 0x20_0000_0000_0000u64,
{
    assert(state >> 11u64 < 0x20_0000_0000_0000u64) by (bit_vector);
}

/// The raw draws of the complex test signal of length `n` from `seed`: sample `k` takes
/// the draws of generator steps `2k + 1` (real part) and `2k + 2` (imaginary part). A draw
/// `d` stands for the component `2 * d / 2^53 - 1` in `[-1, 1)`, which is exact in `f64`.
pub fn signal(n: usize, seed: u64) -> (draws: Vec<(u64, u64)>)
    ensures
        draws@.len() == n,
        forall|k: int|
            0 <= k < n ==> #[trigger] draws@[k] == (
                draw_of(lcg_state_after(seed, (2 * k + 1) as nat)),
                draw_of(lcg_state_after(seed, (2 * k + 2) as nat)),
            ),
{
    let mut g = Lcg(seed);
    let mut draws: Vec<(u64, u64)> = Vec::new();
    let mut i: usize = 0;
    while i < n
        invariant
            i <= n,
            draws@.len() == i,
            g.0 == lcg_state_after(seed, (2 * i) as nat),
            forall|k: int|
                0 <= k < i ==> #[trigger] draws@[k] == (
                    draw_of(lcg_state_after(seed, (2 * k + 1) as nat)),
                    draw_of(lcg_state_after(seed, (2 * k + 2) as nat)),
                ),
        decreases n - i,
    {
        let re = g.next_u64() >> 11;
        let im = g.next_u64() >> 11;
        draws.push((re, im));
        proof {
            assert(lcg_state_after(seed, (2 * i + 1) as nat) == lcg_next_state(lcg_state_after(seed, (2 * i) as nat)));
            assert(lcg_state_after(seed, (2 * i + 2) as nat) == lcg_next_state(lcg_state_after(seed, (2 * i + 1) as nat)));
        }
        i += 1;
    }
    draws
}

} // verus!
