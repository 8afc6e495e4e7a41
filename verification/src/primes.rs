//! Trial division: smallest prime factors, prime factorizations and their text form,
//! and the radix rule of the legacy mixed-radix FFT split.
use vstd::arithmetic::div_mod::{
    lemma_div_is_ordered_by_denominator, lemma_fundamental_div_mod, lemma_mod_multiples_basic,
};
use crate::text::{decimal, push_decimal};
use vstd::prelude::*;
use vstd::string::StringExecFns;

verus! {

/// The least divisor of `n` that is at least `d` (`n` itself when there is none below it).
pub open spec fn least_divisor_from(n: nat, d: nat) -> nat
    decreases n - d,
{
    if d >= n {
        n
    } else if d > 0 && n % d == 0 {
        d
    } else {
        least_divisor_from(n, d + 1)
    }
}

/// The least divisor of `n` above 1; for `n >= 2` this is its smallest prime factor.
pub open spec fn least_divisor(n: nat) -> nat {
    least_divisor_from(n, 2)
}

/// No integer in `[lo, hi)` divides `n`.
pub open spec fn no_divisor_in(n: nat, lo: nat, hi: nat) -> bool {
    forall|e: nat| lo <= e < hi ==> #[trigger] (n % e) != 0
}

pub open spec fn is_prime(p: nat) -> bool {
    p >= 2 && no_divisor_in(p, 2, p)
}

/// What `smallest_prime_factor` returns: 2 for even `n` (0 included), 1 for 1, and the
/// least divisor above 1 for every other odd `n`.
pub open spec fn smallest_prime_factor_of(n: nat) -> nat {
    if n % 2 == 0 {
        2
    } else if n == 1 {
        1
    } else {
        least_divisor(n)
    }
}

/// The prime factorization of `n` in nondecreasing order (empty for 0 and 1).
pub open spec fn prime_factorization(n: nat) -> Seq<nat>
    decreases n,
{
    if n <= 1 {
        Seq::empty()
    } else {
        let d = least_divisor(n);
        proof {
            lemma_least_divisor(n);
            lemma_quotient_smaller(n, d);
        }
        seq![d] + prime_factorization(n / d)
    }
}

/// The product of the entries of `s`.
pub open spec fn product(s: Seq<nat>) -> nat
    decreases s.len(),
{
    if s.len() == 0 {
        1
    } else {
        s[0] * product(s.drop_first())
    }
}

/// The decimal representations of `fs` joined by `*`.
pub open spec fn star_joined(fs: Seq<nat>) -> Seq<char>
    decreases fs.len(),
{
    if fs.len() == 0 {
        Seq::empty()
    } else if fs.len() == 1 {
        decimal(fs[0])
    } else {
        star_joined(fs.drop_last()) + seq!['*'] + decimal(fs.last())
    }
}

pub proof fn lemma_quotient_smaller(n: nat, d: nat)
    requires
        n >= 2,
        d >= 2,
    ensures
        n / d < n,
{
    lemma_div_is_ordered_by_denominator(n as int, 2, d as int);
    assert(n / 2 < n);
}

proof fn lemma_least_divisor_from(n: nat, d: nat)
    requires
        n >= 2,
        2 <= d <= n,
    ensures
        d <= least_divisor_from(n, d) <= n,
        n % least_divisor_from(n, d) == 0,
        no_divisor_in(n, d, least_divisor_from(n, d)),
    decreases n - d,
{
    if d >= n {
        assert(n % n == 0) by { lemma_mod_multiples_basic(1, n as int); }
    } else if n % d != 0 {
        lemma_least_divisor_from(n, d + 1);
        let r = least_divisor_from(n, d + 1);
        assert forall|e: nat| d <= e < r implies #[trigger] (n % e) != 0 by {
            if e > d {
                assert(d + 1 <= e);
            }
        }
    }
}

/// The least divisor of `n >= 2` above 1 is in `[2, n]`, divides `n`, and no integer in
/// between divides `n`.
pub proof fn lemma_least_divisor(n: nat)
    requires
        n >= 2,
    ensures
        2 <= least_divisor(n) <= n,
        n % least_divisor(n) == 0,
        no_divisor_in(n, 2, least_divisor(n)),
{
    lemma_least_divisor_from(n, 2);
}

/// A divisor of `n` in `[2, n]` below which nothing divides `n` is the least divisor.
pub proof fn lemma_least_divisor_unique(n: nat, r: nat)
    requires
        n >= 2,
        2 <= r <= n,
        n % r == 0,
        no_divisor_in(n, 2, r),
    ensures
        least_divisor(n) == r,
{
    lemma_least_divisor(n);
    let l = least_divisor(n);
    if l < r {
        assert((n % l) != 0);
    } else if r < l {
        assert((n % r) != 0);
    }
}

/// Divisibility is transitive.
pub proof fn lemma_divides_trans(n: nat, r: nat, d: nat)
    requires
        r > 0,
        d > 0,
        n % r == 0,
        r % d == 0,
    ensures
        n % d == 0,
{
    lemma_fundamental_div_mod(n as int, r as int);
    lemma_fundamental_div_mod(r as int, d as int);
    let q = n / r;
    let t = r / d;
    assert(n == r * q);
    assert(r == d * t);
    assert(n == (t * q) * d) by (nonlinear_arith)
        requires
            n == r * q,
            r == d * t,
    ;
    lemma_mod_multiples_basic((t * q) as int, d as int);
}

/// The least divisor above 1 is prime.
pub proof fn lemma_least_divisor_is_prime(n: nat)
    requires
        n >= 2,
    ensures
        is_prime(least_divisor(n)),
{
    lemma_least_divisor(n);
    let l = least_divisor(n);
    assert forall|e: nat| 2 <= e < l implies #[trigger] (l % e) != 0 by {
        if l % e == 0 {
            lemma_divides_trans(n, l, e);
            assert((n % e) != 0);
        }
    }
}

/// If nothing in `[2, f)` divides `m >= 2` and `f * f > m`, then `m` is prime.
pub proof fn lemma_no_small_divisor_is_prime(m: nat, f: nat)
    requires
        m >= 2,
        f >= 2,
        no_divisor_in(m, 2, f),
        m / f < f,
    ensures
        no_divisor_in(m, 2, m),
{
    assert forall|e: nat| 2 <= e < m implies #[trigger] (m % e) != 0 by {
        if e >= f && m % e == 0 {
            lemma_fundamental_div_mod(m as int, e as int);
            let q = m / e;
            assert(m == e * q);
            assert(q >= 2) by (nonlinear_arith)
                requires
                    m == e * q,
                    e < m,
                    e >= 2,
                    q >= 0,
            ;
            lemma_div_is_ordered_by_denominator(m as int, f as int, e as int);
            assert(q < f);
            assert(m == q * e) by (nonlinear_arith)
                requires
                    m == e * q,
            ;
            lemma_mod_multiples_basic(e as int, q as int);
            assert((m % q) != 0);
        }
    }
}

/// Law: the prime factorization consists of primes, is nondecreasing, and multiplies
/// back to `n` (for `n >= 1`); each entry divides `n` and is at least its least divisor.
pub proof fn lemma_prime_factorization(n: nat)
    requires
        n >= 1,
    ensures
        product(prime_factorization(n)) == n,
        forall|i: int|
            0 <= i < prime_factorization(n).len() ==> is_prime(#[trigger] prime_factorization(n)[i]),
        forall|i: int, j: int|
            0 <= i <= j < prime_factorization(n).len() ==> prime_factorization(n)[i]
                <= prime_factorization(n)[j],
        forall|i: int|
            0 <= i < prime_factorization(n).len() ==> n % #[trigger] prime_factorization(n)[i] == 0
                && least_divisor(n) <= prime_factorization(n)[i],
    decreases n,
{
    if n >= 2 {
        let d = least_divisor(n);
        lemma_least_divisor(n);
        lemma_least_divisor_is_prime(n);
        lemma_quotient_smaller(n, d);
        let m = n / d;
        lemma_fundamental_div_mod(n as int, d as int);
        assert(n == d * m);
        assert(m >= 1) by (nonlinear_arith)
            requires
                n == d * m,
                n >= 2,
        ;
        lemma_prime_factorization(m);
        let fs = prime_factorization(n);
        let tail = prime_factorization(m);
        assert(fs == seq![d] + tail);
        assert(fs.drop_first() =~= tail);
        assert(n % m == 0) by {
            assert(n == m * d) by (nonlinear_arith)
                requires
                    n == d * m,
            ;
            lemma_mod_multiples_basic(d as int, m as int);
        }
        assert forall|i: int| 0 <= i < fs.len() implies n % #[trigger] fs[i] == 0 && d <= fs[i] by {
            if i > 0 {
                assert(fs[i] == tail[i - 1]);
                lemma_divides_trans(n, m, tail[i - 1]);
                if fs[i] < d {
                    assert(2 <= fs[i]);
                    assert((n % fs[i]) != 0);
                }
            }
        }
        assert forall|i: int| 0 <= i < fs.len() implies is_prime(#[trigger] fs[i]) by {
            if i > 0 {
                assert(fs[i] == tail[i - 1]);
            }
        }
        assert forall|i: int, j: int| 0 <= i <= j < fs.len() implies fs[i] <= fs[j] by {
            if i > 0 {
                assert(fs[i] == tail[i - 1] && fs[j] == tail[j - 1]);
            }
        }
    }
}

/// `m % f == 0`, computed without reaching `m` through `f * f`.
fn divides(m: usize, f: usize) -> (b: bool)
    requires
        f > 0,
    ensures
        b == (m % f == 0),
{
    m % f == 0
}

/// The smallest prime factor of `n` by odd trial division: 2 when `n` is even (0
/// included), otherwise the least odd divisor `f >= 3` with `f * f <= n`, and `n` itself
/// when there is none (so 1 for `n == 1`).
pub fn smallest_prime_factor(n: usize) -> (p: usize)
    ensures
        p as nat == smallest_prime_factor_of(n as nat),
        n >= 2 ==> is_prime(p as nat) && n % p == 0 && no_divisor_in(n as nat, 2, p as nat),
{
    if n % 2 == 0 {
        proof {
            if n >= 2 {
                assert forall|e: nat| 2 <= e < 2 implies #[trigger] ((n as nat) % e) != 0 by {}
                assert(is_prime(2)) by {
                    assert forall|e: nat| 2 <= e < 2 implies #[trigger] (2nat % e) != 0 by {}
                }
            }
        }
        return 2;
    }
    if n == 1 {
        return 1;
    }
    let mut f: usize = 3;
    while f <= n / f
        invariant
            n >= 3,
            n % 2 == 1,
            3 <= f,
            f % 2 == 1,
            no_divisor_in(n as nat, 2, f as nat),
        decreases n + 1 - f,
    {
        assert(f <= n / 3) by {
            lemma_div_is_ordered_by_denominator(n as int, 3, f as int);
        }
        if divides(n, f) {
            proof {
                lemma_least_divisor_unique(n as nat, f as nat);
                lemma_least_divisor_is_prime(n as nat);
            }
            return f;
        }
        proof {
            let g = (f + 1) as nat;
            if (n as nat) % g == 0 {
                assert(g % 2 == 0);
                lemma_divides_trans(n as nat, g, 2);
            }
            assert forall|e: nat| 2 <= e < f + 2 implies #[trigger] ((n as nat) % e) != 0 by {
                if e == f + 1 {
                    assert(e == g);
                }
            }
        }
        f += 2;
    }
    proof {
        assert forall|e: nat| 2 <= e < 2 implies #[trigger] ((n as nat) % e) != 0 by {}
        lemma_no_small_divisor_is_prime(n as nat, f as nat);
        assert(n % n == 0) by { lemma_mod_multiples_basic(1, n as int); }
        lemma_least_divisor_unique(n as nat, n as nat);
        lemma_least_divisor_is_prime(n as nat);
    }
    n
}

/// The radix of the legacy mixed-radix split of a length-`n` transform: 4 when `n` is a
/// multiple of 4, otherwise the smallest prime factor of `n`. For `n >= 1` it divides
/// `n`, and for `n >= 2` it is at least 2, so the split length `n / p` is exact and
/// shorter than `n`.
pub fn legacy_radix(n: usize) -> (p: usize)
    ensures
        p as nat == (if n % 4 == 0 { 4 } else { smallest_prime_factor_of(n as nat) }),
        n >= 1 ==> p >= 1 && n % p == 0,
        n >= 2 ==> 2 <= p <= n,
{
    if n % 4 == 0 {
        4
    } else {
        let p = smallest_prime_factor(n);
        proof {
            if n >= 2 {
                lemma_least_divisor(n as nat);
            }
        }
        p
    }
}

/// The prime factors of `n` by trial division, in nondecreasing order (none for 0 and 1).
pub fn prime_factors(n: usize) -> (fs: Vec<usize>)
    ensures
        fs@.map_values(|f: usize| f as nat) == prime_factorization(n as nat),
{
    let mut fs: Vec<usize> = Vec::new();
    let mut m: usize = n;
    let mut f: usize = 2;
    while f <= m / f
        invariant
            2 <= f,
            m <= n,
            (n == 0 && m == 0 && fs@.len() == 0) || m >= 1,
            no_divisor_in(m as nat, 2, f as nat),
            fs@.map_values(|f: usize| f as nat) + prime_factorization(m as nat) == prime_factorization(n as nat),
        decreases n + 1 - f,
    {
        assert(f <= m / 2) by {
            lemma_div_is_ordered_by_denominator(m as int, 2, f as int);
        }
        while divides(m, f)
            invariant
                2 <= f,
                1 <= m <= n,
                no_divisor_in(m as nat, 2, f as nat),
                fs@.map_values(|f: usize| f as nat) + prime_factorization(m as nat) == prime_factorization(n as nat),
            decreases m,
        {
            let ghost m0 = m as nat;
            let ghost old_fs = fs@.map_values(|f: usize| f as nat);
            assert(m >= f) by {
                if m < f {
                    vstd::arithmetic::div_mod::lemma_small_mod(m as nat, f as nat);
                }
            }
            proof {
                lemma_least_divisor_unique(m0, f as nat);
                lemma_quotient_smaller(m0, f as nat);
                assert(prime_factorization(m0) == seq![f as nat] + prime_factorization(m0 / (f as nat)));
            }
            fs.push(f);
            m = m / f;
            proof {
                assert(fs@.map_values(|f: usize| f as nat) =~= old_fs.push(f as nat));
                assert(old_fs.push(f as nat) + prime_factorization(m as nat) =~= old_fs + (seq![f as nat] + prime_factorization(m as nat)));
                lemma_fundamental_div_mod(m0 as int, f as int);
                assert(m0 == f * m);
                assert(m >= 1) by (nonlinear_arith)
                    requires
                        m0 == f * m,
                        m0 >= 1,
                ;
                assert forall|e: nat| 2 <= e < f implies #[trigger] ((m as nat) % e) != 0 by {
                    if (m as nat) % e == 0 {
                        assert(m0 == m * f) by (nonlinear_arith)
                            requires
                                m0 == f * m,
                        ;
                        lemma_mod_multiples_basic(f as int, m as int);
                        lemma_divides_trans(m0, m as nat, e);
                        assert((m0 % e) != 0);
                    }
                }
            }
        }
        proof {
            let g = (f + 1) as nat;
            assert forall|e: nat| 2 <= e < f + 1 implies #[trigger] ((m as nat) % e) != 0 by {
                if e == f {
                    assert((m as nat) % (f as nat) != 0);
                }
            }
        }
        f += 1;
    }
    if m > 1 {
        proof {
            lemma_no_small_divisor_is_prime(m as nat, f as nat);
            assert(m % m == 0) by { lemma_mod_multiples_basic(1, m as int); }
            lemma_least_divisor_unique(m as nat, m as nat);
            assert((m as nat) / (m as nat) == 1) by {
                vstd::arithmetic::div_mod::lemma_div_by_self(m as int);
            }
            assert(prime_factorization(m as nat) == seq![m as nat] + prime_factorization(1));
            assert(prime_factorization(m as nat) =~= seq![m as nat]);
        }
        let ghost old_fs = fs@.map_values(|f: usize| f as nat);
        fs.push(m);
        assert(fs@.map_values(|f: usize| f as nat) =~= old_fs + seq![m as nat]);
    } else {
        assert(prime_factorization(m as nat) =~= Seq::<nat>::empty());
        assert(fs@.map_values(|f: usize| f as nat) =~= fs@.map_values(|f: usize| f as nat) + Seq::<nat>::empty());
    }
    fs
}

/// The prime factorization of `n` written as decimal factors joined by `*` (such as
/// `2*2*3` for 12); empty for 0 and 1.
pub fn factor_string(n: usize) -> (s: String)
    ensures
        s@ == star_joined(prime_factorization(n as nat)),
{
    let fs = prime_factors(n);
    let ghost fsv = fs@.map_values(|f: usize| f as nat);
    let mut s = String::new();
    let mut i: usize = 0;
    while i < fs.len()
        invariant
            i <= fs@.len(),
            fsv == fs@.map_values(|f: usize| f as nat),
            s@ == star_joined(fsv.take(i as int)),
        decreases fs@.len() - i,
    {
        proof {
            reveal_strlit("*");
        }
        if i > 0 {
            s.append("*");
        }
        push_decimal(&mut s, fs[i] as u64);
        i += 1;
        proof {
            let t = fsv.take(i as int);
            assert(t.drop_last() =~= fsv.take(i - 1));
            assert(t.last() == fs@[i - 1] as nat);
            if i == 1 {
                assert(star_joined(t) == decimal(t[0]));
                assert(s@ =~= star_joined(t));
            } else {
                assert(s@ =~= star_joined(t));
            }
        }
    }
    assert(fsv.take(i as int) =~= fsv);
    s
}

} // verus!
