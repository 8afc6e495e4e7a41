//! Text forms of integers as the harnesses print them: decimal, signed decimal, and
//! 16-digit zero-padded lowercase hexadecimal (the `{:016x}` form of a bit pattern).
use vstd::prelude::*;
use vstd::string::StringExecFns;

verus! {

/// The decimal digit character for `d < 10`.
pub open spec fn digit_char(d: nat) -> char {
    (d + 48) as char
}

/// The lowercase hexadecimal digit character for `d < 16`.
pub open spec fn hex_char(d: nat) -> char {
    if d < 10 {
        (d + 48) as char
    } else {
        (d + 87) as char
    }
}

/// The decimal representation of `n`, without leading zeros.
pub open spec fn decimal(n: nat) -> Seq<char>
    decreases n,
{
    if n < 10 {
        seq![digit_char(n)]
    } else {
        decimal(n / 10).push(digit_char(n % 10))
    }
}

/// The decimal representation of `v`, with a leading `-` when it is negative.
pub open spec fn signed_decimal(v: int) -> Seq<char> {
    if v < 0 {
        seq!['-'] + decimal((-v) as nat)
    } else {
        decimal(v as nat)
    }
}

/// Hex digit `i` (most significant first) of `x`.
pub open spec fn nibble(x: u64, i: int) -> nat {
    ((x >> ((60 - 4 * i) as u64)) & 15u64) as nat
}

/// The 16 lowercase hexadecimal digits of `x`, most significant first.
pub open spec fn hex16(x: u64) -> Seq<char> {
    Seq::new(16, |i: int| hex_char(nibble(x, i)))
}

/// Appends the single character `c` given as a one-character literal.
fn push_char_literal(s: &mut String, lit: &str, Ghost(c): Ghost<char>)
    requires
        lit@.len() == 1,
        lit@[0] == c,
    ensures
        final(s)@ == old(s)@.push(c),
{
    s.append(lit);
    assert(lit@ =~= seq![c]);
    assert(final(s)@ =~= old(s)@.push(c));
}

/// Appends the hexadecimal digit `d < 16`.
fn push_hex_digit(s: &mut String, d: u64)
    requires
        d < 16,
    ensures
        final(s)@ == old(s)@.push(hex_char(d as nat)),
{
    proof {
        reveal_strlit("0");
        reveal_strlit("1");
        reveal_strlit("2");
        reveal_strlit("3");
        reveal_strlit("4");
        reveal_strlit("5");
        reveal_strlit("6");
        reveal_strlit("7");
        reveal_strlit("8");
        reveal_strlit("9");
        reveal_strlit("a");
        reveal_strlit("b");
        reveal_strlit("c");
        reveal_strlit("d");
        reveal_strlit("e");
        reveal_strlit("f");
    }
    let ghost c = hex_char(d as nat);
    if d == 0 {
        push_char_literal(s, "0", Ghost(c));
    } else if d == 1 {
        push_char_literal(s, "1", Ghost(c));
    } else if d == 2 {
        push_char_literal(s, "2", Ghost(c));
    } else if d == 3 {
        push_char_literal(s, "3", Ghost(c));
    } else if d == 4 {
        push_char_literal(s, "4", Ghost(c));
    } else if d == 5 {
        push_char_literal(s, "5", Ghost(c));
    } else if d == 6 {
        push_char_literal(s, "6", Ghost(c));
    } else if d == 7 {
        push_char_literal(s, "7", Ghost(c));
    } else if d == 8 {
        push_char_literal(s, "8", Ghost(c));
    } else if d == 9 {
        push_char_literal(s, "9", Ghost(c));
    } else if d == 10 {
        push_char_literal(s, "a", Ghost(c));
    } else if d == 11 {
        push_char_literal(s, "b", Ghost(c));
    } else if d == 12 {
        push_char_literal(s, "c", Ghost(c));
    } else if d == 13 {
        push_char_literal(s, "d", Ghost(c));
    } else if d == 14 {
        push_char_literal(s, "e", Ghost(c));
    } else {
        push_char_literal(s, "f", Ghost(c));
    }
}

/// Appends the decimal representation of `n` to `s`.
pub fn push_decimal(s: &mut String, n: u64)
    ensures
        final(s)@ == old(s)@ + decimal(n as nat),
    decreases n,
{
    if n >= 10 {
        push_decimal(s, n / 10);
        push_hex_digit(s, n % 10);
        assert(final(s)@ =~= old(s)@ + decimal(n as nat));
    } else {
        push_hex_digit(s, n);
        assert(final(s)@ =~= old(s)@ + decimal(n as nat));
    }
}

/// Appends the decimal representation of `v`, with a `-` sign when negative.
pub fn push_signed_decimal(s: &mut String, v: i64)
    ensures
        final(s)@ == old(s)@ + signed_decimal(v as int),
{
    if v < 0 {
        proof {
            reveal_strlit("-");
        }
        push_char_literal(s, "-", Ghost('-'));
        let magnitude: u64 = if v == i64::MIN {
            9223372036854775808u64
        } else {
            (-v) as u64
        };
        push_decimal(s, magnitude);
        assert(final(s)@ =~= old(s)@ + signed_decimal(v as int));
    } else {
        push_decimal(s, v as u64);
    }
}

/// Appends the 16-digit zero-padded lowercase hexadecimal form of `x`.
pub fn push_hex16(s: &mut String, x: u64)
    ensures
        final(s)@ == old(s)@ + hex16(x),
{
    let ghost s0 = s@;
    let mut i: u64 = 0;
    while i < 16
        invariant
            i <= 16,
            s@ == s0 + hex16(x).take(i as int),
        decreases 16 - i,
    {
        let shift: u64 = 60 - 4 * i;
        let d = (x >> shift) & 15u64;
        assert(d < 16) by (bit_vector)
            requires
                d == (x >> shift) & 15u64,
        ;
        push_hex_digit(s, d);
        proof {
            assert(d as nat == nibble(x, i as int));
            assert(hex16(x).take(i + 1) =~= hex16(x).take(i as int).push(hex_char(d as nat)));
            assert(s@ =~= s0 + hex16(x).take(i + 1));
        }
        i += 1;
    }
    assert(hex16(x).take(16) =~= hex16(x));
}

/// `decimal(l) + " "` for each entry, concatenated.
pub open spec fn decimal_words(l: Seq<usize>) -> Seq<char>
    decreases l.len(),
{
    if l.len() == 0 {
        Seq::empty()
    } else {
        decimal_words(l.drop_last()) + decimal(l.last() as nat) + seq![' ']
    }
}

/// `signed_decimal(l) + " "` for each entry, concatenated.
pub open spec fn signed_decimal_words(l: Seq<i64>) -> Seq<char>
    decreases l.len(),
{
    if l.len() == 0 {
        Seq::empty()
    } else {
        signed_decimal_words(l.drop_last()) + signed_decimal(l.last() as int) + seq![' ']
    }
}

/// `"c" + decimal(l) + " "` for each entry, concatenated.
pub open spec fn tagged_decimal_words(l: Seq<usize>) -> Seq<char>
    decreases l.len(),
{
    if l.len() == 0 {
        Seq::empty()
    } else {
        tagged_decimal_words(l.drop_last()) + seq!['c'] + decimal(l.last() as nat) + seq![' ']
    }
}

/// `hex16(b) + sep` for each entry, concatenated.
pub open spec fn hex_words(l: Seq<u64>, sep: char) -> Seq<char>
    decreases l.len(),
{
    if l.len() == 0 {
        Seq::empty()
    } else {
        hex_words(l.drop_last(), sep) + hex16(l.last()) + seq![sep]
    }
}

/// `decimal(a) + ":" + hex16(b) + " "` for the first `m` pairs, concatenated.
pub open spec fn label_hex_pairs(a: Seq<usize>, b: Seq<u64>, m: int) -> Seq<char>
    decreases m,
{
    if m <= 0 {
        Seq::empty()
    } else {
        label_hex_pairs(a, b, m - 1) + decimal(a[m - 1] as nat) + seq![':'] + hex16(b[m - 1])
            + seq![' ']
    }
}

/// Appends `decimal_words(l)`.
pub fn push_decimal_words(s: &mut String, l: &[usize])
    ensures
        final(s)@ == old(s)@ + decimal_words(l@),
{
    let ghost s0 = s@;
    let mut i: usize = 0;
    while i < l.len()
        invariant
            i <= l@.len(),
            s@ == s0 + decimal_words(l@.take(i as int)),
        decreases l@.len() - i,
    {
        proof {
            reveal_strlit(" ");
        }
        push_decimal(s, l[i] as u64);
        push_char_literal(s, " ", Ghost(' '));
        i += 1;
        proof {
            let t = l@.take(i as int);
            assert(t.drop_last() =~= l@.take(i - 1));
            assert(s@ =~= s0 + decimal_words(t));
        }
    }
    assert(l@.take(i as int) =~= l@);
}

/// Appends `signed_decimal_words(l)`.
pub fn push_signed_decimal_words(s: &mut String, l: &[i64])
    ensures
        final(s)@ == old(s)@ + signed_decimal_words(l@),
{
    let ghost s0 = s@;
    let mut i: usize = 0;
    while i < l.len()
        invariant
            i <= l@.len(),
            s@ == s0 + signed_decimal_words(l@.take(i as int)),
        decreases l@.len() - i,
    {
        proof {
            reveal_strlit(" ");
        }
        push_signed_decimal(s, l[i]);
        push_char_literal(s, " ", Ghost(' '));
        i += 1;
        proof {
            let t = l@.take(i as int);
            assert(t.drop_last() =~= l@.take(i - 1));
            assert(s@ =~= s0 + signed_decimal_words(t));
        }
    }
    assert(l@.take(i as int) =~= l@);
}

/// Appends `tagged_decimal_words(l)`.
pub fn push_tagged_decimal_words(s: &mut String, l: &[usize])
    ensures
        final(s)@ == old(s)@ + tagged_decimal_words(l@),
{
    let ghost s0 = s@;
    let mut i: usize = 0;
    while i < l.len()
        invariant
            i <= l@.len(),
            s@ == s0 + tagged_decimal_words(l@.take(i as int)),
        decreases l@.len() - i,
    {
        proof {
            reveal_strlit(" ");
            reveal_strlit("c");
        }
        push_char_literal(s, "c", Ghost('c'));
        push_decimal(s, l[i] as u64);
        push_char_literal(s, " ", Ghost(' '));
        i += 1;
        proof {
            let t = l@.take(i as int);
            assert(t.drop_last() =~= l@.take(i - 1));
            assert(s@ =~= s0 + tagged_decimal_words(t));
        }
    }
    assert(l@.take(i as int) =~= l@);
}

/// Appends `hex_words(l, ' ')` (`space == true`) or `hex_words(l, ',')`.
pub fn push_hex_words(s: &mut String, l: &[u64], space: bool)
    ensures
        final(s)@ == old(s)@ + hex_words(l@, if space { ' ' } else { ',' }),
{
    let ghost sep = if space { ' ' } else { ',' };
    let ghost s0 = s@;
    let mut i: usize = 0;
    while i < l.len()
        invariant
            i <= l@.len(),
            sep == (if space { ' ' } else { ',' }),
            s@ == s0 + hex_words(l@.take(i as int), sep),
        decreases l@.len() - i,
    {
        proof {
            reveal_strlit(" ");
            reveal_strlit(",");
        }
        push_hex16(s, l[i]);
        if space {
            push_char_literal(s, " ", Ghost(' '));
        } else {
            push_char_literal(s, ",", Ghost(','));
        }
        i += 1;
        proof {
            let t = l@.take(i as int);
            assert(t.drop_last() =~= l@.take(i - 1));
            assert(s@ =~= s0 + hex_words(t, sep));
        }
    }
    assert(l@.take(i as int) =~= l@);
}

/// Appends `label_hex_pairs(a, b, m)` for `m` the shorter of the two lengths.
pub fn push_label_hex_pairs(s: &mut String, a: &[usize], b: &[u64])
    ensures
        final(s)@ == old(s)@ + label_hex_pairs(
            a@,
            b@,
            if a@.len() <= b@.len() { a@.len() as int } else { b@.len() as int },
        ),
{
    let m = if a.len() <= b.len() { a.len() } else { b.len() };
    let ghost s0 = s@;
    let mut i: usize = 0;
    while i < m
        invariant
            i <= m,
            m <= a@.len(),
            m <= b@.len(),
            s@ == s0 + label_hex_pairs(a@, b@, i as int),
        decreases m - i,
    {
        proof {
            reveal_strlit(" ");
            reveal_strlit(":");
        }
        push_decimal(s, a[i] as u64);
        push_char_literal(s, ":", Ghost(':'));
        push_hex16(s, b[i]);
        push_char_literal(s, " ", Ghost(' '));
        i += 1;
        assert(s@ =~= s0 + label_hex_pairs(a@, b@, i as int));
    }
}

/// The value of a hexadecimal digit character (`0`–`9`, `a`–`f`).
pub open spec fn hex_digit_value(c: char) -> int {
    if (c as int) <= 57 {
        c as int - 48
    } else {
        c as int - 87
    }
}

/// The value of a string of hexadecimal digits, most significant first.
pub open spec fn hex_value(s: Seq<char>) -> int
    decreases s.len(),
{
    if s.len() == 0 {
        0
    } else {
        hex_value(s.drop_last()) * 16 + hex_digit_value(s.last())
    }
}

proof fn lemma_nibble_below_16(x: u64, i: int)
    requires
        0 <= i < 16,
    ensures
        nibble(x, i) < 16,
{
    let s = (60 - 4 * i) as u64;
    assert((x >> s) & 15u64 < 16) by (bit_vector);
}

proof fn lemma_hex_char_value(d: nat)
    requires
        d < 16,
    ensures
        hex_digit_value(hex_char(d)) == d,
        hex_char(d) != '[',
        hex_char(d) != ']',
        hex_char(d) != ',',
        hex_char(d) != ' ',
{
}

proof fn lemma_hex16_prefix(x: u64, i: int)
    requires
        1 <= i <= 16,
    ensures
        hex_value(hex16(x).take(i)) == (x >> ((64 - 4 * i) as u64)) as int,
    decreases i,
{
    let t = hex16(x).take(i);
    lemma_nibble_below_16(x, i - 1);
    lemma_hex_char_value(nibble(x, i - 1));
    assert(t.last() == hex_char(nibble(x, i - 1)));
    assert(hex_value(t) == hex_value(t.drop_last()) * 16 + nibble(x, i - 1));
    if i == 1 {
        assert(t.drop_last() =~= Seq::<char>::empty());
        assert((x >> 60u64) & 15u64 == x >> 60u64) by (bit_vector);
        assert(nibble(x, 0) == ((x >> 60u64) & 15u64) as nat);
    } else {
        lemma_hex16_prefix(x, i - 1);
        assert(t.drop_last() =~= hex16(x).take(i - 1));
        let s = (60 - 4 * (i - 1)) as u64;
        assert(s <= 56);
        assert(((x >> (s + 4)) as int) * 16 + (((x >> s) & 15u64) as int) == (x >> s) as int)
            by (bit_vector)
            requires
                s <= 56,
        ;
        assert((s + 4) as u64 == (64 - 4 * (i - 1)) as u64);
        assert(nibble(x, i - 1) == ((x >> s) & 15u64) as nat);
        assert(s == (64 - 4 * i) as u64);
    }
}

/// Law: the 16 hexadecimal digits of `x` read back as `x`, so `hex16` is one to one.
pub proof fn lemma_hex16_round_trip(x: u64)
    ensures
        hex_value(hex16(x)) == x as int,
        forall|y: u64| #[trigger] hex16(y) == hex16(x) ==> y == x,
{
    assert forall|y: u64| 1 <= 16 implies hex_value(hex16(y)) == y as int by {
        lemma_hex16_prefix(y, 16);
        assert(hex16(y).take(16) =~= hex16(y));
        assert(y >> 0u64 == y) by (bit_vector);
    }
}

/// The words of a text made of 16-digit hexadecimal tokens, each followed by one
/// separator character.
pub open spec fn decode_hex_words(s: Seq<char>) -> Seq<u64>
    decreases s.len(),
{
    if s.len() < 17 {
        Seq::empty()
    } else {
        decode_hex_words(s.subrange(0, s.len() - 17)).push(
            hex_value(s.subrange(s.len() - 17, s.len() - 1)) as u64,
        )
    }
}

/// Law: decoding the text `hex_words(l, sep)` gives back `l`; the text has 17 characters
/// per word, none of them a bracket.
pub proof fn lemma_hex_words_decode(l: Seq<u64>, sep: char)
    ensures
        hex_words(l, sep).len() == 17 * l.len(),
        decode_hex_words(hex_words(l, sep)) == l,
        sep != '[' ==> !hex_words(l, sep).contains('['),
    decreases l.len(),
{
    if l.len() > 0 {
        let w = hex_words(l, sep);
        let prev = hex_words(l.drop_last(), sep);
        lemma_hex_words_decode(l.drop_last(), sep);
        lemma_hex16_round_trip(l.last());
        assert(w.subrange(0, w.len() - 17) =~= prev);
        assert(w.subrange(w.len() - 17, w.len() - 1) =~= hex16(l.last()));
        assert(decode_hex_words(w) =~= l);
        if sep != '[' {
            assert forall|k: int| 0 <= k < w.len() implies w[k] != '[' by {
                if k >= prev.len() && k < prev.len() + 16 {
                    let i = k - prev.len();
                    lemma_nibble_below_16(l.last(), i);
                    lemma_hex_char_value(nibble(l.last(), i));
                    assert(w[k] == hex16(l.last())[i]);
                } else if k < prev.len() {
                    assert(w[k] == prev[k]);
                }
            }
        }
    } else {
        assert(decode_hex_words(hex_words(l, sep)) =~= l);
    }
}

/// Number of occurrences of `ch` in `s`.
pub open spec fn count_char(s: Seq<char>, ch: char) -> nat
    decreases s.len(),
{
    if s.len() == 0 {
        0
    } else {
        count_char(s.drop_last(), ch) + if s.last() == ch {
            1nat
        } else {
            0nat
        }
    }
}

/// Occurrences add up over a concatenation.
pub proof fn lemma_count_char_concat(a: Seq<char>, b: Seq<char>, ch: char)
    ensures
        count_char(a + b, ch) == count_char(a, ch) + count_char(b, ch),
    decreases b.len(),
{
    if b.len() == 0 {
        assert(a + b =~= a);
    } else {
        lemma_count_char_concat(a, b.drop_last(), ch);
        assert((a + b).drop_last() =~= a + b.drop_last());
    }
}

/// A decimal numeral holds no letter `c` (its characters are digits).
pub proof fn lemma_decimal_no_c(n: nat)
    ensures
        count_char(decimal(n), 'c') == 0,
        decimal(n).len() >= 1,
    decreases n,
{
    if n >= 10 {
        lemma_decimal_no_c(n / 10);
        assert(decimal(n).drop_last() =~= decimal(n / 10));
        assert(decimal(n).last() == digit_char(n % 10));
        assert(digit_char(n % 10) != 'c');
        assert(count_char(decimal(n), 'c') == count_char(decimal(n).drop_last(), 'c'));
    } else {
        assert(decimal(n).drop_last() =~= Seq::<char>::empty());
        assert(decimal(n).last() == digit_char(n));
        assert(digit_char(n) != 'c');
        assert(count_char(Seq::<char>::empty(), 'c') == 0);
        assert(count_char(decimal(n), 'c') == count_char(decimal(n).drop_last(), 'c'));
    }
}

proof fn lemma_count_single(x: char, ch: char)
    ensures
        count_char(seq![x], ch) == if x == ch {
            1nat
        } else {
            0nat
        },
{
    assert(seq![x].drop_last() =~= Seq::<char>::empty());
    assert(count_char(Seq::<char>::empty(), ch) == 0);
    assert(count_char(seq![x], ch) == count_char(seq![x].drop_last(), ch) + if x == ch {
        1nat
    } else {
        0nat
    });
}

/// Signed decimal words hold no letter `c`.
pub proof fn lemma_signed_words_no_c(l: Seq<i64>)
    ensures
        count_char(signed_decimal_words(l), 'c') == 0,
    decreases l.len(),
{
    if l.len() > 0 {
        lemma_signed_words_no_c(l.drop_last());
        let v = l.last() as int;
        let d = if v < 0 { decimal((-v) as nat) } else { decimal(v as nat) };
        lemma_decimal_no_c(if v < 0 { (-v) as nat } else { v as nat });
        if v < 0 {
            lemma_count_char_concat(seq!['-'], d, 'c');
            lemma_count_single('-', 'c');
        }
        assert(count_char(signed_decimal(v), 'c') == 0);
        lemma_count_single(' ', 'c');
        lemma_count_char_concat(signed_decimal_words(l.drop_last()), signed_decimal(v), 'c');
        lemma_count_char_concat(
            signed_decimal_words(l.drop_last()) + signed_decimal(v),
            seq![' '],
            'c',
        );
        assert(signed_decimal_words(l) == signed_decimal_words(l.drop_last()) + signed_decimal(v)
            + seq![' ']);
    }
}

/// Law: the `c`-tagged words of `l` hold the letter `c` exactly once per entry.
pub proof fn lemma_tagged_words_count(l: Seq<usize>)
    ensures
        count_char(tagged_decimal_words(l), 'c') == l.len(),
    decreases l.len(),
{
    if l.len() > 0 {
        lemma_tagged_words_count(l.drop_last());
        let prev = tagged_decimal_words(l.drop_last());
        let d = decimal(l.last() as nat);
        lemma_decimal_no_c(l.last() as nat);
        lemma_count_char_concat(prev, seq!['c'], 'c');
        lemma_count_char_concat(prev + seq!['c'], d, 'c');
        lemma_count_char_concat(prev + seq!['c'] + d, seq![' '], 'c');
        lemma_count_single('c', 'c');
        lemma_count_single(' ', 'c');
        assert(tagged_decimal_words(l) == prev + seq!['c'] + d + seq![' ']);
    }
}

/// A character that occurs nowhere in `s` is counted 0 times.
pub proof fn lemma_count_absent(s: Seq<char>, ch: char)
    requires
        forall|i: int| 0 <= i < s.len() ==> s[i] != ch,
    ensures
        count_char(s, ch) == 0,
    decreases s.len(),
{
    if s.len() > 0 {
        lemma_count_absent(s.drop_last(), ch);
    }
}

/// Decimal numerals consist of digits only.
pub proof fn lemma_decimal_digits(n: nat)
    ensures
        forall|i: int| 0 <= i < decimal(n).len() ==> 48 <= #[trigger] (decimal(n)[i] as int) <= 57,
    decreases n,
{
    if n >= 10 {
        lemma_decimal_digits(n / 10);
        assert forall|i: int| 0 <= i < decimal(n).len() implies 48 <= #[trigger] (decimal(n)[i] as int) <= 57 by {
            if i < decimal(n).len() - 1 {
                assert(decimal(n)[i] == decimal(n / 10)[i]);
            }
        }
    }
}

/// Law: the `label:bits` pairs of the first `m` entries hold one `:` per pair.
pub proof fn lemma_label_pairs_count(a: Seq<usize>, b: Seq<u64>, m: int)
    requires
        0 <= m <= a.len(),
        m <= b.len(),
    ensures
        count_char(label_hex_pairs(a, b, m), ':') == m,
    decreases m,
{
    if m > 0 {
        lemma_label_pairs_count(a, b, m - 1);
        let d = decimal(a[m - 1] as nat);
        let h = hex16(b[m - 1]);
        lemma_decimal_digits(a[m - 1] as nat);
        lemma_count_absent(d, ':');
        assert forall|i: int| 0 <= i < h.len() implies h[i] != ':' by {
            lemma_nibble_below_16(b[m - 1], i);
        }
        lemma_count_absent(h, ':');
        lemma_count_single(':', ':');
        lemma_count_single(' ', ':');
        let prev = label_hex_pairs(a, b, m - 1);
        lemma_count_char_concat(prev, d, ':');
        lemma_count_char_concat(prev + d, seq![':'], ':');
        lemma_count_char_concat(prev + d + seq![':'], h, ':');
        lemma_count_char_concat(prev + d + seq![':'] + h, seq![' '], ':');
    }
}

} // verus!
