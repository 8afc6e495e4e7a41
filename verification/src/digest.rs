//! Order-sensitive digests of integer and bit-pattern sequences (64-bit FNV-1a style
//! folds and rotate–xor checksums), used to fingerprint results.
use crate::cliques::nested_view;
use vstd::prelude::*;

verus! {

/// FNV-1a 64-bit offset basis, the starting value of every FNV fold.
pub const FNV_OFFSET: u64 = 1469598103934665603u64;

/// FNV 64-bit prime.
pub const FNV_PRIME: u64 = 1099511628211u64;

/// Marker folded in after each clique.
pub const CLIQUE_SEPARATOR: u64 = 0xFFFFu64;

/// One FNV-1a step: xor in `v`, then multiply by the prime modulo 2^64.
pub open spec fn fnv_mix(h: u64, v: u64) -> u64 {
    (((h ^ v) as int * FNV_PRIME as int) % 0x1_0000_0000_0000_0000int) as u64
}

/// FNV fold of the words `s` from state `h`.
pub open spec fn fnv_fold(h: u64, s: Seq<u64>) -> u64
    decreases s.len(),
{
    if s.len() == 0 {
        h
    } else {
        fnv_mix(fnv_fold(h, s.drop_last()), s.last())
    }
}

/// The vertices of a clique as 64-bit words.
pub open spec fn usize_words(c: Seq<usize>) -> Seq<u64> {
    c.map_values(|v: usize| v as u64)
}

/// The labels as 64-bit words (two's complement for negative labels).
pub open spec fn i64_words(c: Seq<i64>) -> Seq<u64> {
    c.map_values(|v: i64| v as u64)
}

/// Digest of a list of cliques from state `h`: each clique's vertices are folded in,
/// followed by the separator.
pub open spec fn clique_list_digest(h: u64, cs: Seq<Seq<usize>>) -> u64
    decreases cs.len(),
{
    if cs.len() == 0 {
        h
    } else {
        fnv_mix(
            fnv_fold(clique_list_digest(h, cs.drop_last()), usize_words(cs.last())),
            CLIQUE_SEPARATOR,
        )
    }
}

/// `x` rotated left by `r` bits (`r < 64`).
pub open spec fn rotl(x: u64, r: u32) -> u64 {
    if r == 0 {
        x
    } else {
        (x << r) | (x >> ((64 - r) as u32))
    }
}

/// Rotate–xor checksum from state `h`: each word is xored into the state rotated by 7.
pub open spec fn rotate_xor_fold(h: u64, s: Seq<u64>) -> u64
    decreases s.len(),
{
    if s.len() == 0 {
        h
    } else {
        rotl(rotate_xor_fold(h, s.drop_last()), 7) ^ s.last()
    }
}

/// Xor of every entry of row `i`, each rotated by `(i * 31 + j) % 64` where `j` is its column,
/// over the first `m` entries of the row.
pub open spec fn row_rotation_xor(i: int, row: Seq<u64>, m: int) -> u64
    decreases m,
{
    if m <= 0 {
        0
    } else {
        row_rotation_xor(i, row, m - 1) ^ rotl(row[m - 1], ((i * 31 + m - 1) % 64) as u32)
    }
}

/// Xor of `row_rotation_xor` over the first `k` rows.
pub open spec fn matrix_rotation_xor(rows: Seq<Seq<u64>>, k: int) -> u64
    decreases k,
{
    if k <= 0 {
        0
    } else {
        matrix_rotation_xor(rows, k - 1) ^ row_rotation_xor(k - 1, rows[k - 1], rows[k - 1].len() as int)
    }
}

proof fn lemma_wrapping_mul_is_mod(x: u64, y: u64)
    ensures
        vstd::wrapping::u64_specs::wrapping_mul(x, y) == ((x as int * y as int) % 0x1_0000_0000_0000_0000int) as u64,
{
    assert(x as nat * y as nat == x as int * y as int);
}

/// `fnv_mix`, computed.
fn fnv_step(h: u64, v: u64) -> (r: u64)
    ensures
        r == fnv_mix(h, v),
{
    proof { lemma_wrapping_mul_is_mod(h ^ v, FNV_PRIME); }
    (h ^ v).wrapping_mul(FNV_PRIME)
}

/// `x` rotated left by `r` bits.
pub fn rotate_left(x: u64, r: u32) -> (y: u64)
    requires
        r < 64,
    ensures
        y == rotl(x, r),
{
    if r == 0 {
        x
    } else {
        (x << r) | (x >> (64 - r))
    }
}

/// FNV digest of a list of cliques: every vertex is folded in, and the separator after
/// each clique, starting from the FNV offset basis.
pub fn digest_cliques(cliques: &[Vec<usize>]) -> (h: u64)
    ensures
        h == clique_list_digest(FNV_OFFSET, nested_view(cliques@)),
{
    let ghost cs = nested_view(cliques@);
    let mut h: u64 = FNV_OFFSET;
    let mut i: usize = 0;
    while i < cliques.len()
        invariant
            i <= cliques@.len(),
            cs == nested_view(cliques@),
            h == clique_list_digest(FNV_OFFSET, cs.take(i as int)),
        decreases cliques@.len() - i,
    {
        let clique = &cliques[i];
        let ghost h0 = h;
        let mut j: usize = 0;
        while j < clique.len()
            invariant
                j <= clique@.len(),
                h == fnv_fold(h0, usize_words(clique@.take(j as int))),
            decreases clique@.len() - j,
        {
            let v = clique[j];
            h = fnv_step(h, v as u64);
            j += 1;
            assert(usize_words(clique@.take(j as int)).drop_last() =~= usize_words(clique@.take(j - 1)));
        }
        h = fnv_step(h, CLIQUE_SEPARATOR);
        i += 1;
        assert(clique@.take(j as int) =~= clique@);
        assert(cs.take(i as int).drop_last() =~= cs.take(i - 1));
        assert(cs.take(i as int).last() == clique@);
    }
    assert(cs.take(i as int) =~= cs);
    h
}

/// FNV digest of a label vector (negative labels folded as their two's complement).
pub fn digest_labels(labels: &[i64]) -> (h: u64)
    ensures
        h == fnv_fold(FNV_OFFSET, i64_words(labels@)),
{
    let mut h: u64 = FNV_OFFSET;
    let mut i: usize = 0;
    while i < labels.len()
        invariant
            i <= labels@.len(),
            h == fnv_fold(FNV_OFFSET, i64_words(labels@.take(i as int))),
        decreases labels@.len() - i,
    {
        h = fnv_step(h, labels[i] as u64);
        i += 1;
        assert(i64_words(labels@.take(i as int)).drop_last() =~= i64_words(labels@.take(i - 1)));
    }
    assert(labels@.take(i as int) =~= labels@);
    h
}

/// FNV digest of a sequence of 64-bit words (such as the bit patterns of floats).
pub fn digest_bits(bits: &[u64]) -> (h: u64)
    ensures
        h == fnv_fold(FNV_OFFSET, bits@),
{
    digest_bits_from(FNV_OFFSET, bits)
}

/// FNV fold of `bits` continued from state `h0`.
fn digest_bits_from(h0: u64, bits: &[u64]) -> (h: u64)
    ensures
        h == fnv_fold(h0, bits@),
{
    let mut h: u64 = h0;
    let mut i: usize = 0;
    while i < bits.len()
        invariant
            i <= bits@.len(),
            h == fnv_fold(h0, bits@.take(i as int)),
        decreases bits@.len() - i,
    {
        h = fnv_step(h, bits[i]);
        i += 1;
        assert(bits@.take(i as int).drop_last() =~= bits@.take(i - 1));
    }
    assert(bits@.take(i as int) =~= bits@);
    h
}

/// FNV digest of an assignment: the labels folded in, then the bit patterns of the
/// distances.
pub fn digest_labels_and_bits(labels: &[usize], dist_bits: &[u64]) -> (h: u64)
    ensures
        h == fnv_fold(fnv_fold(FNV_OFFSET, usize_words(labels@)), dist_bits@),
{
    let mut h: u64 = FNV_OFFSET;
    let mut i: usize = 0;
    while i < labels.len()
        invariant
            i <= labels@.len(),
            h == fnv_fold(FNV_OFFSET, usize_words(labels@.take(i as int))),
        decreases labels@.len() - i,
    {
        h = fnv_step(h, labels[i] as u64);
        i += 1;
        assert(usize_words(labels@.take(i as int)).drop_last() =~= usize_words(labels@.take(i - 1)));
    }
    assert(labels@.take(i as int) =~= labels@);
    digest_bits_from(h, dist_bits)
}

/// Rotate–xor checksum of a sequence of words, starting from 0.
pub fn checksum_bits(bits: &[u64]) -> (h: u64)
    ensures
        h == rotate_xor_fold(0, bits@),
{
    let mut h: u64 = 0;
    let mut i: usize = 0;
    while i < bits.len()
        invariant
            i <= bits@.len(),
            h == rotate_xor_fold(0, bits@.take(i as int)),
        decreases bits@.len() - i,
    {
        h = rotate_left(h, 7) ^ bits[i];
        i += 1;
        assert(bits@.take(i as int).drop_last() =~= bits@.take(i - 1));
    }
    assert(bits@.take(i as int) =~= bits@);
    h
}

/// Shape and rotation-xor fingerprint of a matrix of words: the number of rows, the
/// length of the first row (0 when there is none), and the xor of every entry rotated
/// left by `(i * 31 + j) % 64` for row `i`, column `j`.
pub fn golden_bits(rows: &[Vec<u64>]) -> (res: (usize, usize, u64))
    requires
        forall|i: int|
            0 <= i < rows@.len() ==> i * 31 + (#[trigger] rows@[i])@.len() <= usize::MAX + 1,
    ensures
        res.0 == rows@.len(),
        res.1 == (if rows@.len() == 0 { 0 } else { rows@[0]@.len() }),
        res.2 == matrix_rotation_xor(nested_bits(rows@), rows@.len() as int),
{
    let ghost m = nested_bits(rows@);
    let mut acc: u64 = 0;
    let mut i: usize = 0;
    while i < rows.len()
        invariant
            i <= rows@.len(),
            m == nested_bits(rows@),
            forall|t: int| 0 <= t < rows@.len() ==> t * 31 + (#[trigger] rows@[t])@.len() <= usize::MAX + 1,
            acc == matrix_rotation_xor(m, i as int),
        decreases rows@.len() - i,
    {
        let row = &rows[i];
        let ghost acc0 = acc;
        let mut j: usize = 0;
        assert(m[i as int] == row@);
        assert(acc0 ^ 0u64 == acc0) by (bit_vector);
        while j < row.len()
            invariant
                j <= row@.len(),
                i < rows@.len(),
                i * 31 + row@.len() <= usize::MAX + 1,
                acc == acc0 ^ row_rotation_xor(i as int, row@, j as int),
            decreases row@.len() - j,
        {
            let r = ((i * 31 + j) % 64) as u32;
            let ghost before = row_rotation_xor(i as int, row@, j as int);
            acc = acc ^ rotate_left(row[j], r);
            j += 1;
            proof {
                let t = rotl(row@[j - 1], r);
                assert(row_rotation_xor(i as int, row@, j as int) == before ^ t);
                assert((acc0 ^ before) ^ t == acc0 ^ (before ^ t)) by (bit_vector);
            }
        }
        i += 1;
    }
    let first = if rows.len() == 0 { 0 } else { rows[0].len() };
    (rows.len(), first, acc)
}

/// The words held by a matrix of words.
pub open spec fn nested_bits(v: Seq<Vec<u64>>) -> Seq<Seq<u64>> {
    v.map_values(|row: Vec<u64>| row@)
}

/// Law: `rotl(x, r)` is a rotation: bit `k` of the result is bit `(k - r) mod 64` of `x`,
/// so the bits that leave the top come back at the bottom.
pub proof fn lemma_rotl_moves_bits(x: u64, r: u32, k: u64)
    requires
        r < 64,
        k < 64,
    ensures
        (rotl(x, r) >> k) & 1u64 == (x >> (((k + 64 - r) as int) % 64) as u64) & 1u64,
{
    let kk = k;
    let rr = r as u64;
    let src: u64 = ((kk + 64 - rr) % 64) as u64;
    assert(src == (((k + 64 - r) as int) % 64) as u64);
    if r == 0 {
        assert(src == kk);
    } else {
        let y = (x << r) | (x >> ((64 - r) as u32));
        assert(((x << rr) | (x >> ((64 - rr) as u64))) == y) by (bit_vector)
            requires
                rr == r as u64,
                0 < r < 64,
                y == (x << r) | (x >> ((64 - r) as u32)),
        ;
        assert((((x << rr) | (x >> ((64 - rr) as u64))) >> kk) & 1u64 == (x >> src) & 1u64) by (bit_vector)
            requires
                0 < rr < 64,
                kk < 64,
                src == (kk + 64 - rr) % 64,
        ;
    }
}

/// Law: each step of the rotate–xor checksum rotates the state left by 7 (the top 7 bits
/// re-enter at the bottom) and xors in the next word.
pub proof fn lemma_rotate_xor_step(s: Seq<u64>, w: u64)
    ensures
        rotate_xor_fold(0, s.push(w)) == ((rotate_xor_fold(0, s) << 7u64) | (rotate_xor_fold(0, s)
            >> 57u64)) ^ w,
{
    assert(s.push(w).drop_last() =~= s);
    let c = rotate_xor_fold(0, s);
    assert(rotl(c, 7) == (c << 7u32) | (c >> 57u32));
    assert((c << 7u32) | (c >> 57u32) == (c << 7u64) | (c >> 57u64)) by (bit_vector);
}

/// Law: the checksum of a single word `x` followed by a zero word is `x` rotated left by 7.
pub proof fn lemma_rotate_xor_pair(x: u64)
    ensures
        rotate_xor_fold(0, seq![x, 0u64]) == (x << 7u64) | (x >> 57u64),
{
    lemma_rotate_xor_step(seq![x], 0);
    lemma_rotate_xor_step(Seq::<u64>::empty(), x);
    assert(seq![x] =~= Seq::<u64>::empty().push(x));
    assert(seq![x, 0u64] =~= seq![x].push(0));
    assert(rotate_xor_fold(0, Seq::<u64>::empty()) == 0);
    assert(((0u64 << 7u64) | (0u64 >> 57u64)) ^ x == x) by (bit_vector);
    assert(((x << 7u64) | (x >> 57u64)) ^ 0u64 == (x << 7u64) | (x >> 57u64)) by (bit_vector);
}

/// The words of an all-zero matrix except `x` at row `i`, column `j`.
pub open spec fn single_entry(rows: Seq<Seq<u64>>, i: int, j: int, x: u64) -> bool {
    &&& 0 <= i < rows.len()
    &&& 0 <= j < rows[i].len()
    &&& rows[i][j] == x
    &&& forall|a: int, b: int|
        0 <= a < rows.len() && 0 <= b < rows[a].len() && (a != i || b != j) ==> #[trigger] rows[a][b]
            == 0
}

proof fn lemma_row_rotation_single(i: int, row: Seq<u64>, m: int, j: int)
    requires
        0 <= m <= row.len(),
        forall|b: int| 0 <= b < row.len() && b != j ==> #[trigger] row[b] == 0,
    ensures
        row_rotation_xor(i, row, m) == if 0 <= j < m {
            rotl(row[j], ((i * 31 + j) % 64) as u32)
        } else {
            0
        },
    decreases m,
{
    if m > 0 {
        lemma_row_rotation_single(i, row, m - 1, j);
        let r = ((i * 31 + m - 1) % 64) as u32;
        let prev = row_rotation_xor(i, row, m - 1);
        if m - 1 != j {
            assert(row[m - 1] == 0);
            assert(rotl(0u64, r) == 0u64) by (bit_vector);
            assert(prev ^ 0u64 == prev) by (bit_vector);
        } else {
            assert(prev == 0);
            let t = rotl(row[j], r);
            assert(0u64 ^ t == t) by (bit_vector);
        }
    }
}

proof fn lemma_matrix_rotation_single(rows: Seq<Seq<u64>>, k: int, i: int, j: int, x: u64)
    requires
        single_entry(rows, i, j, x),
        0 <= k <= rows.len(),
    ensures
        matrix_rotation_xor(rows, k) == if i < k {
            rotl(x, ((i * 31 + j) % 64) as u32)
        } else {
            0
        },
    decreases k,
{
    if k > 0 {
        lemma_matrix_rotation_single(rows, k - 1, i, j, x);
        let row = rows[k - 1];
        let prev = matrix_rotation_xor(rows, k - 1);
        if k - 1 == i {
            assert forall|b: int| 0 <= b < row.len() && b != j implies #[trigger] row[b] == 0 by {
                assert(rows[k - 1][b] == 0);
            }
            lemma_row_rotation_single(k - 1, row, row.len() as int, j);
            let t = rotl(x, ((i * 31 + j) % 64) as u32);
            assert(0u64 ^ t == t) by (bit_vector);
        } else {
            assert forall|b: int| 0 <= b < row.len() && b != -1 implies #[trigger] row[b] == 0 by {
                assert(rows[k - 1][b] == 0);
            }
            lemma_row_rotation_single(k - 1, row, row.len() as int, -1);
            assert(prev ^ 0u64 == prev) by (bit_vector);
        }
    }
}

/// Law: in the fingerprint of a matrix whose only nonzero word is `x` at row `i`, column
/// `j`, that word enters rotated left by `(i * 31 + j) % 64`: bit `k` of the fingerprint
/// is bit `(k - r) mod 64` of `x`, so it keeps every one bit of `x`.
pub proof fn lemma_golden_single_entry(rows: Seq<Seq<u64>>, i: int, j: int, x: u64, k: u64)
    requires
        single_entry(rows, i, j, x),
        k < 64,
    ensures
        ((matrix_rotation_xor(rows, rows.len() as int) >> k) & 1u64) == (x >> (((k + 64 - (i * 31
            + j) % 64) as int) % 64) as u64) & 1u64,
        (i * 31 + j) % 64 == 0 ==> matrix_rotation_xor(rows, rows.len() as int) == x,
        (i * 31 + j) % 64 != 0 ==> matrix_rotation_xor(rows, rows.len() as int) == (x << (((i * 31
            + j) % 64) as u64)) | (x >> ((64 - (i * 31 + j) % 64) as u64)),
{
    lemma_matrix_rotation_single(rows, rows.len() as int, i, j, x);
    let r = ((i * 31 + j) % 64) as u32;
    lemma_rotl_moves_bits(x, r, k);
    if r != 0 {
        let r64 = r as u64;
        assert((x << r) | (x >> ((64 - r) as u32)) == (x << r64) | (x >> ((64 - r64) as u64))) by (bit_vector)
            requires
                r64 == r as u64,
                0 < r < 64,
        ;
    }
}

} // verus!
