//! The bit-exact golden text of the clustering harness: one line per algorithm and data
//! shape, with every floating-point result given by its bit pattern.
use crate::text::{
    count_char, decode_hex_words, hex_value, lemma_hex16_round_trip, lemma_label_pairs_count, lemma_count_char_concat, lemma_hex_words_decode,
    lemma_signed_words_no_c, lemma_tagged_words_count, decimal, decimal_words, hex16, hex_words, label_hex_pairs, push_decimal, push_decimal_words,
    push_hex16, push_hex_words, push_label_hex_pairs, push_signed_decimal_words,
    push_tagged_decimal_words, signed_decimal_words, tagged_decimal_words,
};
use vstd::prelude::*;
use vstd::string::StringExecFns;

verus! {

/// The results recorded for one data shape `(n, d, k)`; floating-point values are held
/// as their bit patterns.
pub struct ClusterGoldenCase {
    pub n: usize,
    pub d: usize,
    pub k: usize,
    pub vq_labels: Vec<usize>,
    pub vq_dist_bits: Vec<u64>,
    pub kmeans_n_iter: usize,
    pub kmeans_inertia_bits: u64,
    pub kmeans_labels: Vec<usize>,
    pub dbscan_n_clusters: usize,
    pub dbscan_labels: Vec<i64>,
    pub dbscan_core_indices: Vec<usize>,
    pub kmedoids_n_iter: usize,
    pub kmedoids_inertia_bits: u64,
    pub kmedoids_labels: Vec<usize>,
    pub silhouette_bits: Vec<u64>,
}

/// `" n={n} d={d} k={k} "` without the trailing space.
pub open spec fn shape_text(c: ClusterGoldenCase) -> Seq<char> {
    " n="@ + decimal(c.n as nat) + " d="@ + decimal(c.d as nat) + " k="@ + decimal(c.k as nat)
}

pub open spec fn vq_line(c: ClusterGoldenCase) -> Seq<char> {
    "mode=vq"@ + shape_text(c) + " len="@ + decimal(c.vq_labels@.len()) + " "@ + label_hex_pairs(
        c.vq_labels@,
        c.vq_dist_bits@,
        if c.vq_labels@.len() <= c.vq_dist_bits@.len() {
            c.vq_labels@.len() as int
        } else {
            c.vq_dist_bits@.len() as int
        },
    ) + "\n"@
}

pub open spec fn kmeans_line(c: ClusterGoldenCase) -> Seq<char> {
    "mode=kmeans"@ + shape_text(c) + " n_iter="@ + decimal(c.kmeans_n_iter as nat) + " inertia="@
        + hex16(c.kmeans_inertia_bits) + " "@ + decimal_words(c.kmeans_labels@) + "\n"@
}

pub open spec fn dbscan_line(c: ClusterGoldenCase) -> Seq<char> {
    "mode=dbscan"@ + shape_text(c) + " n_clusters="@ + decimal(c.dbscan_n_clusters as nat)
        + " cores="@ + decimal(c.dbscan_core_indices@.len()) + " "@ + signed_decimal_words(
        c.dbscan_labels@,
    ) + tagged_decimal_words(c.dbscan_core_indices@) + "\n"@
}

pub open spec fn kmedoids_line(c: ClusterGoldenCase) -> Seq<char> {
    "mode=kmedoids"@ + shape_text(c) + " n_iter="@ + decimal(c.kmedoids_n_iter as nat)
        + " inertia="@ + hex16(c.kmedoids_inertia_bits) + " "@ + decimal_words(c.kmedoids_labels@)
        + "\n"@
}

pub open spec fn silhouette_line(c: ClusterGoldenCase) -> Seq<char> {
    "mode=silhouette-samples"@ + shape_text(c) + " len="@ + decimal(c.silhouette_bits@.len()) + " "@
        + hex_words(c.silhouette_bits@, ' ') + "\n"@
}

/// The five lines of one shape, in the order vq, kmeans, dbscan, kmedoids, silhouette.
pub open spec fn case_text(c: ClusterGoldenCase) -> Seq<char> {
    vq_line(c) + kmeans_line(c) + dbscan_line(c) + kmedoids_line(c) + silhouette_line(c)
}

/// The golden text of all shapes, in order.
pub open spec fn cluster_golden(cases: Seq<ClusterGoldenCase>) -> Seq<char>
    decreases cases.len(),
{
    if cases.len() == 0 {
        Seq::empty()
    } else {
        cluster_golden(cases.drop_last()) + case_text(cases.last())
    }
}

fn push_shape(s: &mut String, c: &ClusterGoldenCase)
    ensures
        final(s)@ == old(s)@ + shape_text(*c),
{
    s.append(" n=");
    push_decimal(s, c.n as u64);
    s.append(" d=");
    push_decimal(s, c.d as u64);
    s.append(" k=");
    push_decimal(s, c.k as u64);
    assert(final(s)@ =~= old(s)@ + shape_text(*c));
}

fn push_vq_line(s: &mut String, c: &ClusterGoldenCase)
    ensures
        final(s)@ == old(s)@ + vq_line(*c),
{
    let ghost s0 = s@;
    s.append("mode=vq");
    push_shape(s, c);
    s.append(" len=");
    push_decimal(s, c.vq_labels.len() as u64);
    s.append(" ");
    push_label_hex_pairs(s, c.vq_labels.as_slice(), c.vq_dist_bits.as_slice());
    s.append("\n");
    assert(s@ =~= s0 + vq_line(*c));
}

fn push_kmeans_line(s: &mut String, c: &ClusterGoldenCase)
    ensures
        final(s)@ == old(s)@ + kmeans_line(*c),
{
    let ghost s0 = s@;
    s.append("mode=kmeans");
    push_shape(s, c);
    s.append(" n_iter=");
    push_decimal(s, c.kmeans_n_iter as u64);
    s.append(" inertia=");
    push_hex16(s, c.kmeans_inertia_bits);
    s.append(" ");
    push_decimal_words(s, c.kmeans_labels.as_slice());
    s.append("\n");
    assert(s@ =~= s0 + kmeans_line(*c));
}

fn push_dbscan_line(s: &mut String, c: &ClusterGoldenCase)
    ensures
        final(s)@ == old(s)@ + dbscan_line(*c),
{
    let ghost s0 = s@;
    s.append("mode=dbscan");
    push_shape(s, c);
    s.append(" n_clusters=");
    push_decimal(s, c.dbscan_n_clusters as u64);
    s.append(" cores=");
    push_decimal(s, c.dbscan_core_indices.len() as u64);
    s.append(" ");
    push_signed_decimal_words(s, c.dbscan_labels.as_slice());
    push_tagged_decimal_words(s, c.dbscan_core_indices.as_slice());
    s.append("\n");
    assert(s@ =~= s0 + dbscan_line(*c));
}

fn push_kmedoids_line(s: &mut String, c: &ClusterGoldenCase)
    ensures
        final(s)@ == old(s)@ + kmedoids_line(*c),
{
    let ghost s0 = s@;
    s.append("mode=kmedoids");
    push_shape(s, c);
    s.append(" n_iter=");
    push_decimal(s, c.kmedoids_n_iter as u64);
    s.append(" inertia=");
    push_hex16(s, c.kmedoids_inertia_bits);
    s.append(" ");
    push_decimal_words(s, c.kmedoids_labels.as_slice());
    s.append("\n");
    assert(s@ =~= s0 + kmedoids_line(*c));
}

fn push_silhouette_line(s: &mut String, c: &ClusterGoldenCase)
    ensures
        final(s)@ == old(s)@ + silhouette_line(*c),
{
    let ghost s0 = s@;
    s.append("mode=silhouette-samples");
    push_shape(s, c);
    s.append(" len=");
    push_decimal(s, c.silhouette_bits.len() as u64);
    s.append(" ");
    push_hex_words(s, c.silhouette_bits.as_slice(), true);
    s.append("\n");
    assert(s@ =~= s0 + silhouette_line(*c));
}

fn push_case(s: &mut String, c: &ClusterGoldenCase)
    ensures
        final(s)@ == old(s)@ + case_text(*c),
{
    let ghost s0 = s@;
    push_vq_line(s, c);
    push_kmeans_line(s, c);
    push_dbscan_line(s, c);
    push_kmedoids_line(s, c);
    push_silhouette_line(s, c);
    assert(s@ =~= s0 + case_text(*c));
}

/// The golden text of the clustering harness for the recorded shapes, in order: for each
/// shape a vq line (`label:bits` per point), a kmeans line, a dbscan line (labels, then
/// `c`-tagged core indices), a kmedoids line and a silhouette line, every float written
/// as its 16-digit hexadecimal bit pattern.
pub fn golden_text(cases: &[ClusterGoldenCase]) -> (text: String)
    ensures
        text@ == cluster_golden(cases@),
{
    let mut text = String::new();
    let mut i: usize = 0;
    while i < cases.len()
        invariant
            i <= cases@.len(),
            text@ == cluster_golden(cases@.take(i as int)),
        decreases cases@.len() - i,
    {
        push_case(&mut text, &cases[i]);
        i += 1;
        assert(cases@.take(i as int).drop_last() =~= cases@.take(i - 1));
    }
    assert(cases@.take(i as int) =~= cases@);
    text
}

/// Seed of the recorded k-means and k-medoids runs.
pub const GOLDEN_SEED: u64 = 0x1234_5678u64;

/// Iteration cap of the recorded k-means and k-medoids runs.
pub const GOLDEN_MAX_ITER: usize = 50usize;

/// `min_samples` of the recorded DBSCAN runs (whose radius is 3).
pub const GOLDEN_DBSCAN_MIN_SAMPLES: usize = 4usize;

/// The data shapes `(n, d, k)` of the recorded sweep, in order.
pub open spec fn golden_sweep() -> Seq<(usize, usize, usize)> {
    seq![(64usize, 8usize, 4usize), (128, 16, 8), (200, 32, 12), (300, 64, 16)]
}

/// The records are for the shapes of the sweep, one each, in order.
pub open spec fn follows_sweep(cases: Seq<ClusterGoldenCase>) -> bool {
    &&& cases.len() == golden_sweep().len()
    &&& forall|i: int|
        0 <= i < cases.len() ==> (#[trigger] cases[i].n, cases[i].d, cases[i].k) == golden_sweep()[i]
}

/// The data shapes of the recorded sweep.
pub fn golden_shapes() -> (shapes: Vec<(usize, usize, usize)>)
    ensures
        shapes@ == golden_sweep(),
{
    let shapes = vec![(64usize, 8usize, 4usize), (128, 16, 8), (200, 32, 12), (300, 64, 16)];
    assert(shapes@ =~= golden_sweep());
    shapes
}

/// The golden text of the sweep, when the records are for the sweep's shapes in order;
/// `None` otherwise.
pub fn sweep_golden_text(cases: &[ClusterGoldenCase]) -> (text: Option<String>)
    ensures
        text is Some <==> follows_sweep(cases@),
        text is Some ==> text->0@ == cluster_golden(cases@),
{
    let shapes = golden_shapes();
    if cases.len() != shapes.len() {
        return None;
    }
    let mut i: usize = 0;
    while i < cases.len()
        invariant
            i <= cases@.len(),
            cases@.len() == shapes@.len(),
            shapes@ == golden_sweep(),
            forall|j: int|
                0 <= j < i ==> (#[trigger] cases@[j].n, cases@[j].d, cases@[j].k) == golden_sweep()[j],
        decreases cases@.len() - i,
    {
        let (n, d, k) = shapes[i];
        if cases[i].n != n || cases[i].d != d || cases[i].k != k {
            return None;
        }
        i += 1;
    }
    Some(golden_text(cases))
}

/// Law: in the dbscan line, the number after ` cores=` is the number of `c`-tagged core
/// indices that end the line, whatever the cluster count is.
pub proof fn lemma_dbscan_line_core_count(c: ClusterGoldenCase)
    ensures
        ({
            let head = "mode=dbscan"@ + shape_text(c) + " n_clusters="@ + decimal(
                c.dbscan_n_clusters as nat,
            );
            let tail = signed_decimal_words(c.dbscan_labels@) + tagged_decimal_words(
                c.dbscan_core_indices@,
            ) + "\n"@;
            &&& count_char(tail, 'c') == c.dbscan_core_indices@.len()
            &&& dbscan_line(c) == head + " cores="@ + decimal(count_char(tail, 'c')) + " "@ + tail
        }),
{
    reveal_strlit("\n");
    let lw = signed_decimal_words(c.dbscan_labels@);
    let cw = tagged_decimal_words(c.dbscan_core_indices@);
    lemma_signed_words_no_c(c.dbscan_labels@);
    lemma_tagged_words_count(c.dbscan_core_indices@);
    lemma_count_char_concat(lw, cw, 'c');
    lemma_count_char_concat(lw + cw, "\n"@, 'c');
    assert("\n"@ =~= seq!['\n']);
    assert(seq!['\n'].drop_last() =~= Seq::<char>::empty());
    assert(count_char(Seq::<char>::empty(), 'c') == 0);
    assert(count_char(seq!['\n'], 'c') == 0);
    let head = "mode=dbscan"@ + shape_text(c) + " n_clusters="@ + decimal(c.dbscan_n_clusters as nat);
    let tail = lw + cw + "\n"@;
    assert(dbscan_line(c) =~= head + " cores="@ + decimal(c.dbscan_core_indices@.len()) + " "@ + tail);
}

/// Law: in the silhouette line, the number after ` len=` is the number of 16-digit words
/// that follow, and those words decode back to the recorded bit patterns.
pub proof fn lemma_silhouette_line_words(c: ClusterGoldenCase)
    ensures
        ({
            let words = hex_words(c.silhouette_bits@, ' ');
            &&& silhouette_line(c) == "mode=silhouette-samples"@ + shape_text(c) + " len="@ + decimal(
                (words.len() / 17) as nat,
            ) + " "@ + words + "\n"@
            &&& decode_hex_words(words) == c.silhouette_bits@
        }),
{
    lemma_hex_words_decode(c.silhouette_bits@, ' ');
    let n = c.silhouette_bits@.len();
    assert((17 * n) / 17 == n) by (nonlinear_arith);
}

/// Law: the k-means and k-medoids lines carry their inertia as the 16 hexadecimal digits
/// right after ` inertia=`, and those digits read back as the recorded bit pattern.
pub proof fn lemma_inertia_words(c: ClusterGoldenCase)
    ensures
        kmeans_line(c) == "mode=kmeans"@ + shape_text(c) + " n_iter="@ + decimal(
            c.kmeans_n_iter as nat,
        ) + " inertia="@ + hex16(c.kmeans_inertia_bits) + " "@ + decimal_words(c.kmeans_labels@)
            + "\n"@,
        kmedoids_line(c) == "mode=kmedoids"@ + shape_text(c) + " n_iter="@ + decimal(
            c.kmedoids_n_iter as nat,
        ) + " inertia="@ + hex16(c.kmedoids_inertia_bits) + " "@ + decimal_words(
            c.kmedoids_labels@,
        ) + "\n"@,
        hex_value(hex16(c.kmeans_inertia_bits)) == c.kmeans_inertia_bits as int,
        hex_value(hex16(c.kmedoids_inertia_bits)) == c.kmedoids_inertia_bits as int,
{
    lemma_hex16_round_trip(c.kmeans_inertia_bits);
    lemma_hex16_round_trip(c.kmedoids_inertia_bits);
}

/// Law: the vq line gives the number of labels after ` len=`, then one `label:bits` pair
/// per point that has both a label and a distance, each pair marked by one `:`.
pub proof fn lemma_vq_line_pairs(c: ClusterGoldenCase)
    ensures
        ({
            let m = if c.vq_labels@.len() <= c.vq_dist_bits@.len() {
                c.vq_labels@.len() as int
            } else {
                c.vq_dist_bits@.len() as int
            };
            let pairs = label_hex_pairs(c.vq_labels@, c.vq_dist_bits@, m);
            &&& count_char(pairs, ':') == m
            &&& vq_line(c) == "mode=vq"@ + shape_text(c) + " len="@ + decimal(c.vq_labels@.len()) + " "@
                + pairs + "\n"@
        }),
{
    let m = if c.vq_labels@.len() <= c.vq_dist_bits@.len() {
        c.vq_labels@.len() as int
    } else {
        c.vq_dist_bits@.len() as int
    };
    lemma_label_pairs_count(c.vq_labels@, c.vq_dist_bits@, m);
}

} // verus!
