//! The bit-exact golden text of the ODE-integration harness: per solver run, a header of
//! counters and flags followed by the bit patterns of every time point and state.
use crate::digest::nested_bits;
use crate::text::{
    decimal, decode_hex_words, hex16, hex_words, lemma_hex_words_decode, push_decimal, push_hex16,
    push_hex_words, signed_decimal,
};
use vstd::prelude::*;
use vstd::string::StringExecFns;

verus! {

/// The recorded outcome of one initial-value-problem solve; the time points and states
/// are held as the bit patterns of their floats.
pub struct IvpSummary {
    pub status: i64,
    pub success: bool,
    pub nfev: usize,
    pub njev: usize,
    pub nlu: usize,
    pub has_sol: bool,
    pub has_t_events: bool,
    pub has_y_events: bool,
    pub message: String,
    pub t_bits: Vec<u64>,
    pub y_bits: Vec<Vec<u64>>,
}

/// Name for the text that Rust's `Debug` formatting gives a string: the string between
/// double quotes, with quotes, backslashes and special characters escaped.
pub uninterp spec fn debug_text(s: Seq<char>) -> Seq<char>;

/// The `Debug` text of `s`, from `format!("{:?}", s)` (std's `Debug` for `str`).
/// Trusted: the contract only says that the result is `debug_text` of the characters of
/// `s`; the escaping rules themselves are std's and are not stated here.
#[verifier::external_body]
fn debug_quoted(s: &str) -> (r: String)
    ensures
        r@ == debug_text(s@),
{
    format!("{:?}", s)
}

/// `1` for true and `0` for false, as a decimal digit.
pub open spec fn flag(b: bool) -> Seq<char> {
    decimal(if b { 1nat } else { 0nat })
}

/// `[` + `hex16(v) + ","` per entry + `]` for each row, concatenated.
pub open spec fn bracketed_rows(rows: Seq<Seq<u64>>) -> Seq<char>
    decreases rows.len(),
{
    if rows.len() == 0 {
        Seq::empty()
    } else {
        bracketed_rows(rows.drop_last()) + seq!['['] + hex_words(rows.last(), ',') + seq![']']
    }
}

/// The counters of the header line.
pub open spec fn header_counts(label: Seq<char>, r: IvpSummary) -> Seq<char> {
    "case="@ + label + " status="@ + signed_decimal(r.status as int) + " success="@ + flag(
        r.success,
    ) + " nfev="@ + decimal(r.nfev as nat) + " njev="@ + decimal(r.njev as nat) + " nlu="@
        + decimal(r.nlu as nat)
}

/// The flags that end the header line, then the message as the text `quoted`.
pub open spec fn header_flags(r: IvpSummary, quoted: Seq<char>) -> Seq<char> {
    " sol="@ + flag(r.has_sol) + " t_events="@ + flag(r.has_t_events) + " y_events="@ + flag(
        r.has_y_events,
    ) + " message="@ + quoted + "\n"@
}

/// The three lines written for one run, with the message given as the text `quoted`:
/// the header, `t=` with the time bit patterns (each followed by a comma), and `y=` with
/// one bracketed row of state bit patterns per time point.
pub open spec fn result_text_quoted(label: Seq<char>, r: IvpSummary, quoted: Seq<char>) -> Seq<
    char,
> {
    header_counts(label, r) + header_flags(r, quoted) + "t="@ + hex_words(r.t_bits@, ',') + "\n"@
        + "y="@ + bracketed_rows(nested_bits(r.y_bits@)) + "\n"@
}

/// The three lines written for one run, the message in its `Debug` form.
pub open spec fn result_text(label: Seq<char>, r: IvpSummary) -> Seq<char> {
    result_text_quoted(label, r, debug_text(r.message@))
}

fn push_flag(s: &mut String, b: bool)
    ensures
        final(s)@ == old(s)@ + flag(b),
{
    push_decimal(s, if b { 1 } else { 0 });
}

fn push_header_counts(output: &mut String, label: &str, result: &IvpSummary)
    ensures
        final(output)@ == old(output)@ + header_counts(label@, *result),
{
    let ghost s0 = output@;
    output.append("case=");
    output.append(label);
    output.append(" status=");
    crate::text::push_signed_decimal(output, result.status);
    output.append(" success=");
    push_flag(output, result.success);
    output.append(" nfev=");
    push_decimal(output, result.nfev as u64);
    output.append(" njev=");
    push_decimal(output, result.njev as u64);
    output.append(" nlu=");
    push_decimal(output, result.nlu as u64);
    assert(output@ =~= s0 + header_counts(label@, *result));
}

fn push_header_flags(output: &mut String, result: &IvpSummary, quoted: &str)
    ensures
        final(output)@ == old(output)@ + header_flags(*result, quoted@),
{
    let ghost s0 = output@;
    output.append(" sol=");
    push_flag(output, result.has_sol);
    output.append(" t_events=");
    push_flag(output, result.has_t_events);
    output.append(" y_events=");
    push_flag(output, result.has_y_events);
    output.append(" message=");
    output.append(quoted);
    output.append("\n");
    assert(output@ =~= s0 + header_flags(*result, quoted@));
}

fn push_rows(output: &mut String, rows: &[Vec<u64>])
    ensures
        final(output)@ == old(output)@ + bracketed_rows(nested_bits(rows@)),
{
    let ghost s0 = output@;
    let ghost m = nested_bits(rows@);
    let mut i: usize = 0;
    while i < rows.len()
        invariant
            i <= rows@.len(),
            m == nested_bits(rows@),
            output@ == s0 + bracketed_rows(m.take(i as int)),
        decreases rows@.len() - i,
    {
        output.append("[");
        push_hex_words(output, rows[i].as_slice(), false);
        output.append("]");
        i += 1;
        proof {
            reveal_strlit("[");
            reveal_strlit("]");
            let t = m.take(i as int);
            assert(t.drop_last() =~= m.take(i - 1));
            assert(t.last() == rows@[i - 1]@);
            assert(output@ =~= s0 + bracketed_rows(t));
        }
    }
    assert(m.take(i as int) =~= m);
}

/// Appends the record of one run: a header line
/// `case=.. status=.. success=.. nfev=.. njev=.. nlu=.. sol=.. t_events=.. y_events=.. message=..`
/// (flags as 0/1, the message in its `Debug` form), then the `t=` and `y=` lines of bit
/// patterns.
pub fn write_result(output: &mut String, label: &str, result: &IvpSummary)
    ensures
        final(output)@ == old(output)@ + result_text(label@, *result),
{
    let quoted = debug_quoted(result.message.as_str());
    write_result_quoted(output, label, result, quoted.as_str());
}

/// Appends the record of one run as `write_result` does, with `quoted` written in place
/// of the message's `Debug` form.
pub fn write_result_quoted(output: &mut String, label: &str, result: &IvpSummary, quoted: &str)
    ensures
        final(output)@ == old(output)@ + result_text_quoted(label@, *result, quoted@),
{
    let ghost s0 = output@;
    push_header_counts(output, label, result);
    push_header_flags(output, result, quoted);
    output.append("t=");
    push_hex_words(output, result.t_bits.as_slice(), false);
    output.append("\n");
    output.append("y=");
    push_rows(output, result.y_bits.as_slice());
    output.append("\n");
    assert(output@ =~= s0 + result_text_quoted(label@, *result, quoted@));
}

/// The golden text of the four recorded solves, in this order and under these labels:
/// exponential decay (RK45), Lorenz (RK45), 64-state stiff decay (BDF) and 32-state
/// stiff decay (Radau).
pub open spec fn ivp_golden(
    exponential: IvpSummary,
    lorenz: IvpSummary,
    stiff64: IvpSummary,
    stiff32: IvpSummary,
) -> Seq<char> {
    result_text("exponential-rk45-no-output"@, exponential) + result_text(
        "lorenz-rk45-no-output"@,
        lorenz,
    ) + result_text("stiff64-bdf-no-output"@, stiff64) + result_text(
        "stiff32-radau-no-output"@,
        stiff32,
    )
}

/// The golden text of the integration harness from the four recorded solves.
pub fn golden_text(
    exponential: &IvpSummary,
    lorenz: &IvpSummary,
    stiff64: &IvpSummary,
    stiff32: &IvpSummary,
) -> (text: String)
    ensures
        text@ == ivp_golden(*exponential, *lorenz, *stiff64, *stiff32),
{
    let mut output = String::new();
    write_result(&mut output, "exponential-rk45-no-output", exponential);
    write_result(&mut output, "lorenz-rk45-no-output", lorenz);
    write_result(&mut output, "stiff64-bdf-no-output", stiff64);
    write_result(&mut output, "stiff32-radau-no-output", stiff32);
    assert(output@ =~= ivp_golden(*exponential, *lorenz, *stiff64, *stiff32));
    output
}

/// The position of the last `[` before position `i` of `s`, or -1 when there is none.
pub open spec fn last_open(s: Seq<char>, i: int) -> int
    decreases i,
{
    if i <= 0 {
        -1
    } else if s[i - 1] == '[' {
        i - 1
    } else {
        last_open(s, i - 1)
    }
}

/// `last_open(s, i)` is -1 or a position before `i`.
pub proof fn lemma_last_open_bound(s: Seq<char>, i: int)
    ensures
        last_open(s, i) < i || i <= 0,
        last_open(s, i) >= -1,
    decreases i,
{
    if i > 0 && s[i - 1] != '[' {
        lemma_last_open_bound(s, i - 1);
    }
}

proof fn lemma_last_open_at(s: Seq<char>, b: int, i: int)
    requires
        0 <= b < i <= s.len(),
        s[b] == '[',
        forall|k: int| b < k < i ==> s[k] != '[',
    ensures
        last_open(s, i) == b,
    decreases i,
{
    if i - 1 != b {
        lemma_last_open_at(s, b, i - 1);
    }
}

/// The rows of words of a text made of one bracketed group of hexadecimal words per row,
/// read from the last group back.
pub open spec fn decode_rows(s: Seq<char>) -> Seq<Seq<u64>>
    decreases s.len(),
{
    let j = last_open(s, s.len() as int);
    if s.len() == 0 || j < 0 {
        Seq::empty()
    } else {
        proof {
            lemma_last_open_bound(s, s.len() as int);
        }
        decode_rows(s.subrange(0, j)).push(decode_hex_words(s.subrange(j + 1, s.len() - 1)))
    }
}

/// Law: decoding the bracketed rows of words gives back every row.
pub proof fn lemma_bracketed_rows_decode(rows: Seq<Seq<u64>>)
    ensures
        decode_rows(bracketed_rows(rows)) == rows,
    decreases rows.len(),
{
    if rows.len() > 0 {
        let s = bracketed_rows(rows);
        let b = bracketed_rows(rows.drop_last());
        let w = hex_words(rows.last(), ',');
        lemma_bracketed_rows_decode(rows.drop_last());
        lemma_hex_words_decode(rows.last(), ',');
        assert(s == b + seq!['['] + w + seq![']']);
        assert(s.len() == b.len() + w.len() + 2);
        assert forall|k: int| b.len() < k < s.len() implies s[k] != '[' by {
            if k < s.len() - 1 {
                assert(s[k] == w[k - b.len() - 1]);
            }
        }
        lemma_last_open_at(s, b.len() as int, s.len() as int);
        assert(s.subrange(0, b.len() as int) =~= b);
        assert(s.subrange(b.len() as int + 1, s.len() - 1) =~= w);
        assert(decode_rows(s) =~= rows);
    } else {
        assert(decode_rows(bracketed_rows(rows)) =~= rows);
    }
}

/// Law: in the record of a run, the `t=` line carries the time bit patterns and the `y=`
/// line the state rows, and decoding their 16-digit hexadecimal words gives back those
/// bit patterns exactly.
pub proof fn lemma_result_lines_decode(label: Seq<char>, r: IvpSummary, quoted: Seq<char>)
    ensures
        result_text_quoted(label, r, quoted) == header_counts(label, r) + header_flags(r, quoted)
            + "t="@ + hex_words(r.t_bits@, ',') + "\n"@ + "y="@ + bracketed_rows(nested_bits(r.y_bits@))
            + "\n"@,
        decode_hex_words(hex_words(r.t_bits@, ',')) == r.t_bits@,
        decode_rows(bracketed_rows(nested_bits(r.y_bits@))) == nested_bits(r.y_bits@),
{
    lemma_hex_words_decode(r.t_bits@, ',');
    lemma_bracketed_rows_decode(nested_bits(r.y_bits@));
}

/// The character written for a flag: `1` when set, `0` otherwise.
pub open spec fn flag_char(b: bool) -> char {
    if b {
        '1'
    } else {
        '0'
    }
}

/// Law: the flags part of a record header reads ` sol=` then the dense-output flag at
/// position 5, ` t_events=` then the event-times flag at 16, ` y_events=` then the
/// event-states flag at 27, and ` message=` then the message text from 37 on; each flag is
/// `1` exactly when its own field is set.
pub proof fn lemma_header_flag_positions(r: IvpSummary, quoted: Seq<char>)
    ensures
        header_flags(r, quoted).len() == 38 + quoted.len(),
        header_flags(r, quoted).subrange(0, 5) == " sol="@,
        header_flags(r, quoted)[5] == flag_char(r.has_sol),
        header_flags(r, quoted).subrange(6, 16) == " t_events="@,
        header_flags(r, quoted)[16] == flag_char(r.has_t_events),
        header_flags(r, quoted).subrange(17, 27) == " y_events="@,
        header_flags(r, quoted)[27] == flag_char(r.has_y_events),
        header_flags(r, quoted).subrange(28, 37) == " message="@,
        header_flags(r, quoted).subrange(37, 37 + quoted.len() as int) == quoted,
        header_flags(r, quoted)[37 + quoted.len() as int] == '\n',
{
    reveal_strlit(" sol=");
    reveal_strlit(" t_events=");
    reveal_strlit(" y_events=");
    reveal_strlit(" message=");
    reveal_strlit("\n");
    assert(decimal(1) == seq!['1']);
    assert(decimal(0) == seq!['0']);
    let h = header_flags(r, quoted);
    assert(h.subrange(0, 5) =~= " sol="@);
    assert(h.subrange(6, 16) =~= " t_events="@);
    assert(h.subrange(17, 27) =~= " y_events="@);
    assert(h.subrange(28, 37) =~= " message="@);
    assert(h.subrange(37, 37 + quoted.len() as int) =~= quoted);
}

/// Law: the counters part of a record header gives the label, the status in signed
/// decimal, the success flag as one character that is `1` exactly when the run succeeded,
/// and the evaluation, Jacobian and factorization counts in decimal, in that order.
pub proof fn lemma_header_counts_fields(label: Seq<char>, r: IvpSummary)
    ensures
        header_counts(label, r) == "case="@ + label + " status="@ + signed_decimal(r.status as int)
            + " success="@ + seq![flag_char(r.success)] + " nfev="@ + decimal(r.nfev as nat)
            + " njev="@ + decimal(r.njev as nat) + " nlu="@ + decimal(r.nlu as nat),
{
    assert(decimal(1) == seq!['1']);
    assert(decimal(0) == seq!['0']);
    assert(flag(r.success) == seq![flag_char(r.success)]);
}

} // verus!
