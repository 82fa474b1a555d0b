//! The text encoding of a heatmap, at the byte level.
//!
//! The format is newline-separated: one header line of six space-separated
//! decimal integers — precision, memory bound, value bound, slice duration,
//! slice count, window start — then one line `sliceStart value count` per
//! non-zero bucket, in slice order and bucket order.

use crate::config::{config_ok, ConfigView};
use crate::heatmap::{
    slice_start, spec_fresh, spec_increment_by, HeatmapView,
};
use crate::hist::quant_value;
use vstd::prelude::*;

verus! {

/// An ASCII decimal digit.
pub open spec fn is_digit(b: u8) -> bool {
    48 <= b <= 57
}

/// Every byte a decimal digit.
pub open spec fn all_digits(s: Seq<u8>) -> bool {
    forall|i: int| 0 <= i < s.len() ==> is_digit(#[trigger] s[i])
}

/// The integer a digit string denotes.
pub open spec fn dec_val(s: Seq<u8>) -> int
    decreases s.len(),
{
    if s.len() == 0 {
        0
    } else {
        dec_val(s.drop_last()) * 10 + (s.last() - 48)
    }
}

/// The canonical decimal digits of `n`: no leading zeros, at least one
/// digit.
pub open spec fn spec_dec(n: nat) -> Seq<u8>
    decreases n,
{
    if n < 10 {
        seq![(48 + n) as u8]
    } else {
        spec_dec(n / 10).push((48 + n % 10) as u8)
    }
}

/// What parsing a token yields: the denoted value, if the token is a
/// non-empty digit string whose value fits in `u64`.
pub open spec fn spec_parse_u64(tok: Seq<u8>) -> Option<u64> {
    if tok.len() >= 1 && all_digits(tok) && dec_val(tok) <= u64::MAX {
        Some(dec_val(tok) as u64)
    } else {
        None
    }
}

/// The first position at or after `from` holding `b`, or the length.
pub open spec fn spec_find(s: Seq<u8>, b: u8, from: int) -> int
    decreases s.len() - from,
{
    if from < 0 || from >= s.len() {
        s.len() as int
    } else if s[from] == b {
        from
    } else {
        spec_find(s, b, from + 1)
    }
}

/// The first position at or after `from` holding something other than `b`,
/// or the length.
pub open spec fn spec_skip(s: Seq<u8>, b: u8, from: int) -> int
    decreases s.len() - from,
{
    if from < 0 || from >= s.len() {
        s.len() as int
    } else if s[from] != b {
        from
    } else {
        spec_skip(s, b, from + 1)
    }
}

pub proof fn lemma_find_bounds(s: Seq<u8>, b: u8, from: int)
    requires
        0 <= from <= s.len(),
    ensures
        from <= spec_find(s, b, from) <= s.len(),
        from <= spec_skip(s, b, from) <= s.len(),
    decreases s.len() - from,
{
    if from < s.len() {
        lemma_find_bounds(s, b, from + 1);
    }
}

/// What the skip stops at is not `b`.
pub proof fn lemma_skip_hit(s: Seq<u8>, b: u8, from: int)
    requires
        0 <= from,
    ensures
        spec_skip(s, b, from) < s.len() ==> s[spec_skip(s, b, from)] != b,
    decreases s.len() - from,
{
    if from < s.len() && s[from] == b {
        lemma_skip_hit(s, b, from + 1);
    }
}

/// The lines of a byte string: the segments between newlines, a trailing
/// segment without a newline included, a trailing newline adding nothing.
pub open spec fn spec_lines(s: Seq<u8>, from: int) -> Seq<Seq<u8>>
    decreases s.len() - from + 1,
{
    if from < 0 || from >= s.len() {
        seq![]
    } else {
        let e = spec_find(s, 10, from);
        proof {
            lemma_find_bounds(s, 10, from);
        }
        seq![s.subrange(from, e)] + spec_lines(s, e + 1)
    }
}

/// The whitespace-separated tokens of a line: maximal runs of non-space
/// bytes.
pub open spec fn spec_tokens(s: Seq<u8>, from: int) -> Seq<Seq<u8>>
    decreases s.len() - from,
{
    if from < 0 {
        seq![]
    } else {
        let st = spec_skip(s, 32, from);
        if st >= s.len() {
            seq![]
        } else {
            let e = spec_find(s, 32, st);
            proof {
                lemma_find_bounds(s, 32, from);
                lemma_skip_hit(s, 32, from);
                lemma_find_bounds(s, 32, st + 1);
                assert(s[st] != 32);
                assert(e == spec_find(s, 32, st + 1));
                assert(e > st);
            }
            seq![s.subrange(st, e)] + spec_tokens(s, e)
        }
    }
}

/// One body line: `sliceStart value count` and a newline.
pub open spec fn spec_line(t: u64, value: u64, count: u64) -> Seq<u8> {
    spec_dec(t as nat) + seq![32u8] + spec_dec(value as nat) + seq![32u8] + spec_dec(count as nat)
        + seq![10u8]
}

/// The header line of a configuration.
pub open spec fn spec_header(c: ConfigView) -> Seq<u8> {
    spec_dec(c.precision as nat) + seq![32u8] + spec_dec(c.max_memory as nat) + seq![32u8]
        + spec_dec(c.max_value as nat) + seq![32u8] + spec_dec(c.slice_duration as nat)
        + seq![32u8] + spec_dec(c.num_slices as nat) + seq![32u8] + spec_dec(c.start as nat)
        + seq![10u8]
}

/// The lines of one slice, from bucket `k` on: one line per non-zero
/// bucket, carrying the bucket's nominal value.
pub open spec fn spec_slice_lines(t: u64, p: u64, mv: u64, counts: Seq<u64>, k: int) -> Seq<u8>
    decreases counts.len() - k,
{
    if k < 0 || k >= counts.len() {
        seq![]
    } else {
        (if counts[k] > 0 {
            spec_line(t, quant_value(p, mv, k), counts[k])
        } else {
            seq![]
        }) + spec_slice_lines(t, p, mv, counts, k + 1)
    }
}

/// The body: every slice's lines, in slice order.
pub open spec fn spec_body(v: HeatmapView, j: int) -> Seq<u8>
    decreases v.slices.len() - j,
{
    if j < 0 || j >= v.slices.len() {
        seq![]
    } else {
        spec_slice_lines(
            slice_start(v, j),
            v.config.precision as u64,
            v.config.max_value,
            v.slices[j],
            0,
        ) + spec_body(v, j + 1)
    }
}

/// The full encoding of a heatmap.
pub open spec fn spec_encode(v: HeatmapView) -> Seq<u8> {
    spec_header(v.config) + spec_body(v, 0)
}

/// What the header line must parse to: six tokens, each a `u64`, the first
/// two within `u32`, the fifth within `usize`.
pub open spec fn spec_parse_header(line: Seq<u8>) -> Option<ConfigView> {
    let toks = spec_tokens(line, 0);
    if toks.len() != 6 {
        None
    } else {
        if spec_parse_u64(toks[0]) is Some && spec_parse_u64(toks[1]) is Some && spec_parse_u64(
            toks[2],
        ) is Some && spec_parse_u64(toks[3]) is Some && spec_parse_u64(toks[4]) is Some
            && spec_parse_u64(toks[5]) is Some {
            let precision = spec_parse_u64(toks[0])->Some_0;
            let max_memory = spec_parse_u64(toks[1])->Some_0;
            let max_value = spec_parse_u64(toks[2])->Some_0;
            let slice_duration = spec_parse_u64(toks[3])->Some_0;
            let num_slices = spec_parse_u64(toks[4])->Some_0;
            let start = spec_parse_u64(toks[5])->Some_0;
            if precision <= u32::MAX && max_memory <= u32::MAX && num_slices <= usize::MAX {
                Some(
                    ConfigView {
                        precision: precision as u32,
                        max_memory: max_memory as u32,
                        max_value,
                        slice_duration,
                        num_slices: num_slices as usize,
                        start,
                    },
                )
            } else {
                None
            }
        } else {
            None
        }
    }
}

/// Replay the body lines from `i` on into `v`: each line must hold exactly
/// three `u64` tokens; record failures are dropped, parse failures abort.
pub open spec fn spec_replay_lines(v: HeatmapView, lines: Seq<Seq<u8>>, i: int) -> Option<
    HeatmapView,
>
    decreases lines.len() - i,
{
    if i < 0 || i >= lines.len() {
        Some(v)
    } else {
        let toks = spec_tokens(lines[i], 0);
        if toks.len() != 3 {
            None
        } else if spec_parse_u64(toks[0]) is Some && spec_parse_u64(toks[1]) is Some
            && spec_parse_u64(toks[2]) is Some {
            spec_replay_lines(
                spec_increment_by(
                    v,
                    spec_parse_u64(toks[0])->Some_0,
                    spec_parse_u64(toks[1])->Some_0,
                    spec_parse_u64(toks[2])->Some_0,
                ).0,
                lines,
                i + 1,
            )
        } else {
            None
        }
    }
}

/// What decoding a byte string yields: the heatmap its header describes
/// with every body line replayed, or nothing where the text is not of the
/// format or the header not buildable.
pub open spec fn spec_decode(bytes: Seq<u8>) -> Option<HeatmapView> {
    let lines = spec_lines(bytes, 0);
    if lines.len() == 0 {
        None
    } else {
        match spec_parse_header(lines[0]) {
            None => None,
            Some(c) => if config_ok(c) {
                spec_replay_lines(spec_fresh(c), lines, 1)
            } else {
                None
            },
        }
    }
}

// --- round-trip lemmas -------------------------------------------------------

/// The canonical digits of a number are digits, at least one, and denote it.
pub proof fn lemma_spec_dec_digits(n: nat)
    ensures
        all_digits(spec_dec(n)),
        spec_dec(n).len() >= 1,
        dec_val(spec_dec(n)) == n,
    decreases n,
{
    if n < 10 {
        assert(spec_dec(n) =~= seq![(48 + n) as u8]);
        assert(spec_dec(n).drop_last() =~= Seq::<u8>::empty());
        assert(spec_dec(n).last() == (48 + n) as u8);
        assert(dec_val(spec_dec(n)) == dec_val(Seq::<u8>::empty()) * 10 + ((48 + n) as u8 - 48));
    } else {
        lemma_spec_dec_digits(n / 10);
        let d = spec_dec(n / 10);
        let w = d.push((48 + n % 10) as u8);
        assert(w.drop_last() =~= d);
        assert(w.last() == (48 + n % 10) as u8);
        assert(dec_val(w) == dec_val(d) * 10 + (n % 10));
        assert((n / 10) * 10 + n % 10 == n) by (nonlinear_arith)
            requires
                n >= 0,
        {
        }
        assert forall|i: int| 0 <= i < w.len() implies is_digit(#[trigger] w[i]) by {
            if i < d.len() {
                assert(w[i] == d[i]);
            }
        }
    }
}

/// Parsing the canonical digits of a `u64` gives it back.
pub proof fn lemma_parse_spec_dec(n: u64)
    ensures
        spec_parse_u64(spec_dec(n as nat)) == Some(n),
{
    lemma_spec_dec_digits(n as nat);
}

/// Where a scan stops: `j` is the first position at or after `from` that
/// holds `b`.
pub proof fn lemma_find_char(s: Seq<u8>, b: u8, from: int, j: int)
    requires
        0 <= from <= j <= s.len(),
        forall|i: int| from <= i < j ==> s[i] != b,
        j == s.len() || s[j] == b,
    ensures
        spec_find(s, b, from) == j,
    decreases j - from,
{
    if from < j {
        lemma_find_char(s, b, from + 1, j);
    }
}

/// Where a skip stops: `j` is the first position at or after `from` that
/// does not hold `b`.
pub proof fn lemma_skip_char(s: Seq<u8>, b: u8, from: int, j: int)
    requires
        0 <= from <= j <= s.len(),
        forall|i: int| from <= i < j ==> s[i] == b,
        j == s.len() || s[j] != b,
    ensures
        spec_skip(s, b, from) == j,
    decreases j - from,
{
    if from < j {
        lemma_skip_char(s, b, from + 1, j);
    }
}

/// In a string laid out as token, space, token, space, ... with every token
/// a non-empty run of digits, the tokens from a token boundary on are
/// exactly the remaining tokens.  `parts` are the remaining tokens.
pub proof fn lemma_tokens_of_spaced(s: Seq<u8>, from: int, parts: Seq<Seq<u8>>)
    requires
        0 <= from <= s.len(),
        parts.len() >= 1,
        spaced_from(s, from, parts),
    ensures
        spec_tokens(s, from) == parts,
    decreases parts.len(),
{
    reveal_with_fuel(spaced_from, 3);
    let t0 = parts[0];
    let e = from + t0.len();
    assert forall|i: int| from <= i < e implies s[i] != 32 by {
        assert(s[i] == t0[i - from]);
        assert(is_digit(t0[i - from]));
    }
    assert(s[from] == t0[0]);
    assert(s[from] != 32);
    lemma_skip_char(s, 32, from, from);
    lemma_find_char(s, 32, from, e);
    assert(s.subrange(from, e) =~= t0);
    if parts.len() == 1 {
        assert(e == s.len());
        lemma_skip_char(s, 32, e, e);
        assert(spec_tokens(s, e) =~= Seq::<Seq<u8>>::empty());
        assert(spec_tokens(s, from) =~= seq![t0] + Seq::<Seq<u8>>::empty());
        assert(spec_tokens(s, from) =~= parts);
    } else {
        let rest = parts.drop_first();
        let t1 = rest[0];
        assert(s[e] == 32);
        assert(s[e + 1] == t1[0]);
        assert(is_digit(t1[0]));
        lemma_tokens_of_spaced(s, e + 1, rest);
        lemma_skip_char(s, 32, e, e + 1);
        lemma_skip_char(s, 32, e + 1, e + 1);
        assert(spec_skip(s, 32, e) == spec_skip(s, 32, e + 1));
        assert(spec_tokens(s, e) == spec_tokens(s, e + 1));
        assert(spec_tokens(s, from) =~= seq![t0] + rest);
        assert(spec_tokens(s, from) =~= parts);
    }
}

/// The layout `lemma_tokens_of_spaced` asks for: from `from` on, the string
/// is the given non-empty digit tokens joined by single spaces, ending with
/// the last token.
pub open spec fn spaced_from(s: Seq<u8>, from: int, parts: Seq<Seq<u8>>) -> bool
    decreases parts.len(),
{
    if parts.len() == 0 {
        from == s.len()
    } else {
        let t0 = parts[0];
        &&& t0.len() >= 1
        &&& all_digits(t0)
        &&& from + t0.len() <= s.len()
        &&& (forall|i: int| 0 <= i < t0.len() ==> s[from + i] == #[trigger] t0[i])
        &&& if parts.len() == 1 {
            from + t0.len() == s.len()
        } else {
            &&& from + t0.len() < s.len()
            &&& s[from + t0.len()] == 32
            &&& spaced_from(s, from + t0.len() + 1, parts.drop_first())
        }
    }
}

/// The tokens joined by single spaces.
pub open spec fn join_sp(parts: Seq<Seq<u8>>) -> Seq<u8>
    decreases parts.len(),
{
    if parts.len() == 0 {
        seq![]
    } else if parts.len() == 1 {
        parts[0]
    } else {
        parts[0] + seq![32u8] + join_sp(parts.drop_first())
    }
}

/// A suffix that spells the joined tokens is laid out as
/// `lemma_tokens_of_spaced` asks.
pub proof fn lemma_spaced_join(s: Seq<u8>, from: int, parts: Seq<Seq<u8>>)
    requires
        parts.len() >= 1,
        forall|x: int|
            0 <= x < parts.len() ==> (#[trigger] parts[x]).len() >= 1 && all_digits(parts[x]),
        0 <= from,
        s.len() == from + join_sp(parts).len(),
        forall|i: int| 0 <= i < join_sp(parts).len() ==> s[from + i] == #[trigger] join_sp(
            parts,
        )[i],
    ensures
        spaced_from(s, from, parts),
    decreases parts.len(),
{
    reveal_with_fuel(spaced_from, 2);
    let t0 = parts[0];
    let j = join_sp(parts);
    assert forall|i: int| 0 <= i < t0.len() implies s[from + i] == #[trigger] t0[i] by {
        assert(j[i] == t0[i]);
        assert(s[from + i] == j[i]);
    }
    if parts.len() == 1 {
    } else {
        let rest = parts.drop_first();
        let jr = join_sp(rest);
        assert(j =~= t0 + seq![32u8] + jr);
        assert(j[t0.len() as int] == 32);
        assert(s[from + t0.len()] == 32);
        assert forall|i: int| 0 <= i < jr.len() implies s[from + t0.len() + 1 + i]
            == #[trigger] jr[i] by {
            assert(j[t0.len() + 1 + i] == jr[i]);
            assert(s[from + (t0.len() + 1 + i)] == j[t0.len() + 1 + i]);
        }
        lemma_spaced_join(s, from + t0.len() + 1, rest);
    }
}

/// Joined digit tokens hold no newline.
pub proof fn lemma_join_no_newline(parts: Seq<Seq<u8>>)
    requires
        forall|x: int|
            0 <= x < parts.len() ==> (#[trigger] parts[x]).len() >= 1 && all_digits(parts[x]),
    ensures
        forall|i: int| 0 <= i < join_sp(parts).len() ==> #[trigger] join_sp(parts)[i] != 10,
    decreases parts.len(),
{
    if parts.len() == 0 {
    } else if parts.len() == 1 {
        assert forall|i: int| 0 <= i < join_sp(parts).len() implies #[trigger] join_sp(
            parts,
        )[i] != 10 by {
            assert(is_digit(parts[0][i]));
        }
    } else {
        let t0 = parts[0];
        let rest = parts.drop_first();
        lemma_join_no_newline(rest);
        assert forall|i: int| 0 <= i < join_sp(parts).len() implies #[trigger] join_sp(
            parts,
        )[i] != 10 by {
            if i < t0.len() {
                assert(join_sp(parts)[i] == t0[i]);
                assert(is_digit(t0[i]));
            } else if i == t0.len() {
                assert(join_sp(parts)[i] == 32);
            } else {
                assert(join_sp(parts)[i] == join_sp(rest)[i - t0.len() - 1]);
            }
        }
    }
}

/// The six header tokens of a configuration.
pub open spec fn header_parts(c: ConfigView) -> Seq<Seq<u8>> {
    seq![
        spec_dec(c.precision as nat),
        spec_dec(c.max_memory as nat),
        spec_dec(c.max_value as nat),
        spec_dec(c.slice_duration as nat),
        spec_dec(c.num_slices as nat),
        spec_dec(c.start as nat),
    ]
}

/// The header line without its newline.
pub open spec fn header_content(c: ConfigView) -> Seq<u8> {
    join_sp(header_parts(c))
}

/// Each header token is a non-empty digit string.
pub proof fn lemma_header_parts_digits(c: ConfigView)
    ensures
        forall|x: int|
            0 <= x < header_parts(c).len() ==> (#[trigger] header_parts(c)[x]).len() >= 1
                && all_digits(header_parts(c)[x]),
{
    lemma_spec_dec_digits(c.precision as nat);
    lemma_spec_dec_digits(c.max_memory as nat);
    lemma_spec_dec_digits(c.max_value as nat);
    lemma_spec_dec_digits(c.slice_duration as nat);
    lemma_spec_dec_digits(c.num_slices as nat);
    lemma_spec_dec_digits(c.start as nat);
}

/// The header line is its six joined tokens and a newline.
#[verifier::rlimit(100)]
pub proof fn lemma_header_bytes(c: ConfigView)
    ensures
        spec_header(c) == header_content(c) + seq![10u8],
{
    reveal_with_fuel(join_sp, 8);
    assert(spec_header(c) =~= join_sp(header_parts(c)) + seq![10u8]);
}

/// The header is its content followed by a newline; the content holds no
/// newline, and parses back to the configuration.
#[verifier::rlimit(100)]
pub proof fn lemma_header_structure(c: ConfigView)
    ensures
        spec_header(c) == header_content(c) + seq![10u8],
        forall|i: int| 0 <= i < header_content(c).len() ==> #[trigger] header_content(c)[i] != 10,
        spec_parse_header(header_content(c)) == Some(c),
{
    let parts = header_parts(c);
    lemma_header_parts_digits(c);
    lemma_header_bytes(c);
    let j = join_sp(parts);
    lemma_join_no_newline(parts);
    lemma_spaced_join(j, 0, parts);
    lemma_tokens_of_spaced(j, 0, parts);
    lemma_parse_spec_dec(c.precision as u64);
    lemma_parse_spec_dec(c.max_memory as u64);
    lemma_parse_spec_dec(c.max_value);
    lemma_parse_spec_dec(c.slice_duration);
    lemma_parse_spec_dec(c.num_slices as u64);
    lemma_parse_spec_dec(c.start);
    assert(spec_parse_header(j) == Some(c));
}

/// The content (without the newline) of one body line.
pub open spec fn triple_line(t: u64, value: u64, count: u64) -> Seq<u8> {
    join_sp(seq![spec_dec(t as nat), spec_dec(value as nat), spec_dec(count as nat)])
}

/// One body line is its content followed by a newline, and the content
/// holds no newline.
pub proof fn lemma_triple_structure(t: u64, value: u64, count: u64)
    ensures
        spec_line(t, value, count) == triple_line(t, value, count) + seq![10u8],
        forall|i: int|
            0 <= i < triple_line(t, value, count).len() ==> #[trigger] triple_line(
                t,
                value,
                count,
            )[i] != 10,
        spec_tokens(triple_line(t, value, count), 0) == seq![
            spec_dec(t as nat),
            spec_dec(value as nat),
            spec_dec(count as nat),
        ],
{
    reveal_with_fuel(join_sp, 4);
    let parts = seq![spec_dec(t as nat), spec_dec(value as nat), spec_dec(count as nat)];
    lemma_spec_dec_digits(t as nat);
    lemma_spec_dec_digits(value as nat);
    lemma_spec_dec_digits(count as nat);
    assert(forall|x: int|
        0 <= x < parts.len() ==> (#[trigger] parts[x]).len() >= 1 && all_digits(parts[x]));
    assert(spec_line(t, value, count) =~= join_sp(parts) + seq![10u8]);
    lemma_join_no_newline(parts);
    lemma_spaced_join(join_sp(parts), 0, parts);
    lemma_tokens_of_spaced(join_sp(parts), 0, parts);
}

/// The line contents of one slice, from bucket `k` on: one per non-zero
/// bucket.
pub open spec fn line_list_slice(t: u64, p: u64, mv: u64, counts: Seq<u64>, k: int) -> Seq<
    Seq<u8>,
>
    decreases counts.len() - k,
{
    if k < 0 || k >= counts.len() {
        seq![]
    } else {
        (if counts[k] > 0 {
            seq![triple_line(t, quant_value(p, mv, k), counts[k])]
        } else {
            seq![]
        }) + line_list_slice(t, p, mv, counts, k + 1)
    }
}

/// The line contents of a heatmap's body, from slice `j` on.
pub open spec fn line_list_body(v: HeatmapView, j: int) -> Seq<Seq<u8>>
    decreases v.slices.len() - j,
{
    if j < 0 || j >= v.slices.len() {
        seq![]
    } else {
        line_list_slice(
            slice_start(v, j),
            v.config.precision as u64,
            v.config.max_value,
            v.slices[j],
            0,
        ) + line_list_body(v, j + 1)
    }
}

/// The bytes of the body from slice `j`, bucket `k` on.
pub open spec fn rem_bytes(v: HeatmapView, j: int, k: int) -> Seq<u8> {
    if 0 <= j < v.slices.len() {
        spec_slice_lines(
            slice_start(v, j),
            v.config.precision as u64,
            v.config.max_value,
            v.slices[j],
            k,
        ) + spec_body(v, j + 1)
    } else {
        seq![]
    }
}

/// The line contents of the body from slice `j`, bucket `k` on.
pub open spec fn rem_lines(v: HeatmapView, j: int, k: int) -> Seq<Seq<u8>> {
    if 0 <= j < v.slices.len() {
        line_list_slice(
            slice_start(v, j),
            v.config.precision as u64,
            v.config.max_value,
            v.slices[j],
            k,
        ) + line_list_body(v, j + 1)
    } else {
        seq![]
    }
}

/// A suffix of `s` holds exactly the bytes `r`.
pub open spec fn suffix_is(s: Seq<u8>, from: int, r: Seq<u8>) -> bool {
    &&& 0 <= from
    &&& s.len() == from + r.len()
    &&& forall|i: int| 0 <= i < r.len() ==> s[from + i] == #[trigger] r[i]
}

/// Splitting a suffix that spells the body's bytes gives the body's line
/// contents.
pub proof fn lemma_lines_of_body(s: Seq<u8>, from: int, v: HeatmapView, j: int, k: int)
    requires
        0 <= j <= v.slices.len(),
        0 <= k,
        suffix_is(s, from, rem_bytes(v, j, k)),
    ensures
        spec_lines(s, from) == rem_lines(v, j, k),
    decreases v.slices.len() - j, v.slices[j].len() - k + 1,
{
    let p = v.config.precision as u64;
    let mv = v.config.max_value;
    if j == v.slices.len() {
        assert(rem_bytes(v, j, k) =~= Seq::<u8>::empty());
        assert(from == s.len());
        assert(rem_lines(v, j, k) =~= Seq::<Seq<u8>>::empty());
    } else {
        let t = slice_start(v, j);
        let counts = v.slices[j];
        if k >= counts.len() {
            assert(spec_slice_lines(t, p, mv, counts, k) =~= Seq::<u8>::empty());
            assert(line_list_slice(t, p, mv, counts, k) =~= Seq::<Seq<u8>>::empty());
            assert(rem_bytes(v, j, k) =~= rem_bytes(v, j + 1, 0));
            assert(rem_lines(v, j, k) =~= rem_lines(v, j + 1, 0));
            lemma_lines_of_body(s, from, v, j + 1, 0);
        } else if counts[k] == 0 {
            assert(rem_bytes(v, j, k) =~= rem_bytes(v, j, k + 1));
            assert(rem_lines(v, j, k) =~= rem_lines(v, j, k + 1));
            lemma_lines_of_body(s, from, v, j, k + 1);
        } else {
            let value = quant_value(p, mv, k);
            let count = counts[k];
            let content = triple_line(t, value, count);
            lemma_triple_structure(t, value, count);
            assert(rem_bytes(v, j, k) =~= spec_line(t, value, count) + rem_bytes(v, j, k + 1));
            assert(rem_bytes(v, j, k) =~= content + seq![10u8] + rem_bytes(v, j, k + 1));
            let e = from + content.len();
            assert forall|i: int| 0 <= i < content.len() implies s[from + i] == #[trigger] content[i] by {
                assert(s[from + i] == rem_bytes(v, j, k)[i]);
            }
            assert forall|i: int| from <= i < e implies s[i] != 10 by {
                assert(s[i] == content[i - from]);
            }
            assert(s[from + content.len()] == rem_bytes(v, j, k)[content.len() as int]);
            assert(s[e] == 10);
            lemma_find_char(s, 10, from, e);
            assert(s.subrange(from, e) =~= content);
            assert forall|i: int| 0 <= i < rem_bytes(v, j, k + 1).len() implies s[e + 1 + i]
                == #[trigger] rem_bytes(v, j, k + 1)[i] by {
                assert(s[from + (content.len() + 1 + i)] == rem_bytes(v, j, k)[content.len() + 1
                    + i]);
                assert(rem_bytes(v, j, k)[content.len() + 1 + i] == rem_bytes(v, j, k + 1)[i]);
            }
            lemma_lines_of_body(s, e + 1, v, j, k + 1);
            assert(spec_lines(s, from) =~= seq![content] + rem_lines(v, j, k + 1));
            assert(rem_lines(v, j, k) =~= seq![content] + rem_lines(v, j, k + 1));
        }
    }
}

/// Replay the saved buckets of `v` — from slice `j`, bucket `k` on — into
/// `w`, in save order: each non-zero bucket as one record at its slice's
/// absolute start, carrying the bucket's nominal value.  This is exactly
/// what decoding an encoding of `v` does after it has rebuilt the fresh
/// heatmap.
pub open spec fn spec_reload_from(w: HeatmapView, v: HeatmapView, j: int, k: int) -> HeatmapView
    decreases v.slices.len() - j, v.slices[j].len() - k + 1,
{
    if j < 0 || k < 0 || j >= v.slices.len() {
        w
    } else if k >= v.slices[j].len() {
        spec_reload_from(w, v, j + 1, 0)
    } else if v.slices[j][k] > 0 {
        spec_reload_from(
            spec_increment_by(
                w,
                slice_start(v, j),
                quant_value(v.config.precision as u64, v.config.max_value, k),
                v.slices[j][k],
            ).0,
            v,
            j,
            k + 1,
        )
    } else {
        spec_reload_from(w, v, j, k + 1)
    }
}

/// Replaying the body's line contents is exactly `spec_reload_from`, and in
/// particular always succeeds.
pub proof fn lemma_replay_rem_lines(
    w: HeatmapView,
    v: HeatmapView,
    lines: Seq<Seq<u8>>,
    i: int,
    j: int,
    k: int,
)
    requires
        0 <= j <= v.slices.len(),
        0 <= k,
        0 <= i,
        lines.len() == i + rem_lines(v, j, k).len(),
        forall|x: int|
            0 <= x < rem_lines(v, j, k).len() ==> lines[i + x] == #[trigger] rem_lines(v, j, k)[x],
    ensures
        spec_replay_lines(w, lines, i) == Some(spec_reload_from(w, v, j, k)),
    decreases v.slices.len() - j, v.slices[j].len() - k + 1,
{
    let p = v.config.precision as u64;
    let mv = v.config.max_value;
    if j == v.slices.len() {
        assert(rem_lines(v, j, k) =~= Seq::<Seq<u8>>::empty());
        assert(i == lines.len());
    } else {
        let t = slice_start(v, j);
        let counts = v.slices[j];
        if k >= counts.len() {
            assert(rem_lines(v, j, k) =~= rem_lines(v, j + 1, 0));
            lemma_replay_rem_lines(w, v, lines, i, j + 1, 0);
        } else if counts[k] == 0 {
            assert(rem_lines(v, j, k) =~= rem_lines(v, j, k + 1));
            lemma_replay_rem_lines(w, v, lines, i, j, k + 1);
        } else {
            let value = quant_value(p, mv, k);
            let count = counts[k];
            assert(rem_lines(v, j, k) =~= seq![triple_line(t, value, count)] + rem_lines(
                v,
                j,
                k + 1,
            ));
            assert(rem_lines(v, j, k)[0] == triple_line(t, value, count));
            assert(lines[i + 0] == rem_lines(v, j, k)[0]);
            assert(lines[i] == triple_line(t, value, count));
            lemma_triple_structure(t, value, count);
            lemma_parse_spec_dec(t);
            lemma_parse_spec_dec(value);
            lemma_parse_spec_dec(count);
            let w1 = spec_increment_by(w, t, value, count).0;
            assert forall|x: int|
                0 <= x < rem_lines(v, j, k + 1).len() implies lines[i + 1 + x]
                == #[trigger] rem_lines(v, j, k + 1)[x] by {
                assert(lines[i + (1 + x)] == rem_lines(v, j, k)[1 + x]);
            }
            lemma_replay_rem_lines(w1, v, lines, i + 1, j, k + 1);
        }
    }
}

/// `spec_reload_from` moves neither configuration nor window.
pub proof fn lemma_reload_preserves(w: HeatmapView, v: HeatmapView, j: int, k: int)
    ensures
        spec_reload_from(w, v, j, k).config == w.config,
        spec_reload_from(w, v, j, k).start == w.start,
        spec_reload_from(w, v, j, k).stop == w.stop,
    decreases v.slices.len() - j, v.slices[j].len() - k + 1,
{
    if j < 0 || k < 0 || j >= v.slices.len() {
    } else if k >= v.slices[j].len() {
        lemma_reload_preserves(w, v, j + 1, 0);
    } else if v.slices[j][k] > 0 {
        let w1 = spec_increment_by(
            w,
            slice_start(v, j),
            quant_value(v.config.precision as u64, v.config.max_value, k),
            v.slices[j][k],
        ).0;
        assert(w1.config == w.config && w1.start == w.start && w1.stop == w.stop);
        lemma_reload_preserves(w1, v, j, k + 1);
    } else {
        lemma_reload_preserves(w, v, j, k + 1);
    }
}

// --- executable counterparts ------------------------------------------------

/// Append the decimal digits of `n`.
pub(crate) fn push_dec(out: &mut Vec<u8>, n: u64)
    ensures
        final (out)@ == old(out)@ + spec_dec(n as nat),
    decreases n,
{
    if n < 10 {
        out.push(48 + n as u8);
        proof {
            assert(out@ =~= old(out)@ + spec_dec(n as nat));
        }
    } else {
        push_dec(out, n / 10);
        out.push(48 + (n % 10) as u8);
        proof {
            assert(out@ =~= old(out)@ + spec_dec(n as nat));
        }
    }
}

/// Parse a whole token as a decimal `u64`.
pub(crate) fn parse_u64(tok: &Vec<u8>) -> (r: Option<u64>)
    ensures
        r == spec_parse_u64(tok@),
{
    let n: usize = tok.len();
    if n == 0 {
        return None;
    }
    let mut acc: u64 = 0;
    let mut i: usize = 0;
    while i < n
        invariant
            0 <= i <= n,
            n == tok@.len(),
            forall|j: int| 0 <= j < i ==> is_digit(#[trigger] tok@[j]),
            acc == dec_val(tok@.subrange(0, i as int)),
        decreases n - i,
    {
        let b: u8 = tok[i];
        if b < 48 || b > 57 {
            proof {
                assert(!is_digit(tok@[i as int]));
            }
            return None;
        }
        let d: u64 = (b - 48) as u64;
        let limit: u64 = 1_844_674_407_370_955_161;
        if acc > limit || (acc == limit && d > 5) {
            proof {
                assert(acc * 10 + d > u64::MAX) by (nonlinear_arith)
                    requires
                        acc > 1_844_674_407_370_955_161 || (acc == 1_844_674_407_370_955_161 && d
                            > 5),
                        0 <= d <= 9,
                {
                }
                assert(dec_val(tok@.subrange(0, i as int + 1)) == acc * 10 + d) by {
                    lemma_dec_val_step(tok@, i as int);
                }
                if all_digits(tok@) {
                    lemma_dec_val_prefix_le(tok@, i as int + 1);
                    assert(dec_val(tok@) > u64::MAX);
                }
            }
            return None;
        }
        proof {
            assert(acc * 10 + d <= u64::MAX) by (nonlinear_arith)
                requires
                    acc < 1_844_674_407_370_955_161 || (acc == 1_844_674_407_370_955_161 && d
                        <= 5),
                    0 <= d <= 9,
            {
            }
            assert(dec_val(tok@.subrange(0, i as int + 1)) == acc * 10 + d) by {
                lemma_dec_val_step(tok@, i as int);
            }
        }
        acc = acc * 10 + d;
        i = i + 1;
    }
    proof {
        assert(tok@.subrange(0, n as int) =~= tok@);
    }
    Some(acc)
}

/// `dec_val` of a prefix grows by one digit at a time.
pub proof fn lemma_dec_val_step(s: Seq<u8>, i: int)
    requires
        0 <= i < s.len(),
    ensures
        dec_val(s.subrange(0, i + 1)) == dec_val(s.subrange(0, i)) * 10 + (s[i] - 48),
{
    let p = s.subrange(0, i + 1);
    assert(p.drop_last() =~= s.subrange(0, i));
    assert(p.last() == s[i]);
}

/// For a digit string, the value of a prefix never exceeds the value of the
/// whole.
pub proof fn lemma_dec_val_prefix_le(s: Seq<u8>, i: int)
    requires
        0 <= i <= s.len(),
        all_digits(s),
    ensures
        dec_val(s.subrange(0, i)) <= dec_val(s),
    decreases s.len() - i,
{
    if i == s.len() {
        assert(s.subrange(0, i) =~= s);
    } else {
        lemma_dec_val_step(s, i);
        assert(dec_val(s.subrange(0, i)) >= 0) by {
            lemma_dec_val_nonneg(s.subrange(0, i));
        }
        assert(dec_val(s.subrange(0, i + 1)) >= dec_val(s.subrange(0, i))) by (nonlinear_arith)
            requires
                dec_val(s.subrange(0, i + 1)) == dec_val(s.subrange(0, i)) * 10 + (s[i] - 48),
                dec_val(s.subrange(0, i)) >= 0,
                48 <= s[i] <= 57,
        {
        }
        lemma_dec_val_prefix_le(s, i + 1);
    }
}

/// A digit string's value is never negative.
pub proof fn lemma_dec_val_nonneg(s: Seq<u8>)
    requires
        all_digits(s),
    ensures
        dec_val(s) >= 0,
    decreases s.len(),
{
    if s.len() > 0 {
        assert(all_digits(s.drop_last())) by {
            assert(forall|i: int|
                0 <= i < s.len() - 1 ==> s.drop_last()[i] == #[trigger] s[i]);
        }
        lemma_dec_val_nonneg(s.drop_last());
        assert(dec_val(s) == dec_val(s.drop_last()) * 10 + (s.last() - 48));
        assert(dec_val(s.drop_last()) * 10 >= 0) by (nonlinear_arith)
            requires
                dec_val(s.drop_last()) >= 0,
        {
        }
    }
}

/// The first position at or after `from` holding `b`, or the length.
pub(crate) fn find_byte(s: &Vec<u8>, b: u8, from: usize) -> (r: usize)
    requires
        from <= s@.len(),
    ensures
        r as int == spec_find(s@, b, from as int),
        from <= r <= s@.len(),
{
    proof {
        lemma_find_bounds(s@, b, from as int);
    }
    let n: usize = s.len();
    let mut i: usize = from;
    while i < n
        invariant
            from <= i <= n,
            n == s@.len(),
            spec_find(s@, b, from as int) == spec_find(s@, b, i as int),
        decreases n - i,
    {
        if s[i] == b {
            return i;
        }
        i = i + 1;
    }
    n
}

/// The first position at or after `from` holding something else than `b`,
/// or the length.
pub(crate) fn skip_byte(s: &Vec<u8>, b: u8, from: usize) -> (r: usize)
    requires
        from <= s@.len(),
    ensures
        r as int == spec_skip(s@, b, from as int),
        from <= r <= s@.len(),
{
    proof {
        lemma_find_bounds(s@, b, from as int);
    }
    let n: usize = s.len();
    let mut i: usize = from;
    while i < n
        invariant
            from <= i <= n,
            n == s@.len(),
            spec_skip(s@, b, from as int) == spec_skip(s@, b, i as int),
        decreases n - i,
    {
        if s[i] != b {
            return i;
        }
        i = i + 1;
    }
    n
}

/// The bytes `s[a..b]` as an owned vector.
pub(crate) fn subvec(s: &Vec<u8>, a: usize, b: usize) -> (r: Vec<u8>)
    requires
        a <= b <= s@.len(),
    ensures
        r@ == s@.subrange(a as int, b as int),
{
    let mut out: Vec<u8> = Vec::new();
    let mut i: usize = a;
    while i < b
        invariant
            a <= i <= b,
            b <= s@.len(),
            out@ == s@.subrange(a as int, i as int),
        decreases b - i,
    {
        out.push(s[i]);
        proof {
            assert(out@ =~= s@.subrange(a as int, i as int + 1));
        }
        i = i + 1;
    }
    out
}

/// The view of a vector of byte vectors.
pub open spec fn views(r: Seq<Vec<u8>>) -> Seq<Seq<u8>> {
    r.map_values(|v: Vec<u8>| v@)
}

/// Split into lines, as `spec_lines` has them.
pub(crate) fn split_lines(s: &Vec<u8>) -> (r: Vec<Vec<u8>>)
    ensures
        views(r@) == spec_lines(s@, 0),
{
    let n: usize = s.len();
    let mut out: Vec<Vec<u8>> = Vec::new();
    let mut pos: usize = 0;
    while pos < n
        invariant
            pos <= n,
            n == s@.len(),
            views(out@) + spec_lines(s@, pos as int) =~= spec_lines(s@, 0),
        decreases n - pos,
    {
        let e: usize = find_byte(s, 10, pos);
        let line: Vec<u8> = subvec(s, pos, e);
        proof {
            assert(spec_lines(s@, pos as int) == seq![s@.subrange(pos as int, e as int)]
                + spec_lines(s@, e as int + 1));
            assert(views(out@.push(line)) =~= views(out@).push(line@));
            assert(views(out@.push(line)) + spec_lines(s@, e as int + 1) =~= spec_lines(s@, 0));
        }
        out.push(line);
        if e == n {
            pos = n;
            proof {
                assert(spec_lines(s@, e as int + 1) =~= Seq::<Seq<u8>>::empty());
                assert(spec_lines(s@, pos as int) =~= Seq::<Seq<u8>>::empty());
            }
        } else {
            pos = e + 1;
        }
    }
    proof {
        assert(spec_lines(s@, pos as int) =~= Seq::<Seq<u8>>::empty());
        assert(views(out@) =~= spec_lines(s@, 0));
    }
    out
}

/// Split a line into its tokens, as `spec_tokens` has them.
pub(crate) fn split_tokens(s: &Vec<u8>) -> (r: Vec<Vec<u8>>)
    ensures
        views(r@) == spec_tokens(s@, 0),
{
    let n: usize = s.len();
    let mut out: Vec<Vec<u8>> = Vec::new();
    let mut pos: usize = 0;
    while pos < n
        invariant
            pos <= n,
            n == s@.len(),
            views(out@) + spec_tokens(s@, pos as int) =~= spec_tokens(s@, 0),
        decreases n - pos,
    {
        let st: usize = skip_byte(s, 32, pos);
        if st == n {
            proof {
                assert(spec_tokens(s@, pos as int) =~= Seq::<Seq<u8>>::empty());
                assert(spec_tokens(s@, n as int) =~= Seq::<Seq<u8>>::empty());
            }
            pos = n;
        } else {
            let e: usize = find_byte(s, 32, st);
            let tok: Vec<u8> = subvec(s, st, e);
            proof {
                lemma_skip_hit(s@, 32, pos as int);
                assert(s@[st as int] != 32);
                assert(spec_find(s@, 32, st as int) == spec_find(s@, 32, st as int + 1));
                lemma_find_bounds(s@, 32, st as int + 1);
                assert(e > st);
                assert(spec_tokens(s@, pos as int) == seq![s@.subrange(st as int, e as int)]
                    + spec_tokens(s@, e as int));
                assert(views(out@.push(tok)) =~= views(out@).push(tok@));
                assert(views(out@.push(tok)) + spec_tokens(s@, e as int) =~= spec_tokens(s@, 0));
            }
            out.push(tok);
            pos = e;
        }
    }
    proof {
        assert(spec_tokens(s@, pos as int) =~= Seq::<Seq<u8>>::empty());
        assert(views(out@) =~= spec_tokens(s@, 0));
    }
    out
}

} // verus!
