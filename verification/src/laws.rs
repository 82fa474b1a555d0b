//! The heatmap's laws, stated over its mathematical image and proved once
//! and for all.

use crate::codec::{
    header_content, lemma_find_char, lemma_header_structure, lemma_lines_of_body,
    lemma_reload_preserves, lemma_replay_rem_lines, rem_bytes, rem_lines, spec_body, spec_decode,
    spec_encode, spec_header, spec_lines, spec_parse_header, spec_reload_from, spec_replay_lines,
    spec_slice_lines, suffix_is,
};
use crate::config::{config_ok, ConfigView};
use crate::errors::Error;
use crate::heatmap::{
    count_at, slice_start, spec_clear, spec_fresh, spec_get, spec_increment_by, spec_index_for,
    spec_merge, spec_merge_from, spec_replay_from, wf_view, HeatmapView,
};
use crate::hist::{quant_key, quant_value, sat_add};
use vstd::prelude::*;

verus! {

/// A timestamp is assigned a slice exactly when it lies in the half-open
/// window `[start, stop)`; below the start the miss is `SampleTooEarly`, at
/// or past the stop it is `SampleTooLate`; an assigned index is always
/// within the slice count.
pub proof fn lemma_index_for_window(v: HeatmapView, t: u64)
    requires
        wf_view(v),
    ensures
        spec_index_for(v, t) is Ok <==> v.start <= t < v.stop,
        t < v.start ==> spec_index_for(v, t) == Err::<int, Error>(Error::SampleTooEarly),
        t >= v.stop ==> spec_index_for(v, t) == Err::<int, Error>(Error::SampleTooLate),
        spec_index_for(v, t) matches Ok(i) ==> 0 <= i < v.config.num_slices,
{
    if v.start <= t && t < v.stop {
        let d = v.config.slice_duration as int;
        let n = v.config.num_slices as int;
        let t0 = (t - v.start) as int;
        assert(0 <= t0 / d < n) by (nonlinear_arith)
            requires
                d >= 1,
                n >= 1,
                0 <= t0,
                t0 < d * n,
        {
        }
    }
}

/// One recording step, in full: it succeeds exactly on an in-window
/// timestamp and an admissible value; on success the reading at the
/// recorded point grows by the count (saturating), as does the entry
/// counter; on failure nothing changes.  Configuration and window never
/// move, and well-formedness is preserved.
pub proof fn lemma_increment_step(v: HeatmapView, t: u64, value: u64, count: u64)
    requires
        wf_view(v),
    ensures
        wf_view(spec_increment_by(v, t, value, count).0),
        spec_increment_by(v, t, value, count).0.config == v.config,
        spec_increment_by(v, t, value, count).0.start == v.start,
        spec_increment_by(v, t, value, count).0.stop == v.stop,
        spec_increment_by(v, t, value, count).1 is Ok <==> (v.start <= t < v.stop && value
            <= v.config.max_value),
        spec_increment_by(v, t, value, count).1 is Ok ==> count_at(
            spec_increment_by(v, t, value, count).0,
            t,
            value,
        ) == sat_add(count_at(v, t, value), count),
        spec_increment_by(v, t, value, count).1 is Err ==> spec_increment_by(
            v,
            t,
            value,
            count,
        ).0 == v,
        spec_increment_by(v, t, value, count).0.entries == (
        if spec_increment_by(v, t, value, count).1 is Ok {
            sat_add(v.entries, count)
        } else {
            v.entries
        }),
{
    lemma_index_for_window(v, t);
    let r = spec_increment_by(v, t, value, count);
    if r.1 is Ok {
        let i = spec_index_for(v, t)->Ok_0;
        let k = crate::hist::quant_key(v.config.precision as u64, v.config.max_value, value);
        assert(0 <= i < v.slices.len());
        assert(0 <= k < v.slices[i].len());
        assert(r.0.slices[i] == v.slices[i].update(k, sat_add(v.slices[i][k], count)));
        assert(count_at(r.0, t, value) == sat_add(count_at(v, t, value), count));
        assert forall|j: int| 0 <= j < r.0.slices.len() implies (#[trigger] r.0.slices[j]).len()
            == crate::hist::quant_buckets(v.config.precision as u64, v.config.max_value) by {
            assert(v.slices[j].len() == crate::hist::quant_buckets(
                v.config.precision as u64,
                v.config.max_value,
            ));
        }
    }
}

/// Recording one observation at a point that reads zero makes it read
/// exactly 1.
pub proof fn lemma_increment_then_get(v: HeatmapView, t: u64, value: u64)
    requires
        wf_view(v),
        count_at(v, t, value) == 0,
        spec_increment_by(v, t, value, 1).1 is Ok,
    ensures
        spec_get(spec_increment_by(v, t, value, 1).0, t, value) == Ok::<u64, Error>(1u64),
{
    lemma_increment_step(v, t, value, 1);
}

/// Apply a whole sequence of `count`s at one time-value point, in order.
pub open spec fn spec_record_all(v: HeatmapView, t: u64, value: u64, counts: Seq<u64>) -> HeatmapView
    decreases counts.len(),
{
    if counts.len() == 0 {
        v
    } else {
        spec_record_all(spec_increment_by(v, t, value, counts[0]).0, t, value, counts.drop_first())
    }
}

/// The sum of a sequence of counts.
pub open spec fn seq_sum(counts: Seq<u64>) -> int
    decreases counts.len(),
{
    if counts.len() == 0 {
        0
    } else {
        counts[0] + seq_sum(counts.drop_first())
    }
}

/// Repeated records at one in-window, admissible time-value point
/// accumulate: the point then reads its old count plus the sum of all the
/// recorded counts (clamped at `u64::MAX`).
pub proof fn lemma_repeated_increments(v: HeatmapView, t: u64, value: u64, counts: Seq<u64>)
    requires
        wf_view(v),
        v.start <= t < v.stop,
        value <= v.config.max_value,
    ensures
        wf_view(spec_record_all(v, t, value, counts)),
        spec_record_all(v, t, value, counts).config == v.config,
        spec_record_all(v, t, value, counts).start == v.start,
        spec_record_all(v, t, value, counts).stop == v.stop,
        count_at(spec_record_all(v, t, value, counts), t, value) == (
        if count_at(v, t, value) + seq_sum(counts) <= u64::MAX {
            (count_at(v, t, value) + seq_sum(counts)) as u64
        } else {
            u64::MAX
        }),
    decreases counts.len(),
{
    lemma_seq_sum_nonneg(counts);
    if counts.len() == 0 {
    } else {
        let v1 = spec_increment_by(v, t, value, counts[0]).0;
        lemma_increment_step(v, t, value, counts[0]);
        lemma_seq_sum_nonneg(counts.drop_first());
        lemma_repeated_increments(v1, t, value, counts.drop_first());
    }
}

pub proof fn lemma_seq_sum_nonneg(counts: Seq<u64>)
    ensures
        seq_sum(counts) >= 0,
    decreases counts.len(),
{
    if counts.len() > 0 {
        lemma_seq_sum_nonneg(counts.drop_first());
    }
}

/// Whether a record at `(t, value)` would land: the timestamp is in the
/// window and the value within the configured maximum.  This depends only
/// on configuration and window, which recording never moves.
pub open spec fn accepted(v: HeatmapView, t: u64, value: u64) -> bool {
    v.start <= t < v.stop && value <= v.config.max_value
}

/// Apply a sequence of `(time, value, count)` records, in order.
pub open spec fn spec_apply_ops(v: HeatmapView, ops: Seq<(u64, u64, u64)>) -> HeatmapView
    decreases ops.len(),
{
    if ops.len() == 0 {
        v
    } else {
        spec_apply_ops(spec_increment_by(v, ops[0].0, ops[0].1, ops[0].2).0, ops.drop_first())
    }
}

/// The sum of the counts of exactly the records that land.
pub open spec fn ok_sum(v: HeatmapView, ops: Seq<(u64, u64, u64)>) -> int
    decreases ops.len(),
{
    if ops.len() == 0 {
        0
    } else {
        (if accepted(v, ops[0].0, ops[0].1) {
            ops[0].2 as int
        } else {
            0
        }) + ok_sum(v, ops.drop_first())
    }
}

pub proof fn lemma_ok_sum_nonneg(v: HeatmapView, ops: Seq<(u64, u64, u64)>)
    ensures
        ok_sum(v, ops) >= 0,
    decreases ops.len(),
{
    if ops.len() > 0 {
        lemma_ok_sum_nonneg(v, ops.drop_first());
    }
}

/// The entry counter counts exactly the successful records: after any
/// sequence of records, it holds its old value plus the sum of the counts
/// of those that landed (clamped at `u64::MAX`).
pub proof fn lemma_entries_total(v: HeatmapView, ops: Seq<(u64, u64, u64)>)
    requires
        wf_view(v),
    ensures
        wf_view(spec_apply_ops(v, ops)),
        spec_apply_ops(v, ops).config == v.config,
        spec_apply_ops(v, ops).start == v.start,
        spec_apply_ops(v, ops).stop == v.stop,
        spec_apply_ops(v, ops).entries == (
        if v.entries + ok_sum(v, ops) <= u64::MAX {
            (v.entries + ok_sum(v, ops)) as u64
        } else {
            u64::MAX
        }),
    decreases ops.len(),
{
    lemma_ok_sum_nonneg(v, ops);
    if ops.len() == 0 {
    } else {
        let v1 = spec_increment_by(v, ops[0].0, ops[0].1, ops[0].2).0;
        lemma_increment_step(v, ops[0].0, ops[0].1, ops[0].2);
        lemma_index_for_window(v, ops[0].0);
        lemma_ok_sum_nonneg(v, ops.drop_first());
        lemma_entries_total(v1, ops.drop_first());
        assert(ok_sum(v1, ops.drop_first()) == ok_sum(v, ops.drop_first())) by {
            lemma_ok_sum_same_window(v, v1, ops.drop_first());
        }
    }
}

/// `ok_sum` depends only on window and configuration.
pub proof fn lemma_ok_sum_same_window(a: HeatmapView, b: HeatmapView, ops: Seq<(u64, u64, u64)>)
    requires
        a.start == b.start,
        a.stop == b.stop,
        a.config == b.config,
    ensures
        ok_sum(a, ops) == ok_sum(b, ops),
    decreases ops.len(),
{
    if ops.len() > 0 {
        lemma_ok_sum_same_window(a, b, ops.drop_first());
    }
}

/// After `clear(now)` the counter reads zero and every point of the new
/// window reads zero.
pub proof fn lemma_clear_reads_zero(v: HeatmapView, now: u64, t: u64, value: u64)
    requires
        wf_view(v),
    ensures
        spec_clear(v, now).entries == 0,
        spec_index_for(spec_clear(v, now), t) is Ok ==> spec_get(spec_clear(v, now), t, value)
            == Ok::<u64, Error>(0u64),
{
    let c = spec_clear(v, now);
    if spec_index_for(c, t) is Ok {
        let i = spec_index_for(c, t)->Ok_0;
        if 0 <= i < c.slices.len() {
            assert(c.slices[i] == Seq::new(v.slices[i].len(), |j: int| 0u64));
        }
        assert(count_at(c, t, value) == 0);
    }
}

/// A slice whose buckets are all zero contributes no line.
pub proof fn lemma_slice_lines_zero(t: u64, p: u64, mv: u64, counts: Seq<u64>, k: int)
    requires
        forall|x: int| 0 <= x < counts.len() ==> counts[x] == 0u64,
    ensures
        spec_slice_lines(t, p, mv, counts, k) == Seq::<u8>::empty(),
    decreases counts.len() - k,
{
    if 0 <= k < counts.len() {
        lemma_slice_lines_zero(t, p, mv, counts, k + 1);
        assert(spec_slice_lines(t, p, mv, counts, k) =~= Seq::<u8>::empty());
    }
}

/// A freshly built heatmap encodes to its header alone.
pub proof fn lemma_body_fresh(c: ConfigView, j: int)
    ensures
        spec_body(spec_fresh(c), j) == Seq::<u8>::empty(),
    decreases spec_fresh(c).slices.len() - j,
{
    let v = spec_fresh(c);
    if 0 <= j < v.slices.len() {
        lemma_slice_lines_zero(
            slice_start(v, j),
            c.precision as u64,
            c.max_value,
            v.slices[j],
            0,
        );
        lemma_body_fresh(c, j + 1);
        assert(spec_body(v, j) =~= Seq::<u8>::empty());
    }
}

/// Save/load round trip for a freshly built heatmap: decoding its encoding
/// succeeds and reproduces it exactly — every configuration field, the
/// window, the counter, and every bucket.
#[verifier::rlimit(80)]
pub proof fn lemma_round_trip_fresh(c: ConfigView)
    requires
        config_ok(c),
    ensures
        spec_decode(spec_encode(spec_fresh(c))) == Some(spec_fresh(c)),
{
    let v = spec_fresh(c);
    lemma_body_fresh(c, 0);
    assert(spec_encode(v) =~= spec_header(c));
    lemma_header_structure(c);
    let hc = header_content(c);
    assert forall|i: int| 0 <= i < hc.len() implies spec_header(c)[i] != 10 by {
        assert(spec_header(c)[i] == hc[i]);
    }
    assert(spec_header(c)[hc.len() as int] == 10);
    lemma_find_char(spec_header(c), 10, 0, hc.len() as int);
    assert(spec_header(c).subrange(0, hc.len() as int) =~= hc);
    assert(spec_lines(spec_header(c), hc.len() as int + 1) =~= Seq::<Seq<u8>>::empty());
    assert(spec_lines(spec_header(c), 0) =~= seq![hc]);
    assert(spec_replay_lines(v, seq![hc], 1) == Some(v));
    assert(spec_decode(spec_encode(v)) == Some(v));
}

/// Save/load round trip, in full: decoding an encoded heatmap always
/// succeeds, and yields exactly the replay of the heatmap's saved buckets —
/// each non-zero bucket, at its slice's absolute start, under its nominal
/// value — into a fresh heatmap of the same configuration.
#[verifier::rlimit(80)]
pub proof fn lemma_round_trip(v: HeatmapView)
    requires
        wf_view(v),
        config_ok(v.config),
    ensures
        spec_decode(spec_encode(v)) == Some(spec_reload_from(spec_fresh(v.config), v, 0, 0)),
{
    let c = v.config;
    let s = spec_encode(v);
    lemma_header_structure(c);
    let hc = header_content(c);
    let body = spec_body(v, 0);
    assert(s =~= hc + seq![10u8] + body);
    assert forall|i: int| 0 <= i < hc.len() implies s[i] != 10 by {
        assert(s[i] == hc[i]);
    }
    assert(s[hc.len() as int] == 10);
    lemma_find_char(s, 10, 0, hc.len() as int);
    assert(s.subrange(0, hc.len() as int) =~= hc);
    assert(body =~= rem_bytes(v, 0, 0));
    assert(suffix_is(s, hc.len() as int + 1, rem_bytes(v, 0, 0))) by {
        assert forall|i: int|
            0 <= i < rem_bytes(v, 0, 0).len() implies s[hc.len() as int + 1 + i]
            == #[trigger] rem_bytes(v, 0, 0)[i] by {
            assert(s[hc.len() as int + 1 + i] == body[i]);
        }
    }
    lemma_lines_of_body(s, hc.len() as int + 1, v, 0, 0);
    let lines = spec_lines(s, 0);
    assert(lines =~= seq![hc] + rem_lines(v, 0, 0));
    assert(spec_parse_header(lines[0]) == Some(c));
    assert forall|x: int|
        0 <= x < rem_lines(v, 0, 0).len() implies lines[1 + x] == #[trigger] rem_lines(
        v,
        0,
        0,
    )[x] by {
        assert(lines[1 + x] == (seq![hc] + rem_lines(v, 0, 0))[1 + x]);
    }
    lemma_replay_rem_lines(spec_fresh(c), v, lines, 1, 0, 0);
}

/// Decoding an encoded heatmap reproduces its configuration — the first
/// half of the save/load round trip, for every well-formed heatmap.
/// (Bucket counts survive the round trip exactly where each saved bucket's
/// nominal value quantizes back to its own bucket; the histogram crate's
/// boundary buckets need not.)
pub proof fn lemma_round_trip_config(v: HeatmapView)
    requires
        wf_view(v),
        config_ok(v.config),
    ensures
        spec_decode(spec_encode(v)) is Some,
        spec_decode(spec_encode(v))->Some_0.config == v.config,
        spec_decode(spec_encode(v))->Some_0.start == v.config.start,
{
    lemma_round_trip(v);
    lemma_reload_preserves(spec_fresh(v.config), v, 0, 0);
}

/// A replay at a timestamp outside the window changes nothing, pair by
/// pair.
pub proof fn lemma_replay_outside(v: HeatmapView, t: u64, pairs: Seq<(u64, u64)>, i: int)
    requires
        wf_view(v),
        spec_index_for(v, t) is Err,
    ensures
        spec_replay_from(v, t, pairs, i) == v,
    decreases pairs.len() - i,
{
    if 0 <= i < pairs.len() {
        lemma_increment_step(v, t, pairs[i].0, pairs[i].1);
        lemma_replay_outside(v, t, pairs, i + 1);
    }
}

/// Whether a record at `(t, value)` lands in the same bucket that a query
/// at `(t0, value0)` reads.  This depends only on window and configuration.
pub open spec fn touches(v: HeatmapView, t: u64, value: u64, t0: u64, value0: u64) -> bool {
    &&& v.start <= t < v.stop
    &&& value <= v.config.max_value
    &&& spec_index_for(v, t) == spec_index_for(v, t0)
    &&& quant_key(v.config.precision as u64, v.config.max_value, value) == quant_key(
        v.config.precision as u64,
        v.config.max_value,
        value0,
    )
}

/// `touches` reads only window and configuration.
pub proof fn lemma_touches_same(
    a: HeatmapView,
    b: HeatmapView,
    t: u64,
    value: u64,
    t0: u64,
    value0: u64,
)
    requires
        a.config == b.config,
        a.start == b.start,
        a.stop == b.stop,
    ensures
        touches(a, t, value, t0, value0) == touches(b, t, value, t0, value0),
{
}

/// A record that does not touch a point leaves its reading unchanged.
pub proof fn lemma_increment_no_touch(
    v: HeatmapView,
    t: u64,
    value: u64,
    count: u64,
    t0: u64,
    value0: u64,
)
    requires
        wf_view(v),
        !touches(v, t, value, t0, value0),
    ensures
        count_at(spec_increment_by(v, t, value, count).0, t0, value0) == count_at(v, t0, value0),
{
    lemma_increment_step(v, t, value, count);
    let r = spec_increment_by(v, t, value, count);
    if r.1 is Ok {
        lemma_index_for_window(v, t);
        lemma_index_for_window(v, t0);
    }
}

/// Replaying pairs none of which touches a point leaves its reading
/// unchanged.
pub proof fn lemma_replay_no_touch(
    v: HeatmapView,
    t: u64,
    pairs: Seq<(u64, u64)>,
    i: int,
    t0: u64,
    value0: u64,
)
    requires
        wf_view(v),
        forall|x: int|
            i <= x < pairs.len() ==> !touches(v, t, (#[trigger] pairs[x]).0, t0, value0),
    ensures
        wf_view(spec_replay_from(v, t, pairs, i)),
        spec_replay_from(v, t, pairs, i).config == v.config,
        spec_replay_from(v, t, pairs, i).start == v.start,
        spec_replay_from(v, t, pairs, i).stop == v.stop,
        count_at(spec_replay_from(v, t, pairs, i), t0, value0) == count_at(v, t0, value0),
    decreases pairs.len() - i,
{
    if 0 <= i < pairs.len() {
        let v1 = spec_increment_by(v, t, pairs[i].0, pairs[i].1).0;
        lemma_increment_step(v, t, pairs[i].0, pairs[i].1);
        lemma_increment_no_touch(v, t, pairs[i].0, pairs[i].1, t0, value0);
        assert forall|x: int|
            i + 1 <= x < pairs.len() implies !touches(
            v1,
            t,
            (#[trigger] pairs[x]).0,
            t0,
            value0,
        ) by {
            lemma_touches_same(v1, v, t, pairs[x].0, t0, value0);
        }
        lemma_replay_no_touch(v1, t, pairs, i + 1, t0, value0);
    }
}

/// Replaying pairs of which exactly one touches a point raises its reading
/// by that pair's count.
pub proof fn lemma_replay_one_touch(
    v: HeatmapView,
    t: u64,
    pairs: Seq<(u64, u64)>,
    i: int,
    x0: int,
    t0: u64,
    value0: u64,
)
    requires
        wf_view(v),
        0 <= i <= x0 < pairs.len(),
        pairs[x0].0 == value0,
        t == t0,
        touches(v, t, value0, t0, value0),
        forall|x: int|
            i <= x < pairs.len() && x != x0 ==> !touches(
                v,
                t,
                (#[trigger] pairs[x]).0,
                t0,
                value0,
            ),
    ensures
        wf_view(spec_replay_from(v, t, pairs, i)),
        spec_replay_from(v, t, pairs, i).config == v.config,
        spec_replay_from(v, t, pairs, i).start == v.start,
        spec_replay_from(v, t, pairs, i).stop == v.stop,
        count_at(spec_replay_from(v, t, pairs, i), t0, value0) == sat_add(
            count_at(v, t0, value0),
            pairs[x0].1,
        ),
    decreases pairs.len() - i,
{
    let v1 = spec_increment_by(v, t, pairs[i].0, pairs[i].1).0;
    lemma_increment_step(v, t, pairs[i].0, pairs[i].1);
    assert forall|x: int|
        i + 1 <= x < pairs.len() && x != x0 implies !touches(
        v1,
        t,
        (#[trigger] pairs[x]).0,
        t0,
        value0,
    ) by {
        lemma_touches_same(v1, v, t, pairs[x].0, t0, value0);
    }
    if i < x0 {
        lemma_increment_no_touch(v, t, pairs[i].0, pairs[i].1, t0, value0);
        lemma_touches_same(v1, v, t, value0, t0, value0);
        lemma_replay_one_touch(v1, t, pairs, i + 1, x0, t0, value0);
    } else {
        lemma_replay_no_touch(v1, t, pairs, i + 1, t0, value0);
    }
}

/// Merge adds exactly a source bucket's count at its realigned target: for
/// a source bucket of `o` whose slice start `t0` lies in `v`'s window and
/// whose nominal value `value0` is within `v`'s bound, if no other source
/// bucket of `o` lands in the same target bucket, then after the merge the
/// point `(t0, value0)` reads its old count plus the source count,
/// saturating.  (Two source buckets can collide on one target when the two
/// quantizations differ; their counts then accumulate there.)
pub proof fn lemma_merge_adds(v: HeatmapView, o: HeatmapView, j0: int, k0: int)
    requires
        wf_view(v),
        0 <= j0 < o.slices.len(),
        0 <= k0 < o.slices[j0].len(),
        touches(
            v,
            slice_start(o, j0),
            quant_value(o.config.precision as u64, o.config.max_value, k0),
            slice_start(o, j0),
            quant_value(o.config.precision as u64, o.config.max_value, k0),
        ),
        forall|j: int, k: int|
            #![trigger quant_value(o.config.precision as u64, o.config.max_value, k), slice_start(o, j)]
            0 <= j < o.slices.len() && 0 <= k < o.slices[j].len() && (j != j0 || k != k0)
                ==> !touches(
                v,
                slice_start(o, j),
                quant_value(o.config.precision as u64, o.config.max_value, k),
                slice_start(o, j0),
                quant_value(o.config.precision as u64, o.config.max_value, k0),
            ),
    ensures
        count_at(
            spec_merge(v, o),
            slice_start(o, j0),
            quant_value(o.config.precision as u64, o.config.max_value, k0),
        ) == sat_add(
            count_at(
                v,
                slice_start(o, j0),
                quant_value(o.config.precision as u64, o.config.max_value, k0),
            ),
            o.slices[j0][k0],
        ),
{
    lemma_merge_adds_from(v, o, 0, j0, k0);
}

proof fn lemma_merge_adds_from(v: HeatmapView, o: HeatmapView, j: int, j0: int, k0: int)
    requires
        wf_view(v),
        0 <= j,
        0 <= j0 < o.slices.len(),
        0 <= k0 < o.slices[j0].len(),
        touches(
            v,
            slice_start(o, j0),
            quant_value(o.config.precision as u64, o.config.max_value, k0),
            slice_start(o, j0),
            quant_value(o.config.precision as u64, o.config.max_value, k0),
        ),
        forall|jx: int, k: int|
            #![trigger quant_value(o.config.precision as u64, o.config.max_value, k), slice_start(o, jx)]
            0 <= jx < o.slices.len() && 0 <= k < o.slices[jx].len() && (jx != j0 || k != k0)
                ==> !touches(
                v,
                slice_start(o, jx),
                quant_value(o.config.precision as u64, o.config.max_value, k),
                slice_start(o, j0),
                quant_value(o.config.precision as u64, o.config.max_value, k0),
            ),
    ensures
        j <= j0 ==> count_at(
            spec_merge_from(v, o, j),
            slice_start(o, j0),
            quant_value(o.config.precision as u64, o.config.max_value, k0),
        ) == sat_add(
            count_at(
                v,
                slice_start(o, j0),
                quant_value(o.config.precision as u64, o.config.max_value, k0),
            ),
            o.slices[j0][k0],
        ),
        j > j0 ==> count_at(
            spec_merge_from(v, o, j),
            slice_start(o, j0),
            quant_value(o.config.precision as u64, o.config.max_value, k0),
        ) == count_at(
            v,
            slice_start(o, j0),
            quant_value(o.config.precision as u64, o.config.max_value, k0),
        ),
    decreases o.slices.len() - j,
{
    let po = o.config.precision as u64;
    let mvo = o.config.max_value;
    let t0 = slice_start(o, j0);
    let value0 = quant_value(po, mvo, k0);
    if j >= o.slices.len() {
    } else {
        let t = slice_start(o, j);
        let pairs = crate::heatmap::bucket_pairs(po, mvo, o.slices[j]);
        assert(forall|x: int|
            0 <= x < pairs.len() ==> (#[trigger] pairs[x]) == (
                quant_value(po, mvo, x),
                o.slices[j][x],
            ));
        let v1 = spec_replay_from(v, t, pairs, 0);
        if j == j0 {
            assert forall|x: int|
                0 <= x < pairs.len() && x != k0 implies !touches(
                v,
                t,
                (#[trigger] pairs[x]).0,
                t0,
                value0,
            ) by {
                assert(pairs[x].0 == quant_value(po, mvo, x));
            }
            lemma_replay_one_touch(v, t, pairs, 0, k0, t0, value0);
            assert(count_at(v1, t0, value0) == sat_add(count_at(v, t0, value0), pairs[k0].1));
            assert forall|jx: int, k: int|
                #![trigger quant_value(o.config.precision as u64, o.config.max_value, k), slice_start(o, jx)]
                0 <= jx < o.slices.len() && 0 <= k < o.slices[jx].len() && (jx != j0 || k != k0)
                    implies !touches(
                v1,
                slice_start(o, jx),
                quant_value(po, mvo, k),
                t0,
                value0,
            ) by {
                lemma_touches_same(v1, v, slice_start(o, jx), quant_value(po, mvo, k), t0, value0);
            }
            lemma_touches_same(v1, v, t0, value0, t0, value0);
            lemma_merge_adds_from(v1, o, j + 1, j0, k0);
        } else {
            assert forall|x: int|
                0 <= x < pairs.len() implies !touches(v, t, (#[trigger] pairs[x]).0, t0, value0) by {
                assert(pairs[x].0 == quant_value(po, mvo, x));
            }
            lemma_replay_no_touch(v, t, pairs, 0, t0, value0);
            assert forall|jx: int, k: int|
                #![trigger quant_value(o.config.precision as u64, o.config.max_value, k), slice_start(o, jx)]
                0 <= jx < o.slices.len() && 0 <= k < o.slices[jx].len() && (jx != j0 || k != k0)
                    implies !touches(
                v1,
                slice_start(o, jx),
                quant_value(po, mvo, k),
                t0,
                value0,
            ) by {
                lemma_touches_same(v1, v, slice_start(o, jx), quant_value(po, mvo, k), t0, value0);
            }
            lemma_touches_same(v1, v, t0, value0, t0, value0);
            lemma_merge_adds_from(v1, o, j + 1, j0, k0);
        }
    }
}

/// Merging a heatmap none of whose slices start inside this window changes
/// nothing: out-of-window buckets are dropped.
pub proof fn lemma_merge_outside(v: HeatmapView, o: HeatmapView)
    requires
        wf_view(v),
        forall|j: int|
            0 <= j < o.slices.len() ==> spec_index_for(v, #[trigger] slice_start(o, j)) is Err,
    ensures
        spec_merge(v, o) == v,
{
    lemma_merge_outside_from(v, o, 0);
}

pub proof fn lemma_merge_outside_from(v: HeatmapView, o: HeatmapView, j: int)
    requires
        wf_view(v),
        forall|j0: int|
            0 <= j0 < o.slices.len() ==> spec_index_for(v, #[trigger] slice_start(o, j0)) is Err,
    ensures
        spec_merge_from(v, o, j) == v,
    decreases o.slices.len() - j,
{
    if 0 <= j < o.slices.len() {
        lemma_replay_outside(
            v,
            slice_start(o, j),
            crate::heatmap::bucket_pairs(
                o.config.precision as u64,
                o.config.max_value,
                o.slices[j],
            ),
            0,
        );
        lemma_merge_outside_from(v, o, j + 1);
    }
}

} // verus!
