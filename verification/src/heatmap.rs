//! The heatmap itself: a fixed-length ordered sequence of slice histograms
//! covering the half-open window `[start, stop)`, with a running counter of
//! successfully recorded entries.

use crate::codec::{
    parse_u64, push_dec, spec_body, spec_decode, spec_encode, spec_header, spec_line, spec_lines,
    spec_parse_header, spec_replay_lines, spec_slice_lines, split_lines, split_tokens, views,
};
use crate::config::{config_ok, has_default_fields, Config, ConfigView};
use crate::errors::Error;
use crate::hist::{
    hist_buckets, hist_buckets_total, hist_clear, hist_clone, hist_counts, hist_get,
    hist_increment_by, hist_new, hist_quant, quant_buckets, quant_key, quant_value, sat_add,
};
use crate::quant::{quant_safe, quant_safe_exec};
use vstd::prelude::*;

verus! {

/// The mathematical image of a heatmap: its configuration, the current
/// window bounds, the entry counter, and one bucket-count sequence per
/// slice.
pub ghost struct HeatmapView {
    pub config: ConfigView,
    pub start: u64,
    pub stop: u64,
    pub entries: u64,
    pub slices: Seq<Seq<u64>>,
}

/// Running counters of a heatmap; only the total of recorded entries.
#[derive(Clone, Copy)]
pub struct Counters {
    pub(crate) entries_total: u64,
}

impl Counters {
    /// The spec-level value of the counter.
    pub closed spec fn spec_entries(&self) -> u64 {
        self.entries_total
    }

    pub fn new() -> (c: Counters)
        ensures
            c.spec_entries() == 0,
    {
        Counters { entries_total: 0 }
    }

    pub fn clear(&mut self)
        ensures
            final (self).spec_entries() == 0,
    {
        self.entries_total = 0;
    }
}

/// main datastructure of the heatmap
pub struct Heatmap {
    pub(crate) config: Config,
    pub(crate) data: Vec<histogram::Histogram>,
    pub(crate) counters: Counters,
    pub(crate) start: u64,
    pub(crate) stop: u64,
}

impl View for Heatmap {
    type V = HeatmapView;

    closed spec fn view(&self) -> HeatmapView {
        HeatmapView {
            config: self.config@,
            start: self.start,
            stop: self.stop,
            entries: self.counters.entries_total,
            slices: Seq::new(self.data@.len(), |i: int| hist_counts(self.data@[i])),
        }
    }
}

/// Well-formedness of a heatmap's image: a non-empty window that fits in
/// `u64`, one bucket sequence per slice, all of the length the quantization
/// fixes, and a quantization that keeps every admissible value inside that
/// length.
pub open spec fn wf_view(v: HeatmapView) -> bool {
    &&& 1 <= v.config.num_slices <= u32::MAX
    &&& 1 <= v.config.slice_duration
    &&& v.slices.len() == v.config.num_slices
    &&& v.stop == v.start + v.config.slice_duration * (v.config.num_slices as u64)
    &&& quant_safe(v.config.precision as u64, v.config.max_value)
    &&& quant_buckets(v.config.precision as u64, v.config.max_value) >= 1
    &&& forall|i: int|
        0 <= i < v.slices.len() ==> (#[trigger] v.slices[i]).len() == quant_buckets(
            v.config.precision as u64,
            v.config.max_value,
        )
    &&& forall|val: u64|
        val <= v.config.max_value ==> 0 <= #[trigger] quant_key(
            v.config.precision as u64,
            v.config.max_value,
            val,
        ) < quant_buckets(v.config.precision as u64, v.config.max_value)
}

/// Which slice a timestamp falls in, or on which side it misses the window.
pub open spec fn spec_index_for(v: HeatmapView, time: u64) -> Result<int, Error> {
    if time < v.start {
        Err(Error::SampleTooEarly)
    } else if time >= v.stop {
        Err(Error::SampleTooLate)
    } else {
        Ok(((time - v.start) as int) / (v.config.slice_duration as int))
    }
}

/// The count recorded at a quantized time-value point; 0 where nothing is.
pub open spec fn count_at(v: HeatmapView, time: u64, value: u64) -> u64 {
    match spec_index_for(v, time) {
        Ok(i) => {
            let k = quant_key(v.config.precision as u64, v.config.max_value, value);
            if value <= v.config.max_value && 0 <= i < v.slices.len() && 0 <= k
                < v.slices[i].len() {
                v.slices[i][k]
            } else {
                0u64
            }
        },
        Err(_) => 0u64,
    }
}

/// One recording step: the state after it and its outcome.  On success the
/// count lands, saturating, in one bucket of one slice and in the entry
/// counter; on failure nothing changes.
pub open spec fn spec_increment_by(v: HeatmapView, time: u64, value: u64, count: u64) -> (
    HeatmapView,
    Result<(), Error>,
) {
    match spec_index_for(v, time) {
        Err(e) => (v, Err(e)),
        Ok(i) => {
            if value > v.config.max_value {
                (v, Err(Error::RecordFailure))
            } else {
                let k = quant_key(v.config.precision as u64, v.config.max_value, value);
                (
                    HeatmapView {
                        entries: sat_add(v.entries, count),
                        slices: v.slices.update(
                            i,
                            v.slices[i].update(k, sat_add(v.slices[i][k], count)),
                        ),
                        ..v
                    },
                    Ok(()),
                )
            }
        },
    }
}

/// The state `clear` leaves behind: every bucket zeroed, the counter zeroed,
/// and the window rebased to start at `now`.
pub open spec fn spec_clear(v: HeatmapView, now: u64) -> HeatmapView {
    HeatmapView {
        start: now,
        stop: (now + v.config.slice_duration * (v.config.num_slices as u64)) as u64,
        entries: 0,
        slices: Seq::new(v.slices.len(), |i: int| Seq::new(v.slices[i].len(), |j: int| 0u64)),
        ..v
    }
}

/// The freshly built heatmap for a configuration: window at `start`, no
/// entries, every bucket of every slice zero.
pub open spec fn spec_fresh(c: ConfigView) -> HeatmapView {
    HeatmapView {
        config: c,
        start: c.start,
        stop: (c.start + c.slice_duration * (c.num_slices as u64)) as u64,
        entries: 0,
        slices: Seq::new(
            c.num_slices as nat,
            |i: int|
                Seq::new(quant_buckets(c.precision as u64, c.max_value) as nat, |j: int| 0u64),
        ),
    }
}

impl Heatmap {
    /// The heatmap's internal invariant: its image is well formed and every
    /// slice histogram carries the configured quantization.
    pub closed spec fn wf(&self) -> bool {
        &&& wf_view(self@)
        &&& forall|i: int|
            0 <= i < self.data@.len() ==> hist_quant(#[trigger] self.data@[i]) == (
                self.config.precision as u64,
                self.config.max_value,
            )
    }

    /// create a new heatmap with the default configuration; the window
    /// starts at the current time (clamped so that it fits in `u64`)
    pub fn new() -> (h: Heatmap)
        ensures
            h.wf(),
            has_default_fields(h@.config),
            h@ == spec_fresh(h@.config),
    {
        let span: u64 = 3_600_000_000_000;
        let c = Config::new();
        let c = if c.start > u64::MAX - span {
            c.start(u64::MAX - span)
        } else {
            c
        };
        proof {
            lemma_default_config_ok(c@);
        }
        match Heatmap::configured(c) {
            Some(h) => h,
            None => vstd::pervasive::unreached(),
        }
    }

    /// configure and build a new heatmap
    pub fn configure() -> (c: Config)
        ensures
            has_default_fields(c@),
    {
        Config::default()
    }

    // internal function to build a configured heatmap
    pub(crate) fn configured(config: Config) -> (r: Option<Heatmap>)
        ensures
            match r {
                Some(h) => h.wf() && h@ == spec_fresh(config@) && config_ok(config@),
                None => !config_ok(config@),
            },
    {
        if config.num_slices < 1 {
            return None;
        }
        if config.num_slices as u64 > 0xffff_ffffu64 {
            return None;
        }
        if config.slice_duration < 1 {
            return None;
        }
        let span: u64 = match config.slice_duration.checked_mul(config.num_slices as u64) {
            Some(s) => s,
            None => {
                return None;
            },
        };
        let stop: u64 = match config.start.checked_add(span) {
            Some(s) => s,
            None => {
                return None;
            },
        };
        if !quant_safe_exec(config.precision, config.max_value) {
            return None;
        }
        let per_slice: u32 = config.max_memory / (config.num_slices as u32);
        let mut data: Vec<histogram::Histogram> = Vec::new();
        let n: usize = config.num_slices;
        let mut i: usize = 0;
        while i < n
            invariant
                i <= n,
                n == config@.num_slices,
                1 <= n <= u32::MAX,
                quant_safe(config@.precision as u64, config@.max_value),
                per_slice as int == config@.max_memory as int / config@.num_slices as int,
                i >= 1 ==> (per_slice == 0 || per_slice as int >= 8 * crate::quant::hist_data_len(
                    config@.precision as u64,
                    config@.max_value,
                )),
                data@.len() == i,
                i >= 1 ==> quant_buckets(config@.precision as u64, config@.max_value) >= 1,
                forall|j: int|
                    0 <= j < i ==> hist_quant(#[trigger] data@[j]) == (
                        config@.precision as u64,
                        config@.max_value,
                    ),
                forall|j: int|
                    0 <= j < i ==> hist_counts(#[trigger] data@[j]) == Seq::new(
                        quant_buckets(config@.precision as u64, config@.max_value) as nat,
                        |k: int| 0u64,
                    ),
                i >= 1 ==> forall|val: u64|
                    val <= config@.max_value ==> 0 <= #[trigger] quant_key(
                        config@.precision as u64,
                        config@.max_value,
                        val,
                    ) < quant_buckets(config@.precision as u64, config@.max_value),
            decreases n - i,
        {
            match hist_new(config.precision, per_slice, config.max_value) {
                Some(h) => {
                    data.push(h);
                },
                None => {
                    return None;
                },
            }
            i = i + 1;
        }
        let h = Heatmap {
            config,
            data,
            counters: Counters::new(),
            start: config.start,
            stop,
        };
        proof {
            assert(h@.slices =~= spec_fresh(config@).slices);
            assert(h@ == spec_fresh(config@));
        }
        Some(h)
    }

    /// internal function to find the index of the slice histogram for a time
    fn histogram_index(&self, time: u64) -> (r: Result<usize, Error>)
        requires
            self.wf(),
        ensures
            match r {
                Ok(i) => spec_index_for(self@, time) == Ok::<int, Error>(i as int) && i
                    < self@.config.num_slices,
                Err(e) => spec_index_for(self@, time) == Err::<int, Error>(e),
            },
    {
        if time < self.start {
            return Err(Error::SampleTooEarly);
        }
        if time >= self.stop {
            return Err(Error::SampleTooLate);
        }
        let t: u64 = time - self.start;
        let index: u64 = t / self.config.slice_duration;
        proof {
            let d = self.config.slice_duration as int;
            let n = self.config.num_slices as int;
            assert(t < d * n);
            assert(t as int / d < n) by (nonlinear_arith)
                requires
                    d >= 1,
                    n >= 1,
                    t < d * n,
            {
            }
        }
        Ok(index as usize)
    }

    /// increment the count for a value at a time
    pub fn increment(&mut self, time: u64, value: u64) -> (r: Result<(), Error>)
        requires
            old(self).wf(),
        ensures
            final (self).wf(),
            final (self)@ == spec_increment_by(old(self)@, time, value, 1).0,
            r == spec_increment_by(old(self)@, time, value, 1).1,
    {
        self.increment_by(time, value, 1)
    }

    /// increment additional counts for a value at a time; the entry counter
    /// moves only when the record lands
    pub fn increment_by(&mut self, time: u64, value: u64, count: u64) -> (r: Result<(), Error>)
        requires
            old(self).wf(),
        ensures
            final (self).wf(),
            final (self)@ == spec_increment_by(old(self)@, time, value, count).0,
            r == spec_increment_by(old(self)@, time, value, count).1,
    {
        let idx: usize = match self.histogram_index(time) {
            Ok(i) => i,
            Err(e) => {
                return Err(e);
            },
        };
        let res = hist_increment_by(&mut self.data[idx], value, count);
        match res {
            Ok(_) => {
                self.counters.entries_total = self.counters.entries_total.saturating_add(count);
                proof {
                    assert(final (self)@.slices =~= spec_increment_by(
                        old(self)@,
                        time,
                        value,
                        count,
                    ).0.slices);
                }
                Ok(())
            },
            Err(_) => {
                proof {
                    assert(final (self)@.slices =~= old(self)@.slices);
                }
                Err(Error::RecordFailure)
            },
        }
    }

    /// get the count of items at a quantized time-value point; a value that
    /// was never recorded reads as 0
    pub fn get(&self, time: u64, value: u64) -> (r: Result<u64, Error>)
        requires
            self.wf(),
        ensures
            r == spec_get(self@, time, value),
    {
        let idx: usize = match self.histogram_index(time) {
            Ok(i) => i,
            Err(e) => {
                return Err(e);
            },
        };
        if value > self.config.max_value {
            return Ok(0);
        }
        Ok(hist_get(&self.data[idx], value))
    }

    /// clear the heatmap data and rebase the window to start at `now`
    pub fn clear(&mut self, now: u64)
        requires
            old(self).wf(),
            now + old(self)@.config.slice_duration * (old(self)@.config.num_slices as u64)
                <= u64::MAX,
        ensures
            final (self).wf(),
            final (self)@ == spec_clear(old(self)@, now),
    {
        let n: usize = self.data.len();
        let mut i: usize = 0;
        while i < n
            invariant
                i <= n,
                n == self.data@.len(),
                self.config == old(self).config,
                self.counters == old(self).counters,
                self.start == old(self).start,
                self.stop == old(self).stop,
                old(self).wf(),
                forall|j: int|
                    0 <= j < self.data@.len() ==> hist_quant(#[trigger] self.data@[j]) == (
                        self.config.precision as u64,
                        self.config.max_value,
                    ),
                forall|j: int|
                    0 <= j < self.data@.len() ==> (#[trigger] hist_counts(self.data@[j])).len()
                        == old(self)@.slices[j].len(),
                forall|j: int|
                    0 <= j < i ==> hist_counts(#[trigger] self.data@[j]) == Seq::new(
                        old(self)@.slices[j].len(),
                        |k: int| 0u64,
                    ),
            decreases n - i,
        {
            hist_clear(&mut self.data[i]);
            i = i + 1;
        }
        self.counters.clear();
        self.start = now;
        self.stop = now + self.config.slice_duration * (self.config.num_slices as u64);
        proof {
            assert(final (self)@.slices =~= spec_clear(old(self)@, now).slices);
        }
    }

    /// merge another heatmap into this one, realigning its buckets by the
    /// absolute start time of each of its slices; buckets that fall outside
    /// this heatmap's window (or above its value bound) are silently dropped
    pub fn merge(&mut self, other: &Heatmap)
        requires
            old(self).wf(),
            other.wf(),
        ensures
            final (self).wf(),
            final (self)@ == spec_merge(old(self)@, other@),
    {
        let n: usize = other.data.len();
        let mut j: usize = 0;
        while j < n
            invariant
                j <= n,
                n == other.data@.len(),
                other.wf(),
                self.wf(),
                spec_merge_from(self@, other@, j as int) == spec_merge(old(self)@, other@),
            decreases n - j,
        {
            proof {
                let d = other@.config.slice_duration as int;
                assert(d * (j as int) <= d * (n as int)) by (nonlinear_arith)
                    requires
                        d >= 0,
                        0 <= j <= n,
                {
                }
            }
            let t: u64 = other.start + other.config.slice_duration * (j as u64);
            let pairs: Vec<(u64, u64)> = hist_buckets(&other.data[j]);
            proof {
                assert(other@.slices[j as int] == hist_counts(other.data@[j as int]));
                assert(pairs@ =~= bucket_pairs(
                    other@.config.precision as u64,
                    other@.config.max_value,
                    other@.slices[j as int],
                ));
                assert(t == slice_start(other@, j as int));
            }
            let m: usize = pairs.len();
            let mut i: usize = 0;
            while i < m
                invariant
                    i <= m,
                    m == pairs@.len(),
                    j < n,
                    n == other.data@.len(),
                    other.wf(),
                    self.wf(),
                    pairs@ == bucket_pairs(
                        other@.config.precision as u64,
                        other@.config.max_value,
                        other@.slices[j as int],
                    ),
                    t == slice_start(other@, j as int),
                    spec_merge_from(
                        spec_replay_from(self@, t, pairs@, i as int),
                        other@,
                        j as int + 1,
                    ) == spec_merge(old(self)@, other@),
                decreases m - i,
            {
                let (value, count) = pairs[i];
                let _ = self.increment_by(t, value, count);
                i = i + 1;
            }
            j = j + 1;
        }
    }

    /// a borrowing iterator over the heatmap's slices, starting at the first
    pub fn iter<'a>(&'a self) -> (r: Iter<'a>)
        requires
            self.wf(),
        ensures
            r.wf(),
            r.spec_heatmap() == self@,
            r.spec_index() == 0,
    {
        Iter::new(self)
    }

    /// encode the heatmap in its text format: a header line of the six
    /// configuration integers, then one `sliceStart value count` line per
    /// non-zero bucket, in slice order and bucket order
    pub fn to_bytes(&self) -> (r: Vec<u8>)
        requires
            self.wf(),
        ensures
            r@ == spec_encode(self@),
    {
        let mut out: Vec<u8> = Vec::new();
        push_dec(&mut out, self.config.precision as u64);
        out.push(32);
        push_dec(&mut out, self.config.max_memory as u64);
        out.push(32);
        push_dec(&mut out, self.config.max_value);
        out.push(32);
        push_dec(&mut out, self.config.slice_duration);
        out.push(32);
        push_dec(&mut out, self.config.num_slices as u64);
        out.push(32);
        push_dec(&mut out, self.config.start);
        out.push(10);
        proof {
            assert(out@ =~= spec_header(self@.config));
        }
        let n: usize = self.data.len();
        let mut j: usize = 0;
        while j < n
            invariant
                j <= n,
                n == self.data@.len(),
                self.wf(),
                out@ + spec_body(self@, j as int) =~= spec_encode(self@),
            decreases n - j,
        {
            proof {
                let d = self@.config.slice_duration as int;
                assert(d * (j as int) <= d * (n as int)) by (nonlinear_arith)
                    requires
                        d >= 0,
                        0 <= j <= n,
                {
                }
            }
            let t: u64 = self.start + self.config.slice_duration * (j as u64);
            let pairs: Vec<(u64, u64)> = hist_buckets(&self.data[j]);
            proof {
                assert(self@.slices[j as int] == hist_counts(self.data@[j as int]));
                assert(t == slice_start(self@, j as int));
                assert(spec_body(self@, j as int) == spec_slice_lines(
                    t,
                    self@.config.precision as u64,
                    self@.config.max_value,
                    self@.slices[j as int],
                    0,
                ) + spec_body(self@, j as int + 1));
            }
            let m: usize = pairs.len();
            let mut k: usize = 0;
            while k < m
                invariant
                    k <= m,
                    m == pairs@.len(),
                    j < n,
                    n == self.data@.len(),
                    self.wf(),
                    pairs@.len() == self@.slices[j as int].len(),
                    forall|x: int|
                        0 <= x < pairs@.len() ==> #[trigger] pairs@[x] == (
                            quant_value(
                                self@.config.precision as u64,
                                self@.config.max_value,
                                x,
                            ),
                            self@.slices[j as int][x],
                        ),
                    t == slice_start(self@, j as int),
                    out@ + spec_slice_lines(
                        t,
                        self@.config.precision as u64,
                        self@.config.max_value,
                        self@.slices[j as int],
                        k as int,
                    ) + spec_body(self@, j as int + 1) =~= spec_encode(self@),
                decreases m - k,
            {
                let (value, count) = pairs[k];
                let ghost out0 = out@;
                if count > 0 {
                    push_dec(&mut out, t);
                    out.push(32);
                    push_dec(&mut out, value);
                    out.push(32);
                    push_dec(&mut out, count);
                    out.push(10);
                    proof {
                        assert(out@ =~= out0 + spec_line(t, value, count));
                    }
                }
                proof {
                    assert(spec_slice_lines(
                        t,
                        self@.config.precision as u64,
                        self@.config.max_value,
                        self@.slices[j as int],
                        k as int,
                    ) == (if self@.slices[j as int][k as int] > 0 {
                        spec_line(
                            t,
                            quant_value(
                                self@.config.precision as u64,
                                self@.config.max_value,
                                k as int,
                            ),
                            self@.slices[j as int][k as int],
                        )
                    } else {
                        Seq::<u8>::empty()
                    }) + spec_slice_lines(
                        t,
                        self@.config.precision as u64,
                        self@.config.max_value,
                        self@.slices[j as int],
                        k as int + 1,
                    ));
                    assert(out@ + spec_slice_lines(
                        t,
                        self@.config.precision as u64,
                        self@.config.max_value,
                        self@.slices[j as int],
                        k as int + 1,
                    ) + spec_body(self@, j as int + 1) =~= spec_encode(self@));
                }
                k = k + 1;
            }
            j = j + 1;
        }
        proof {
            assert(spec_body(self@, n as int) =~= Seq::<u8>::empty());
            assert(out@ =~= spec_encode(self@));
        }
        out
    }

    /// decode a heatmap from its text format; the error is
    /// `MalformedPersistedState` exactly where the bytes do not decode
    pub fn from_bytes(bytes: &Vec<u8>) -> (r: Result<Heatmap, Error>)
        ensures
            match r {
                Ok(h) => h.wf() && Some(h@) == spec_decode(bytes@),
                Err(e) => e == Error::MalformedPersistedState && spec_decode(bytes@) is None,
            },
    {
        let lines: Vec<Vec<u8>> = split_lines(bytes);
        if lines.len() == 0 {
            return Err(Error::MalformedPersistedState);
        }
        let toks: Vec<Vec<u8>> = split_tokens(&lines[0]);
        proof {
            assert(lines@[0]@ == spec_lines(bytes@, 0)[0]);
            assert(views(toks@).len() == toks@.len());
        }
        if toks.len() != 6 {
            return Err(Error::MalformedPersistedState);
        }
        let p64: u64 = match parse_u64(&toks[0]) {
            Some(x) => x,
            None => {
                return Err(Error::MalformedPersistedState);
            },
        };
        let mm64: u64 = match parse_u64(&toks[1]) {
            Some(x) => x,
            None => {
                return Err(Error::MalformedPersistedState);
            },
        };
        let mv64: u64 = match parse_u64(&toks[2]) {
            Some(x) => x,
            None => {
                return Err(Error::MalformedPersistedState);
            },
        };
        let d64: u64 = match parse_u64(&toks[3]) {
            Some(x) => x,
            None => {
                return Err(Error::MalformedPersistedState);
            },
        };
        let ns64: u64 = match parse_u64(&toks[4]) {
            Some(x) => x,
            None => {
                return Err(Error::MalformedPersistedState);
            },
        };
        let s64: u64 = match parse_u64(&toks[5]) {
            Some(x) => x,
            None => {
                return Err(Error::MalformedPersistedState);
            },
        };
        if p64 > u32::MAX as u64 || mm64 > u32::MAX as u64 || ns64 > usize::MAX as u64 {
            return Err(Error::MalformedPersistedState);
        }
        let cfg = Config {
            precision: p64 as u32,
            max_memory: mm64 as u32,
            max_value: mv64,
            slice_duration: d64,
            num_slices: ns64 as usize,
            start: s64,
        };
        proof {
            assert(spec_parse_header(spec_lines(bytes@, 0)[0]) == Some(cfg@));
        }
        let mut h: Heatmap = match Heatmap::configured(cfg) {
            Some(h) => h,
            None => {
                return Err(Error::MalformedPersistedState);
            },
        };
        let m: usize = lines.len();
        let mut i: usize = 1;
        while i < m
            invariant
                1 <= i <= m,
                m == lines@.len(),
                views(lines@) == spec_lines(bytes@, 0),
                h.wf(),
                spec_replay_lines(h@, views(lines@), i as int) == spec_decode(bytes@),
            decreases m - i,
        {
            let ltoks: Vec<Vec<u8>> = split_tokens(&lines[i]);
            proof {
                assert(lines@[i as int]@ == views(lines@)[i as int]);
                assert(views(ltoks@).len() == ltoks@.len());
            }
            if ltoks.len() != 3 {
                return Err(Error::MalformedPersistedState);
            }
            let t: u64 = match parse_u64(&ltoks[0]) {
                Some(x) => x,
                None => {
                    return Err(Error::MalformedPersistedState);
                },
            };
            let value: u64 = match parse_u64(&ltoks[1]) {
                Some(x) => x,
                None => {
                    return Err(Error::MalformedPersistedState);
                },
            };
            let count: u64 = match parse_u64(&ltoks[2]) {
                Some(x) => x,
                None => {
                    return Err(Error::MalformedPersistedState);
                },
            };
            let _ = h.increment_by(t, value, count);
            i = i + 1;
        }
        Ok(h)
    }

    /// return the number of entries recorded in the heatmap
    pub fn entries(&self) -> (r: u64)
        ensures
            r == self@.entries,
    {
        self.counters.entries_total
    }

    /// returns the number of buckets per slice histogram
    pub fn histogram_buckets(&self) -> (r: u64)
        requires
            self.wf(),
        ensures
            r == quant_buckets(self@.config.precision as u64, self@.config.max_value),
    {
        proof {
            assert(self@.slices[0] == hist_counts(self.data@[0]));
            assert(self@.slices[0].len() == quant_buckets(
                self@.config.precision as u64,
                self@.config.max_value,
            ));
        }
        hist_buckets_total(&self.data[0])
    }

    /// returns the number of slices within the heatmap
    pub fn num_slices(&self) -> (r: u64)
        ensures
            r == self@.config.num_slices as u64,
    {
        self.config.num_slices as u64
    }
}

impl Default for Heatmap {
    /// the same heatmap `new` builds
    fn default() -> (h: Heatmap)
        ensures
            h.wf(),
            has_default_fields(h@.config),
            h@ == spec_fresh(h@.config),
    {
        Heatmap::new()
    }
}

impl Clone for Heatmap {
    /// an independent copy with the same image, bucket for bucket
    fn clone(&self) -> (r: Self)
        ensures
            r@ == self@,
            self.wf() ==> r.wf(),
    {
        let n: usize = self.data.len();
        let mut data: Vec<histogram::Histogram> = Vec::new();
        let mut i: usize = 0;
        while i < n
            invariant
                i <= n,
                n == self.data@.len(),
                data@.len() == i,
                forall|j: int|
                    0 <= j < i ==> hist_counts(#[trigger] data@[j]) == hist_counts(
                        self.data@[j],
                    ),
                forall|j: int|
                    0 <= j < i ==> hist_quant(#[trigger] data@[j]) == hist_quant(self.data@[j]),
            decreases n - i,
        {
            data.push(hist_clone(&self.data[i]));
            i = i + 1;
        }
        let r = Heatmap {
            config: self.config,
            data,
            counters: self.counters,
            start: self.start,
            stop: self.stop,
        };
        proof {
            assert(r@.slices =~= self@.slices);
            assert(r@ == self@);
        }
        r
    }
}

/// The pairs a slice histogram's iterator yields: each bucket's nominal
/// value with its count, in bucket order.
pub open spec fn bucket_pairs(p: u64, mv: u64, counts: Seq<u64>) -> Seq<(u64, u64)> {
    Seq::new(counts.len(), |k: int| (quant_value(p, mv, k), counts[k]))
}

/// Replay the pairs from position `i` on into `v` at one timestamp, left to
/// right, dropping failures.
pub open spec fn spec_replay_from(v: HeatmapView, time: u64, pairs: Seq<(u64, u64)>, i: int) -> HeatmapView
    decreases pairs.len() - i,
{
    if i < 0 || i >= pairs.len() {
        v
    } else {
        spec_replay_from(
            spec_increment_by(v, time, pairs[i].0, pairs[i].1).0,
            time,
            pairs,
            i + 1,
        )
    }
}

/// The absolute start time of slice `j` of `o`.
pub open spec fn slice_start(o: HeatmapView, j: int) -> u64 {
    (o.start + o.config.slice_duration * j) as u64
}

/// Merge slices `j..` of `o` into `v`: replay every bucket of each slice at
/// the slice's absolute start time.
pub open spec fn spec_merge_from(v: HeatmapView, o: HeatmapView, j: int) -> HeatmapView
    decreases o.slices.len() - j,
{
    if j < 0 || j >= o.slices.len() {
        v
    } else {
        spec_merge_from(
            spec_replay_from(
                v,
                slice_start(o, j),
                bucket_pairs(o.config.precision as u64, o.config.max_value, o.slices[j]),
                0,
            ),
            o,
            j + 1,
        )
    }
}

/// The state after merging all of `o` into `v`.  Buckets whose slice start
/// falls outside `v`'s window, or whose value `v` cannot hold, are dropped.
pub open spec fn spec_merge(v: HeatmapView, o: HeatmapView) -> HeatmapView {
    spec_merge_from(v, o, 0)
}

/// What `get` returns: the slice-index error for a timestamp outside the
/// window, otherwise the recorded count.
pub open spec fn spec_get(v: HeatmapView, time: u64, value: u64) -> Result<u64, Error> {
    match spec_index_for(v, time) {
        Err(e) => Err(e),
        Ok(_) => Ok(count_at(v, time, value)),
    }
}

/// a histogram snapshot with time boundaries
pub struct Slice {
    pub(crate) start: u64,
    pub(crate) stop: u64,
    pub(crate) histogram: histogram::Histogram,
}

impl Slice {
    /// The slice's start time.
    pub closed spec fn spec_start(&self) -> u64 {
        self.start
    }

    /// The slice's stop time.
    pub closed spec fn spec_stop(&self) -> u64 {
        self.stop
    }

    /// The bucket counts of the slice's histogram snapshot.
    pub closed spec fn spec_counts(&self) -> Seq<u64> {
        hist_counts(self.histogram)
    }

    /// returns the start time of the slice
    pub fn start(&self) -> (r: u64)
        ensures
            r == self.spec_start(),
    {
        self.start
    }

    /// returns the stop time of the slice
    pub fn stop(&self) -> (r: u64)
        ensures
            r == self.spec_stop(),
    {
        self.stop
    }

    /// returns the histogram snapshot of the slice
    pub fn histogram(self) -> (r: histogram::Histogram)
        ensures
            hist_counts(r) == self.spec_counts(),
    {
        self.histogram
    }
}

impl Clone for Slice {
    /// an independent copy with the same bounds and counts
    fn clone(&self) -> (r: Self)
        ensures
            r.spec_start() == self.spec_start(),
            r.spec_stop() == self.spec_stop(),
            r.spec_counts() == self.spec_counts(),
    {
        Slice { start: self.start, stop: self.stop, histogram: hist_clone(&self.histogram) }
    }
}

/// Iterator over a heatmap's slices: stateless, borrowing, forward-only.
pub struct Iter<'a> {
    pub(crate) heatmap: &'a Heatmap,
    pub(crate) index: usize,
}

impl<'a> Iter<'a> {
    /// The image of the heatmap being walked.
    pub closed spec fn spec_heatmap(&self) -> HeatmapView {
        self.heatmap@
    }

    /// The index of the next slice to yield.
    pub closed spec fn spec_index(&self) -> int {
        self.index as int
    }

    /// The iterator's invariant: a well-formed heatmap and a position within
    /// its slice count.
    pub closed spec fn wf(&self) -> bool {
        self.heatmap.wf() && self.index <= self.heatmap@.config.num_slices
    }

    /// a fresh iterator over a heatmap's slices, starting at the first
    pub fn new(heatmap: &'a Heatmap) -> (r: Iter<'a>)
        requires
            heatmap.wf(),
        ensures
            r.wf(),
            r.spec_heatmap() == heatmap@,
            r.spec_index() == 0,
    {
        Iter { heatmap, index: 0 }
    }

    /// the next slice, as a snapshot that later heatmap mutation cannot
    /// touch: its half-open bounds and an owned copy of its histogram
    pub fn next(&mut self) -> (r: Option<Slice>)
        requires
            old(self).wf(),
        ensures
            final (self).wf(),
            final (self).spec_heatmap() == old(self).spec_heatmap(),
            match r {
                None => {
                    &&& old(self).spec_index() == old(self).spec_heatmap().config.num_slices
                    &&& final (self).spec_index() == old(self).spec_index()
                },
                Some(s) => {
                    let v = old(self).spec_heatmap();
                    let i = old(self).spec_index();
                    &&& i < v.config.num_slices
                    &&& final (self).spec_index() == i + 1
                    &&& s.spec_start() == v.start + v.config.slice_duration * i
                    &&& s.spec_stop() == v.start + v.config.slice_duration * (i + 1)
                    &&& s.spec_counts() == v.slices[i]
                },
            },
    {
        let n: usize = self.heatmap.config.num_slices;
        if self.index == n {
            return None;
        }
        let i: usize = self.index;
        proof {
            let d = self.heatmap@.config.slice_duration as int;
            assert(d * (i as int) + d <= d * (n as int) && d * (i as int + 1) == d * (i as int)
                + d) by (nonlinear_arith)
                requires
                    d >= 0,
                    0 <= i,
                    i as int + 1 <= n as int,
            {
            }
        }
        let s_start: u64 = self.heatmap.start + self.heatmap.config.slice_duration * (i as u64);
        let s_stop: u64 = s_start + self.heatmap.config.slice_duration;
        self.index = i + 1;
        Some(
            Slice {
                start: s_start,
                stop: s_stop,
                histogram: hist_clone(&self.heatmap.data[i]),
            },
        )
    }
}

/// The default configuration is buildable whenever its window fits.
pub proof fn lemma_default_config_ok(c: ConfigView)
    requires
        has_default_fields(c),
        c.start + c.slice_duration * (c.num_slices as u64) <= u64::MAX,
    ensures
        config_ok(c),
{
    reveal_with_fuel(crate::quant::pow10, 5);
    assert(crate::quant::pow10(3) == 1000);
    reveal_with_fuel(crate::quant::bit_len, 32);
    assert(crate::quant::bit_len(1_000_000_000nat) == 30);
    assert(crate::quant::bit_len(1000nat) == 10);
    reveal_with_fuel(crate::quant::pow2, 55);
    assert(crate::quant::pow2(29) == 536870912nat);
    assert(crate::quant::pow2(10) == 1024nat);
    assert(crate::quant::pow2(53) == 0x20_0000_0000_0000nat);
    assert(1_000_000_000 * crate::quant::pow10(3) == 1_000_000_000_000nat);
    assert(crate::quant::pow2((crate::quant::bit_len(1_000_000_000nat) - 1) as nat) * (2
        * crate::quant::pow10(3) - 4) == 536870912 * 1996);
    assert((1_000_000_000 - 1024) * crate::quant::pow10(3) >= crate::quant::pow2(3)
        * crate::quant::pow2(crate::quant::bit_len(crate::quant::pow10(3)))) by {
        assert(crate::quant::pow2(3) == 8nat);
    }
    assert(quant_safe(3, 1_000_000_000));
}

} // verus!
