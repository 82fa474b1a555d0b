//! Configuration for building custom heatmaps.

use crate::clock::now_ns;
use crate::heatmap::Heatmap;
use crate::quant::{hist_data_len, quant_safe};
use vstd::prelude::*;

verus! {

/// The mathematical image of a `Config`.
pub ghost struct ConfigView {
    pub precision: u32,
    pub max_memory: u32,
    pub max_value: u64,
    pub slice_duration: u64,
    pub num_slices: usize,
    pub start: u64,
}

/// A configuration struct for building custom heatmaps.
#[derive(Clone, Copy)]
pub struct Config {
    pub precision: u32,
    pub max_memory: u32,
    pub max_value: u64,
    pub slice_duration: u64,
    pub num_slices: usize,
    pub start: u64,
}

impl View for Config {
    type V = ConfigView;

    open spec fn view(&self) -> ConfigView {
        ConfigView {
            precision: self.precision,
            max_memory: self.max_memory,
            max_value: self.max_value,
            slice_duration: self.slice_duration,
            num_slices: self.num_slices,
            start: self.start,
        }
    }
}

/// Every field except `start` at its default.
pub open spec fn has_default_fields(c: ConfigView) -> bool {
    &&& c.precision == 3
    &&& c.max_memory == 0
    &&& c.max_value == 1_000_000_000
    &&& c.slice_duration == 60_000_000_000
    &&& c.num_slices == 60
}

/// The configurations from which `build` produces a heatmap: a non-empty
/// window that fits in `u64`, a quantization the histogram crate handles
/// soundly (`quant_safe`), and a per-slice memory bound (if any) at least as
/// large as a slice's bucket array.
///
/// `quant_safe` refuses more than the histogram crate itself does: besides
/// the configurations whose construction fails outright, it keeps out
/// precisions above 7 and the `max_value` bands on which the crate's
/// floating-point bucket indexing runs past the buckets it allocates or
/// reaches — configurations the crate would nominally build and then
/// corrupt or panic on.  `build` returns `None` for all of them rather than
/// hand out a heatmap whose recording could not be sound.
pub open spec fn config_ok(c: ConfigView) -> bool {
    &&& 1 <= c.num_slices <= u32::MAX
    &&& 1 <= c.slice_duration
    &&& c.start + c.slice_duration * (c.num_slices as u64) <= u64::MAX
    &&& quant_safe(c.precision as u64, c.max_value)
    &&& (c.max_memory as int / c.num_slices as int == 0 || c.max_memory as int
        / c.num_slices as int >= 8 * hist_data_len(c.precision as u64, c.max_value))
}

impl Default for Config {
    /// The default configuration: 3 significant digits, no memory bound,
    /// values up to one second in nanoseconds, sixty one-minute slices, and a
    /// window starting at the current time.
    fn default() -> (c: Config)
        ensures
            has_default_fields(c@),
    {
        Config {
            precision: 3,
            max_memory: 0,
            max_value: 1_000_000_000,
            slice_duration: 60_000_000_000,
            num_slices: 60,
            start: now_ns(),
        }
    }
}

impl Config {
    /// create a new Config with the defaults
    ///
    /// # Defaults
    /// * precision => 3
    /// * max_memory => 0 (unlimited)
    /// * max_value => 1_000_000_000 (1 second in nanoseconds)
    /// * slice_duration => 60_000_000_000 (1 minute in nanoseconds)
    /// * num_slices => 60 (1 hour of heatmap)
    /// * start => the current time
    pub fn new() -> (c: Config)
        ensures
            has_default_fields(c@),
    {
        Config::default()
    }

    /// set the number of significant figures to maintain for values
    pub fn precision(self, precision: u32) -> (r: Self)
        ensures
            r@ == (ConfigView { precision, ..self@ }),
    {
        Config { precision, ..self }
    }

    /// set a bound on the memory usage of the heatmap
    pub fn max_memory(self, bytes: u32) -> (r: Self)
        ensures
            r@ == (ConfigView { max_memory: bytes, ..self@ }),
    {
        Config { max_memory: bytes, ..self }
    }

    /// set the max value to store within the heatmap
    pub fn max_value(self, value: u64) -> (r: Self)
        ensures
            r@ == (ConfigView { max_value: value, ..self@ }),
    {
        Config { max_value: value, ..self }
    }

    /// set the duration of each slice within the heatmap
    pub fn slice_duration(self, duration: u64) -> (r: Self)
        ensures
            r@ == (ConfigView { slice_duration: duration, ..self@ }),
    {
        Config { slice_duration: duration, ..self }
    }

    /// set the number of slices to store
    pub fn num_slices(self, count: usize) -> (r: Self)
        ensures
            r@ == (ConfigView { num_slices: count, ..self@ }),
    {
        Config { num_slices: count, ..self }
    }

    /// the start time of the heatmap, used for slice indexing
    pub fn start(self, time: u64) -> (r: Self)
        ensures
            r@ == (ConfigView { start: time, ..self@ }),
    {
        Config { start: time, ..self }
    }

    /// creates the heatmap from the configuration; `None` exactly when the
    /// configuration is not one `config_ok` admits — which covers both the
    /// histogram crate's own memory-bound refusal and the unsound
    /// configurations `quant_safe` keeps out (see `config_ok`)
    pub fn build(self) -> (r: Option<Heatmap>)
        ensures
            match r {
                Some(h) => h.wf() && h@ == crate::heatmap::spec_fresh(self@) && config_ok(self@),
                None => !config_ok(self@),
            },
    {
        Heatmap::configured(self)
    }
}

} // verus!
