//! The trusted boundary around the `histogram` crate (version 0.6.9).
//!
//! A slice's histogram is modelled by the sequence of its reachable bucket
//! counts, `hist_counts`, together with the `(precision, max_value)` pair it
//! was built with, `hist_quant`.  Which bucket a value lands in is computed
//! by the crate with floating point, so it is only *named* (`quant_key`,
//! `quant_value`); everything stated about those names is stated by the
//! wrappers below, each of which names the function of the crate it relies
//! on.

use crate::quant::{hist_data_len, quant_safe};
use vstd::prelude::*;

verus! {

/// `histogram::Histogram` as an opaque type; the library touches it only
/// through the wrappers in this module.
#[verifier::external_type_specification]
#[verifier::external_body]
pub struct ExHistogram(histogram::Histogram);

/// The counts of the histogram's reachable buckets, in bucket order.  Its
/// length is what `Histogram::buckets_total` reports.
pub uninterp spec fn hist_counts(h: histogram::Histogram) -> Seq<u64>;

/// The `(precision, max_value)` pair the histogram was built with.
pub uninterp spec fn hist_quant(h: histogram::Histogram) -> (u64, u64);

/// The bucket index `Histogram::get_index` assigns to a value under a
/// `(precision, max_value)` pair.
pub uninterp spec fn quant_key(precision: u64, max_value: u64, value: u64) -> int;

/// The nominal value `Bucket::value` (`Histogram::index_value`, clamped to
/// `max_value`) reports for a bucket index.
pub uninterp spec fn quant_value(precision: u64, max_value: u64, index: int) -> u64;

/// The number of reachable buckets: `Histogram::buckets_total` is
/// `get_index(max_value) + 1`.
pub open spec fn quant_buckets(precision: u64, max_value: u64) -> int {
    quant_key(precision, max_value, max_value) + 1
}

/// Saturating `u64` addition, the only way the histogram and the heatmap
/// ever grow a counter.
pub open spec fn sat_add(a: u64, b: u64) -> u64 {
    if a + b > u64::MAX {
        u64::MAX
    } else {
        (a + b) as u64
    }
}

/// Relies on `histogram::Config::{precision, max_memory, max_value}` and
/// `Config::build`: `build` returns `None` exactly when a nonzero memory
/// bound is smaller than the bucket array (8 bytes per allocated bucket),
/// and otherwise a histogram all of whose buckets are zero.  The
/// `quant_safe` requirement keeps out the configurations on which the
/// crate's sizing arithmetic overflows, its bucket indexing can leave the
/// allocated array, or the reachable bucket count (`get_index(max_value) +
/// 1`) falls below the indices its extended linear range still admits; only
/// under it does the final clause — every admissible value indexes within
/// the reachable buckets — hold of `get_index`.
#[verifier::external_body]
pub(crate) fn hist_new(precision: u32, max_memory: u32, max_value: u64) -> (r: Option<
    histogram::Histogram,
>)
    requires
        quant_safe(precision as u64, max_value),
    ensures
        r is Some <==> (max_memory == 0 || max_memory as int >= 8 * hist_data_len(
            precision as u64,
            max_value,
        )),
        match r {
            Some(h) => {
                &&& hist_quant(h) == (precision as u64, max_value)
                &&& hist_counts(h) == Seq::new(
                    quant_buckets(precision as u64, max_value) as nat,
                    |i: int| 0u64,
                )
                &&& hist_counts(h).len() >= 1
                &&& forall|val: u64|
                    val <= max_value ==> 0 <= #[trigger] quant_key(
                        precision as u64,
                        max_value,
                        val,
                    ) < hist_counts(h).len()
            },
            None => true,
        },
{
    histogram::Histogram::configure().precision(precision).max_memory(max_memory).max_value(
        max_value,
    ).build()
}

/// Relies on `histogram::Histogram::increment_by`: a value above `max_value`
/// is rejected and the buckets are untouched; otherwise `count` is added,
/// saturating, to the bucket `get_index` picks for the value.
#[verifier::external_body]
pub(crate) fn hist_increment_by(h: &mut histogram::Histogram, value: u64, count: u64) -> (r: Result<
    (),
    &'static str,
>)
    requires
        quant_safe(hist_quant(*old(h)).0, hist_quant(*old(h)).1),
    ensures
        hist_quant(*final (h)) == hist_quant(*old(h)),
        r is Ok <==> value <= hist_quant(*old(h)).1,
        hist_counts(*final (h)) == ({
            let p = hist_quant(*old(h)).0;
            let mv = hist_quant(*old(h)).1;
            let k = quant_key(p, mv, value);
            if value > mv {
                hist_counts(*old(h))
            } else {
                hist_counts(*old(h)).update(k, sat_add(hist_counts(*old(h))[k], count))
            }
        }),
{
    h.increment_by(value, count)
}

/// Relies on `histogram::Histogram::get`: for a value within `max_value` it
/// returns the count of the bucket `get_index` picks for the value.
#[verifier::external_body]
pub(crate) fn hist_get(h: &histogram::Histogram, value: u64) -> (r: u64)
    requires
        quant_safe(hist_quant(*h).0, hist_quant(*h).1),
        value <= hist_quant(*h).1,
    ensures
        r == hist_counts(*h)[quant_key(hist_quant(*h).0, hist_quant(*h).1, value)],
{
    h.get(value).unwrap()
}

/// Relies on `histogram::Histogram::clear`: zeroes every bucket (and the
/// crate's internal counters); the histogram's shape is unchanged.
#[verifier::external_body]
pub(crate) fn hist_clear(h: &mut histogram::Histogram)
    ensures
        hist_quant(*final (h)) == hist_quant(*old(h)),
        hist_counts(*final (h)) == Seq::new(hist_counts(*old(h)).len(), |i: int| 0u64),
{
    h.clear();
}

/// Relies on the derived `Clone` of `histogram::Histogram`: the clone has the
/// same configuration and the same bucket counts.
#[verifier::external_body]
pub(crate) fn hist_clone(h: &histogram::Histogram) -> (r: histogram::Histogram)
    ensures
        hist_quant(r) == hist_quant(*h),
        hist_counts(r) == hist_counts(*h),
{
    h.clone()
}

/// Relies on `histogram::Iter` (through `&Histogram`'s `IntoIterator`): it
/// yields one bucket per reachable bucket, in index order, carrying the
/// bucket's nominal value (`index_value`, clamped to `max_value`) and its
/// count.  `quant_safe` bounds `max_value` below `2^53`, so the `f64`
/// comparison against `max_value` that could otherwise cut the iteration
/// short stays exact.
#[verifier::external_body]
pub(crate) fn hist_buckets(h: &histogram::Histogram) -> (r: Vec<(u64, u64)>)
    requires
        quant_safe(hist_quant(*h).0, hist_quant(*h).1),
    ensures
        r@.len() == hist_counts(*h).len(),
        forall|i: int|
            0 <= i < r@.len() ==> #[trigger] r@[i] == (
                quant_value(hist_quant(*h).0, hist_quant(*h).1, i),
                hist_counts(*h)[i],
            ) && r@[i].0 <= hist_quant(*h).1,
{
    let mut out = Vec::new();
    for bucket in h {
        out.push((bucket.value(), bucket.count()));
    }
    out
}

/// Relies on `histogram::Histogram::buckets_total`: the number of reachable
/// buckets.
#[verifier::external_body]
pub(crate) fn hist_buckets_total(h: &histogram::Histogram) -> (r: u64)
    requires
        quant_safe(hist_quant(*h).0, hist_quant(*h).1),
    ensures
        r == hist_counts(*h).len(),
{
    h.buckets_total()
}

} // verus!
