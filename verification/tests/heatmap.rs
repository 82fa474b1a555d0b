use heatmap::config::Config;
use heatmap::errors::Error;
use heatmap::heatmap::{Counters, Heatmap, Iter};

#[test]
fn test_new_0() {
    let h = Heatmap::configure().num_slices(60).build().unwrap();

    assert_eq!(h.num_slices(), 60);

    let h = Heatmap::configure().num_slices(120).build().unwrap();

    assert_eq!(h.num_slices(), 120);
}

#[test]
fn test_increment() {
    let mut h = Heatmap::configure()
        .num_slices(60)
        .slice_duration(1_000_000_000)
        .start(0)
        .build()
        .unwrap();

    assert_eq!(h.num_slices(), 60);

    let _ = h.increment(0, 1);
    assert_eq!(h.get(0, 1), Ok(1));

    let _ = h.increment(30_000_000_000, 1);
    assert_eq!(h.get(30_000_000_000, 1), Ok(1));

    assert!(h.increment(59_999_999_999, 1).is_ok());
    assert!(!h.increment(60_000_000_000, 1).is_ok());
    assert!(!h.increment(60_000_000_001, 1).is_ok());
}

#[test]
fn test_window_errors() {
    let mut h = Heatmap::configure()
        .num_slices(60)
        .slice_duration(1_000_000_000)
        .start(100)
        .build()
        .unwrap();

    assert_eq!(h.increment(50, 1), Err(Error::SampleTooEarly));
    assert_eq!(h.get(50, 1), Err(Error::SampleTooEarly));
    assert_eq!(h.increment(60_000_000_100, 1), Err(Error::SampleTooLate));
    assert_eq!(h.get(60_000_000_100, 1), Err(Error::SampleTooLate));
    assert_eq!(h.increment(100, 1), Ok(()));
    assert_eq!(h.get(100, 1), Ok(1));
}

#[test]
fn test_record_failure() {
    let mut h = Heatmap::configure()
        .num_slices(60)
        .slice_duration(1_000_000_000)
        .start(0)
        .build()
        .unwrap();

    // the default value bound is 1_000_000_000
    assert_eq!(h.increment(0, 2_000_000_000), Err(Error::RecordFailure));
    assert_eq!(h.entries(), 0);
    assert_eq!(h.get(0, 2_000_000_000), Ok(0));
}

#[test]
fn test_repeated_increment_by_sums() {
    let mut h = Heatmap::configure()
        .num_slices(60)
        .slice_duration(1_000_000_000)
        .start(0)
        .build()
        .unwrap();

    assert_eq!(h.increment_by(500, 7, 3), Ok(()));
    assert_eq!(h.increment_by(500, 7, 4), Ok(()));
    assert_eq!(h.increment_by(500, 7, 10), Ok(()));
    assert_eq!(h.get(500, 7), Ok(17));
}

#[test]
fn test_entries_counts_successes_only() {
    let mut h = Heatmap::configure()
        .num_slices(60)
        .slice_duration(1_000_000_000)
        .start(0)
        .build()
        .unwrap();

    assert_eq!(h.entries(), 0);
    assert_eq!(h.increment_by(0, 1, 5), Ok(()));
    assert_eq!(h.entries(), 5);
    // out of window: not counted
    let _ = h.increment_by(60_000_000_000, 1, 100);
    assert_eq!(h.entries(), 5);
    // value above the bound: not counted
    let _ = h.increment_by(0, 2_000_000_000, 100);
    assert_eq!(h.entries(), 5);
    assert_eq!(h.increment_by(1_500_000_000, 2, 2), Ok(()));
    assert_eq!(h.entries(), 7);
}

#[test]
fn test_clear() {
    let mut h = Heatmap::configure()
        .num_slices(60)
        .slice_duration(1_000_000_000)
        .start(0)
        .build()
        .unwrap();

    assert_eq!(h.increment(5, 1), Ok(()));
    assert_eq!(h.entries(), 1);
    h.clear(0);
    assert_eq!(h.entries(), 0);
    assert_eq!(h.get(5, 1), Ok(0));

    // rebasing to a later origin invalidates old timestamps
    let _ = h.increment(7, 2);
    h.clear(1_000_000_000);
    assert_eq!(h.entries(), 0);
    assert_eq!(h.get(7, 2), Err(Error::SampleTooEarly));
    assert_eq!(h.get(1_000_000_007, 2), Ok(0));
}

#[test]
fn test_merge() {
    let mut a = Heatmap::configure()
        .num_slices(60)
        .slice_duration(1_000_000_000)
        .start(0)
        .build()
        .unwrap();

    let mut b = Heatmap::configure().start(0).build().unwrap();

    assert_eq!(a.entries(), 0);
    assert_eq!(b.entries(), 0);

    let t0: u64 = 500_000_000;
    let t1: u64 = t0 + 1_000_000_000;

    let _ = a.increment(t0, 1);
    let _ = b.increment(t0, 1);

    assert_eq!(a.entries(), 1);
    assert_eq!(b.entries(), 1);

    a.merge(&b);

    assert_eq!(a.entries(), 2);
    // b's slice starts at 0, so its bucket lands in a's first slice
    assert_eq!(a.get(t0, 1), Ok(2));
    assert_eq!(a.get(t0, 2), Ok(0));
    assert_eq!(a.get(t1, 1), Ok(0));
}

#[test]
fn test_merge_drops_outside_window() {
    let mut a = Heatmap::configure()
        .num_slices(10)
        .slice_duration(1_000_000_000)
        .start(0)
        .build()
        .unwrap();

    // b's window lies wholly past a's
    let mut b = Heatmap::configure()
        .num_slices(10)
        .slice_duration(1_000_000_000)
        .start(100_000_000_000)
        .build()
        .unwrap();

    assert_eq!(b.increment(100_000_000_001, 3), Ok(()));
    a.merge(&b);
    assert_eq!(a.entries(), 0);
    assert_eq!(a.get(5, 3), Ok(0));
}

#[test]
fn test_to_bytes_exact() {
    let mut h = Heatmap::configure()
        .precision(3)
        .max_value(1000)
        .slice_duration(1_000_000_000)
        .num_slices(2)
        .start(0)
        .build()
        .unwrap();

    assert_eq!(h.to_bytes(), b"3 0 1000 1000000000 2 0\n".to_vec());

    assert_eq!(h.increment(0, 5), Ok(()));
    // value 5 sits in the linear bucket range, so its bucket reads back as 5
    assert_eq!(h.to_bytes(), b"3 0 1000 1000000000 2 0\n0 5 1\n".to_vec());

    assert_eq!(h.increment_by(1_500_000_000, 9, 4), Ok(()));
    assert_eq!(
        h.to_bytes(),
        b"3 0 1000 1000000000 2 0\n0 5 1\n1000000000 9 4\n".to_vec()
    );
}

#[test]
fn test_from_bytes_round_trip() {
    let mut h = Heatmap::configure()
        .num_slices(60)
        .slice_duration(1_000_000_000)
        .start(0)
        .build()
        .unwrap();

    assert_eq!(h.increment(0, 1), Ok(()));
    assert_eq!(h.increment_by(500, 7, 3), Ok(()));
    assert_eq!(h.increment_by(30_000_000_000, 42, 2), Ok(()));

    let bytes = h.to_bytes();
    let g = Heatmap::from_bytes(&bytes).unwrap();

    assert_eq!(g.num_slices(), h.num_slices());
    assert_eq!(g.histogram_buckets(), h.histogram_buckets());
    assert_eq!(g.entries(), h.entries());
    assert_eq!(g.get(0, 1), Ok(1));
    assert_eq!(g.get(500, 7), Ok(3));
    assert_eq!(g.get(30_000_000_000, 42), Ok(2));
    assert_eq!(g.get(500, 8), h.get(500, 8));
    assert_eq!(g.to_bytes(), bytes);
}

#[test]
fn test_from_bytes_malformed() {
    assert!(matches!(
        Heatmap::from_bytes(&Vec::new()),
        Err(Error::MalformedPersistedState)
    ));
    assert!(matches!(
        Heatmap::from_bytes(&b"garbage".to_vec()),
        Err(Error::MalformedPersistedState)
    ));
    // five header tokens instead of six
    assert!(matches!(
        Heatmap::from_bytes(&b"3 0 1000 1000000000 2\n".to_vec()),
        Err(Error::MalformedPersistedState)
    ));
    // a body line with two tokens
    assert!(matches!(
        Heatmap::from_bytes(&b"3 0 1000 1000000000 2 0\n0 5\n".to_vec()),
        Err(Error::MalformedPersistedState)
    ));
    // a body line with a non-numeric token
    assert!(matches!(
        Heatmap::from_bytes(&b"3 0 1000 1000000000 2 0\n0 x 1\n".to_vec()),
        Err(Error::MalformedPersistedState)
    ));
    // a header that no heatmap can be built from: zero slices
    assert!(matches!(
        Heatmap::from_bytes(&b"3 0 1000 1000000000 0 0\n".to_vec()),
        Err(Error::MalformedPersistedState)
    ));
}

#[test]
fn test_from_bytes_replay() {
    let h =
        Heatmap::from_bytes(&b"3 0 1000 1000000000 2 0\n0 5 1\n1000000000 9 4\n".to_vec())
            .unwrap();
    assert_eq!(h.num_slices(), 2);
    assert_eq!(h.get(0, 5), Ok(1));
    assert_eq!(h.get(1_500_000_000, 9), Ok(4));
    assert_eq!(h.entries(), 5);
}

#[test]
fn test_histogram_buckets() {
    let h = Heatmap::configure()
        .precision(3)
        .max_value(1000)
        .num_slices(2)
        .slice_duration(1_000_000_000)
        .start(0)
        .build()
        .unwrap();
    // with precision 3, values up to 1000 index linearly: buckets 0..=1000
    assert_eq!(h.histogram_buckets(), 1001);
}

#[test]
fn test_build_rejects_invalid_configs() {
    assert!(Config::new().start(0).num_slices(0).build().is_none());
    assert!(Config::new().start(0).slice_duration(0).build().is_none());
    assert!(Config::new().start(0).precision(0).build().is_none());
    // precisions above 7 risk the histogram crate's 32-bit sizing arithmetic
    assert!(Config::new().start(0).precision(8).build().is_none());
    // a value bound in the top sliver of its power-of-two range is refused
    assert!(Config::new().start(0).max_value(u64::MAX).build().is_none());
    // so is one just past the extended linear range, where the reachable
    // bucket count would fall below linear bucket indices
    assert!(Config::new()
        .start(0)
        .precision(4)
        .max_value(16_405)
        .build()
        .is_none());
    // and one at or above 2^53, where values lose f64 exactness
    assert!(Config::new()
        .start(0)
        .max_value(9_007_199_254_740_992)
        .build()
        .is_none());
    // the window must fit in u64
    assert!(Config::new().start(u64::MAX - 10).build().is_none());
    // a memory bound too small for the bucket arrays is refused
    assert!(Config::new().start(0).max_memory(1024).build().is_none());
    // and a sufficient one accepted
    assert!(Config::new()
        .start(0)
        .max_value(1000)
        .max_memory(100_000_000)
        .build()
        .is_some());
}

#[test]
fn test_iterator() {
    let mut h = Heatmap::configure()
        .num_slices(3)
        .slice_duration(1_000_000_000)
        .start(0)
        .build()
        .unwrap();
    assert_eq!(h.increment(1_200_000_000, 4), Ok(()));

    let mut it = Iter::new(&h);
    let s0 = it.next().unwrap();
    assert_eq!(s0.start(), 0);
    assert_eq!(s0.stop(), 1_000_000_000);
    let s1 = it.next().unwrap();
    assert_eq!(s1.start(), 1_000_000_000);
    assert_eq!(s1.stop(), 2_000_000_000);
    // the snapshot holds the recorded count
    assert_eq!(s1.histogram().get(4), Some(1));
    let s2 = it.next().unwrap();
    assert_eq!(s2.start(), 2_000_000_000);
    assert!(it.next().is_none());

    // a fresh iterator starts over
    let mut again = h.iter();
    assert_eq!(again.next().unwrap().start(), 0);
}

#[test]
fn test_snapshot_is_independent() {
    let mut h = Heatmap::configure()
        .num_slices(3)
        .slice_duration(1_000_000_000)
        .start(0)
        .build()
        .unwrap();
    assert_eq!(h.increment(10, 2), Ok(()));
    let snap = Iter::new(&h).next().unwrap().histogram();
    assert_eq!(h.increment(10, 2), Ok(()));
    // the earlier snapshot does not observe the later record
    assert_eq!(snap.get(2), Some(1));
    assert_eq!(h.get(10, 2), Ok(2));
}

#[test]
fn test_clone() {
    let mut h = Heatmap::configure()
        .num_slices(60)
        .slice_duration(1_000_000_000)
        .start(0)
        .build()
        .unwrap();
    assert_eq!(h.increment_by(5, 3, 2), Ok(()));

    let mut g = h.clone();
    assert_eq!(g.num_slices(), 60);
    assert_eq!(g.entries(), 2);
    assert_eq!(g.get(5, 3), Ok(2));

    // the copy is independent of the source
    assert_eq!(g.increment(5, 3), Ok(()));
    assert_eq!(g.get(5, 3), Ok(3));
    assert_eq!(h.get(5, 3), Ok(2));
    assert_eq!(h.increment(7, 4), Ok(()));
    assert_eq!(g.get(7, 4), Ok(0));

    let s = Iter::new(&h).next().unwrap();
    let s2 = s.clone();
    assert_eq!(s2.start(), s.start());
    assert_eq!(s2.stop(), s.stop());
    assert_eq!(s2.histogram().get(3), Some(2));
}

#[test]
fn test_counters() {
    let mut c = Counters::new();
    c.clear();
    let _ = c;

    let h = Heatmap::new();
    assert_eq!(h.entries(), 0);
}

#[test]
fn test_default_config_fields() {
    let c = Config::default();
    let h = c.start(0).build().unwrap();
    assert_eq!(h.num_slices(), 60);
    assert_eq!(h.entries(), 0);
}
