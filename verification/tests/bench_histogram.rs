//! A sketch of latencies.

use rust_im::bench::histogram::{bucket_value, locate, LatencyHist, TestRng, SLOTS};

/// Small values are kept exactly: a percentile is the sample itself.
#[test]
fn small_values_are_exact() {
    let mut h = LatencyHist::new();
    for v in [0u64, 1, 42, 100, 255] {
        h.record_ns(v);
    }
    assert_eq!(h.count(), 5);
    assert_eq!(h.percentile_ns(20), 0);
    assert_eq!(h.percentile_ns(21), 1);
    assert_eq!(h.percentile_ns(50), 42);
    assert_eq!(h.percentile_ns(100), 255);
    assert_eq!(h.percentile_ns(0), 0);
    assert_eq!(h.percentile_ns(1000), 255);
    assert_eq!(h.min(), Some(0));
    assert_eq!(h.max(), Some(255));
}

#[test]
fn locate_and_value_roundtrip() {
    for v in [256u64, 257, 300, 511, 512, 513, 1023, 1024, 1 << 20, 1 << 40, u64::MAX / 2, u64::MAX] {
        let (b, s) = locate(v);
        let lb = bucket_value(b, s);
        assert!(lb <= v, "槽下界 {lb} 应 ≤ 值 {v}");
        let step = if b == 0 { 1 } else { 1u64 << (b - 1) };
        if lb <= u64::MAX - step {
            assert!(v < lb + step, "值 {v} 应 < 槽上界 {}", lb + step);
        }
    }
}

#[test]
fn precision_bound_holds() {
    for v in [256u64, 1_000, 100_000, 10_000_000, 1_000_000_000, 1 << 40] {
        let (b, s) = locate(v);
        let lb = bucket_value(b, s);
        assert!(
            v - lb <= v / SLOTS + 1,
            "槽 {b}/{s} 对 {v} 的精度超标（下界 {lb}）"
        );
    }
}

#[test]
fn matches_sorted_ground_truth_within_one_step() {
    let mut rng = TestRng::new(42);
    let mut h = LatencyHist::new();
    let mut raw: Vec<u64> = Vec::with_capacity(100_000);
    for _ in 0..100_000 {
        let v = rng.next_u64() % (1 << 32);
        h.record_ns(v);
        raw.push(v);
    }
    raw.sort_unstable();

    for pct in [1u64, 50, 90, 99, 100] {
        let rank = (raw.len() as u128 * u128::from(pct)).div_ceil(100);
        let rank = usize::try_from(rank).expect("样本数装得下 usize") - 1;
        let truth = raw[rank];
        let sketch = h.percentile_ns(pct);
        assert!(
            sketch <= truth && truth - sketch < (1 << 24),
            "P{pct}: 草图 {sketch} 与真值 {truth} 偏差超过一个槽"
        );
    }
}

#[test]
fn slot_counts_sum_to_total() {
    let mut rng = TestRng::new(7);
    let mut h = LatencyHist::new();
    for _ in 0..1_000 {
        h.record_ns(rng.next_u64() >> 8);
    }
    let sum: u64 = h.slot_counts().iter().sum();
    assert_eq!(sum, h.count(), "槽计数之和必须等于 total");
}

#[test]
fn percentiles_are_monotonic() {
    let mut rng = TestRng::new(99);
    let mut h = LatencyHist::new();
    for _ in 0..1_000 {
        h.record_ns(rng.next_u64() % 1_000_000);
    }
    let p50 = h.percentile_ns(50);
    let p90 = h.percentile_ns(90);
    let p99 = h.percentile_ns(99);
    let mx = h.max().expect("有样本") as u64;
    assert!(p50 <= p90 && p90 <= p99 && p99 <= mx);
}

#[test]
fn mean_matches_manual_computation() {
    let mut h = LatencyHist::new();
    assert!(h.mean().is_none());
    for v in [100u64, 200, 300] {
        h.record_ns(v);
    }
    assert_eq!(h.mean().expect("有样本"), 200);
}

/// A span is recorded as its nanoseconds, and a percentile is the floor of its slot.
#[test]
fn duration_wrapper_matches_ns() {
    let mut h = LatencyHist::new();
    h.record(3_000_000);
    assert_eq!(h.percentile_ns(100), 2_998_272);
}

/// A span counts as its nanoseconds, and one that is too long as the longest.
#[test]
fn span_is_recorded_in_nanoseconds() {
    let mut a = LatencyHist::new();
    a.record(3_000_000);
    let mut b = LatencyHist::new();
    b.record_ns(3_000_000);
    assert_eq!(a.percentile_ns(100), b.percentile_ns(100));
    assert_eq!(a.percentile(100), 2_998_272);
    assert_eq!(a.max(), Some(3_000_000));
    a.record(u128::MAX);
    assert_eq!(a.max(), Some(u64::MAX as u128));
}

#[test]
fn empty_sketch_says_nothing() {
    let h = LatencyHist::new();
    assert_eq!(h.percentile_ns(50), 0);
    assert_eq!(h.count(), 0);
    assert_eq!(h.min(), None);
    assert_eq!(h.max(), None);
}

#[test]
fn places_of_values() {
    assert_eq!(locate(255), (0, 255));
    assert_eq!(locate(256), (1, 0));
    assert_eq!(locate(511), (1, 255));
    assert_eq!(locate(512), (2, 0));
    assert_eq!(locate(514), (2, 1));
    assert_eq!(bucket_value(2, 1), 514);
    assert_eq!(bucket_value(3, 0), 1024);
}
