use feedhandler::book_engine::LatencyHistogram;
use feedhandler::histogram::BucketRow;
use feedhandler::timer::{calibrated_hz, ticks_to_ns, FALLBACK_HZ};

#[test]
fn samples_fall_into_their_power_of_two() {
    let mut histogram = LatencyHistogram::<8>::new();
    for ticks in [0u64, 1, 2, 3, 4, 7, 127, 128, 1_000_000] {
        histogram.record(ticks);
    }
    assert_eq!(histogram.total(), 9);
    assert_eq!(histogram.max(), 1_000_000);
    assert_eq!(
        histogram.summary_rows(1_000_000_000),
        vec![
            BucketRow { lo_ns: 0, hi_ns: 1, count: 2 },
            BucketRow { lo_ns: 1, hi_ns: 2, count: 2 },
            BucketRow { lo_ns: 2, hi_ns: 4, count: 2 },
            BucketRow { lo_ns: 32, hi_ns: 64, count: 1 },
            BucketRow { lo_ns: 64, hi_ns: 128, count: 2 },
        ]
    );
}

#[test]
fn every_sample_is_in_one_bucket() {
    let mut histogram = LatencyHistogram::<64>::default();
    for shift in 0..64 {
        histogram.record(1u64 << shift);
    }
    histogram.record(u64::MAX);
    let rows = histogram.summary_rows(0);
    assert_eq!(rows.len(), 64);
    assert_eq!(rows.iter().map(|r| r.count).sum::<u64>(), 65);
    assert_eq!(rows[63].count, 2);
    assert_eq!(rows[63].hi_ns, (1u64 << 63) / 3);
    assert_eq!(histogram.max(), u64::MAX);
}

#[test]
fn more_buckets_than_powers_stay_empty() {
    let mut histogram = LatencyHistogram::<100>::new();
    histogram.record(u64::MAX);
    assert_eq!(histogram.summary_rows(1).len(), 1);
    assert_eq!(LatencyHistogram::<100>::new().summary_rows(1), vec![]);
}

#[test]
fn ticks_become_nanoseconds() {
    assert_eq!(ticks_to_ns(3_000, 3_000_000_000), 1_000);
    assert_eq!(ticks_to_ns(10, 0), 3);
    assert_eq!(ticks_to_ns(10, FALLBACK_HZ), 3);
    assert_eq!(ticks_to_ns(u64::MAX, 1_000_000_000), u64::MAX);
    assert_eq!(ticks_to_ns(7, 2_000_000_000), 3);
}

#[test]
fn results_past_the_range_are_cut() {
    assert_eq!(ticks_to_ns(u64::MAX, 1), 0u64.wrapping_sub(1_000_000_000));
}

#[test]
fn a_sample_gives_a_frequency() {
    assert_eq!(calibrated_hz(1_000, 1_000 + 250_000_000, 100_000_000), 2_500_000_000);
    assert_eq!(calibrated_hz(u64::MAX, 99, 100), 1_000_000_000);
    assert_eq!(calibrated_hz(0, 5, 0), 3_000_000_000);
    assert_eq!(calibrated_hz(0, u64::MAX, 2), u64::MAX / 2);
}
