use eidosdb::latency::{summarize, LatencySummary};

#[test]
fn empty_is_zeroed() {
    assert_eq!(summarize(&[]), LatencySummary { p50: 0, p99: 0 });
}

#[test]
fn computes_percentiles_on_a_ramp() {
    let samples: Vec<u128> = (1..=100u128).map(|ms| ms * 1_000_000).collect();
    let summary = summarize(&samples);
    assert_eq!(summary.p50, 50_000_000);
    assert_eq!(summary.p99, 99_000_000);
}

#[test]
fn percentiles_ignore_sample_order() {
    let summary = summarize(&[30, 10, 20]);
    assert_eq!(summary, LatencySummary { p50: 20, p99: 30 });
    let single = summarize(&[7]);
    assert_eq!(single, LatencySummary { p50: 7, p99: 7 });
}
