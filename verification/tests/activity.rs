use usage_monitor::activity::{checked_window_tokens, is_active, spark_buckets, window_tokens, RATE_WINDOW_SECS, SPARK_MINUTES};

const NOW: i64 = 1_782_200_400_123_456_789;

fn ago(secs: i64) -> i64 {
    NOW - secs * 1_000_000_000
}

#[test]
fn burn_rate_averages_window_only() {
    let events = vec![
        (ago(30), 1000),  // in window
        (ago(120), 2000), // in window
        (ago(600), 9999), // outside 300s window
    ];
    // (1000 + 2000) over 5 minutes = 600 tok/min
    let rate = window_tokens(&events, NOW, RATE_WINDOW_SECS) as f64 / (RATE_WINDOW_SECS as f64 / 60.0);
    assert!((rate - 600.0).abs() < 1e-6);
}

#[test]
fn spark_buckets_place_by_minute() {
    let events = vec![
        (ago(10), 5),      // current minute -> last bucket
        (ago(70), 7),      // 1 min ago -> second-to-last
        (ago(10_000), 999), // far outside -> ignored
    ];
    let b = spark_buckets(&events, NOW, SPARK_MINUTES);
    assert_eq!(b.len(), SPARK_MINUTES);
    assert_eq!(b[SPARK_MINUTES - 1], 5);
    assert_eq!(b[SPARK_MINUTES - 2], 7);
    assert_eq!(b[0], 0);
}

#[test]
fn spark_buckets_sum_and_future_events() {
    let events = vec![(ago(5), 1), (ago(50), 2), (NOW + 30_000_000_000, 4), (NOW + 90_000_000_000, 8), (ago(599), 16)];
    let b = spark_buckets(&events, NOW, SPARK_MINUTES);
    // within 59 s ahead counts as the current minute, further ahead is left out
    assert_eq!(b[SPARK_MINUTES - 1], 7);
    assert_eq!(b[0], 16);
    assert_eq!(b.iter().sum::<u128>(), 23);
}

#[test]
fn is_active_by_silence_or_hint() {
    assert!(is_active(Some(ago(60)), NOW, false)); // recent
    assert!(!is_active(Some(ago(300)), NOW, false)); // too old
    assert!(is_active(Some(ago(300)), NOW, true)); // hint overrides
    assert!(!is_active(None, NOW, false)); // never seen
    // 120.5 seconds ago is still 120 whole seconds
    assert!(is_active(Some(NOW - 120_500_000_000), NOW, false));
    assert!(!is_active(Some(NOW - 121_000_000_000), NOW, false));
}

#[test]
fn checked_window_tokens_reports_overflow() {
    let events = vec![(ago(30), 1000), (ago(120), 2000), (ago(600), 9999)];
    assert_eq!(checked_window_tokens(&events, NOW, RATE_WINDOW_SECS), Some(3000));
    let big = vec![(ago(1), u64::MAX), (ago(2), 1)];
    assert_eq!(checked_window_tokens(&big, NOW, RATE_WINDOW_SECS), None);
    // outside the window the large count does not matter
    let old = vec![(ago(1000), u64::MAX), (ago(2), 1)];
    assert_eq!(checked_window_tokens(&old, NOW, RATE_WINDOW_SECS), Some(1));
}
