use usage_monitor::quota::{
    after_fetch, cache_is_fresh, classify_status, fetch_error_text, is_fresh, model_limits_from, next_rate_limited, next_wait_secs,
    normalize_reset, parse_access_token, quota_source, self_fetch_allowed, version_from_output, win_from, FetchStatus, LimitEntry, ResetValue, WindowFields,
};

fn entry(kind: Option<&str>, label: Option<&str>, percent: Option<f64>, is_active: Option<bool>, resets_at: ResetValue) -> LimitEntry<f64> {
    LimitEntry {
        kind: kind.map(String::from),
        label: label.map(String::from),
        percent,
        is_active,
        resets_at,
    }
}

#[test]
fn parse_access_token_extracts_or_none() {
    let ok = r#"{"claudeAiOauth":{"accessToken":"sk-abc","refreshToken":"r"}}"#;
    assert_eq!(parse_access_token(ok).as_deref(), Some("sk-abc"));
    assert!(parse_access_token(r#"{"claudeAiOauth":{"accessToken":""}}"#).is_none());
    assert!(parse_access_token(r#"{"other":1}"#).is_none());
    assert!(parse_access_token("not json").is_none());
}

#[test]
fn model_limits_from_extracts_weekly_scoped() {
    let limits = vec![
        entry(Some("session"), None, Some(4.0), Some(true), ResetValue::Missing),
        entry(
            Some("weekly_scoped"),
            Some("Fable"),
            Some(17.0),
            Some(true),
            ResetValue::Text("2026-08-11T09:00:00+00:00".to_string()),
        ),
        entry(Some("weekly_all"), None, Some(10.0), Some(true), ResetValue::Missing),
    ];
    let m = model_limits_from(&limits);
    assert_eq!(m.len(), 1);
    assert_eq!(m[0].label, "Fable");
    assert_eq!(m[0].percent, 17.0);
    assert_eq!(m[0].resets_at.as_deref(), Some("2026-08-11T09:00:00+00:00"));
}

#[test]
fn model_limits_from_tolerates_junk_and_caps_at_two() {
    // epoch resets_at, missing is_active, integer percent are all accepted
    let mk = |name: &str, pct: f64| {
        entry(Some("weekly_scoped"), Some(name), Some(pct), None, ResetValue::Seconds(1754899200))
    };
    let limits = vec![
        mk("A", 1.0),
        mk("B", 2.0),
        mk("C", 3.0),
        // no display_name: filtered out
        entry(Some("weekly_scoped"), None, Some(9.0), None, ResetValue::Missing),
        // not an object: nothing to read
        entry(None, None, None, None, ResetValue::Missing),
    ];
    let m = model_limits_from(&limits);
    assert_eq!(m.len(), 2);
    assert_eq!(m[0].label, "A");
    // the epoch is converted to RFC 3339, not kept as the raw number
    assert!(!m[0].resets_at.as_deref().unwrap().starts_with("1754899200"));
    assert!(m[0].resets_at.is_some());
}

#[test]
fn model_limits_shown_regardless_of_is_active() {
    let limits = vec![entry(Some("weekly_scoped"), Some("Fable"), Some(22.0), Some(false), ResetValue::Missing)];
    let m = model_limits_from(&limits);
    assert_eq!(m.len(), 1);
    assert_eq!(m[0].label, "Fable");
    assert_eq!(m[0].percent, 22.0);
}

#[test]
fn model_limits_skip_empty_label() {
    let limits = vec![entry(Some("weekly_scoped"), Some(""), Some(5.0), None, ResetValue::Missing)];
    assert!(model_limits_from(&limits).is_empty());
}

fn fields(p: [Option<f64>; 4], r: [ResetValue; 3]) -> WindowFields<f64> {
    let [resets_at, reset_at, resets_at_camel] = r;
    WindowFields {
        used_percentage: p[0],
        utilization: p[1],
        percent_used: p[2],
        percentage: p[3],
        resets_at,
        reset_at,
        resets_at_camel,
    }
}

fn missing3() -> [ResetValue; 3] {
    [ResetValue::Missing, ResetValue::Missing, ResetValue::Missing]
}

#[test]
fn win_from_accepts_alternate_keys() {
    // {"used_percentage": 14.0, "resets_at": "t"}
    let a = win_from(&fields(
        [Some(14.0), None, None, None],
        [ResetValue::Text("t".to_string()), ResetValue::Missing, ResetValue::Missing],
    ))
    .unwrap();
    assert_eq!(a.utilization, 14.0);
    assert_eq!(a.resets_at.as_deref(), Some("t"));
    // alternate spelling still parses: {"utilization": 9.0}
    let b = win_from(&fields([None, Some(9.0), None, None], missing3())).unwrap();
    assert_eq!(b.utilization, 9.0);
    assert!(b.resets_at.is_none());
    // no recognized key -> None: {"foo": 1}
    assert!(win_from(&fields([None, None, None, None], missing3())).is_none());
}

#[test]
fn win_from_converts_epoch_resets_at() {
    // {"used_percentage": 33, "resets_at": 1782200400}
    let w = win_from(&fields(
        [Some(33.0), None, None, None],
        [ResetValue::Seconds(1782200400), ResetValue::Missing, ResetValue::Missing],
    ))
    .unwrap();
    assert_eq!(w.utilization, 33.0);
    assert_eq!(w.resets_at.as_deref(), Some("2026-06-23T07:40:00+00:00"));
    // a null reset stays None
    let n = win_from(&fields([Some(1.0), None, None, None], [ResetValue::Null, ResetValue::Missing, ResetValue::Missing]))
        .unwrap();
    assert!(n.resets_at.is_none());
}

#[test]
fn win_from_prefers_keys_in_order() {
    // the first spelling wins over later ones
    let w = win_from(&fields([None, Some(2.0), Some(3.0), Some(4.0)], missing3())).unwrap();
    assert_eq!(w.utilization, 2.0);
    let last = win_from(&fields([None, None, None, Some(5.0)], missing3())).unwrap();
    assert_eq!(last.utilization, 5.0);
    // a null reset key is skipped for the next one
    let w = win_from(&fields(
        [None, None, None, Some(5.0)],
        [ResetValue::Null, ResetValue::Text("later".to_string()), ResetValue::Missing],
    ))
    .unwrap();
    assert_eq!(w.resets_at.as_deref(), Some("later"));
    let camel = win_from(&fields(
        [Some(1.0), None, None, None],
        [ResetValue::Missing, ResetValue::Null, ResetValue::Text("c".to_string())],
    ))
    .unwrap();
    assert_eq!(camel.resets_at.as_deref(), Some("c"));
    // a value that is not a time gives no reset time; later keys are not consulted
    let j = win_from(&fields(
        [Some(5.0), None, None, None],
        [ResetValue::Other, ResetValue::Text("later".to_string()), ResetValue::Missing],
    ))
    .unwrap();
    assert!(j.resets_at.is_none());
}

#[test]
fn normalize_reset_cases() {
    assert_eq!(normalize_reset(&ResetValue::Seconds(0)).as_deref(), Some("1970-01-01T00:00:00+00:00"));
    assert_eq!(normalize_reset(&ResetValue::Text("x".to_string())).as_deref(), Some("x"));
    assert!(normalize_reset(&ResetValue::Null).is_none());
    assert!(normalize_reset(&ResetValue::Other).is_none());
    assert!(normalize_reset(&ResetValue::Seconds(i64::MAX)).is_none());
}

#[test]
fn fetch_status_classification() {
    assert_eq!(classify_status(429), FetchStatus::RateLimited);
    assert_eq!(classify_status(401), FetchStatus::Unauthorized);
    assert_eq!(classify_status(200), FetchStatus::Success);
    assert_eq!(classify_status(204), FetchStatus::Success);
    assert_eq!(classify_status(500), FetchStatus::Failed);
    assert_eq!(classify_status(302), FetchStatus::Failed);
}

#[test]
fn cache_roundtrip_freshness_rules() {
    // zero tolerance always misses
    assert!(!cache_is_fresh(0, 0));
    assert!(cache_is_fresh(10, 600));
    assert!(cache_is_fresh(600, 600));
    assert!(!cache_is_fresh(601, 600));
    assert!(is_fresh(0, 0));
    assert!(!is_fresh(151, 150));
}

#[test]
fn self_fetch_is_rate_limited() {
    assert!(self_fetch_allowed(None));
    assert!(!self_fetch_allowed(Some(0)));
    assert!(!self_fetch_allowed(Some(119)));
    assert!(self_fetch_allowed(Some(120)));
}

#[test]
fn version_is_first_numeric_word() {
    assert_eq!(version_from_output("2.1.167 (Code)\n").as_deref(), Some("2.1.167"));
    assert_eq!(version_from_output("cli version  1.0.3\n").as_deref(), Some("1.0.3"));
    assert_eq!(version_from_output("no digits here").as_deref(), None);
    assert_eq!(version_from_output("").as_deref(), None);
    assert_eq!(version_from_output("v1 9").as_deref(), Some("9"));
}

#[test]
fn fetch_errors_by_status() {
    assert_eq!(fetch_error_text(classify_status(200), "200 OK", "Acme Code"), None);
    assert_eq!(
        fetch_error_text(classify_status(429), "429 Too Many Requests", "Acme Code").as_deref(),
        Some("rate limited (429) — backing off")
    );
    assert_eq!(
        fetch_error_text(classify_status(401), "401 Unauthorized", "Acme Code").as_deref(),
        Some("unauthorized (401) — token expired? open Acme Code to refresh")
    );
    assert_eq!(
        fetch_error_text(classify_status(500), "500 Internal Server Error", "Acme Code").as_deref(),
        Some("usage endpoint returned 500 Internal Server Error")
    );
}

#[test]
fn rate_limit_count_grows_on_429_only() {
    assert_eq!(next_rate_limited(0, Some(FetchStatus::RateLimited)), 1);
    assert_eq!(next_rate_limited(3, Some(FetchStatus::RateLimited)), 4);
    assert_eq!(next_rate_limited(u32::MAX, Some(FetchStatus::RateLimited)), u32::MAX);
    assert_eq!(next_rate_limited(3, Some(FetchStatus::Unauthorized)), 0);
    assert_eq!(next_rate_limited(3, None), 0);
}

#[test]
fn statusline_source_is_preferred_when_opted_in() {
    assert_eq!(quota_source(true, Some(7)), Some(7));
    assert_eq!(quota_source(false, Some(7)), None);
    assert_eq!(quota_source::<u8>(true, None), None);
}

#[test]
fn previous_quota_is_kept_on_error() {
    assert_eq!(after_fetch(1, Ok(2)), (2, None));
    assert_eq!(after_fetch(1, Err("request failed".to_string())), (1, Some("request failed".to_string())));
}

#[test]
fn backoff_doubles_on_429_up_to_an_hour() {
    assert_eq!(next_wait_secs(180, 0), 180);
    assert_eq!(next_wait_secs(180, 1), 360);
    assert_eq!(next_wait_secs(180, 3), 1440);
    assert_eq!(next_wait_secs(180, 5), 3600);
    assert_eq!(next_wait_secs(180, u32::MAX), 3600);
    // a poll interval above the cap is never shortened
    assert_eq!(next_wait_secs(7200, 4), 7200);
    assert_eq!(next_wait_secs(0, 9), 0);
}
