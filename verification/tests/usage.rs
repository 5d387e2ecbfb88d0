use usage_monitor::usage::{
    add_usage, cache_write_split, day_entries, empty_tally, is_on_day, finish_total, pricing_for, tally_day, CacheCreation, DayEntry,
    PricingClass, TokenTally, UsageRecord,
};

fn record(input: u64, output: u64, lumped: Option<u64>, read: u64, split: Option<(u64, u64)>) -> UsageRecord {
    UsageRecord {
        input_tokens: Some(input),
        output_tokens: Some(output),
        cache_creation_input_tokens: lumped,
        cache_read_input_tokens: Some(read),
        cache_creation: split.map(|(a, b)| CacheCreation {
            ephemeral_5m_input_tokens: Some(a),
            ephemeral_1h_input_tokens: Some(b),
        }),
    }
}

#[test]
fn pricing_classes() {
    assert_eq!(pricing_for("model-opus-4-8"), PricingClass::Opus);
    assert_eq!(pricing_for("Model-HAIKU-3"), PricingClass::Haiku);
    assert_eq!(pricing_for("model-sonnet-4"), PricingClass::Sonnet);
    assert_eq!(pricing_for(""), PricingClass::Sonnet);
}

#[test]
fn cache_split_prefers_explicit_split() {
    assert_eq!(cache_write_split(&record(0, 0, Some(100), 0, Some((30, 70)))), (30, 70));
    assert_eq!(cache_write_split(&record(0, 0, Some(100), 0, None)), (100, 0));
    assert_eq!(cache_write_split(&record(0, 0, None, 0, None)), (0, 0));
}

#[test]
fn tally_adds_and_totals() {
    let mut acc = empty_tally();
    assert_eq!(add_usage(&mut acc, &record(2, 5, Some(1693), 48565, None)), (1693, 0));
    assert_eq!(add_usage(&mut acc, &record(1, 1, None, 1, Some((3, 4)))), (3, 4));
    assert_eq!(acc.total, 0);
    finish_total(&mut acc);
    assert_eq!(acc.input, 3);
    assert_eq!(acc.output, 6);
    assert_eq!(acc.cache_write, 1700);
    assert_eq!(acc.cache_read, 48566);
    assert_eq!(acc.total, 3 + 6 + 1700 + 48566);
}

fn entry(kind: &str, on_day: bool, model: Option<&str>, usage: Option<UsageRecord>) -> DayEntry {
    DayEntry { kind: Some(kind.to_string()), on_day, model: model.map(String::from), usage }
}

fn plain(input: u64, output: u64) -> UsageRecord {
    UsageRecord {
        input_tokens: Some(input),
        output_tokens: Some(output),
        cache_creation_input_tokens: None,
        cache_read_input_tokens: None,
        cache_creation: None,
    }
}

#[test]
fn tally_day_counts_todays_assistant_requests() {
    let split = UsageRecord {
        input_tokens: Some(1),
        output_tokens: None,
        cache_creation_input_tokens: Some(999),
        cache_read_input_tokens: Some(7),
        cache_creation: Some(CacheCreation { ephemeral_5m_input_tokens: Some(10), ephemeral_1h_input_tokens: Some(20) }),
    };
    let entries = vec![
        entry("user", true, None, Some(plain(500, 500))),
        entry("assistant", false, Some("opus"), Some(plain(400, 400))),
        entry("assistant", true, Some("opus"), None),
        entry("assistant", true, Some("Model-OPUS-4"), Some(plain(100, 50))),
        entry("assistant", true, Some("haiku-3"), Some(split)),
        entry("assistant", true, None, Some(plain(2, 3))),
        DayEntry { kind: None, on_day: true, model: None, usage: Some(plain(9, 9)) },
    ];
    let mut acc = empty_tally();
    let counted = tally_day(&mut acc, &entries).unwrap();
    assert_eq!(
        counted,
        vec![(PricingClass::Opus, plain(100, 50)), (PricingClass::Haiku, split), (PricingClass::Sonnet, plain(2, 3))]
    );
    assert_eq!(acc, TokenTally { input: 103, output: 53, cache_write: 30, cache_read: 7, total: 0 });
    finish_total(&mut acc);
    assert_eq!(acc.total, 193);
}

#[test]
fn tally_day_refuses_overflow_and_keeps_the_tally() {
    let mut acc = TokenTally { input: u64::MAX - 1, output: 0, cache_write: 0, cache_read: 0, total: 0 };
    let entries = vec![entry("assistant", true, None, Some(plain(1, 0))), entry("assistant", true, None, Some(plain(1, 0)))];
    assert_eq!(tally_day(&mut acc, &entries), None);
    assert_eq!(acc.input, u64::MAX - 1);
    let one = vec![entry("assistant", true, None, Some(plain(1, 0)))];
    assert!(tally_day(&mut acc, &one).is_some());
    assert_eq!(acc.input, u64::MAX);
}

#[test]
fn day_entries_read_each_line() {
    let content = [
        "{\"type\":\"assistant\",\"timestamp\":\"2026-06-15T12:00:00Z\",\"message\":{\"model\":\"opus-4\",\"usage\":{\"input_tokens\":4,\"output_tokens\":2,\"cache_creation\":{\"ephemeral_5m_input_tokens\":1}}}}",
        "",
        "  not json  ",
        "{\"type\":\"user\",\"message\":{}}",
        "{\"type\":\"assistant\",\"message\":{\"usage\":{\"input_tokens\":1}}}",
    ]
    .join("\n");
    let (es, days) = day_entries(&content, (2026, 6, 15));
    assert_eq!(days.len(), 5);
    assert!(days[0].is_some());
    assert!(days[1].is_none() && days[2].is_none() && days[3].is_none() && days[4].is_none());
    // taken for the day exactly when the local date is today
    assert_eq!(es[0].on_day, is_on_day(days[0], (2026, 6, 15)));
    assert_eq!(es.len(), 5);
    assert_eq!(es[0].kind.as_deref(), Some("assistant"));
    assert_eq!(es[0].model.as_deref(), Some("opus-4"));
    let u = es[0].usage.unwrap();
    assert_eq!((u.input_tokens, u.output_tokens, u.cache_read_input_tokens), (Some(4), Some(2), None));
    assert_eq!(
        u.cache_creation,
        Some(CacheCreation { ephemeral_5m_input_tokens: Some(1), ephemeral_1h_input_tokens: None })
    );
    assert!(es[1].kind.is_none() && es[1].usage.is_none() && !es[1].on_day);
    assert!(es[2].kind.is_none() && !es[2].on_day);
    assert_eq!(es[3].kind.as_deref(), Some("user"));
    assert!(es[3].usage.is_none());
    // no timestamp: never taken for the day
    assert!(!es[4].on_day);
    assert_eq!(es[4].usage.unwrap().input_tokens, Some(1));
    // a day far from any local date of that instant
    assert!(!day_entries(&content, (1999, 1, 1)).0[0].on_day);
    // a timestamp that is not RFC 3339 gives no local date
    let bad = "{\"type\":\"assistant\",\"timestamp\":\"yesterday\"}";
    assert_eq!(day_entries(bad, (2026, 6, 15)).1, vec![None]);
}

#[test]
fn on_day_compares_the_whole_date() {
    assert!(is_on_day(Some((2026, 6, 15)), (2026, 6, 15)));
    assert!(!is_on_day(Some((2026, 6, 14)), (2026, 6, 15)));
    assert!(!is_on_day(Some((2026, 5, 15)), (2026, 6, 15)));
    assert!(!is_on_day(Some((2025, 6, 15)), (2026, 6, 15)));
    assert!(!is_on_day(None, (2026, 6, 15)));
}
