use usage_monitor::renewal::{checked_next_renewal, days_in_month, next_renewal, MAX_YEAR};

#[test]
fn days_in_month_follows_gregorian_rules() {
    assert_eq!(days_in_month(2024, 2), 29);
    assert_eq!(days_in_month(2023, 2), 28);
    assert_eq!(days_in_month(1900, 2), 28);
    assert_eq!(days_in_month(2000, 2), 29);
    assert_eq!(days_in_month(2026, 4), 30);
    assert_eq!(days_in_month(2026, 12), 31);
    assert_eq!(days_in_month(-4, 2), 29);
}

#[test]
fn next_renewal_this_month_or_next() {
    // billing day still ahead this month
    assert_eq!(next_renewal(20, 2026, 6, 15), "2026-06-20");
    // today is the billing day
    assert_eq!(next_renewal(15, 2026, 6, 15), "2026-06-15");
    // already past: next month
    assert_eq!(next_renewal(10, 2026, 6, 15), "2026-07-10");
    // clamped to the end of a short month
    assert_eq!(next_renewal(31, 2026, 2, 3), "2026-02-28");
    assert_eq!(next_renewal(31, 2024, 2, 3), "2024-02-29");
    // across the year end
    assert_eq!(next_renewal(5, 2026, 12, 20), "2027-01-05");
    // day 0 never matches: today
    assert_eq!(next_renewal(0, 2026, 6, 15), "2026-06-15");
}

#[test]
fn checked_renewal_agrees_or_refuses_at_the_end_of_time() {
    assert_eq!(checked_next_renewal(20, 2026, 6, 15).as_deref(), Some("2026-06-20"));
    assert_eq!(checked_next_renewal(10, 2026, 6, 15).as_deref(), Some("2026-07-10"));
    // the length of the last representable month cannot be computed
    assert_eq!(checked_next_renewal(31, MAX_YEAR, 12, 1), None);
    // one month earlier the scan stops at a hit in time
    assert!(checked_next_renewal(5, MAX_YEAR, 11, 1).is_some());
}
