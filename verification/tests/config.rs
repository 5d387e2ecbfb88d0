use usage_monitor::config::{
    default_corner, default_mode, is_saved_mode, normalize_corner, normalize_mode, normalize_poll_secs, MIN_POLL_SECS,
};

#[test]
fn normalize_clamps_invalid_values() {
    assert!(normalize_poll_secs(5) >= MIN_POLL_SECS);
    assert_eq!(normalize_mode("weird"), "compact");
    assert_eq!(normalize_corner("zz"), "tr");
}

#[test]
fn normalize_keeps_valid_values() {
    assert_eq!(normalize_poll_secs(300), 300);
    assert_eq!(normalize_mode("detailed"), "detailed");
    assert_eq!(normalize_corner("bl"), "bl");
}

#[test]
fn defaults_are_normal() {
    assert_eq!(default_mode(), "compact");
    assert_eq!(default_corner(), "tr");
    assert_eq!(normalize_mode(&default_mode()), default_mode());
    assert_eq!(normalize_corner(&default_corner()), default_corner());
    assert_eq!(normalize_poll_secs(MIN_POLL_SECS), MIN_POLL_SECS);
    assert_eq!(normalize_poll_secs(179), 180);
    assert!(is_saved_mode("compact"));
    assert!(!is_saved_mode("settings"));
}
