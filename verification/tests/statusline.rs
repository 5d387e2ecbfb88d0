use usage_monitor::quota::ModelLimit;
use usage_monitor::statusline::{
    checked_last_context_fill, context_fill, context_window, ctx_segment, disable, enable, is_ours,
    model_segment, our_command, parse_last_context_fill, remove_entry, set_entry, settings_file, status, status_text,
    DisableStep,
    EnableStep,
    JsonRoot, SettingsFile, UsageCounts,
};

fn counts(input: Option<u64>, creation: Option<u64>, read: Option<u64>) -> UsageCounts {
    UsageCounts { input_tokens: input, cache_creation_input_tokens: creation, cache_read_input_tokens: read }
}

/// The program name under which the status line is registered in these tests.
const NAME: &str = "acme-usage-monitor";

fn doc(command: Option<&str>) -> SettingsFile {
    SettingsFile::Document { root: JsonRoot::Object, status_line: Some(command.map(String::from)) }
}

#[test]
fn context_window_detects_1m() {
    // model id carrying the 1m marker -> 1M
    assert_eq!(context_window("model-opus-4-8[1m]", false), 1_000_000);
    assert_eq!(context_window("MODEL-OPUS-4-8-1M", false), 1_000_000);
    // no marker, but already past 200k -> must be a 1M session
    assert_eq!(context_window("model-opus-4-8", true), 1_000_000);
    // no marker, not over 200k -> default 200k
    assert_eq!(context_window("model-opus-4-8", false), 200_000);
}

#[test]
fn context_fill_sums_input_and_cache() {
    // output tokens are not part of the usage counts read for the context fill
    let u = counts(Some(2), Some(1693), Some(48565));
    assert_eq!(context_fill(&u), 50260);
    // missing keys count as 0
    assert_eq!(context_fill(&counts(Some(10), None, None)), 10);
    assert_eq!(context_fill(&counts(None, None, None)), 0);
}

#[test]
fn parse_last_context_fill_takes_last_assistant_usage() {
    let content = [
        "{\"type\":\"user\"}\n",
        "{\"type\":\"assistant\",\"message\":{\"usage\":{\"input_tokens\":1,\"cache_read_input_tokens\":100}}}\n",
        "{\"type\":\"assistant\",\"message\":{\"usage\":{\"input_tokens\":5,\"cache_creation_input_tokens\":20,\"cache_read_input_tokens\":300}}}\n",
    ]
    .concat();
    let content = content.as_str();
    // last assistant usage: 5 + 20 + 300 = 325
    assert_eq!(parse_last_context_fill(content), Some(325));

    // a truncated leading line is ignored; the valid line below still counts
    let partial = [
        "ut_tokens\":1,\"cache_read_input_tokens\":100}}}\n",
        "{\"type\":\"assistant\",\"message\":{\"usage\":{\"input_tokens\":7}}}\n",
    ]
    .concat();
    assert_eq!(parse_last_context_fill(&partial), Some(7));

    // no assistant-with-usage -> None
    assert_eq!(parse_last_context_fill("{\"type\":\"user\"}\nnot json\n"), None);
    assert_eq!(parse_last_context_fill(""), None);
}

#[test]
fn last_context_fill_handles_crlf_whitespace_and_overflow() {
    let content = "  {\"type\":\"assistant\",\"message\":{\"usage\":{\"input_tokens\":3}}}\r\n\t\n";
    assert_eq!(parse_last_context_fill(content), Some(3));
    // an assistant entry without usage does not hide an earlier one
    let content = [
        "{\"type\":\"assistant\",\"message\":{\"usage\":{\"input_tokens\":4}}}\n",
        "{\"type\":\"assistant\",\"message\":{}}",
    ]
    .concat();
    assert_eq!(checked_last_context_fill(&content), Some(Some(4)));
    let huge = "{\"type\":\"assistant\",\"message\":{\"usage\":{\"input_tokens\":18446744073709551615,\"cache_read_input_tokens\":1}}}";
    assert_eq!(checked_last_context_fill(huge), None);
}

#[test]
fn our_command_is_quoted_and_detected_as_ours() {
    let cmd = our_command(Some("/Applications/Acme Usage Monitor.app/Contents/MacOS/acme-usage-monitor"), NAME);
    assert!(cmd.starts_with('"'), "exe path must be quoted: {cmd}");
    assert!(cmd.ends_with("--statusline"));
    // A quoted command with spaces in the path must still be recognized as ours.
    assert!(is_ours(Some(cmd.as_str()), NAME));
    assert_eq!(our_command(None, NAME), "\"acme-usage-monitor\" --statusline");
}

#[test]
fn is_ours_detects() {
    assert!(is_ours(Some("/x/acme-usage-monitor --statusline"), NAME));
    assert!(!is_ours(Some("my-bar --foo"), NAME));
    assert!(!is_ours(None, NAME));
    // another tool whose name only ends like ours is not ours
    assert!(!is_ours(Some("/usr/local/bin/usage-monitor --statusline"), NAME));
    assert!(!is_ours(Some("/x/acme-usage-monitor --foo"), NAME));
}

#[test]
fn enable_refuses_existing_user_statusline() {
    assert!(enable(&doc(Some("other --bar")), NAME).is_err());
}

#[test]
fn enable_and_disable_decisions() {
    assert_eq!(enable(&SettingsFile::Missing, NAME), Ok(EnableStep::WriteNew));
    let plain = SettingsFile::Document { root: JsonRoot::Object, status_line: None };
    assert_eq!(enable(&plain, NAME), Ok(EnableStep::BackupAndWrite));
    assert_eq!(enable(&doc(Some("\"/x/acme-usage-monitor\" --statusline")), NAME), Ok(EnableStep::BackupAndWrite));
    assert_eq!(
        enable(&SettingsFile::Malformed("expected value at line 1 column 1".to_string()), NAME),
        Err("settings.json 解析失敗: expected value at line 1 column 1".to_string())
    );
    assert_eq!(enable(&SettingsFile::Unreadable("denied".to_string()), NAME), Err("denied".to_string()));
    assert_eq!(disable(&SettingsFile::Missing, NAME), Ok(DisableStep::Keep));
    assert_eq!(disable(&plain, NAME), Ok(DisableStep::Keep));
    assert_eq!(disable(&doc(Some("other --bar")), NAME), Ok(DisableStep::Keep));
    assert_eq!(disable(&doc(Some("/x/acme-usage-monitor --statusline")), NAME), Ok(DisableStep::RemoveAndWrite));
    assert_eq!(disable(&SettingsFile::Malformed("bad".to_string()), NAME), Err("bad".to_string()));
}

#[test]
fn status_at_reports_ours_foreign_none() {
    // no file -> none
    assert_eq!(status(&SettingsFile::Missing, NAME), "none");
    // no statusLine key -> none
    assert_eq!(status(&SettingsFile::Document { root: JsonRoot::Object, status_line: None }, NAME), "none");
    // someone else's statusLine -> foreign
    assert_eq!(status(&doc(Some("other --bar")), NAME), "foreign");
    // ours -> ours
    let ours = our_command(Some("/usr/bin/acme-usage-monitor"), NAME);
    assert_eq!(status(&doc(Some(ours.as_str())), NAME), "ours");
    // corrupt JSON -> foreign
    assert_eq!(status(&SettingsFile::Malformed("not json".to_string()), NAME), "foreign");
    assert_eq!(status(&SettingsFile::Unreadable("denied".to_string()), NAME), "foreign");
}

#[test]
fn model_segment_renders_each_limit() {
    let p17 = "\x1b[38;5;114m17%\x1b[0m".to_string();
    let limits = vec![ModelLimit { label: "Fable".to_string(), percent: 17.0, resets_at: None }];
    assert_eq!(model_segment(&limits, &[p17.clone()]), format!(" · Fable {}", p17));
    let none: Vec<ModelLimit<f64>> = Vec::new();
    assert_eq!(model_segment(&none, &[]), "");
    let p1 = "\x1b[38;5;114m1%\x1b[0m".to_string();
    let p2 = "\x1b[38;5;114m2%\x1b[0m".to_string();
    let two = vec![
        ModelLimit { label: "A".to_string(), percent: 1.0, resets_at: None },
        ModelLimit { label: "B".to_string(), percent: 2.0, resets_at: None },
    ];
    assert_eq!(model_segment(&two, &[p1.clone(), p2.clone()]), format!(" · A {} · B {}", p1, p2));
}

#[test]
fn ctx_segment_pct_formats_or_omits() {
    let p19 = "\x1b[38;5;114m19%\x1b[0m";
    assert_eq!(ctx_segment(Some(p19)), format!(" · ctx {}", p19));
    assert_eq!(ctx_segment(None), "");
}

#[test]
fn status_text_assembles_segments() {
    assert_eq!(status_text(Some("4%"), Some("10%"), " · Fable 17%", " · ctx 32%"), "⚡ 4% · 7d 10% · Fable 17% · ctx 32%");
    assert_eq!(status_text(None, None, "", ""), "⚡ — · 7d —");
}

#[test]
fn enable_disable_roundtrip_preserves_other_keys() {
    // the settings object {"theme":"dark","x":1}
    let mut entries: Vec<(String, serde_json::Value)> = vec![
        ("theme".to_string(), serde_json::Value::from("dark")),
        ("x".to_string(), serde_json::Value::from(1)),
    ];
    let plain = SettingsFile::Document { root: JsonRoot::Object, status_line: None };
    assert_eq!(enable(&plain, NAME), Ok(EnableStep::BackupAndWrite));
    let cmd = our_command(Some("/opt/acme-usage-monitor"), NAME);
    let mut entry = serde_json::Map::new();
    entry.insert("command".to_string(), serde_json::Value::from(cmd.as_str()));
    set_entry(&mut entries, "statusLine", serde_json::Value::Object(entry));
    let after: serde_json::Map<String, serde_json::Value> = entries.clone().into_iter().collect();
    assert!(after.get("statusLine").is_some());
    assert_eq!(after["theme"], "dark");

    assert_eq!(disable(&doc(Some(cmd.as_str())), NAME), Ok(DisableStep::RemoveAndWrite));
    remove_entry(&mut entries, "statusLine");
    let restored: serde_json::Map<String, serde_json::Value> = entries.into_iter().collect();
    assert!(restored.get("statusLine").is_none());
    assert_eq!(restored["theme"], "dark");
    assert_eq!(restored["x"], 1);
}

#[test]
fn set_entry_replaces_and_remove_entry_keeps_order() {
    let mut e: Vec<(String, u32)> = vec![("a".to_string(), 1), ("statusLine".to_string(), 2), ("b".to_string(), 3)];
    set_entry(&mut e, "statusLine", 9);
    assert_eq!(e, vec![("a".to_string(), 1), ("b".to_string(), 3), ("statusLine".to_string(), 9)]);
    remove_entry(&mut e, "statusLine");
    assert_eq!(e, vec![("a".to_string(), 1), ("b".to_string(), 3)]);
    // removing an absent key changes nothing
    remove_entry(&mut e, "statusLine");
    assert_eq!(e, vec![("a".to_string(), 1), ("b".to_string(), 3)]);
    // duplicates under the key all go
    let mut d: Vec<(String, u32)> = vec![("k".to_string(), 1), ("k".to_string(), 2), ("z".to_string(), 0)];
    remove_entry(&mut d, "k");
    assert_eq!(d, vec![("z".to_string(), 0)]);
}

#[test]
fn tail_of_transcript_survives_utf8_boundary() {
    // A transcript tail cut at 128 KiB may start mid-character; the lossy
    // decoding keeps the rest, and the last line still parses.
    let filler: String = "安安你好".repeat(12_000);
    let mut content = format!(
        "{{\"type\":\"assistant\",\"message\":{{\"content\":\"{filler}\",\"usage\":{{\"input_tokens\":1}}}}}}\n"
    );
    content.push_str("{\"type\":\"assistant\",\"message\":{\"usage\":{\"input_tokens\":42,\"cache_read_input_tokens\":8}}}\n");
    let bytes = content.as_bytes();
    assert!(bytes.len() > 128 * 1024);
    let tail = &bytes[bytes.len() - 128 * 1024..];
    let text = String::from_utf8_lossy(tail);
    assert_eq!(checked_last_context_fill(&text), Some(Some(50)));
}

#[test]
fn settings_file_reads_each_state() {
    assert!(matches!(settings_file(None).0, SettingsFile::Missing));
    match settings_file(Some(Err("denied".to_string()))).0 {
        SettingsFile::Unreadable(e) => assert_eq!(e, "denied"),
        _ => panic!("expected unreadable"),
    }
    assert!(matches!(settings_file(Some(Ok("not json".to_string()))).0, SettingsFile::Malformed(_)));
    let (f, es) = settings_file(Some(Ok(r#"{"theme":"dark","statusLine":{"command":"other --bar"}}"#.to_string())));
    match f {
        SettingsFile::Document { root, status_line } => {
            assert_eq!(root, JsonRoot::Object);
            assert_eq!(status_line, Some(Some("other --bar".to_string())));
        }
        _ => panic!("expected a document"),
    }
    let keys: Vec<&str> = es.iter().map(|(k, _)| k.as_str()).collect();
    assert_eq!(keys, vec!["statusLine", "theme"]);
    let (n, es) = settings_file(Some(Ok("null".to_string())));
    assert!(matches!(n, SettingsFile::Document { root: JsonRoot::Null, status_line: None }));
    assert!(es.is_empty());
    let (o, _) = settings_file(Some(Ok("[1]".to_string())));
    assert!(matches!(o, SettingsFile::Document { root: JsonRoot::Other, status_line: None }));
    // a statusLine without a string command
    let (c, _) = settings_file(Some(Ok(r#"{"statusLine":{"command":3}}"#.to_string())));
    assert!(matches!(c, SettingsFile::Document { status_line: Some(None), .. }));
    assert_eq!(status(&c, NAME), "foreign");
}

#[test]
fn last_fill_of_concatenated_parts() {
    let a = "{\"type\":\"assistant\",\"message\":{\"usage\":{\"input_tokens\":3}}}\n";
    let b = "{\"type\":\"user\"}\nnot json\n";
    let ab = format!("{a}{b}");
    assert_eq!(parse_last_context_fill(&ab), parse_last_context_fill(b).or(parse_last_context_fill(a)));
    assert_eq!(parse_last_context_fill(&ab), Some(3));
    let c = "{\"type\":\"assistant\",\"message\":{\"usage\":{\"input_tokens\":8}}}";
    assert_eq!(parse_last_context_fill(&format!("{a}{c}")), Some(8));
}
