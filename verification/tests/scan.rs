use cc_session::json::JsonValue;
use cc_session::scan::{clamp_title, scan_lines, scan_meta, sort_by_mtime_desc, ScannedMeta, SessionEntry};
use cc_session::session::split_lines;
use std::path::PathBuf;

fn to_json(v: &serde_json::Value) -> JsonValue {
    match v {
        serde_json::Value::Null => JsonValue::Null,
        serde_json::Value::Bool(b) => JsonValue::Bool(*b),
        serde_json::Value::Number(n) => JsonValue::Number(n.to_string()),
        serde_json::Value::String(s) => JsonValue::Str(s.clone()),
        serde_json::Value::Array(a) => JsonValue::Array(a.iter().map(to_json).collect()),
        serde_json::Value::Object(o) => {
            JsonValue::Object(o.iter().map(|(k, v)| (k.clone(), to_json(v))).collect())
        }
    }
}

/// What a file's head reads as.
fn meta_of(content: &str) -> ScannedMeta {
    scan_lines(&split_lines(content))
}

fn title_of(content: &str) -> String {
    meta_of(content).display_title()
}

#[test]
fn title_falls_back_when_no_user_msg() {
    let t = title_of("{\"type\":\"system\",\"message\":{\"role\":\"system\",\"content\":\"x\"}}\n");
    assert_eq!(t, "<no user message>");
}

#[test]
fn title_truncates_long_text() {
    let long = "x".repeat(200);
    let t = title_of(&format!(
        "{{\"type\":\"user\",\"message\":{{\"role\":\"user\",\"content\":\"{long}\"}}}}\n"
    ));
    assert!(t.ends_with('…'));
    assert!(t.chars().count() <= 60 + 1);
}

#[test]
fn title_flattens_newlines() {
    let t = title_of("{\"type\":\"user\",\"message\":{\"role\":\"user\",\"content\":\"line1\\nline2\"}}\n");
    assert!(!t.contains('\n'));
    assert!(t.contains("line1 line2"));
}

#[test]
fn ai_title_overrides_first_user_message() {
    let t = title_of("{\"type\":\"user\",\"message\":{\"role\":\"user\",\"content\":\"raw question\"}}\n{\"type\":\"ai-title\",\"aiTitle\":\"Pretty Generated Title\"}\n");
    assert_eq!(t, "Pretty Generated Title");
}

#[test]
fn empty_ai_title_falls_back_to_user_msg() {
    let t = title_of("{\"type\":\"ai-title\",\"aiTitle\":\"\"}\n{\"type\":\"user\",\"message\":{\"role\":\"user\",\"content\":\"fallback text\"}}\n");
    assert_eq!(t, "fallback text");
}

#[test]
fn fork_sentinel_marks_entry() {
    let m = meta_of("{\"type\":\"cc-session-fork\",\"origin\":\"old-id\",\"forked_at\":\"2026-06-11T00:00:00Z\"}\n{\"type\":\"user\",\"message\":{\"role\":\"user\",\"content\":\"hi\"}}\n");
    assert!(m.is_fork);
    assert_eq!(m.fork_origin.as_deref(), Some("old-id"));
    assert!(m.display_title().starts_with("[edited] "));
}

#[test]
fn no_sentinel_no_badge() {
    let m = meta_of("{\"type\":\"user\",\"message\":{\"role\":\"user\",\"content\":\"hi\"}}\n");
    assert!(!m.is_fork);
    assert!(!m.display_title().starts_with("[edited]"));
}

#[test]
fn malformed_first_line_recovers() {
    let t = title_of("not json\n{\"type\":\"user\",\"message\":{\"role\":\"user\",\"content\":\"ok\"}}\n");
    assert_eq!(t, "ok");
}

#[test]
fn title_from_text_blocks_joined_by_spaces() {
    let t = title_of("{\"type\":\"user\",\"message\":{\"content\":[{\"type\":\"text\",\"text\":\"a\"},{\"type\":\"image\"},{\"type\":\"text\",\"text\":\"b\"}]}}\n");
    assert_eq!(t, "a b");
}

#[test]
fn clamp_title_flattens_tabs_and_cuts_at_sixty() {
    assert_eq!(clamp_title("\ta\r\nb "), "a  b");
    let s = "y".repeat(61);
    let c = clamp_title(&s);
    assert_eq!(c.chars().count(), 61);
    assert_eq!(c, format!("{}…", "y".repeat(60)));
    assert_eq!(clamp_title(&"z".repeat(60)), "z".repeat(60));
}

#[test]
fn unreadable_file_title() {
    assert_eq!(ScannedMeta::unreadable().title, "<unreadable>");
}

#[test]
fn only_the_first_thousand_lines_are_read() {
    let mut content = "\n".repeat(1000);
    content.push_str("{\"type\":\"user\",\"message\":{\"content\":\"late\"}}\n");
    assert_eq!(title_of(&content), "<no user message>");
}

#[test]
fn newest_first_ties_keep_order() {
    let e = |id: &str, t: u128| SessionEntry {
        project_slug: "p".to_string(),
        session_id: id.to_string(),
        title: String::new(),
        mtime: t,
        size: 0,
        path: PathBuf::from("/tmp/x"),
        is_fork: false,
        fork_origin: None,
    };
    let v = vec![e("a", 1), e("b", 3), e("c", 1), e("d", 2)];
    let ids: Vec<String> = sort_by_mtime_desc(v).into_iter().map(|e| e.session_id).collect();
    assert_eq!(ids, vec!["b", "d", "a", "c"]);
}

#[test]
fn scan_meta_takes_parsed_lines() {
    let lines = vec![None, Some(to_json(&serde_json::from_str("{\"type\":\"user\",\"message\":{\"content\":\"x\"}}").unwrap()))];
    assert_eq!(scan_meta(&lines).title, "x");
}

#[test]
fn clamped_title_is_one_line_short_and_settled() {
    let raw = format!("  first\tline\nsecond\r\n{}  ", "w".repeat(80));
    let t = clamp_title(&raw);
    assert!(!t.contains('\n') && !t.contains('\r') && !t.contains('\t'));
    assert!(t.chars().count() <= 61);
    assert_eq!(clamp_title(&t), t);
    let short = clamp_title(" a\tb ");
    assert_eq!(short, "a b");
    assert_eq!(clamp_title(&short), short);
}
