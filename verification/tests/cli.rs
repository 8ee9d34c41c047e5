use cc_session::cli::{
    collect_tool_ids, match_target, parse_range, plan_delete, render_text, truncate, DeleteError,
    DeleteSpec, RangeError, TargetError,
};
use cc_session::json::JsonValue;
use cc_session::pairing::PairIndex;
use cc_session::scan::SessionEntry;
use cc_session::session::{Message, MessageBody, Session};
use std::path::PathBuf;

fn to_json(v: &serde_json::Value) -> JsonValue {
    match v {
        serde_json::Value::Null => JsonValue::Null,
        serde_json::Value::Bool(b) => JsonValue::Bool(*b),
        serde_json::Value::Number(n) => JsonValue::Number(n.to_string()),
        serde_json::Value::String(s) => JsonValue::Str(s.clone()),
        serde_json::Value::Array(a) => JsonValue::Array(a.iter().map(to_json).collect()),
        serde_json::Value::Object(o) => {
            JsonValue::Object(o.iter().map(|(k, v)| (k.clone(), to_json(v))).collect())
        }
    }
}

fn msg(role: &str, content: &str) -> Message {
    let c: serde_json::Value = serde_json::from_str(content).unwrap();
    Message {
        entry_type: Some(role.to_string()),
        uuid: None,
        parent_uuid: None,
        timestamp: None,
        message: Some(MessageBody {
            role: Some(role.to_string()),
            content: Some(to_json(&c)),
            extra: Vec::new(),
        }),
        extra: Vec::new(),
        original_line: None,
    }
}

fn session(msgs: Vec<Message>) -> Session {
    Session { path: PathBuf::from("/tmp/x.jsonl"), messages: msgs, trailing_newline: true }
}

fn spec() -> DeleteSpec {
    DeleteSpec { indices: Vec::new(), from_top: None, from_bottom: None, range: None }
}

fn entry(id: &str) -> SessionEntry {
    SessionEntry {
        project_slug: "proj".to_string(),
        session_id: id.to_string(),
        title: String::new(),
        mtime: 0,
        size: 0,
        path: PathBuf::from(format!("/tmp/{id}.jsonl")),
        is_fork: false,
        fork_origin: None,
    }
}

#[test]
fn parse_range_ok() {
    assert_eq!(parse_range("3..7").unwrap(), (3, 7));
}

#[test]
fn parse_range_inverted_errors() {
    assert!(parse_range("9..2").is_err());
}

#[test]
fn parse_range_bad_format() {
    assert!(parse_range("3-7").is_err());
    assert!(parse_range("abc..7").is_err());
}

#[test]
fn truncate_short() {
    assert_eq!(truncate("hi", 10), "hi");
}

#[test]
fn truncate_long() {
    let r = truncate("abcdefghij", 5);
    assert!(r.ends_with('…'));
    assert_eq!(r.chars().count(), 5);
}

#[test]
fn parse_range_errors_name_the_fault() {
    assert_eq!(parse_range("3-7"), Err(RangeError::NoSeparator));
    assert_eq!(parse_range("abc..7"), Err(RangeError::BadLow));
    assert_eq!(parse_range("3..x"), Err(RangeError::BadHigh));
    assert_eq!(parse_range("9..2"), Err(RangeError::Inverted { lo: 9, hi: 2 }));
    assert_eq!(parse_range("+2..4"), Ok((2, 4)));
    assert_eq!(parse_range("1..2..3"), Err(RangeError::BadHigh));
    assert_eq!(parse_range("5..5"), Ok((5, 5)));
}

#[test]
fn truncate_edges() {
    assert_eq!(truncate("abc", 3), "abc");
    assert_eq!(truncate("abcd", 3), "ab…");
    assert_eq!(truncate("abcd", 0), "…");
    assert_eq!(truncate("", 0), "");
}

#[test]
fn tool_ids_in_block_order() {
    let m = msg(
        "assistant",
        r#"[{"type":"tool_use","id":"u1"},{"type":"text","text":"x"},{"type":"tool_result","tool_use_id":"r1"},{"type":"tool_use","id":"u2"},{"type":"tool_use"}]"#,
    );
    let (uses, results) = collect_tool_ids(&m);
    assert_eq!(uses, vec!["u1".to_string(), "u2".to_string()]);
    assert_eq!(results, vec!["r1".to_string()]);
}

#[test]
fn render_text_flattens_and_cuts() {
    let m = msg("user", "\"  line1\\nline2  \"");
    assert_eq!(render_text(&m, false), ("line1 line2".to_string(), false));
    let long = format!("\"{}\"", "y".repeat(450));
    let m2 = msg("user", &long);
    let (t, cut) = render_text(&m2, false);
    assert!(cut);
    assert_eq!(t.chars().count(), 401);
    assert!(t.ends_with('…'));
    let (full, cut2) = render_text(&m2, true);
    assert!(!cut2);
    assert_eq!(full.chars().count(), 450);
}

#[test]
fn match_target_prefers_single_and_exact() {
    let v = vec![entry("abc-1"), entry("abc-12"), entry("zzz")];
    assert_eq!(match_target(&v, "ZZZ").unwrap(), 2);
    assert_eq!(match_target(&v, "abc-1").unwrap(), 0);
    match match_target(&v, "abc") {
        Err(TargetError::Ambiguous { count, first }) => {
            assert_eq!(count, 2);
            assert_eq!(first, vec!["abc-1".to_string(), "abc-12".to_string()]);
        }
        other => panic!("unexpected {other:?}"),
    }
    assert!(matches!(match_target(&v, "nope"), Err(TargetError::NoMatch)));
}

#[test]
fn plan_delete_pairs_and_sorts() {
    let s = session(vec![
        msg("user", "\"ask\""),
        msg("assistant", r#"[{"type":"tool_use","id":"t1"}]"#),
        msg("user", r#"[{"type":"tool_result","tool_use_id":"t1"}]"#),
        msg("user", "\"next\""),
    ]);
    let p = PairIndex::build(&s.messages);
    let mut sp = spec();
    sp.indices = vec![2];
    let plan = plan_delete(&s, &p, &sp).unwrap();
    assert_eq!(plan.requested, vec![2]);
    assert_eq!(plan.after_auto_pair, vec![0, 1, 2]);
    assert_eq!(plan.paired_added, vec![0, 1]);
    assert_eq!(plan.total_before, 4);
    assert_eq!(plan.total_after, 1);
    assert_eq!(plan.marked.len(), 3);
}

#[test]
fn plan_delete_ranges_and_ends() {
    let s = session(vec![
        msg("user", "\"a\""),
        msg("user", "\"b\""),
        msg("user", "\"c\""),
        msg("user", "\"d\""),
        msg("user", "\"e\""),
    ]);
    let p = PairIndex::build(&s.messages);
    let mut sp = spec();
    sp.from_top = Some(1);
    sp.from_bottom = Some(9);
    let plan = plan_delete(&s, &p, &sp).unwrap();
    assert_eq!(plan.requested, vec![0, 1, 2, 3, 4]);
    let mut sp2 = spec();
    sp2.range = Some("1..2".to_string());
    sp2.from_bottom = Some(1);
    let plan2 = plan_delete(&s, &p, &sp2).unwrap();
    assert_eq!(plan2.requested, vec![1, 2, 4]);
    assert_eq!(plan2.total_after, 2);
}

#[test]
fn plan_delete_errors() {
    let s = session(vec![msg("user", "\"a\""), msg("user", "\"b\"")]);
    let p = PairIndex::build(&s.messages);
    let mut sp = spec();
    sp.indices = vec![1, 5, 7];
    assert_eq!(
        plan_delete(&s, &p, &sp).unwrap_err(),
        DeleteError::IndexOutOfRange { index: 5, total: 2 }
    );
    let mut sp2 = spec();
    sp2.range = Some("0..2".to_string());
    assert_eq!(
        plan_delete(&s, &p, &sp2).unwrap_err(),
        DeleteError::RangeOutOfRange { hi: 2, total: 2 }
    );
    let mut sp3 = spec();
    sp3.range = Some("x".to_string());
    assert_eq!(
        plan_delete(&s, &p, &sp3).unwrap_err(),
        DeleteError::Range(RangeError::NoSeparator)
    );
    assert_eq!(plan_delete(&s, &p, &spec()).unwrap_err(), DeleteError::NothingSelected);
    let mut sp4 = spec();
    sp4.from_top = Some(0);
    assert_eq!(plan_delete(&s, &p, &sp4).unwrap_err(), DeleteError::NothingSelected);
}

#[test]
fn plan_delete_counts_relinks() {
    let mut a = msg("user", "\"a\"");
    a.uuid = Some("a".to_string());
    let mut b = msg("user", "\"b\"");
    b.uuid = Some("b".to_string());
    b.parent_uuid = Some("a".to_string());
    let mut c = msg("user", "\"c\"");
    c.uuid = Some("c".to_string());
    c.parent_uuid = Some("b".to_string());
    let s = session(vec![a, b, c]);
    let p = PairIndex::build(&s.messages);
    let mut sp = spec();
    sp.indices = vec![1];
    let plan = plan_delete(&s, &p, &sp).unwrap();
    assert_eq!(plan.relinked, 1);
}

#[test]
fn formatted_range_reads_back() {
    for (lo, hi) in [(0usize, 0usize), (3, 17), (9, 10), (42, usize::MAX)] {
        assert_eq!(parse_range(&format!("{lo}..{hi}")), Ok((lo, hi)));
    }
}
