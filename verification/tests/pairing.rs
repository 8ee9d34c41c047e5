use cc_session::json::JsonValue;
use cc_session::pairing::PairIndex;
use cc_session::session::{Message, MessageBody};
use std::collections::HashSet;

fn to_json(v: &serde_json::Value) -> JsonValue {
    match v {
        serde_json::Value::Null => JsonValue::Null,
        serde_json::Value::Bool(b) => JsonValue::Bool(*b),
        serde_json::Value::Number(n) => JsonValue::Number(n.to_string()),
        serde_json::Value::String(s) => JsonValue::Str(s.clone()),
        serde_json::Value::Array(a) => JsonValue::Array(a.iter().map(to_json).collect()),
        serde_json::Value::Object(o) => {
            JsonValue::Object(o.iter().map(|(k, v)| (k.clone(), to_json(v))).collect())
        }
    }
}

fn msg(role: &str, content: &str) -> Message {
    let c: serde_json::Value = serde_json::from_str(content).unwrap();
    Message {
        entry_type: Some(if role == "user" { "user".to_string() } else { "assistant".to_string() }),
        uuid: None,
        parent_uuid: None,
        timestamp: None,
        message: Some(MessageBody {
            role: Some(role.to_string()),
            content: Some(to_json(&c)),
            extra: Vec::new(),
        }),
        extra: Vec::new(),
        original_line: None,
    }
}

#[test]
fn marks_use_marks_result() {
    let msgs = vec![
        msg("user", "\"ask\""),
        msg("assistant", r#"[{"type":"tool_use","id":"t1","name":"R","input":{}}]"#),
        msg("user", r#"[{"type":"tool_result","tool_use_id":"t1","content":"ok"}]"#),
        msg("assistant", "\"done\""),
    ];
    let idx = PairIndex::build(&msgs);
    let mut marked = HashSet::from([1usize]);
    idx.auto_pair(&mut marked);
    assert!(marked.contains(&1));
    assert!(marked.contains(&2));
}

#[test]
fn marks_result_marks_use() {
    let msgs = vec![
        msg("assistant", r#"[{"type":"tool_use","id":"t1","name":"R","input":{}}]"#),
        msg("user", r#"[{"type":"tool_result","tool_use_id":"t1","content":"ok"}]"#),
    ];
    let idx = PairIndex::build(&msgs);
    let mut marked = HashSet::from([1usize]);
    idx.auto_pair(&mut marked);
    assert!(marked.contains(&0));
    assert!(marked.contains(&1));
}

#[test]
fn turn_pair_user_with_assistant() {
    let msgs = vec![msg("user", "\"hi\""), msg("assistant", "\"hello\"")];
    let idx = PairIndex::build(&msgs);
    let mut marked = HashSet::from([0usize]);
    idx.auto_pair(&mut marked);
    assert_eq!(marked, HashSet::from([0, 1]));
}

#[test]
fn turn_pair_assistant_pulls_user() {
    let msgs = vec![msg("user", "\"hi\""), msg("assistant", "\"hello\"")];
    let idx = PairIndex::build(&msgs);
    let mut marked = HashSet::from([1usize]);
    idx.auto_pair(&mut marked);
    assert_eq!(marked, HashSet::from([0, 1]));
}

#[test]
fn turn_boundary_is_next_visible_user() {
    let msgs = vec![
        msg("user", "\"first\""),
        msg("assistant", "\"a1\""),
        msg("user", "\"second\""),
        msg("assistant", "\"a2\""),
    ];
    let idx = PairIndex::build(&msgs);
    let mut marked = HashSet::from([0usize]);
    idx.auto_pair(&mut marked);
    assert_eq!(marked, HashSet::from([0, 1]));
}

#[test]
fn parallel_tool_calls() {
    let msgs = vec![
        msg(
            "assistant",
            r#"[{"type":"tool_use","id":"t1","name":"R","input":{}},{"type":"tool_use","id":"t2","name":"R","input":{}}]"#,
        ),
        msg("user", r#"[{"type":"tool_result","tool_use_id":"t1","content":"a"}]"#),
        msg("user", r#"[{"type":"tool_result","tool_use_id":"t2","content":"b"}]"#),
    ];
    let idx = PairIndex::build(&msgs);
    let mut marked = HashSet::from([0usize]);
    idx.auto_pair(&mut marked);
    assert!(marked.contains(&1));
    assert!(marked.contains(&2));
}

#[test]
fn orphan_result_detected() {
    let msgs = vec![msg("user", r#"[{"type":"tool_result","tool_use_id":"missing","content":"x"}]"#)];
    let idx = PairIndex::build(&msgs);
    assert_eq!(idx.orphan_results, vec![0]);
}

#[test]
fn empty_marks_empty() {
    let msgs = vec![msg("user", "\"hi\"")];
    let idx = PairIndex::build(&msgs);
    let mut marked: HashSet<usize> = HashSet::new();
    idx.auto_pair(&mut marked);
    assert!(marked.is_empty());
}

#[test]
fn range_extends_to_external_counterpart() {
    let msgs = vec![
        msg("user", "\"a\""),
        msg("assistant", r#"[{"type":"tool_use","id":"t1","name":"R","input":{}}]"#),
        msg("user", "\"b\""),
        msg("user", r#"[{"type":"tool_result","tool_use_id":"t1","content":"r"}]"#),
    ];
    let idx = PairIndex::build(&msgs);
    let mut marked: HashSet<usize> = (0..=2).collect();
    idx.auto_pair(&mut marked);
    assert!(marked.contains(&3));
}

#[test]
fn auto_pair_reports_added_count_and_keeps_marks() {
    let msgs = vec![
        msg("user", "\"a\""),
        msg("assistant", r#"[{"type":"tool_use","id":"t1"}]"#),
        msg("user", r#"[{"type":"tool_result","tool_use_id":"t1"}]"#),
        msg("user", "\"b\""),
    ];
    let idx = PairIndex::build(&msgs);
    let mut marked = HashSet::from([2usize]);
    let added = idx.auto_pair(&mut marked);
    assert_eq!(added, 2);
    assert_eq!(marked, HashSet::from([0, 1, 2]));
    assert!(!marked.contains(&3));
    let again = idx.auto_pair(&mut marked);
    assert_eq!(again, 0);
}

#[test]
fn turn_of_is_last_visible_prompt() {
    let msgs = vec![
        msg("assistant", "\"before\""),
        msg("user", "\"p1\""),
        msg("assistant", "\"r1\""),
        msg("user", r#"[{"type":"tool_result","tool_use_id":"x"}]"#),
        msg("user", "\"p2\""),
    ];
    let idx = PairIndex::build(&msgs);
    assert_eq!(idx.turn_of, vec![usize::MAX, 1, 1, 1, 4]);
    assert_eq!(idx.orphan_results, vec![3]);
    let e = idx.entry_for("x");
    assert!(e.is_none());
}

#[test]
fn entry_for_finds_use_and_result() {
    let msgs = vec![
        msg("assistant", r#"[{"type":"tool_use","id":"t9"}]"#),
        msg("user", r#"[{"type":"tool_result","tool_use_id":"t9"}]"#),
    ];
    let idx = PairIndex::build(&msgs);
    let e = idx.entry_for("t9").unwrap();
    assert_eq!(e.use_idx, 0);
    assert_eq!(e.result_idx, Some(1));
}

#[test]
fn marking_more_never_pairs_less() {
    let msgs = vec![
        msg("user", "\"a\""),
        msg("assistant", r#"[{"type":"tool_use","id":"t1"}]"#),
        msg("user", "\"b\""),
        msg("user", r#"[{"type":"tool_result","tool_use_id":"t1"}]"#),
    ];
    let idx = PairIndex::build(&msgs);
    let mut small = HashSet::from([1usize]);
    idx.auto_pair(&mut small);
    let mut big = HashSet::from([1usize, 2]);
    idx.auto_pair(&mut big);
    assert!(small.is_subset(&big));
    assert_eq!(small, HashSet::from([0, 1, 2, 3]));
}

#[test]
fn result_read_before_use_is_paired() {
    let msgs = vec![
        msg("user", r#"[{"type":"tool_result","tool_use_id":"t1","content":"ok"}]"#),
        msg("assistant", r#"[{"type":"tool_use","id":"t1"}]"#),
    ];
    let idx = PairIndex::build(&msgs);
    assert!(idx.orphan_results.is_empty());
    let e = idx.entry_for("t1").unwrap();
    assert_eq!(e.use_idx, 1);
    assert_eq!(e.result_idx, Some(0));
}

#[test]
fn pairing_repeats_until_nothing_is_added() {
    let msgs = vec![
        msg("user", "\"a\""),
        msg("assistant", r#"[{"type":"tool_use","id":"t1"}]"#),
        msg("user", "\"b\""),
        msg("user", r#"[{"type":"tool_result","tool_use_id":"t1","content":"r"}]"#),
    ];
    let idx = PairIndex::build(&msgs);
    let mut marked = HashSet::from([0usize]);
    let added = idx.auto_pair(&mut marked);
    assert_eq!(marked, HashSet::from([0, 1, 2, 3]));
    assert_eq!(added, 3);
}
