use cc_session::cli::report::{heatmap_turns, info_counts, show_rows};
use cc_session::json::JsonValue;
use cc_session::pairing::PairIndex;
use cc_session::session::{Message, MessageBody};

fn to_json(v: &serde_json::Value) -> JsonValue {
    match v {
        serde_json::Value::Null => JsonValue::Null,
        serde_json::Value::Bool(b) => JsonValue::Bool(*b),
        serde_json::Value::Number(n) => JsonValue::Number(n.to_string()),
        serde_json::Value::String(s) => JsonValue::Str(s.clone()),
        serde_json::Value::Array(a) => JsonValue::Array(a.iter().map(to_json).collect()),
        serde_json::Value::Object(o) => {
            JsonValue::Object(o.iter().map(|(k, v)| (k.clone(), to_json(v))).collect())
        }
    }
}

fn msg(role: &str, content: &str) -> Message {
    let c: serde_json::Value = serde_json::from_str(content).unwrap();
    Message {
        entry_type: Some(role.to_string()),
        uuid: None,
        parent_uuid: None,
        timestamp: Some("2026-01-01".to_string()),
        message: Some(MessageBody {
            role: Some(role.to_string()),
            content: Some(to_json(&c)),
            extra: Vec::new(),
        }),
        extra: Vec::new(),
        original_line: None,
    }
}

fn sample() -> Vec<Message> {
    vec![
        msg("system", "\"boot\""),
        msg("user", "\"first question\""),
        msg("assistant", r#"[{"type":"text","text":"looking"},{"type":"tool_use","id":"t1"}]"#),
        msg("user", r#"[{"type":"tool_result","tool_use_id":"t1","content":"data"}]"#),
        msg("user", "\"second\""),
        msg("assistant", "\"done\""),
    ]
}

#[test]
fn show_rows_visible_and_hidden() {
    let msgs = sample();
    let (rows, visible) = show_rows(&msgs, false, false);
    assert_eq!(visible, 4);
    let idx: Vec<usize> = rows.iter().map(|r| r.index).collect();
    assert_eq!(idx, vec![1, 2, 4, 5]);
    assert_eq!(rows[1].tool_use_ids, vec!["t1".to_string()]);
    assert_eq!(rows[1].text, "looking");
    assert_eq!(rows[1].role, "assistant");
    assert_eq!(rows[0].timestamp.as_deref(), Some("2026-01-01"));
    assert!(rows.iter().all(|r| r.tokens > 0));
    let (all, v2) = show_rows(&msgs, true, true);
    assert_eq!(all.len(), 6);
    assert_eq!(v2, 4);
    assert!(!all[0].visible);
    assert_eq!(all[3].tool_result_ids, vec!["t1".to_string()]);
    assert_eq!(all[3].text, "");
}

#[test]
fn info_counts_roles_and_tools() {
    let c = info_counts(&sample());
    assert_eq!(c.total, 6);
    assert_eq!(c.visible, 4);
    assert_eq!(c.users, 3);
    assert_eq!(c.assistants, 2);
    assert_eq!(c.tool_uses, 1);
    assert_eq!(c.tool_results, 1);
    assert!(c.tokens > 0);
}

#[test]
fn heatmap_groups_turns_and_ranks() {
    let mut msgs = sample();
    msgs.push(msg("assistant", &format!("\"{}\"", "word ".repeat(200))));
    let p = PairIndex::build(&msgs);
    let (total, turns) = heatmap_turns(&msgs, &p, None);
    assert_eq!(turns.len(), 2);
    assert_eq!(turns[0].anchor_idx, 4);
    assert_eq!((turns[0].start_idx, turns[0].end_idx, turns[0].msg_count), (4, 6, 3));
    assert!(!turns[0].has_tool_use);
    assert_eq!(turns[1].anchor_idx, 1);
    assert_eq!((turns[1].start_idx, turns[1].end_idx, turns[1].msg_count), (1, 3, 3));
    assert!(turns[1].has_tool_use);
    assert_eq!(turns[1].preview, "first question");
    assert_eq!(total, turns[0].tokens + turns[1].tokens);
    let (_, one) = heatmap_turns(&msgs, &p, Some(1));
    assert_eq!(one.len(), 1);
    assert_eq!(one[0].anchor_idx, 4);
}
