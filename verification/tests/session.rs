use cc_session::json::JsonValue;
use cc_session::session::{ends_with_newline, jsonl_records, Message, MessageBody, Session};
use std::collections::HashSet;
use std::path::PathBuf;

fn to_json(v: &serde_json::Value) -> JsonValue {
    match v {
        serde_json::Value::Null => JsonValue::Null,
        serde_json::Value::Bool(b) => JsonValue::Bool(*b),
        serde_json::Value::Number(n) => JsonValue::Number(n.to_string()),
        serde_json::Value::String(s) => JsonValue::Str(s.clone()),
        serde_json::Value::Array(a) => JsonValue::Array(a.iter().map(to_json).collect()),
        serde_json::Value::Object(o) => {
            JsonValue::Object(o.iter().map(|(k, v)| (k.clone(), to_json(v))).collect())
        }
    }
}

fn text_of(o: &serde_json::Map<String, serde_json::Value>, k: &str) -> Option<String> {
    o.get(k).and_then(|v| v.as_str()).map(|s| s.to_string())
}

fn body_of(v: &serde_json::Value) -> MessageBody {
    let o = v.as_object().unwrap();
    MessageBody {
        role: text_of(o, "role"),
        content: o.get("content").filter(|c| !c.is_null()).map(to_json),
        extra: o
            .iter()
            .filter(|(k, _)| k.as_str() != "role" && k.as_str() != "content")
            .map(|(k, v)| (k.clone(), to_json(v)))
            .collect(),
    }
}

fn message_of(raw: &str) -> Result<Message, serde_json::Error> {
    let v: serde_json::Value = serde_json::from_str(raw)?;
    let o = v.as_object().unwrap();
    let known = ["type", "uuid", "parentUuid", "timestamp", "message"];
    Ok(Message {
        entry_type: text_of(o, "type"),
        uuid: text_of(o, "uuid"),
        parent_uuid: text_of(o, "parentUuid"),
        timestamp: text_of(o, "timestamp"),
        message: o.get("message").filter(|m| !m.is_null()).map(body_of),
        extra: o
            .iter()
            .filter(|(k, _)| !known.contains(&k.as_str()))
            .map(|(k, v)| (k.clone(), to_json(v)))
            .collect(),
        original_line: Some(raw.to_string()),
    })
}

fn load(content: &str) -> Result<Session, usize> {
    let mut messages = Vec::new();
    for (line, raw) in jsonl_records(content) {
        match message_of(&raw) {
            Ok(m) => messages.push(m),
            Err(_) => return Err(line),
        }
    }
    Ok(Session {
        path: PathBuf::from("/tmp/s.jsonl"),
        messages,
        trailing_newline: ends_with_newline(content),
    })
}

#[test]
fn parse_round_trip_simple() {
    let content = "{\"type\":\"user\",\"uuid\":\"a\",\"message\":{\"role\":\"user\",\"content\":\"hi\"}}\n{\"type\":\"assistant\",\"uuid\":\"b\",\"message\":{\"role\":\"assistant\",\"content\":\"hello\"}}\n";
    let s = load(content).unwrap();
    assert_eq!(s.messages.len(), 2);
    let omit = HashSet::new();
    assert_eq!(s.render(&omit).unwrap(), content);
}

#[test]
fn unknown_fields_preserved() {
    let content = "{\"type\":\"user\",\"uuid\":\"a\",\"experimental_flag\":true,\"message\":{\"role\":\"user\",\"content\":\"hi\",\"weird\":42}}\n";
    let s = load(content).unwrap();
    assert_eq!(s.render(&HashSet::new()).unwrap(), content);
}

#[test]
fn empty_file() {
    let s = load("").unwrap();
    assert!(s.messages.is_empty());
}

#[test]
fn malformed_line_returns_error() {
    let err = load("{\"type\":\"user\"}\nnot-json\n").unwrap_err();
    assert_eq!(err, 2);
}

#[test]
fn relink_skips_deleted_ancestor() {
    let content: &str = &[
        "{\"type\":\"user\",\"uuid\":\"a\",\"message\":{\"role\":\"user\",\"content\":\"a\"}}\n",
        "{\"type\":\"assistant\",\"uuid\":\"b\",\"parentUuid\":\"a\",\"message\":{\"role\":\"assistant\",\"content\":\"b\"}}\n",
        "{\"type\":\"user\",\"uuid\":\"c\",\"parentUuid\":\"b\",\"message\":{\"role\":\"user\",\"content\":\"c\"}}\n",
        "{\"type\":\"assistant\",\"uuid\":\"d\",\"parentUuid\":\"c\",\"message\":{\"role\":\"assistant\",\"content\":\"d\"}}\n",
    ].concat();
    let s = load(content).unwrap();
    let mut omit = HashSet::new();
    omit.insert(1);
    omit.insert(2);
    let (out, relinked) = s.render_with_relink(&omit).unwrap();
    assert_eq!(relinked, 1, "only d's parent should change");
    assert!(out.contains("\"uuid\":\"d\""));
    assert!(out.contains("\"parentUuid\":\"a\""));
    assert!(out.contains("\"uuid\":\"a\""));
    assert!(!out.contains("\"uuid\":\"b\""));
    assert!(!out.contains("\"uuid\":\"c\""));
}

#[test]
fn relink_to_root_when_all_ancestors_deleted() {
    let content: &str = &[
        "{\"type\":\"user\",\"uuid\":\"a\"}\n",
        "{\"type\":\"assistant\",\"uuid\":\"b\",\"parentUuid\":\"a\"}\n",
        "{\"type\":\"user\",\"uuid\":\"c\",\"parentUuid\":\"b\"}\n",
    ].concat();
    let s = load(content).unwrap();
    let mut omit = HashSet::new();
    omit.insert(0);
    omit.insert(1);
    let (out, relinked) = s.render_with_relink(&omit).unwrap();
    assert_eq!(relinked, 1);
    assert!(out.contains("\"uuid\":\"c\""));
    assert!(!out.contains("\"parentUuid\""));
}

#[test]
fn relink_no_change_byte_equal() {
    let content: &str = &[
        "{\"type\":\"user\",\"uuid\":\"a\"}\n",
        "{\"type\":\"assistant\",\"uuid\":\"b\",\"parentUuid\":\"a\"}\n",
    ].concat();
    let s = load(content).unwrap();
    let omit = HashSet::new();
    let (out, relinked) = s.render_with_relink(&omit).unwrap();
    assert_eq!(relinked, 0);
    assert_eq!(out, content);
}

#[test]
fn relink_preserves_unknown_parent_uuid() {
    let content = "{\"type\":\"user\",\"uuid\":\"c\",\"parentUuid\":\"foreign-id\"}\n".to_string();
    let s = load(&content).unwrap();
    let omit = HashSet::new();
    let (out, relinked) = s.render_with_relink(&omit).unwrap();
    assert_eq!(relinked, 0);
    assert!(out.contains("\"parentUuid\":\"foreign-id\""));
}

#[test]
fn omit_drops_indices() {
    let content = "{\"type\":\"user\",\"uuid\":\"a\"}\n{\"type\":\"user\",\"uuid\":\"b\"}\n{\"type\":\"user\",\"uuid\":\"c\"}\n";
    let s = load(content).unwrap();
    let mut omit = HashSet::new();
    omit.insert(1);
    let out = s.render(&omit).unwrap();
    assert_eq!(out, "{\"type\":\"user\",\"uuid\":\"a\"}\n{\"type\":\"user\",\"uuid\":\"c\"}\n");
}

#[test]
fn relinked_line_is_written_in_field_order() {
    let content: &str = &[
        "{\"type\":\"user\",\"uuid\":\"a\"}\n",
        "{\"type\":\"user\",\"uuid\":\"b\",\"parentUuid\":\"a\"}\n",
        "{\"zeta\":1,\"uuid\":\"c\",\"type\":\"user\",\"parentUuid\":\"b\",\"alpha\":[true,null]}",
    ].concat();
    let s = load(content).unwrap();
    assert!(!s.trailing_newline);
    let mut omit = HashSet::new();
    omit.insert(1);
    let (out, relinked) = s.render_with_relink(&omit).unwrap();
    assert_eq!(relinked, 1);
    assert_eq!(
        out,
        "{\"type\":\"user\",\"uuid\":\"a\"}\n{\"type\":\"user\",\"uuid\":\"c\",\"parentUuid\":\"a\",\"alpha\":[true,null],\"zeta\":1}"
    );
}

#[test]
fn records_keep_line_numbers() {
    let r = jsonl_records("a\n\nb\r\n\nc");
    assert_eq!(r, vec![(1, "a".to_string()), (3, "b".to_string()), (5, "c".to_string())]);
    assert!(ends_with_newline("x\n"));
    assert!(!ends_with_newline(""));
}

#[test]
fn relinked_parent_is_escaped_as_json() {
    let content = "{\"uuid\":\"a\\\"\\u0001\\\\b\"}\n{\"uuid\":\"x\",\"parentUuid\":\"m\"}\n{\"uuid\":\"c\",\"parentUuid\":\"x\"}\n";
    let s = load(content).unwrap();
    let mut omit = HashSet::new();
    omit.insert(1usize);
    let (out, relinked) = s.render_with_relink(&omit).unwrap();
    assert_eq!(relinked, 1);
    let last = out.lines().last().unwrap();
    assert!(last.contains("\"parentUuid\":\"m\""));
    let mut m = message_of("{\"uuid\":\"q\"}").unwrap();
    m.original_line = None;
    m.uuid = Some("a\"\u{1}\\b\n".to_string());
    let s2 = Session { path: PathBuf::from("x"), messages: vec![m], trailing_newline: false };
    let (text, _) = s2.render_with_relink(&HashSet::new()).unwrap();
    assert_eq!(text, "{\"uuid\":\"a\\\"\\u0001\\\\b\\n\"}");
}
