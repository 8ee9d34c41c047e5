use cc_session::cli::fork::{
    fork_document, fork_text, piece_body, sentinel_line, split_inclusive_newline,
    with_extension_appended,
};
use cc_session::json::JsonValue;
use cc_session::session::{ends_with_newline, jsonl_records, Message, MessageBody, Session};
use std::collections::HashSet;
use std::path::PathBuf;

fn to_json(v: &serde_json::Value) -> JsonValue {
    match v {
        serde_json::Value::Null => JsonValue::Null,
        serde_json::Value::Bool(b) => JsonValue::Bool(*b),
        serde_json::Value::Number(n) => JsonValue::Number(n.to_string()),
        serde_json::Value::String(s) => JsonValue::Str(s.clone()),
        serde_json::Value::Array(a) => JsonValue::Array(a.iter().map(to_json).collect()),
        serde_json::Value::Object(o) => {
            JsonValue::Object(o.iter().map(|(k, v)| (k.clone(), to_json(v))).collect())
        }
    }
}

fn text_of(o: &serde_json::Map<String, serde_json::Value>, k: &str) -> Option<String> {
    o.get(k).and_then(|v| v.as_str()).map(|s| s.to_string())
}

fn message_of(raw: &str) -> Message {
    let v: serde_json::Value = serde_json::from_str(raw).unwrap();
    let o = v.as_object().unwrap();
    let known = ["type", "uuid", "parentUuid", "timestamp", "message"];
    Message {
        entry_type: text_of(o, "type"),
        uuid: text_of(o, "uuid"),
        parent_uuid: text_of(o, "parentUuid"),
        timestamp: text_of(o, "timestamp"),
        message: o.get("message").filter(|m| !m.is_null()).map(|b| {
            let bo = b.as_object().unwrap();
            MessageBody {
                role: text_of(bo, "role"),
                content: bo.get("content").filter(|c| !c.is_null()).map(to_json),
                extra: bo
                    .iter()
                    .filter(|(k, _)| k.as_str() != "role" && k.as_str() != "content")
                    .map(|(k, v)| (k.clone(), to_json(v)))
                    .collect(),
            }
        }),
        extra: o
            .iter()
            .filter(|(k, _)| !known.contains(&k.as_str()))
            .map(|(k, v)| (k.clone(), to_json(v)))
            .collect(),
        original_line: Some(raw.to_string()),
    }
}

fn load(content: &str) -> Session {
    Session {
        path: PathBuf::from("/tmp/11111111-1111-1111-1111-111111111111.jsonl"),
        messages: jsonl_records(content).iter().map(|(_, l)| message_of(l)).collect(),
        trailing_newline: ends_with_newline(content),
    }
}

/// The fork's text for `session` without `omit`, with `new_id`.
fn fork_text_of(session: &Session, omit: &HashSet<usize>, origin: &str, new_id: &str) -> (String, usize) {
    fork_text(session, omit, origin, new_id, "2026-01-01T00:00:00+00:00", "0.1.0").unwrap()
}

#[test]
fn fork_creates_new_file_with_sentinel() {
    let content = "{\"type\":\"user\",\"uuid\":\"a\",\"sessionId\":\"11111111-1111-1111-1111-111111111111\",\"message\":{\"role\":\"user\",\"content\":\"hi\"}}\n";
    let session = load(content);
    let new_id = "22222222-2222-2222-2222-222222222222";
    let (new_content, _) = fork_text_of(&session, &HashSet::new(), "11111111-1111-1111-1111-111111111111", new_id);
    assert_ne!(new_id, "11111111-1111-1111-1111-111111111111");
    let mut lines = new_content.lines();
    let sentinel: serde_json::Value = serde_json::from_str(lines.next().unwrap()).unwrap();
    assert_eq!(sentinel["type"], "cc-session-fork");
    assert_eq!(sentinel["origin"], "11111111-1111-1111-1111-111111111111");
    let user_line: serde_json::Value = serde_json::from_str(lines.next().unwrap()).unwrap();
    assert_eq!(user_line["sessionId"], new_id);
    assert_eq!(user_line["uuid"], "a");
}

#[test]
fn fork_with_delete_drops_marked_messages() {
    let content: &str = &[
        "{\"type\":\"user\",\"uuid\":\"a\",\"sessionId\":\"old\"}\n",
        "{\"type\":\"assistant\",\"uuid\":\"b\",\"parentUuid\":\"a\",\"sessionId\":\"old\"}\n",
        "{\"type\":\"user\",\"uuid\":\"c\",\"parentUuid\":\"b\",\"sessionId\":\"old\"}\n",
    ].concat();
    let session = load(content);
    let mut omit = HashSet::new();
    omit.insert(1);
    let (new_content, relinked) = fork_text_of(&session, &omit, "old", "new");
    assert_eq!(new_content.lines().count(), 3);
    assert!(new_content.contains("\"parentUuid\":\"a\""));
    assert_eq!(relinked, 1);
}

#[test]
fn fork_passes_through_lines_without_sessionid() {
    let content: &str = &[
        "{\"type\":\"ai-title\",\"aiTitle\":\"Some Title\",\"sessionId\":\"old\"}\n",
        "{\"type\":\"user\",\"uuid\":\"a\"}\n",
    ].concat();
    let session = load(content);
    let new_id = "33333333-3333-3333-3333-333333333333";
    let (new_content, _) = fork_text_of(&session, &HashSet::new(), "old", new_id);
    assert!(new_content.contains(new_id));
    assert!(new_content.contains("Some Title"));
}

#[test]
fn fork_document_exact_text() {
    let pieces = split_inclusive_newline("{\"b\":1,\"sessionId\":\"x\"}\nnot json\n\n{\"sessionId\":7}");
    assert_eq!(pieces.len(), 4);
    let parsed = vec![
        Some(JsonValue::Object(vec![
            ("b".to_string(), JsonValue::Number("1".to_string())),
            ("sessionId".to_string(), JsonValue::Str("x".to_string())),
        ])),
        None,
        None,
        Some(JsonValue::Object(vec![(
            "sessionId".to_string(),
            JsonValue::Number("7".to_string()),
        )])),
    ];
    let doc = fork_document("{\"s\":1}", &pieces, &parsed, "N");
    assert_eq!(
        doc,
        "{\"s\":1}\n{\"b\":1,\"sessionId\":\"N\"}\nnot json\n\n{\"sessionId\":7}"
    );
}

#[test]
fn sentinel_keys_in_order() {
    assert_eq!(
        sentinel_line("o", "t", "v"),
        "{\"cc_session_version\":\"v\",\"forked_at\":\"t\",\"origin\":\"o\",\"type\":\"cc-session-fork\"}"
    );
}

#[test]
fn pieces_and_paths() {
    assert_eq!(split_inclusive_newline("a\nb"), vec!["a\n".to_string(), "b".to_string()]);
    assert!(split_inclusive_newline("").is_empty());
    assert_eq!(piece_body("x\n"), "x");
    assert_eq!(piece_body("x"), "x");
    assert_eq!(with_extension_appended("/d/s.jsonl", "tmp"), "/d/s.jsonl.tmp");
}

#[test]
fn lines_without_session_id_pass_through_unchanged() {
    let content = "{\"type\": \"user\", \"uuid\": \"a\"}\n{\"sessionId\": \"old\", \"b\": 2}\n";
    let session = load(content);
    let (new_content, _) = fork_text_of(&session, &HashSet::new(), "old", "N");
    let lines: Vec<&str> = new_content.lines().collect();
    assert_eq!(lines[1], "{\"type\": \"user\", \"uuid\": \"a\"}");
    assert_eq!(lines[2], "{\"b\":2,\"sessionId\":\"N\"}");
}

#[test]
fn fork_is_listed_as_edited_with_its_origin() {
    let content = "{\"type\":\"user\",\"uuid\":\"a\",\"message\":{\"role\":\"user\",\"content\":\"hi\"}}\n";
    let session = load(content);
    let (text, _) = fork_text_of(&session, &HashSet::new(), "old-id", "new-id");
    let meta = cc_session::scan::scan_lines(&cc_session::session::split_lines(&text));
    assert!(meta.is_fork);
    assert_eq!(meta.fork_origin.as_deref(), Some("old-id"));
    assert_eq!(meta.display_title(), "[edited] hi");
}
