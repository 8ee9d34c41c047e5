use cc_session::json::JsonValue;
use cc_session::session::{Message, MessageBody};
use cc_session::tokens::{render_for_count, TokenCounter};

fn to_json(v: &serde_json::Value) -> JsonValue {
    match v {
        serde_json::Value::Null => JsonValue::Null,
        serde_json::Value::Bool(b) => JsonValue::Bool(*b),
        serde_json::Value::Number(n) => JsonValue::Number(n.to_string()),
        serde_json::Value::String(s) => JsonValue::Str(s.clone()),
        serde_json::Value::Array(a) => JsonValue::Array(a.iter().map(to_json).collect()),
        serde_json::Value::Object(o) => {
            JsonValue::Object(o.iter().map(|(k, v)| (k.clone(), to_json(v))).collect())
        }
    }
}

fn bare(entry_type: Option<&str>, line: Option<String>) -> Message {
    Message {
        entry_type: entry_type.map(|t| t.to_string()),
        uuid: None,
        parent_uuid: None,
        timestamp: None,
        message: None,
        extra: Vec::new(),
        original_line: line,
    }
}

fn msg_with_text(text: &str) -> Message {
    Message {
        entry_type: Some("user".to_string()),
        uuid: None,
        parent_uuid: None,
        timestamp: None,
        message: Some(MessageBody {
            role: Some("user".to_string()),
            content: Some(JsonValue::Str(text.to_string())),
            extra: Vec::new(),
        }),
        extra: Vec::new(),
        original_line: None,
    }
}

#[test]
fn empty_message_zero() {
    let m = bare(None, None);
    let mut c = TokenCounter::new();
    assert!(c.count(0, &m) > 0);
}

#[test]
fn whole_line_used_when_original_present() {
    let mut m = msg_with_text("hi");
    m.original_line = Some(
        "{\"type\":\"user\",\"experimental\":\"\",\"message\":{\"role\":\"user\",\"content\":\"hi\",\"x\":\"y\"}}".into(),
    );
    let mut c = TokenCounter::new();
    let with_orig = c.count(0, &m);

    let mut m2 = msg_with_text("hi");
    m2.original_line = None;
    let mut c2 = TokenCounter::new();
    let without = c2.count(0, &m2);

    assert!(
        with_orig >= without,
        "original_line count ({with_orig}) should be >= struct-only count ({without})"
    );
}

#[test]
fn tool_use_input_counted() {
    let big_arg = "x".repeat(2000);
    let line = format!(
        r#"{{"type":"assistant","message":{{"role":"assistant","content":[{{"type":"tool_use","id":"t","name":"R","input":{{"data":"{big_arg}"}}}}]}}}}"#
    );
    let m = bare(Some("assistant"), Some(line));
    let mut c = TokenCounter::new();
    let n = c.count(0, &m);
    assert!(n > 200, "expected sizeable count for 2KB input, got {n}");
}

#[test]
fn tool_result_content_counted() {
    let stdout = "log line\n".repeat(200);
    let line = format!(
        r#"{{"type":"user","message":{{"role":"user","content":[{{"type":"tool_result","tool_use_id":"t","content":{}}}]}}}}"#,
        serde_json::to_string(&stdout).unwrap()
    );
    let m = bare(Some("user"), Some(line));
    let mut c = TokenCounter::new();
    let n = c.count(0, &m);
    assert!(n > 100, "expected sizeable count for repeated stdout, got {n}");
}

#[test]
fn cache_returns_same_value() {
    let m = msg_with_text("cache me");
    let mut c = TokenCounter::new();
    let a = c.count(7, &m);
    let b = c.count(7, &m);
    assert_eq!(a, b);
}

#[test]
fn count_str_works() {
    let c = TokenCounter::new();
    assert_eq!(c.count_str(""), 0);
    assert!(c.count_str("hello world") > 0);
}

#[test]
fn block_array_counts_text_blocks() {
    let content: serde_json::Value = serde_json::from_str(
        r#"[{"type":"text","text":"hello"},{"type":"tool_use","id":"t","name":"R","input":{}},{"type":"text","text":"world"}]"#,
    )
    .unwrap();
    let m = Message {
        entry_type: Some("assistant".to_string()),
        uuid: None,
        parent_uuid: None,
        timestamp: None,
        message: Some(MessageBody {
            role: Some("assistant".to_string()),
            content: Some(to_json(&content)),
            extra: Vec::new(),
        }),
        extra: Vec::new(),
        original_line: None,
    };
    let mut c = TokenCounter::new();
    assert!(c.count(0, &m) > 0);
}

#[test]
fn cached_count_is_kept_per_index() {
    let mut c = TokenCounter::new();
    let short = msg_with_text("a");
    let long = msg_with_text(&"word ".repeat(300));
    let first = c.count(3, &short);
    assert_eq!(c.count(3, &long), first);
    assert!(c.count(4, &long) > first);
}

#[test]
fn counted_text_is_the_line_or_the_fields() {
    let m = bare(Some("user"), Some("{\"k\":1}".to_string()));
    assert_eq!(render_for_count(&m), "{\"k\":1}");
    let m2 = msg_with_text("hi");
    assert_eq!(
        render_for_count(&m2),
        "{\"type\":\"user\",\"message\":{\"role\":\"user\",\"content\":\"hi\"}}"
    );
    let c = TokenCounter::new();
    assert_eq!(c.count_str("hello world"), 2);
}
