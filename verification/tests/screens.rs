use cc_session::app::{App, Load, Screen};
use cc_session::json::JsonValue;
use cc_session::pairing::PairIndex;
use cc_session::scan::SessionEntry;
use cc_session::screens::edit::{handle_key as edit_key, EditState, Modal};
use cc_session::screens::list::{handle_key as list_key, ListState, Mode};
use cc_session::screens::{Key, Transition};
use cc_session::session::{Message, MessageBody, Session};
use std::path::PathBuf;

fn to_json(v: &serde_json::Value) -> JsonValue {
    match v {
        serde_json::Value::Null => JsonValue::Null,
        serde_json::Value::Bool(b) => JsonValue::Bool(*b),
        serde_json::Value::Number(n) => JsonValue::Number(n.to_string()),
        serde_json::Value::String(s) => JsonValue::Str(s.clone()),
        serde_json::Value::Array(a) => JsonValue::Array(a.iter().map(to_json).collect()),
        serde_json::Value::Object(o) => {
            JsonValue::Object(o.iter().map(|(k, v)| (k.clone(), to_json(v))).collect())
        }
    }
}

fn msg(role: &str, content: &str) -> Message {
    let c: serde_json::Value = serde_json::from_str(content).unwrap();
    Message {
        entry_type: Some(role.into()),
        uuid: None,
        parent_uuid: None,
        timestamp: None,
        message: Some(MessageBody {
            role: Some(role.into()),
            content: Some(to_json(&c)),
            extra: Vec::new(),
        }),
        extra: Vec::new(),
        original_line: None,
    }
}

fn make_state(msgs: Vec<Message>) -> EditState {
    let session = Session {
        path: PathBuf::from("/tmp/x.jsonl"),
        messages: msgs,
        trailing_newline: true,
    };
    let pairing = PairIndex::build(&session.messages);
    EditState::new(session, pairing)
}

fn make_entry(project: &str, title: &str) -> SessionEntry {
    SessionEntry {
        project_slug: project.into(),
        session_id: format!("{project}-{title}"),
        title: title.into(),
        mtime: 0,
        size: 1024,
        path: PathBuf::from(format!("/tmp/{project}/{title}.jsonl")),
        is_fork: false,
        fork_origin: None,
    }
}

#[test]
fn toggle_mark_pairs_tool_use_and_result() {
    let mut s = make_state(vec![
        msg("user", "\"ask\""),
        msg(
            "assistant",
            r#"[{"type":"text","text":"calling tool"},{"type":"tool_use","id":"t1","name":"R","input":{}}]"#,
        ),
        msg("user", r#"[{"type":"tool_result","tool_use_id":"t1","content":"ok"}]"#),
    ]);
    assert_eq!(s.visible, vec![0, 1]);
    s.selected = 1;
    s.toggle_mark_current();
    assert!(s.marked.contains(&1));
    assert!(s.marked.contains(&2));
}

#[test]
fn toggle_twice_clears_pair() {
    let mut s = make_state(vec![
        msg(
            "assistant",
            r#"[{"type":"text","text":"calling"},{"type":"tool_use","id":"t1","name":"R","input":{}}]"#,
        ),
        msg("user", r#"[{"type":"tool_result","tool_use_id":"t1","content":"ok"}]"#),
    ]);
    assert_eq!(s.visible, vec![0]);
    s.selected = 0;
    s.toggle_mark_current();
    s.toggle_mark_current();
    assert!(s.marked.is_empty());
}

#[test]
fn mark_to_top_inclusive() {
    let mut s = make_state(vec![msg("user", "\"a\""), msg("user", "\"b\""), msg("user", "\"c\"")]);
    s.selected = 1;
    s.mark_to_top();
    assert!(s.marked.contains(&0));
    assert!(s.marked.contains(&1));
    assert!(!s.marked.contains(&2));
}

#[test]
fn mark_to_bottom_inclusive() {
    let mut s = make_state(vec![msg("user", "\"a\""), msg("user", "\"b\""), msg("user", "\"c\"")]);
    s.selected = 1;
    s.mark_to_bottom();
    assert!(!s.marked.contains(&0));
    assert!(s.marked.contains(&1));
    assert!(s.marked.contains(&2));
}

#[test]
fn edit_move_selection_clamps() {
    let mut s = make_state(vec![msg("user", "\"a\""), msg("user", "\"b\"")]);
    s.move_selection(-5);
    assert_eq!(s.selected, 0);
    s.move_selection(50);
    assert_eq!(s.selected, 1);
}

#[test]
fn range_marks_inclusive() {
    let mut s = make_state(vec![
        msg("user", "\"a\""),
        msg("user", "\"b\""),
        msg("user", "\"c\""),
        msg("user", "\"d\""),
    ]);
    s.anchor = Some(1);
    s.selected = 3;
    s.mark_range_to_anchor();
    assert!(s.marked.contains(&1));
    assert!(s.marked.contains(&2));
    assert!(s.marked.contains(&3));
}

#[test]
fn system_and_tool_messages_hidden() {
    let s = make_state(vec![
        msg("system", "\"init\""),
        msg("user", "\"hello\""),
        msg("assistant", r#"[{"type":"tool_use","id":"t","name":"R","input":{}}]"#),
        msg("user", r#"[{"type":"tool_result","tool_use_id":"t","content":"x"}]"#),
        msg("assistant", "\"real answer\""),
    ]);
    assert_eq!(s.visible, vec![1, 4]);
}

#[test]
fn harness_wrappers_hidden() {
    let s = make_state(vec![
        msg("user", "\"<local-command-caveat>boilerplate</local-command-caveat>\""),
        msg("user", "\"<bash-input>ls</bash-input>\""),
        msg("user", "\"real question\""),
    ]);
    assert_eq!(s.visible, vec![2]);
}

#[test]
fn list_move_selection_clamps() {
    let mut s = ListState::new(vec![make_entry("a", "1"), make_entry("a", "2")]);
    s.move_selection(-5);
    assert_eq!(s.selected, Some(0));
    s.move_selection(10);
    assert_eq!(s.selected, Some(1));
}

#[test]
fn filter_narrows() {
    let mut s = ListState::new(vec![make_entry("alpha", "auth"), make_entry("beta", "billing")]);
    s.query = "auth".into();
    assert_eq!(s.filtered().len(), 1);
}

#[test]
fn empty_filter_no_panic_on_enter() {
    let mut s = ListState::new(vec![make_entry("a", "x")]);
    s.query = "zzz".into();
    assert!(s.selected_path().is_none());
}

#[test]
fn edit_keys_drive_marks_banner_and_save() {
    let mut s = make_state(vec![
        msg("user", "\"ask\""),
        msg(
            "assistant",
            r#"[{"type":"text","text":"calling"},{"type":"tool_use","id":"t1"}]"#,
        ),
        msg("user", r#"[{"type":"tool_result","tool_use_id":"t1"}]"#),
        msg("user", "\"next\""),
    ]);
    assert_eq!(s.visible, vec![0, 1, 3]);
    assert!(matches!(edit_key(&mut s, Key::Char('j')), Transition::Stay));
    assert_eq!(s.selected, 1);
    assert_eq!(s.list_selected, Some(1));
    edit_key(&mut s, Key::Char('d'));
    let mut m: Vec<usize> = s.marked.iter().copied().collect();
    m.sort();
    assert_eq!(m, vec![0, 1, 2]);
    assert_eq!(s.banner.as_deref(), Some("auto-paired 2 tool call(s)"));
    assert_eq!(s.banner_serial, 1);
    edit_key(&mut s, Key::Char('s'));
    assert_eq!(s.modal, Modal::ConfirmSave { count: 3 });
    edit_key(&mut s, Key::Char('y'));
    assert_eq!(s.modal, Modal::Hidden);
    assert!(s.save_requested);
    s.finish_save(&Ok(("agent --resume new-id".to_string(), "/tmp/new-id.jsonl".to_string())));
    assert!(!s.save_requested);
    assert!(s.marked.is_empty());
    assert_eq!(
        s.modal,
        Modal::SaveResult(
            "Forked. 3 message(s) removed.\nresume: agent --resume new-id\nfile: /tmp/new-id.jsonl"
                .to_string()
        )
    );
    edit_key(&mut s, Key::Char('x'));
    assert_eq!(s.modal, Modal::Hidden);
    edit_key(&mut s, Key::Char('s'));
    edit_key(&mut s, Key::Char('y'));
    assert_eq!(s.modal, Modal::SaveResult("no changes to save".to_string()));
    edit_key(&mut s, Key::Char('q'));
    assert!(matches!(edit_key(&mut s, Key::Esc), Transition::BackToList));
}

#[test]
fn edit_range_keys_and_failed_save() {
    let mut s = make_state(vec![
        msg("user", "\"a\""),
        msg("assistant", "\"b\""),
        msg("user", "\"c\""),
        msg("assistant", "\"d\""),
    ]);
    edit_key(&mut s, Key::Char('v'));
    assert_eq!(s.anchor, Some(0));
    assert_eq!(
        s.banner.as_deref(),
        Some("range anchor set; move and press 'd' to mark range")
    );
    edit_key(&mut s, Key::Char('b'));
    assert_eq!(s.selected, 3);
    edit_key(&mut s, Key::Char('d'));
    assert_eq!(s.anchor, None);
    assert_eq!(s.marked.len(), 4);
    assert_eq!(s.banner.as_deref(), Some("range marked: 4 msg(s); auto-paired 0 extra"));
    edit_key(&mut s, Key::Char('t'));
    assert_eq!(s.selected, 0);
    edit_key(&mut s, Key::Char('d'));
    let mut m: Vec<usize> = s.marked.iter().copied().collect();
    m.sort();
    assert_eq!(m, vec![2, 3]);
    s.save_requested = true;
    s.finish_save(&Err("disk full".to_string()));
    assert_eq!(s.modal, Modal::SaveResult("Fork failed: disk full".to_string()));
    assert_eq!(s.marked.len(), 2);
}

#[test]
fn mark_banners_count_rows() {
    let mut s = make_state(vec![msg("user", "\"a\""), msg("user", "\"b\""), msg("user", "\"c\"")]);
    s.selected = 1;
    s.mark_to_top();
    assert_eq!(s.banner.as_deref(), Some("marked top→here (2); auto-paired 0 extra"));
    s.mark_to_bottom();
    assert_eq!(s.banner.as_deref(), Some("marked here→bottom (2); auto-paired 0 extra"));
    assert_eq!(s.marked.len(), 3);
}

#[test]
fn list_keys_search_and_open() {
    let mut s = ListState::new(vec![make_entry("alpha", "auth"), make_entry("beta", "billing")]);
    assert!(matches!(list_key(&mut s, Key::Char('b')), Transition::Stay));
    assert_eq!(s.selected, Some(1));
    list_key(&mut s, Key::Char('/'));
    assert_eq!(s.mode, Mode::Search);
    for c in "bill".chars() {
        list_key(&mut s, Key::Char(c));
    }
    list_key(&mut s, Key::Backspace);
    assert_eq!(s.query, "bil");
    list_key(&mut s, Key::Enter);
    assert_eq!(s.mode, Mode::Browse);
    assert_eq!(s.selected, Some(0));
    match list_key(&mut s, Key::Enter) {
        Transition::OpenEdit(p) => assert_eq!(p, PathBuf::from("/tmp/beta/billing.jsonl")),
        _ => panic!("expected to open the session"),
    }
    list_key(&mut s, Key::Char('/'));
    list_key(&mut s, Key::Char('z'));
    list_key(&mut s, Key::Esc);
    assert_eq!(s.query, "");
    assert!(matches!(list_key(&mut s, Key::Char('q')), Transition::Quit));
}

#[test]
fn app_transitions_ask_for_loads() {
    let mut app = App::new(PathBuf::from("/tmp/projects"), vec![make_entry("a", "x")]);
    assert!(app.apply_transition(Transition::Stay).is_none());
    match app.handle_key(Key::Enter) {
        Some(Load::Session(p)) => assert_eq!(p, PathBuf::from("/tmp/a/x.jsonl")),
        _ => panic!("expected a session load"),
    }
    app.open_edit(Session {
        path: PathBuf::from("/tmp/a/x.jsonl"),
        messages: vec![msg("user", "\"hi\"")],
        trailing_newline: true,
    });
    assert!(matches!(app.screen, Screen::Edit(_)));
    assert!(!app.key_fails(Key::Char('d')));
    assert!(matches!(app.handle_key(Key::Char('q')), Some(Load::Rescan)));
    app.show_list(vec![]);
    assert!(matches!(app.screen, Screen::List(_)));
    assert!(app.handle_key(Key::Char('q')).is_none());
    assert!(app.should_quit);
}

#[test]
fn range_on_empty_list_is_refused() {
    let mut app = App::new(PathBuf::from("/tmp/projects"), vec![]);
    app.open_edit(Session {
        path: PathBuf::from("/tmp/a/x.jsonl"),
        messages: vec![msg("system", "\"x\"")],
        trailing_newline: true,
    });
    app.handle_key(Key::Char('v'));
    assert!(app.key_fails(Key::Char('d')));
}

#[test]
fn second_d_undoes_turn_pairing() {
    let mut s = make_state(vec![msg("user", "\"hi\""), msg("assistant", "\"hello\"")]);
    s.toggle_mark_current();
    let mut m: Vec<usize> = s.marked.iter().copied().collect();
    m.sort();
    assert_eq!(m, vec![0, 1]);
    s.toggle_mark_current();
    assert!(s.marked.is_empty());
}

#[test]
fn long_search_query_keeps_every_character() {
    let mut s = ListState::new(vec![make_entry("alpha", "auth")]);
    list_key(&mut s, Key::Char('/'));
    for _ in 0..1500 {
        list_key(&mut s, Key::Char('x'));
    }
    assert_eq!(s.query.chars().count(), 1500);
    assert_eq!(s.mode, Mode::Search);
}
