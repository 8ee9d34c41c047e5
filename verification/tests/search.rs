use cc_session::scan::SessionEntry;
use cc_session::search::{fits_matcher, fuzzy_filter};
use std::path::PathBuf;

fn entry(project: &str, title: &str) -> SessionEntry {
    SessionEntry {
        project_slug: project.into(),
        session_id: format!("{project}-{title}"),
        title: title.into(),
        mtime: 0,
        size: 0,
        path: PathBuf::from("/tmp/x"),
        is_fork: false,
        fork_origin: None,
    }
}

#[test]
fn empty_query_returns_all() {
    let v = vec![entry("a", "x"), entry("b", "y")];
    assert_eq!(fuzzy_filter(&v, "").len(), 2);
    assert_eq!(fuzzy_filter(&v, "   ").len(), 2);
}

#[test]
fn fuzzy_subsequence_match() {
    let v = vec![
        entry("alpha", "auth middleware bug"),
        entry("beta", "billing flow"),
        entry("gamma", "checkout"),
    ];
    let r = fuzzy_filter(&v, "athmw");
    assert_eq!(r.len(), 1);
    assert_eq!(r[0].title, "auth middleware bug");
}

#[test]
fn case_insensitive() {
    let v = vec![entry("Alpha", "Auth Bug")];
    assert_eq!(fuzzy_filter(&v, "auth").len(), 1);
    assert_eq!(fuzzy_filter(&v, "ALPHA").len(), 1);
}

#[test]
fn ranks_better_match_higher() {
    let v = vec![entry("auth-svc", "unrelated thing"), entry("misc", "auth bug")];
    let r = fuzzy_filter(&v, "auth");
    assert_eq!(r.len(), 2);
    assert!(r.iter().all(|e| e.title.to_lowercase().contains("a")));
}

#[test]
fn no_match_returns_empty() {
    let v = vec![entry("a", "hello")];
    assert!(fuzzy_filter(&v, "zzzzzz").is_empty());
}

#[test]
fn matches_agrees_with_filter() {
    let e = entry("proj", "naïve café");
    assert!(cc_session::search::matches(&e, "  "));
    assert!(cc_session::search::matches(&e, "cafe"));
    assert!(!cc_session::search::matches(&e, "qqq"));
    let v = vec![e];
    assert_eq!(fuzzy_filter(&v, "cafe").len(), 1);
}

#[test]
fn matcher_takes_short_entries_only() {
    assert!(fits_matcher(&entry("alpha", "auth flow")));
    let long = "p".repeat(2047);
    assert!(!fits_matcher(&entry(&long, "t")));
    assert!(fits_matcher(&entry(&"p".repeat(2046), "t")));
    assert!(fits_matcher(&entry(&"é".repeat(1023), "t")));
    assert!(!fits_matcher(&entry(&"é".repeat(1024), "t")));
}

#[test]
fn equal_scores_keep_list_order_and_all_matches_show_once() {
    let entries = vec![entry("beta", "auth"), entry("gamma", "zzz"), entry("alpha", "auth"), entry("beta", "auth")];
    let hits = fuzzy_filter(&entries, "auth");
    let idx: Vec<usize> = hits.iter().map(|h| entries.iter().position(|e| std::ptr::eq(e, *h)).unwrap()).collect();
    assert_eq!(idx.len(), 3);
    let mut seen = idx.clone();
    seen.sort();
    seen.dedup();
    assert_eq!(seen, vec![0, 2, 3]);
    assert!(idx.iter().position(|&i| i == 0).unwrap() < idx.iter().position(|&i| i == 3).unwrap());
}
