//! Listing sessions: what a session file is titled, whether it is a fork
//! written by this tool, and the order in which sessions are listed.

use std::path::PathBuf;
use vstd::prelude::*;
use vstd::string::StringExecFns;
use crate::json::{get, get_str, json_parsed, parse_json, str_field, get_s, JsonValue};
use crate::order::{desc_order, desc_order_sorted_permutation, order_desc, permute};
use crate::pairing::{text_parts, text_parts_s};
use crate::session::opt_view;
use crate::text::{
    chars_of, join, join_s, lemma_trim_fixed, lemma_trim_shape, push_char, str_eq, string_of, trim,
    trim_bounds, trim_s,
};

verus! {

/// The `type` of the marker line that starts a forked session file.
pub const FORK_SENTINEL_TYPE: &'static str = "cc-session-fork";

/// Longest title, in characters, before it is cut.
pub const TITLE_LIMIT: usize = 60;

/// How many lines of a file are read to title it.
pub const SCAN_LINE_LIMIT: usize = 1000;

/// One session file found under the projects directory.
#[derive(Debug, Clone)]
pub struct SessionEntry {
    pub project_slug: String,
    pub session_id: String,
    pub title: String,
    /// Modification time, in nanoseconds since the Unix epoch.
    pub mtime: u128,
    pub size: u64,
    pub path: PathBuf,
    /// The file carries the fork marker: it was written by a delete, and
    /// its title is shown with an `[edited]` prefix.
    pub is_fork: bool,
    /// For a fork, the session id it was forked from, when recorded.
    pub fork_origin: Option<String>,
}

/// What reading the head of a session file tells.
#[derive(Debug)]
pub struct ScannedMeta {
    pub title: String,
    pub is_fork: bool,
    pub fork_origin: Option<String>,
}

/// Newlines, carriage returns and tabs turned into spaces.
pub open spec fn flatten_s(s: Seq<char>) -> Seq<char> {
    s.map_values(|c: char| if c == '\n' || c == '\r' || c == '\t' { ' ' } else { c })
}

/// A title: flattened to one line, trimmed, and cut to `TITLE_LIMIT`
/// characters with an ellipsis when longer.
pub open spec fn clamp_title_s(s: Seq<char>) -> Seq<char> {
    let t = trim_s(flatten_s(s));
    if t.len() <= TITLE_LIMIT {
        t
    } else {
        t.take(TITLE_LIMIT as int).push('…')
    }
}

/// The text of a `user` line: its string content, or the texts of its
/// text blocks joined by spaces; `None` for any other content.
pub open spec fn user_text_s(v: JsonValue) -> Option<Seq<char>> {
    let content = match get_s(v, "message"@) {
        Some(m) => get_s(m, "content"@),
        None => None,
    };
    match content {
        Some(JsonValue::Str(s)) => Some(s@),
        Some(JsonValue::Array(blocks)) => Some(join_s(text_parts_s(blocks@), seq![' '])),
        _ => None,
    }
}

/// What has been learnt from the lines read so far: the first user text,
/// the generated title, whether the fork marker was seen, and the origin
/// it names.
pub type ScanState = (Option<Seq<char>>, Option<Seq<char>>, bool, Option<Seq<char>>);

/// Reading one line (`None` when it is not JSON).
pub open spec fn scan_step(st: ScanState, line: Option<JsonValue>) -> ScanState {
    match line {
        None => st,
        Some(v) => {
            let t = str_field(v, "type"@);
            if t == Some(FORK_SENTINEL_TYPE@) {
                (
                    st.0,
                    st.1,
                    true,
                    match str_field(v, "origin"@) {
                        Some(o) => if o.len() > 0 {
                            Some(o)
                        } else {
                            st.3
                        },
                        None => st.3,
                    },
                )
            } else if st.1 is None && t == Some("ai-title"@) {
                match str_field(v, "aiTitle"@) {
                    Some(x) => if trim_s(x).len() > 0 {
                        (st.0, Some(clamp_title_s(trim_s(x))), st.2, st.3)
                    } else {
                        st
                    },
                    None => st,
                }
            } else if st.0 is None && t == Some("user"@) {
                match user_text_s(v) {
                    Some(text) => (Some(text), st.1, st.2, st.3),
                    None => st,
                }
            } else {
                st
            }
        },
    }
}

pub open spec fn scan_fold(lines: Seq<Option<JsonValue>>) -> ScanState
    decreases lines.len(),
{
    if lines.len() == 0 {
        (None, None, false, None)
    } else {
        scan_step(scan_fold(lines.drop_last()), lines.last())
    }
}

/// The lines of a file that are read to title it.
pub open spec fn scanned_lines(lines: Seq<Option<JsonValue>>) -> Seq<Option<JsonValue>> {
    if lines.len() <= SCAN_LINE_LIMIT {
        lines
    } else {
        lines.take(SCAN_LINE_LIMIT as int)
    }
}

/// The title of a session: its generated title, else its first user text
/// as a title, else a placeholder.
pub open spec fn title_of(st: ScanState) -> Seq<char> {
    match st.1 {
        Some(a) => a,
        None => match st.0 {
            Some(u) => clamp_title_s(u),
            None => "<no user message>"@,
        },
    }
}

/// The generated title a line offers: an `ai-title` line's `aiTitle`,
/// trimmed and clamped, when it is not blank.
pub open spec fn ai_title_at(line: Option<JsonValue>) -> Option<Seq<char>> {
    match line {
        Some(v) => if str_field(v, "type"@) == Some("ai-title"@) {
            match str_field(v, "aiTitle"@) {
                Some(x) => if trim_s(x).len() > 0 {
                    Some(clamp_title_s(trim_s(x)))
                } else {
                    None
                },
                None => None,
            }
        } else {
            None
        },
        None => None,
    }
}

/// The text a `user` line offers.
pub open spec fn user_text_at(line: Option<JsonValue>) -> Option<Seq<char>> {
    match line {
        Some(v) => if str_field(v, "type"@) == Some("user"@) {
            user_text_s(v)
        } else {
            None
        },
        None => None,
    }
}

/// The first of `found` that is present.
pub open spec fn first_found(found: Seq<Option<Seq<char>>>) -> Option<Seq<char>>
    decreases found.len(),
{
    if found.len() == 0 {
        None
    } else if found[0] is Some {
        found[0]
    } else {
        first_found(found.drop_first())
    }
}

proof fn lemma_first_found_back(found: Seq<Option<Seq<char>>>)
    requires
        found.len() > 0,
    ensures
        first_found(found) == if first_found(found.drop_last()) is Some {
            first_found(found.drop_last())
        } else {
            found.last()
        },
    decreases found.len(),
{
    if found.len() == 1 {
        assert(found.drop_last().len() == 0);
        assert(first_found(found.drop_last()) is None);
        assert(found.drop_first().len() == 0);
        assert(first_found(found.drop_first()) is None);
        assert(found.last() == found[0]);
    } else if found[0] is Some {
        assert(found.drop_last()[0] == found[0]);
    } else {
        assert(found.drop_last()[0] == found[0]);
        let t = found.drop_first();
        lemma_first_found_back(t);
        assert(t.drop_last() =~= found.drop_last().drop_first());
        assert(t.last() == found.last());
    }
}

/// Reading lines one after another keeps the first offers: the generated
/// title is that of the first `ai-title` line with a non-blank `aiTitle`,
/// and the user text that of the first `user` line that has one, whatever
/// lines come before or after them.
pub proof fn scan_keeps_first_offers(lines: Seq<Option<JsonValue>>)
    ensures
        scan_fold(lines).1 == first_found(lines.map_values(|l: Option<JsonValue>| ai_title_at(l))),
        scan_fold(lines).0 == first_found(
            lines.map_values(|l: Option<JsonValue>| user_text_at(l)),
        ),
    decreases lines.len(),
{
    reveal_strlit("ai-title");
    reveal_strlit("user");
    reveal_strlit("cc-session-fork");
    if lines.len() > 0 {
        let d = lines.drop_last();
        scan_keeps_first_offers(d);
        let a = lines.map_values(|l: Option<JsonValue>| ai_title_at(l));
        let u = lines.map_values(|l: Option<JsonValue>| user_text_at(l));
        assert(a.drop_last() =~= d.map_values(|l: Option<JsonValue>| ai_title_at(l)));
        assert(u.drop_last() =~= d.map_values(|l: Option<JsonValue>| user_text_at(l)));
        lemma_first_found_back(a);
        lemma_first_found_back(u);
        assert(FORK_SENTINEL_TYPE@ == "cc-session-fork"@);
        assert("cc-session-fork"@.len() == 15);
        assert("ai-title"@.len() == 8);
        assert("user"@.len() == 4);
        assert(FORK_SENTINEL_TYPE@ != "ai-title"@);
        assert(FORK_SENTINEL_TYPE@ != "user"@);
        assert("ai-title"@ != "user"@);
    }
}

/// A clamped title is one line without tabs, holds at most
/// `TITLE_LIMIT` characters and an ellipsis, and clamping it again
/// changes nothing.
pub proof fn clamped_title_is_settled(s: Seq<char>)
    ensures
        forall|i: int|
            0 <= i < clamp_title_s(s).len() ==> #[trigger] clamp_title_s(s)[i] != '\n'
                && clamp_title_s(s)[i] != '\r' && clamp_title_s(s)[i] != '\t',
        clamp_title_s(s).len() <= TITLE_LIMIT + 1,
        clamp_title_s(clamp_title_s(s)) == clamp_title_s(s),
{
    let f = flatten_s(s);
    let t = trim_s(f);
    let r = clamp_title_s(s);
    lemma_trim_shape(f);
    let (a, b) = choose|a: int, b: int| 0 <= a <= b <= f.len() && t == f.subrange(a, b);
    assert forall|i: int| 0 <= i < t.len() implies t[i] != '\n' && t[i] != '\r' && t[i] != '\t' by {
        assert(t[i] == f[a + i]);
    }
    assert forall|i: int| 0 <= i < r.len() implies #[trigger] r[i] != '\n' && r[i] != '\r' && r[i]
        != '\t' by {
        if t.len() <= TITLE_LIMIT {
            assert(r[i] == t[i]);
        } else if i < TITLE_LIMIT {
            assert(r[i] == t.take(TITLE_LIMIT as int)[i]);
            assert(r[i] == t[i]);
        } else {
            assert(r[i] == '…');
        }
    }
    assert(flatten_s(r) =~= r);
    if r.len() > 0 {
        assert(r[0] == t[0]);
    }
    lemma_trim_fixed(r);
    if t.len() > TITLE_LIMIT {
        assert(r.take(TITLE_LIMIT as int) =~= t.take(TITLE_LIMIT as int));
    }
}

/// A title for a session file, from its head.
pub fn clamp_title(s: &str) -> (r: String)
    ensures
        r@ == clamp_title_s(s@),
{
    let v = chars_of(s);
    let mut flat: Vec<char> = Vec::new();
    let mut i: usize = 0;
    while i < v.len()
        invariant
            i <= v.len(),
            v@ == s@,
            flat@ == flatten_s(v@.take(i as int)),
        decreases v.len() - i,
    {
        let c = v[i];
        if c == '\n' || c == '\r' || c == '\t' {
            flat.push(' ');
        } else {
            flat.push(c);
        }
        assert(flat@ =~= flatten_s(v@.take(i + 1)));
        i = i + 1;
    }
    assert(v@.take(v.len() as int) =~= v@);
    let (lo, hi) = trim_bounds(&flat);
    if hi - lo <= TITLE_LIMIT {
        string_of(&flat, lo, hi)
    } else {
        let mut out = string_of(&flat, lo, lo + TITLE_LIMIT);
        push_char(&mut out, '…');
        assert(flat@.subrange(lo as int, hi as int).take(TITLE_LIMIT as int) =~= flat@.subrange(
            lo as int,
            lo + TITLE_LIMIT,
        ));
        out
    }
}

/// The text of a `user` line.
fn user_text(v: &JsonValue) -> (r: Option<String>)
    ensures
        opt_view(r) == user_text_s(*v),
{
    let content = match get(v, "message") {
        Some(m) => get(m, "content"),
        None => None,
    };
    match content {
        Some(JsonValue::Str(s)) => Some(s.clone()),
        Some(JsonValue::Array(blocks)) => {
            let parts = text_parts(blocks);
            proof {
                reveal_strlit(" ");
                assert(" "@ =~= seq![' ']);
            }
            Some(join(&parts, " "))
        },
        _ => None,
    }
}

fn clone_opt(o: &Option<String>) -> (r: Option<String>)
    ensures
        opt_view(r) == opt_view(*o),
{
    match o {
        Some(s) => Some(s.clone()),
        None => None,
    }
}

impl ScannedMeta {
    /// What a file that cannot be opened is listed as.
    pub fn unreadable() -> (r: ScannedMeta)
        ensures
            r.title@ == "<unreadable>"@,
            !r.is_fork,
            r.fork_origin is None,
    {
        ScannedMeta { title: "<unreadable>".to_owned(), is_fork: false, fork_origin: None }
    }

    /// The title a session is listed with: prefixed by `[edited] ` for a
    /// fork.
    pub fn display_title(&self) -> (r: String)
        ensures
            r@ == if self.is_fork {
                "[edited] "@ + self.title@
            } else {
                self.title@
            },
    {
        if self.is_fork {
            let mut t = "[edited] ".to_owned();
            t.append(self.title.as_str());
            t
        } else {
            self.title.clone()
        }
    }
}

/// What a line reads as: `None` when it is empty, else its JSON value.
pub open spec fn line_json(l: Seq<char>) -> Option<JsonValue> {
    if l.len() == 0 {
        None
    } else {
        json_parsed(l)
    }
}

/// Titles a session file from its lines (an unreadable line given as an
/// empty one): the first `SCAN_LINE_LIMIT` lines are read as JSON and
/// folded as `scan_meta` does.
pub fn scan_lines(lines: &Vec<String>) -> (r: ScannedMeta)
    ensures
        ({
            let st = scan_fold(
                scanned_lines(lines@.map_values(|l: String| line_json(l@))),
            );
            &&& r.title@ == title_of(st)
            &&& r.is_fork == st.2
            &&& opt_view(r.fork_origin) == st.3
        }),
{
    let ghost all = lines@.map_values(|l: String| line_json(l@));
    let n: usize = if lines.len() <= SCAN_LINE_LIMIT {
        lines.len()
    } else {
        SCAN_LINE_LIMIT
    };
    let mut parsed: Vec<Option<JsonValue>> = Vec::new();
    let mut i: usize = 0;
    while i < n
        invariant
            i <= n <= lines.len(),
            n <= SCAN_LINE_LIMIT,
            all == lines@.map_values(|l: String| line_json(l@)),
            parsed@ == all.take(i as int),
        decreases n - i,
    {
        let line = &lines[i];
        let v = if line.as_str().is_empty() {
            None
        } else {
            parse_json(line.as_str())
        };
        parsed.push(v);
        assert(parsed@ =~= all.take(i + 1));
        i = i + 1;
    }
    assert(scanned_lines(parsed@) =~= scanned_lines(all));
    scan_meta(&parsed)
}

/// Titles a session file from its first lines, each given as its JSON
/// value (`None` for a line that is empty, unreadable or not JSON). Only
/// the first `SCAN_LINE_LIMIT` lines are read.
pub fn scan_meta(lines: &Vec<Option<JsonValue>>) -> (r: ScannedMeta)
    ensures
        ({
            let st = scan_fold(scanned_lines(lines@));
            &&& r.title@ == title_of(st)
            &&& r.is_fork == st.2
            &&& opt_view(r.fork_origin) == st.3
        }),
{
    let n: usize = if lines.len() <= SCAN_LINE_LIMIT {
        lines.len()
    } else {
        SCAN_LINE_LIMIT
    };
    let ghost ls = scanned_lines(lines@);
    assert(ls =~= lines@.take(n as int));
    let mut first_user: Option<String> = None;
    let mut ai_title: Option<String> = None;
    let mut is_fork = false;
    let mut origin: Option<String> = None;
    let mut i: usize = 0;
    while i < n
        invariant
            i <= n <= lines.len(),
            ls == lines@.take(n as int),
            (opt_view(first_user), opt_view(ai_title), is_fork, opt_view(origin)) == scan_fold(
                lines@.take(i as int),
            ),
        decreases n - i,
    {
        proof {
            let t = lines@.take(i + 1);
            assert(t.drop_last() =~= lines@.take(i as int));
            assert(t.last() == lines@[i as int]);
        }
        match &lines[i] {
            None => {},
            Some(v) => {
                let t = get_str(v, "type");
                let is_sentinel = match t {
                    Some(x) => str_eq(x.as_str(), FORK_SENTINEL_TYPE),
                    None => false,
                };
                let is_ai = match t {
                    Some(x) => str_eq(x.as_str(), "ai-title"),
                    None => false,
                };
                let is_user = match t {
                    Some(x) => str_eq(x.as_str(), "user"),
                    None => false,
                };
                if is_sentinel {
                    is_fork = true;
                    match get_str(v, "origin") {
                        Some(o) => {
                            if !o.as_str().is_empty() {
                                origin = Some(o.clone());
                            }
                        },
                        None => {},
                    }
                } else if ai_title.is_none() && is_ai {
                    match get_str(v, "aiTitle") {
                        Some(x) => {
                            let tt = trim(x.as_str());
                            if !tt.as_str().is_empty() {
                                ai_title = Some(clamp_title(tt.as_str()));
                            }
                        },
                        None => {},
                    }
                } else if first_user.is_none() && is_user {
                    match user_text(v) {
                        Some(text) => {
                            first_user = Some(text);
                        },
                        None => {},
                    }
                }
            },
        }
        i = i + 1;
    }
    let title = match ai_title {
        Some(a) => a,
        None => match first_user {
            Some(u) => clamp_title(u.as_str()),
            None => "<no user message>".to_owned(),
        },
    };
    ScannedMeta { title, is_fork, fork_origin: origin }
}

/// Modification times of the entries.
pub open spec fn mtimes(entries: Seq<SessionEntry>) -> Seq<u128> {
    entries.map_values(|e: SessionEntry| e.mtime)
}

/// The entries, most recently modified first; entries modified at the
/// same time keep their order.
pub fn sort_by_mtime_desc(entries: Vec<SessionEntry>) -> (r: Vec<SessionEntry>)
    ensures
        r@ == desc_order(mtimes(entries@), entries@.len() as int).map_values(
            |i: usize| entries@[i as int],
        ),
{
    let mut keys: Vec<u128> = Vec::new();
    let mut i: usize = 0;
    while i < entries.len()
        invariant
            i <= entries.len(),
            keys@ == mtimes(entries@).take(i as int),
        decreases entries.len() - i,
    {
        keys.push(entries[i].mtime);
        assert(keys@ =~= mtimes(entries@).take(i + 1));
        i = i + 1;
    }
    assert(keys@ =~= mtimes(entries@));
    let order = order_desc(&keys);
    proof {
        desc_order_sorted_permutation(keys@, keys.len() as int);
    }
    permute(entries, &order)
}

} // verus!
