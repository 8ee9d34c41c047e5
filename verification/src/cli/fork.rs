//! Forking a session: the new file is a sentinel line naming the origin,
//! then the rendered records with every top-level string `sessionId`
//! rewritten to the new session's id.

use vstd::prelude::*;
use vstd::string::StringExecFns;
use std::path::PathBuf;
use std::collections::HashSet;
use crate::json::{
    members_text,    hex_digit,
    json_parsed, json_quoted, json_string, json_text, member, member_text, object_of, object_text,
    json_escaped, json_escaped_char, parse_json, quote_json, str_field, JsonValue,
};
use crate::session::{lines_from, lines_s, relinked_count, rendered_file, strip_cr, Session, SessionError};
use crate::scan::{scan_fold, scanned_lines, FORK_SENTINEL_TYPE, SCAN_LINE_LIMIT};
use crate::text::{char_count, chars_of, copy_str, join_s, str_eq, string_of};

verus! {

/// What a fork produced.
#[derive(Debug)]
pub struct ForkOutcome {
    pub new_session_id: String,
    pub new_path: PathBuf,
    pub origin_session_id: String,
    /// How many records were re-linked to a surviving ancestor.
    pub relinked: usize,
}

/// The sentinel that opens a fork: an object with the program version,
/// the time of the fork, the origin session id and the sentinel type, in
/// key order.
pub open spec fn sentinel_text(origin: Seq<char>, forked_at: Seq<char>, version: Seq<char>) -> Seq<
    char,
> {
    object_text(
        seq![
            member_text("cc_session_version"@, json_quoted(version)),
            member_text("forked_at"@, json_quoted(forked_at)),
            member_text("origin"@, json_quoted(origin)),
            member_text("type"@, json_quoted(FORK_SENTINEL_TYPE@)),
        ],
    )
}

/// The sentinel line (without its newline).
pub fn sentinel_line(origin: &str, forked_at: &str, version: &str) -> (r: String)
    ensures
        r@ == sentinel_text(origin@, forked_at@, version@),
{
    let mut members: Vec<String> = Vec::new();
    let v = quote_json(version);
    members.push(member("cc_session_version", v.as_str()));
    let f = quote_json(forked_at);
    members.push(member("forked_at", f.as_str()));
    let o = quote_json(origin);
    members.push(member("origin", o.as_str()));
    let t = quote_json(FORK_SENTINEL_TYPE);
    members.push(member("type", t.as_str()));
    let r = object_of(&members);
    assert(members@.map_values(|p: String| p@) =~= seq![
        member_text("cc_session_version"@, json_quoted(version@)),
        member_text("forked_at"@, json_quoted(forked_at@)),
        member_text("origin"@, json_quoted(origin@)),
        member_text("type"@, json_quoted(FORK_SENTINEL_TYPE@)),
    ]);
    r
}

/// The pieces joined back together.
pub open spec fn concat_s(ps: Seq<Seq<char>>) -> Seq<char>
    decreases ps.len(),
{
    if ps.len() == 0 {
        Seq::empty()
    } else {
        concat_s(ps.drop_last()) + ps.last()
    }
}

/// `ps` cuts `s` after each newline: the pieces join back to `s`, none is
/// empty, a newline only ends a piece, and every piece but the last ends
/// with one.
pub open spec fn newline_pieces(s: Seq<char>, ps: Seq<Seq<char>>) -> bool {
    &&& concat_s(ps) == s
    &&& forall|k: int| 0 <= k < ps.len() ==> #[trigger] ps[k].len() > 0
    &&& forall|k: int, j: int|
        0 <= k < ps.len() && 0 <= j < ps[k].len() - 1 ==> #[trigger] ps[k][j] != '\n'
    &&& forall|k: int| 0 <= k < ps.len() - 1 ==> #[trigger] ps[k].last() == '\n'
}

proof fn lemma_last_piece(ps: Seq<Seq<char>>, s: Seq<char>)
    requires
        concat_s(ps) == s,
        ps.len() > 0,
        ps.last().len() > 0,
    ensures
        ps.last().last() == s.last(),
{
    let b = ps.last();
    assert(s == concat_s(ps.drop_last()) + b);
    assert(s[s.len() - 1] == b[b.len() - 1]);
}

/// Cuts `s` after each newline, as `str::split_inclusive('\n')` does.
pub fn split_inclusive_newline(s: &str) -> (r: Vec<String>)
    ensures
        newline_pieces(s@, r@.map_values(|p: String| p@)),
{
    let v = chars_of(s);
    let mut out: Vec<String> = Vec::new();
    let mut start: usize = 0;
    let mut i: usize = 0;
    assert(v@.take(0) =~= Seq::<char>::empty());
    assert(out@.map_values(|p: String| p@) =~= Seq::<Seq<char>>::empty());
    while i < v.len()
        invariant
            start <= i <= v.len(),
            v@ == s@,
            newline_pieces(v@.take(start as int), out@.map_values(|p: String| p@)),
            start > 0 ==> v@[start - 1] == '\n',
            start == 0 ==> out.len() == 0,
            forall|j: int| start <= j < i ==> v@[j] != '\n',
        decreases v.len() - i,
    {
        if v[i] == '\n' {
            let piece = string_of(&v, start, i + 1);
            let ghost before = out@.map_values(|p: String| p@);
            out.push(piece);
            proof {
                let ps = out@.map_values(|p: String| p@);
                assert(ps =~= before.push(v@.subrange(start as int, i + 1)));
                assert(ps.drop_last() =~= before);
                assert(v@.take(i + 1) =~= v@.take(start as int) + v@.subrange(start as int, i + 1));
                assert forall|k: int, j: int|
                    0 <= k < ps.len() && 0 <= j < ps[k].len() - 1 implies #[trigger] ps[k][j] != '\n' by {
                    if k < before.len() {
                        assert(ps[k] == before[k]);
                    } else {
                        assert(ps[k][j] == v@[start + j]);
                    }
                }
                assert forall|k: int| 0 <= k < ps.len() - 1 implies #[trigger] ps[k].last() == '\n' by {
                    assert(ps[k] == before[k]);
                    if k == before.len() - 1 {
                        lemma_last_piece(before, v@.take(start as int));
                    }
                }
            }
            start = i + 1;
        }
        i = i + 1;
    }
    if start < v.len() {
        let piece = string_of(&v, start, v.len());
        let ghost before = out@.map_values(|p: String| p@);
        out.push(piece);
        proof {
            let ps = out@.map_values(|p: String| p@);
            assert(ps =~= before.push(v@.subrange(start as int, v.len() as int)));
            assert(ps.drop_last() =~= before);
            assert(v@ =~= v@.take(start as int) + v@.subrange(start as int, v.len() as int));
            assert forall|k: int, j: int|
                0 <= k < ps.len() && 0 <= j < ps[k].len() - 1 implies #[trigger] ps[k][j] != '\n' by {
                if k < before.len() {
                    assert(ps[k] == before[k]);
                } else {
                    assert(ps[k][j] == v@[start + j]);
                }
            }
            assert forall|k: int| 0 <= k < ps.len() - 1 implies #[trigger] ps[k].last() == '\n' by {
                assert(ps[k] == before[k]);
                if k == before.len() - 1 {
                    lemma_last_piece(before, v@.take(start as int));
                }
            }
        }
    } else {
        assert(v@.take(start as int) =~= v@);
    }
    out
}

/// A piece without its final newline: the text that is read as JSON.
pub open spec fn piece_body_s(p: Seq<char>) -> Seq<char> {
    if p.len() > 0 && p.last() == '\n' {
        p.drop_last()
    } else {
        p
    }
}

/// A piece without its final newline.
pub fn piece_body(p: &str) -> (r: String)
    ensures
        r@ == piece_body_s(p@),
{
    let v = chars_of(p);
    if v.len() > 0 && v[v.len() - 1] == '\n' {
        string_of(&v, 0, v.len() - 1)
    } else {
        string_of(&v, 0, v.len())
    }
}

/// The member written for field `f`: a string `sessionId` gets the new
/// id; every other member is written as it is.
pub open spec fn fork_member(f: (String, JsonValue), new_id: Seq<char>) -> Seq<char> {
    if f.0@ == "sessionId"@ && f.1 is Str {
        member_text(f.0@, json_quoted(new_id))
    } else {
        member_text(f.0@, json_text(f.1))
    }
}

/// The text written for a parsed record: an object with its string
/// `sessionId` set to the new id; any other value as it is.
pub open spec fn forked_json(v: JsonValue, new_id: Seq<char>) -> Seq<char> {
    match v {
        JsonValue::Object(fields) => object_text(
            fields@.map_values(|f: (String, JsonValue)| fork_member(f, new_id)),
        ),
        _ => json_text(v),
    }
}

/// The record is an object with a top-level string `sessionId`.
pub open spec fn has_session_id(v: JsonValue) -> bool {
    match v {
        JsonValue::Object(fields) => exists|i: int|
            0 <= i < fields@.len() && #[trigger] fields@[i].0@ == "sessionId"@ && fields@[i].1 is Str,
        _ => false,
    }
}

/// The text written for piece `p`, read as `parsed`: a piece whose record
/// has a top-level string `sessionId` is written afresh with the new id
/// and keeps its newline; every other piece (blank, not JSON, or without
/// such a `sessionId`) is copied as it is.
pub open spec fn forked_piece(p: Seq<char>, parsed: Option<JsonValue>, new_id: Seq<char>) -> Seq<
    char,
> {
    if piece_body_s(p).len() == 0 {
        p
    } else {
        match parsed {
            Some(v) => if has_session_id(v) {
                forked_json(v, new_id) + if p.len() > 0 && p.last() == '\n' {
                    seq!['\n']
                } else {
                    Seq::empty()
                }
            } else {
                p
            },
            None => p,
        }
    }
}

/// Whether the record has a top-level string `sessionId`.
fn session_id_member(v: &JsonValue) -> (r: bool)
    ensures
        r == has_session_id(*v),
{
    match v {
        JsonValue::Object(fields) => {
            let mut i: usize = 0;
            while i < fields.len()
                invariant
                    i <= fields.len(),
                    *v == JsonValue::Object(*fields),
                    forall|j: int| 0 <= j < i ==> !(#[trigger] fields@[j].0@ == "sessionId"@
                        && fields@[j].1 is Str),
                decreases fields.len() - i,
            {
                let is_str = match &fields[i].1 {
                    JsonValue::Str(_) => true,
                    _ => false,
                };
                if is_str && str_eq(fields[i].0.as_str(), "sessionId") {
                    return true;
                }
                i = i + 1;
            }
            false
        },
        _ => false,
    }
}

/// The first `k` pieces, as the fork writes them.
pub open spec fn forked_pieces(
    ps: Seq<Seq<char>>,
    parsed: Seq<Option<JsonValue>>,
    new_id: Seq<char>,
    k: int,
) -> Seq<char>
    decreases k,
{
    if k <= 0 {
        Seq::empty()
    } else {
        forked_pieces(ps, parsed, new_id, k - 1) + forked_piece(ps[k - 1], parsed[k - 1], new_id)
    }
}

/// Writes a parsed record with its string `sessionId` set to `new_id`.
pub fn fork_json(v: &JsonValue, new_id: &str) -> (r: String)
    ensures
        r@ == forked_json(*v, new_id@),
{
    match v {
        JsonValue::Object(fields) => {
            let mut members: Vec<String> = Vec::new();
            let mut i: usize = 0;
            while i < fields.len()
                invariant
                    i <= fields.len(),
                    members@.map_values(|p: String| p@) == fields@.take(i as int).map_values(
                        |f: (String, JsonValue)| fork_member(f, new_id@),
                    ),
                decreases fields.len() - i,
            {
                let key = &fields[i].0;
                let value_text = match &fields[i].1 {
                    JsonValue::Str(_) => {
                        if str_eq(key.as_str(), "sessionId") {
                            quote_json(new_id)
                        } else {
                            json_string(&fields[i].1)
                        }
                    },
                    _ => json_string(&fields[i].1),
                };
                let m = member(key.as_str(), value_text.as_str());
                let ghost before = members@.map_values(|p: String| p@);
                members.push(m);
                assert(members@.map_values(|p: String| p@) =~= before.push(m@));
                assert(fields@.take(i + 1) =~= fields@.take(i as int).push(fields@[i as int]));
                assert(members@.map_values(|p: String| p@) =~= fields@.take(i + 1).map_values(
                    |f: (String, JsonValue)| fork_member(f, new_id@),
                ));
                i = i + 1;
            }
            assert(fields@.take(fields.len() as int) =~= fields@);
            object_of(&members)
        },
        _ => json_string(v),
    }
}

/// The fork's contents: the sentinel line, then each piece of the
/// rendered session as `forked_piece` writes it, where `parsed[k]` is what
/// the body of piece `k` reads as in JSON (`None` where it is not JSON).
pub fn fork_document(
    sentinel: &str,
    pieces: &Vec<String>,
    parsed: &Vec<Option<JsonValue>>,
    new_id: &str,
) -> (r: String)
    requires
        pieces.len() == parsed.len(),
    ensures
        r@ == sentinel@ + seq!['\n'] + forked_pieces(
            pieces@.map_values(|p: String| p@),
            parsed@,
            new_id@,
            pieces.len() as int,
        ),
{
    let ghost ps = pieces@.map_values(|p: String| p@);
    let mut out = copy_str(sentinel);
    proof {
        reveal_strlit("\n");
    }
    out.append("\n");
    let ghost head = out@;
    let mut k: usize = 0;
    while k < pieces.len()
        invariant
            k <= pieces.len(),
            pieces.len() == parsed.len(),
            ps == pieces@.map_values(|p: String| p@),
            head == sentinel@ + seq!['\n'],
            out@ == head + forked_pieces(ps, parsed@, new_id@, k as int),
        decreases pieces.len() - k,
    {
        let p = &pieces[k];
        let body = piece_body(p.as_str());
        let ghost before = out@;
        if char_count(body.as_str()) == 0 {
            out.append(p.as_str());
        } else {
            match &parsed[k] {
                None => out.append(p.as_str()),
                Some(v) => if !session_id_member(v) {
                    out.append(p.as_str());
                } else {
                    let t = fork_json(v, new_id);
                    out.append(t.as_str());
                    let pv = chars_of(p.as_str());
                    if pv.len() > 0 && pv[pv.len() - 1] == '\n' {
                        out.append("\n");
                    }
                },
            }
        }
        assert(out@ =~= before + forked_piece(ps[k as int], parsed@[k as int], new_id@));
        k = k + 1;
    }
    out
}

/// What piece `p` of a rendered session reads as: `None` when its body
/// is blank, else the JSON value of its body.
pub open spec fn piece_json(p: Seq<char>) -> Option<JsonValue> {
    if piece_body_s(p).len() == 0 {
        None
    } else {
        json_parsed(piece_body_s(p))
    }
}

/// The contents of a fork of `session` without the records in `omit`:
/// the sentinel line (naming `origin`, the time `forked_at` and the
/// program `version`), then the rendered session cut after each newline,
/// each piece written as `forked_piece` says with `new_id`. Also returns
/// how many records were re-linked.
pub fn fork_text(
    session: &Session,
    omit: &HashSet<usize>,
    origin: &str,
    new_id: &str,
    forked_at: &str,
    version: &str,
) -> (r: Result<(String, usize), SessionError>)
    ensures
        r matches Ok((text, n)) && n == relinked_count(
            session.messages@,
            omit@,
            session.messages.len() as int,
        ) && exists|ps: Seq<Seq<char>>|
            #![trigger newline_pieces(rendered_file(session.messages@, omit@, session.trailing_newline), ps)]
            newline_pieces(rendered_file(session.messages@, omit@, session.trailing_newline), ps)
                && text@ == sentinel_text(origin@, forked_at@, version@) + seq!['\n']
                + forked_pieces(ps, ps.map_values(|p: Seq<char>| piece_json(p)), new_id@, ps.len() as int),
{
    let (rendered, relinked) = match session.render_with_relink(omit) {
        Ok(x) => x,
        Err(e) => {
            return Err(e);
        },
    };
    let pieces = split_inclusive_newline(rendered.as_str());
    let ghost ps = pieces@.map_values(|p: String| p@);
    let mut parsed: Vec<Option<JsonValue>> = Vec::new();
    let mut k: usize = 0;
    while k < pieces.len()
        invariant
            k <= pieces.len(),
            ps == pieces@.map_values(|p: String| p@),
            parsed@ == ps.take(k as int).map_values(|p: Seq<char>| piece_json(p)),
        decreases pieces.len() - k,
    {
        let body = piece_body(pieces[k].as_str());
        let v = if body.as_str().is_empty() {
            None
        } else {
            parse_json(body.as_str())
        };
        parsed.push(v);
        assert(ps.take(k + 1) =~= ps.take(k as int).push(ps[k as int]));
        assert(parsed@ =~= ps.take(k + 1).map_values(|p: Seq<char>| piece_json(p)));
        k = k + 1;
    }
    assert(ps.take(pieces.len() as int) =~= ps);
    let sentinel = sentinel_line(origin, forked_at, version);
    let text = fork_document(sentinel.as_str(), &pieces, &parsed, new_id);
    Ok((text, relinked))
}

/// `with_extension_appended`: the path with `.` and `suffix` added to its
/// last component.
pub fn with_extension_appended(path: &str, suffix: &str) -> (r: String)
    ensures
        r@ == path@ + seq!['.'] + suffix@,
{
    proof {
        reveal_strlit(".");
    }
    let mut s = copy_str(path);
    s.append(".");
    s.append(suffix);
    s
}

/// A fork copies a line whose record has no top-level string
/// `sessionId` exactly as it was.
pub proof fn fork_keeps_lines_without_session_id(p: Seq<char>, v: JsonValue, new_id: Seq<char>)
    requires
        !has_session_id(v),
    ensures
        forked_piece(p, Some(v), new_id) == p,
{
}

/// The text holds no newline.
pub open spec fn one_line(s: Seq<char>) -> bool {
    forall|i: int| 0 <= i < s.len() ==> s[i] != '\n'
}

proof fn lemma_escaped_one_line(s: Seq<char>)
    ensures
        one_line(json_escaped(s)),
    decreases s.len(),
{
    if s.len() > 0 {
        lemma_escaped_one_line(s.drop_last());
        let a = json_escaped(s.drop_last());
        let b = json_escaped_char(s.last());
        let c = s.last();
        let n = c as int;
        if !(c == '"' || c == '\\' || n == 8 || n == 9 || n == 10 || n == 12 || n == 13) && n < 32 {
            let h = hex_digit(n / 16);
            let l = hex_digit(n % 16);
            assert(b == seq!['\\', 'u', '0', '0', h, l]);
            assert(h != '\n' && l != '\n');
        }
        assert(one_line(b));
        assert forall|i: int| 0 <= i < (a + b).len() implies (a + b)[i] != '\n' by {
            if i < a.len() {
                assert((a + b)[i] == a[i]);
            } else {
                assert((a + b)[i] == b[i - a.len()]);
            }
        }
    }
}

proof fn lemma_cat_one_line(a: Seq<char>, b: Seq<char>)
    requires
        one_line(a),
        one_line(b),
    ensures
        one_line(a + b),
{
    assert forall|i: int| 0 <= i < (a + b).len() implies (a + b)[i] != '\n' by {
        if i < a.len() {
            assert((a + b)[i] == a[i]);
        } else {
            assert((a + b)[i] == b[i - a.len()]);
        }
    }
}

proof fn lemma_member_one_line(k: Seq<char>, v: Seq<char>)
    ensures
        one_line(member_text(k, json_quoted(v))),
{
    lemma_escaped_one_line(k);
    lemma_escaped_one_line(v);
    lemma_cat_one_line(seq!['"'], json_escaped(k));
    lemma_cat_one_line(seq!['"'] + json_escaped(k), seq!['"']);
    lemma_cat_one_line(seq!['"'], json_escaped(v));
    lemma_cat_one_line(seq!['"'] + json_escaped(v), seq!['"']);
    lemma_cat_one_line(json_quoted(k), seq![':']);
    lemma_cat_one_line(json_quoted(k) + seq![':'], json_quoted(v));
}

proof fn lemma_join_one_line(parts: Seq<Seq<char>>)
    requires
        forall|i: int| 0 <= i < parts.len() ==> one_line(#[trigger] parts[i]),
    ensures
        one_line(join_s(parts, seq![','])),
    decreases parts.len(),
{
    if parts.len() > 1 {
        lemma_join_one_line(parts.drop_last());
        assert(one_line(parts.last()));
        lemma_cat_one_line(join_s(parts.drop_last(), seq![',']), seq![',']);
        lemma_cat_one_line(join_s(parts.drop_last(), seq![',']) + seq![','], parts.last());
    } else if parts.len() == 1 {
        assert(one_line(parts[0]));
    }
}

proof fn lemma_sentinel_one_line(origin: Seq<char>, forked_at: Seq<char>, version: Seq<char>)
    ensures
        one_line(sentinel_text(origin, forked_at, version)),
        sentinel_text(origin, forked_at, version).last() == '}',
{
    let ms = seq![
        member_text("cc_session_version"@, json_quoted(version)),
        member_text("forked_at"@, json_quoted(forked_at)),
        member_text("origin"@, json_quoted(origin)),
        member_text("type"@, json_quoted(FORK_SENTINEL_TYPE@)),
    ];
    lemma_member_one_line("cc_session_version"@, version);
    lemma_member_one_line("forked_at"@, forked_at);
    lemma_member_one_line("origin"@, origin);
    lemma_member_one_line("type"@, FORK_SENTINEL_TYPE@);
    lemma_join_one_line(ms);
    lemma_cat_one_line(seq!['{'], join_s(ms, seq![',']));
    lemma_cat_one_line(seq!['{'] + join_s(ms, seq![',']), seq!['}']);
}

proof fn lemma_first_line(x: Seq<char>, body: Seq<char>, cur: Seq<char>)
    requires
        one_line(x),
    ensures
        lines_from(x + seq!['\n'] + body, cur) == seq![strip_cr(cur + x)] + lines_from(
            body,
            Seq::empty(),
        ),
    decreases x.len(),
{
    let s = x + seq!['\n'] + body;
    if x.len() == 0 {
        assert(s[0] == '\n');
        assert(s.drop_first() =~= body);
        assert(cur + x =~= cur);
    } else {
        assert(s[0] == x[0]);
        assert(s.drop_first() =~= x.drop_first() + seq!['\n'] + body);
        assert(one_line(x.drop_first()));
        lemma_first_line(x.drop_first(), body, cur.push(x[0]));
        assert(cur.push(x[0]) + x.drop_first() =~= cur + x);
    }
}

/// A line that marks a fork and names an origin.
pub open spec fn names_fork_origin(line: Option<JsonValue>) -> bool {
    match line {
        Some(v) => str_field(v, "type"@) == Some(FORK_SENTINEL_TYPE@) && match str_field(
            v,
            "origin"@,
        ) {
            Some(o) => o.len() > 0,
            None => false,
        },
        None => false,
    }
}

proof fn lemma_marked_from_first(lines: Seq<Option<JsonValue>>, origin: Seq<char>, k: int)
    requires
        1 <= k <= lines.len(),
        lines[0] matches Some(v) && (str_field(v, "type"@) == Some(FORK_SENTINEL_TYPE@)
            && str_field(v, "origin"@) == Some(origin)),
        origin.len() > 0,
        forall|j: int| 1 <= j < lines.len() ==> !names_fork_origin(#[trigger] lines[j]),
    ensures
        scan_fold(lines.take(k)).2,
        scan_fold(lines.take(k)).3 == Some(origin),
    decreases k,
{
    let t = lines.take(k);
    if k == 1 {
        assert(t.drop_last() =~= Seq::<Option<JsonValue>>::empty());
    } else {
        lemma_marked_from_first(lines, origin, k - 1);
        assert(t.drop_last() =~= lines.take(k - 1));
        assert(!names_fork_origin(lines[k - 1]));
    }
}

/// A fork is listed as one. The sentinel that `fork_text` writes is the
/// whole first line of the fork; when that line reads as an object of the
/// fork type naming `origin`, scanning the fork's lines marks it as a fork
/// from `origin`, unless a later line marks a fork from another origin.
pub proof fn fork_is_listed_as_fork(
    origin: Seq<char>,
    forked_at: Seq<char>,
    version: Seq<char>,
    body: Seq<char>,
    first: JsonValue,
    rest: Seq<Option<JsonValue>>,
)
    requires
        origin.len() > 0,
        str_field(first, "type"@) == Some(FORK_SENTINEL_TYPE@),
        str_field(first, "origin"@) == Some(origin),
        forall|j: int| 0 <= j < rest.len() ==> !names_fork_origin(#[trigger] rest[j]),
    ensures
        lines_s(sentinel_text(origin, forked_at, version) + seq!['\n'] + body)[0] == sentinel_text(
            origin,
            forked_at,
            version,
        ),
        scan_fold(scanned_lines(seq![Some(first)] + rest)).2,
        scan_fold(scanned_lines(seq![Some(first)] + rest)).3 == Some(origin),
{
    let x = sentinel_text(origin, forked_at, version);
    lemma_sentinel_one_line(origin, forked_at, version);
    lemma_first_line(x, body, Seq::empty());
    assert(Seq::<char>::empty() + x =~= x);
    let lines = seq![Some(first)] + rest;
    assert forall|j: int| 1 <= j < lines.len() implies !names_fork_origin(#[trigger] lines[j]) by {
        assert(lines[j] == rest[j - 1]);
    }
    if lines.len() <= SCAN_LINE_LIMIT {
        lemma_marked_from_first(lines, origin, lines.len() as int);
        assert(lines.take(lines.len() as int) =~= lines);
    } else {
        lemma_marked_from_first(lines, origin, SCAN_LINE_LIMIT as int);
    }
}

/// Each piece of a fork is written by itself, whatever pieces come
/// before it: writing the first `n` pieces is writing the first `k`, then
/// the rest as a fork of their own. So every piece whose record has a
/// string `sessionId` gets the new id, not only the first such piece.
pub proof fn fork_writes_each_piece_alone(
    ps: Seq<Seq<char>>,
    parsed: Seq<Option<JsonValue>>,
    new_id: Seq<char>,
    k: int,
    n: int,
)
    requires
        0 <= k <= n <= ps.len(),
        ps.len() == parsed.len(),
    ensures
        forked_pieces(ps, parsed, new_id, n) == forked_pieces(ps, parsed, new_id, k)
            + forked_pieces(ps.skip(k), parsed.skip(k), new_id, n - k),
        n > 0 ==> forked_pieces(ps.skip(n - 1), parsed.skip(n - 1), new_id, 1) == forked_piece(
            ps[n - 1],
            parsed[n - 1],
            new_id,
        ),
    decreases n - k,
{
    if n > 0 {
        let a = ps.skip(n - 1);
        let b = parsed.skip(n - 1);
        assert(a[0] == ps[n - 1]);
        assert(b[0] == parsed[n - 1]);
        assert(forked_pieces(a, b, new_id, 0) == Seq::<char>::empty());
        assert(forked_pieces(a, b, new_id, 1) =~= forked_piece(ps[n - 1], parsed[n - 1], new_id));
    }
    if n == k {
        assert(forked_pieces(ps.skip(k), parsed.skip(k), new_id, 0) == Seq::<char>::empty());
        assert(forked_pieces(ps, parsed, new_id, k) + Seq::<char>::empty() =~= forked_pieces(
            ps,
            parsed,
            new_id,
            k,
        ));
    } else {
        fork_writes_each_piece_alone(ps, parsed, new_id, k, n - 1);
        let a = ps.skip(k);
        let b = parsed.skip(k);
        assert(a[n - 1 - k] == ps[n - 1]);
        assert(b[n - 1 - k] == parsed[n - 1]);
        let x = forked_pieces(ps, parsed, new_id, k);
        let y = forked_pieces(a, b, new_id, n - 1 - k);
        let z = forked_piece(ps[n - 1], parsed[n - 1], new_id);
        assert(forked_pieces(a, b, new_id, n - k) == y + z);
        assert(x + y + z =~= x + (y + z));
    }
}

proof fn lemma_members_joined(fields: Seq<(String, JsonValue)>)
    ensures
        members_text(fields) == join_s(
            fields.map_values(|f: (String, JsonValue)| member_text(f.0@, json_text(f.1))),
            seq![','],
        ),
    decreases fields.len(),
{
    let ms = fields.map_values(|f: (String, JsonValue)| member_text(f.0@, json_text(f.1)));
    if fields.len() > 1 {
        lemma_members_joined(fields.drop_last());
        assert(ms.drop_last() =~= fields.drop_last().map_values(
            |f: (String, JsonValue)| member_text(f.0@, json_text(f.1)),
        ));
        assert(ms.last() == member_text(fields.last().0@, json_text(fields.last().1)));
    } else if fields.len() == 1 {
        assert(ms[0] == member_text(fields[0].0@, json_text(fields[0].1)));
    }
}

/// A forked record is written exactly as the plain JSON writer writes the
/// same record with its string `sessionId` set to the new id: `w` is `v`
/// with every top-level string `sessionId` holding `new_id`, and nothing
/// else changed. A piece `p` holding such a record is written as that
/// text, with its newline kept.
pub proof fn fork_sets_session_id(v: JsonValue, w: JsonValue, new_id: Seq<char>, p: Seq<char>)
    requires
        v is Object,
        w is Object,
        w->Object_0@.len() == v->Object_0@.len(),
        forall|i: int|
            0 <= i < v->Object_0@.len() ==> (#[trigger] w->Object_0@[i]).0@ == v->Object_0@[i].0@
                && if v->Object_0@[i].0@ == "sessionId"@ && v->Object_0@[i].1 is Str {
                w->Object_0@[i].1 matches JsonValue::Str(s) && s@ == new_id
            } else {
                w->Object_0@[i].1 == v->Object_0@[i].1
            },
    ensures
        forked_json(v, new_id) == json_text(w),
        piece_body_s(p).len() > 0 && has_session_id(v) ==> forked_piece(p, Some(v), new_id)
            == json_text(w) + if p.len() > 0 && p.last() == '\n' {
            seq!['\n']
        } else {
            Seq::empty()
        },
{
    let vf = v->Object_0@;
    let wf = w->Object_0@;
    lemma_members_joined(wf);
    let a = vf.map_values(|f: (String, JsonValue)| fork_member(f, new_id));
    let b = wf.map_values(|f: (String, JsonValue)| member_text(f.0@, json_text(f.1)));
    assert forall|i: int| 0 <= i < a.len() implies a[i] == b[i] by {
        assert(wf[i].0@ == vf[i].0@);
    }
    assert(a =~= b);
}

} // verus!
