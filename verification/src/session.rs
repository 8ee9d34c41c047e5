//! The session transcript: one JSON record per line. Records are kept
//! with the exact line they were read from, so that untouched records are
//! written back byte for byte; a record whose `parentUuid` must change is
//! written out afresh from its fields.

use std::collections::HashSet;
use std::path::PathBuf;
use vstd::prelude::*;
use vstd::string::StringExecFns;
use crate::json::{
    fields_members, json_string, json_text, member, member_text, object_of, object_text,
    push_fields, quote_json, json_quoted, JsonValue,
};
use crate::text::{chars_of, join, join_s, string_of};

verus! {

broadcast use vstd::std_specs::hash::group_hash_axioms;

/// Failure to load or write a session.
#[derive(Debug)]
pub enum SessionError {
    Io(std::io::Error),
    Parse { line: usize, source: serde_json::Error },
}

/// The `message` object of a record. Unknown members are kept in `extra`,
/// in the order the parser gave them.
#[derive(Debug)]
pub struct MessageBody {
    pub role: Option<String>,
    /// Either a plain string or an array of content blocks.
    pub content: Option<JsonValue>,
    pub extra: Vec<(String, JsonValue)>,
}

/// One record of a session file. The record's `type` member is held in
/// `entry_type`. `original_line` is the exact line the record was read
/// from, `None` for records built in memory.
#[derive(Debug)]
pub struct Message {
    pub entry_type: Option<String>,
    pub uuid: Option<String>,
    pub parent_uuid: Option<String>,
    pub timestamp: Option<String>,
    pub message: Option<MessageBody>,
    pub extra: Vec<(String, JsonValue)>,
    pub original_line: Option<String>,
}

/// A loaded session file.
#[derive(Debug)]
pub struct Session {
    pub path: PathBuf,
    pub messages: Vec<Message>,
    /// True if the source file ended with a newline.
    pub trailing_newline: bool,
}

pub open spec fn opt_view(o: Option<String>) -> Option<Seq<char>> {
    match o {
        Some(s) => Some(s@),
        None => None,
    }
}

/// The member `"key":"value"` when the value is present.
pub open spec fn str_member(k: Seq<char>, v: Option<Seq<char>>) -> Seq<Seq<char>> {
    match v {
        Some(s) => seq![member_text(k, json_quoted(s))],
        None => Seq::empty(),
    }
}

/// The compact JSON text of a `message` object: `role`, `content`, then
/// the unknown members.
pub open spec fn body_text(b: MessageBody) -> Seq<char> {
    object_text(
        str_member("role"@, opt_view(b.role)) + match b.content {
            Some(c) => seq![member_text("content"@, json_text(c))],
            None => Seq::empty(),
        } + fields_members(b.extra@),
    )
}

/// The members of a record written with `parent` as its `parentUuid`:
/// `type`, `uuid`, `parentUuid`, `timestamp`, `message`, then the unknown
/// members; absent fields are left out.
pub open spec fn message_members(m: Message, parent: Option<Seq<char>>) -> Seq<Seq<char>> {
    str_member("type"@, opt_view(m.entry_type)) + str_member("uuid"@, opt_view(m.uuid))
        + str_member("parentUuid"@, parent) + str_member("timestamp"@, opt_view(m.timestamp))
        + match m.message {
        Some(b) => seq![member_text("message"@, body_text(b))],
        None => Seq::empty(),
    } + fields_members(m.extra@)
}

/// The compact JSON text of a record written with `parent` as its
/// `parentUuid`.
pub open spec fn message_text(m: Message, parent: Option<Seq<char>>) -> Seq<char> {
    object_text(message_members(m, parent))
}

/// The last index among the first `k` records whose `uuid` is `u`.
pub open spec fn uuid_index_below(msgs: Seq<Message>, u: Seq<char>, k: int) -> Option<int>
    decreases k,
{
    if k <= 0 {
        None
    } else if opt_view(msgs[k - 1].uuid) == Some(u) {
        Some(k - 1)
    } else {
        uuid_index_below(msgs, u, k - 1)
    }
}

/// The index of the record whose `uuid` is `u` (the last one, when
/// several share it).
pub open spec fn uuid_index(msgs: Seq<Message>, u: Seq<char>) -> Option<int> {
    uuid_index_below(msgs, u, msgs.len() as int)
}

/// The index of the record that record `i`'s `parentUuid` names.
pub open spec fn parent_index(msgs: Seq<Message>, i: int) -> Option<int> {
    match msgs[i].parent_uuid {
        Some(u) => uuid_index(msgs, u@),
        None => None,
    }
}

/// Walks up from record `i` through deleted ancestors. The result is the
/// `parentUuid` that record `i` keeps: the first ancestor uuid that is not
/// deleted, a uuid that names no record of the file (kept as it is), or
/// `None` at the root. `fuel` bounds the walk; a chain that loops among
/// deleted records runs out of it and resolves to the root.
pub open spec fn resolve_from(msgs: Seq<Message>, omit: Set<usize>, i: int, fuel: nat) -> Option<
    Seq<char>,
>
    decreases fuel,
{
    match msgs[i].parent_uuid {
        None => None,
        Some(u) => match uuid_index(msgs, u@) {
            None => Some(u@),
            Some(j) => if !omit.contains(j as usize) {
                Some(u@)
            } else if fuel == 0 {
                None
            } else {
                resolve_from(msgs, omit, j, (fuel - 1) as nat)
            },
        },
    }
}

/// The `parentUuid` that surviving record `i` is written with.
pub open spec fn resolved_parent(msgs: Seq<Message>, omit: Set<usize>, i: int) -> Option<
    Seq<char>,
> {
    resolve_from(msgs, omit, i, msgs.len())
}

/// Record `i` gets a new `parentUuid`.
pub open spec fn needs_relink(msgs: Seq<Message>, omit: Set<usize>, i: int) -> bool {
    resolved_parent(msgs, omit, i) != opt_view(msgs[i].parent_uuid)
}

/// The line written for surviving record `i`: written afresh when its
/// parent changes, else its original line, else written from its fields.
pub open spec fn rendered_line(msgs: Seq<Message>, omit: Set<usize>, i: int) -> Seq<char> {
    if needs_relink(msgs, omit, i) {
        message_text(msgs[i], resolved_parent(msgs, omit, i))
    } else {
        match msgs[i].original_line {
            Some(l) => l@,
            None => message_text(msgs[i], opt_view(msgs[i].parent_uuid)),
        }
    }
}

/// The lines of the surviving records among the first `k`, in order.
pub open spec fn survivor_lines(msgs: Seq<Message>, omit: Set<usize>, k: int) -> Seq<Seq<char>>
    decreases k,
{
    if k <= 0 {
        Seq::empty()
    } else if omit.contains((k - 1) as usize) {
        survivor_lines(msgs, omit, k - 1)
    } else {
        survivor_lines(msgs, omit, k - 1).push(rendered_line(msgs, omit, k - 1))
    }
}

/// How many surviving records among the first `k` get a new parent.
pub open spec fn relinked_count(msgs: Seq<Message>, omit: Set<usize>, k: int) -> nat
    decreases k,
{
    if k <= 0 {
        0
    } else if !omit.contains((k - 1) as usize) && needs_relink(msgs, omit, k - 1) {
        relinked_count(msgs, omit, k - 1) + 1
    } else {
        relinked_count(msgs, omit, k - 1)
    }
}

/// The file written for the session without the records in `omit`: the
/// surviving lines separated by newlines, with a final newline when the
/// source had one.
pub open spec fn rendered_file(msgs: Seq<Message>, omit: Set<usize>, trailing_newline: bool) -> Seq<
    char,
> {
    let lines = survivor_lines(msgs, omit, msgs.len() as int);
    join_s(lines, seq!['\n']) + if trailing_newline && lines.len() > 0 {
        seq!['\n']
    } else {
        Seq::empty()
    }
}

/// Appends the member `"key":"value"` when the value is present.
fn push_str_member(parts: &mut Vec<String>, key: &str, v: &Option<String>)
    ensures
        final(parts)@.map_values(|p: String| p@) == old(parts)@.map_values(|p: String| p@)
            + str_member(key@, opt_view(*v)),
{
    let ghost before = parts@;
    match v {
        Some(s) => {
            let q = quote_json(s.as_str());
            let m = member(key, q.as_str());
            parts.push(m);
            assert(parts@.map_values(|p: String| p@) =~= before.map_values(|p: String| p@)
                + str_member(key@, opt_view(*v)));
        },
        None => {
            assert(parts@.map_values(|p: String| p@) =~= before.map_values(|p: String| p@)
                + str_member(key@, opt_view(*v)));
        },
    }
}

/// The compact JSON text of a `message` object.
pub fn body_json(b: &MessageBody) -> (r: String)
    ensures
        r@ == body_text(*b),
{
    let mut parts: Vec<String> = Vec::new();
    assert(parts@.map_values(|p: String| p@) =~= Seq::<Seq<char>>::empty());
    push_str_member(&mut parts, "role", &b.role);
    let ghost mid = parts@.map_values(|p: String| p@);
    match &b.content {
        Some(c) => {
            let t = json_string(c);
            let m = member("content", t.as_str());
            parts.push(m);
        },
        None => {},
    }
    assert(parts@.map_values(|p: String| p@) =~= mid + match b.content {
        Some(c) => seq![member_text("content"@, json_text(c))],
        None => Seq::empty(),
    });
    push_fields(&mut parts, &b.extra);
    object_of(&parts)
}

/// The compact JSON text of record `m` written with `parent` as its
/// `parentUuid` (what serializing the record gives).
pub fn message_json(m: &Message, parent: &Option<String>) -> (r: String)
    ensures
        r@ == message_text(*m, opt_view(*parent)),
{
    let mut parts: Vec<String> = Vec::new();
    assert(parts@.map_values(|p: String| p@) =~= Seq::<Seq<char>>::empty());
    push_str_member(&mut parts, "type", &m.entry_type);
    push_str_member(&mut parts, "uuid", &m.uuid);
    push_str_member(&mut parts, "parentUuid", parent);
    push_str_member(&mut parts, "timestamp", &m.timestamp);
    let ghost mid = parts@.map_values(|p: String| p@);
    match &m.message {
        Some(b) => {
            let t = body_json(b);
            let x = member("message", t.as_str());
            parts.push(x);
        },
        None => {},
    }
    assert(parts@.map_values(|p: String| p@) =~= mid + match m.message {
        Some(b) => seq![member_text("message"@, body_text(b))],
        None => Seq::empty(),
    });
    push_fields(&mut parts, &m.extra);
    assert(parts@.map_values(|p: String| p@) =~= message_members(*m, opt_view(*parent)));
    object_of(&parts)
}

/// Whether `o` holds exactly `s`.
fn opt_is(o: &Option<String>, s: &String) -> (r: bool)
    ensures
        r == (opt_view(*o) == Some(s@)),
{
    match o {
        Some(x) => *x == *s,
        None => false,
    }
}

/// Whether two optional strings are equal.
fn opt_eq(a: &Option<String>, b: &Option<String>) -> (r: bool)
    ensures
        r == (opt_view(*a) == opt_view(*b)),
{
    match (a, b) {
        (Some(x), Some(y)) => *x == *y,
        (None, None) => true,
        _ => false,
    }
}

fn clone_opt(o: &Option<String>) -> (r: Option<String>)
    ensures
        opt_view(r) == opt_view(*o),
{
    match o {
        Some(s) => Some(s.clone()),
        None => None,
    }
}

/// The index of the record whose `uuid` is `u` (the last one).
pub fn find_uuid(msgs: &Vec<Message>, u: &String) -> (r: Option<usize>)
    ensures
        match r {
            Some(j) => uuid_index(msgs@, u@) == Some(j as int),
            None => uuid_index(msgs@, u@) is None,
        },
{
    let mut k = msgs.len();
    while k > 0
        invariant
            k <= msgs.len(),
            uuid_index(msgs@, u@) == uuid_index_below(msgs@, u@, k as int),
        decreases k,
    {
        if opt_is(&msgs[k - 1].uuid, u) {
            return Some(k - 1);
        }
        k = k - 1;
    }
    None
}

/// For each record, the index of the record its `parentUuid` names.
fn parent_indices(msgs: &Vec<Message>) -> (r: Vec<Option<usize>>)
    ensures
        r.len() == msgs.len(),
        forall|i: int|
            0 <= i < msgs.len() ==> match #[trigger] r@[i] {
                Some(j) => parent_index(msgs@, i) == Some(j as int),
                None => parent_index(msgs@, i) is None,
            },
{
    let mut r: Vec<Option<usize>> = Vec::new();
    let mut i: usize = 0;
    while i < msgs.len()
        invariant
            i <= msgs.len(),
            r.len() == i,
            forall|k: int|
                0 <= k < i ==> match #[trigger] r@[k] {
                    Some(j) => parent_index(msgs@, k) == Some(j as int),
                    None => parent_index(msgs@, k) is None,
                },
        decreases msgs.len() - i,
    {
        let p = match &msgs[i].parent_uuid {
            Some(u) => find_uuid(msgs, u),
            None => None,
        };
        r.push(p);
        i = i + 1;
    }
    r
}

proof fn lemma_uuid_index_bound(msgs: Seq<Message>, u: Seq<char>, k: int)
    ensures
        uuid_index_below(msgs, u, k) matches Some(j) ==> 0 <= j < k,
    decreases k,
{
    if k > 0 {
        lemma_uuid_index_bound(msgs, u, k - 1);
    }
}

/// The `parentUuid` that surviving record `i` is written with.
fn resolve(msgs: &Vec<Message>, parents: &Vec<Option<usize>>, omit: &HashSet<usize>, i: usize) -> (r:
    Option<String>)
    requires
        i < msgs.len(),
        parents.len() == msgs.len(),
        forall|k: int|
            0 <= k < msgs.len() ==> match #[trigger] parents@[k] {
                Some(j) => parent_index(msgs@, k) == Some(j as int),
                None => parent_index(msgs@, k) is None,
            },
    ensures
        opt_view(r) == resolved_parent(msgs@, omit@, i as int),
{
    let mut cur = i;
    let mut fuel = msgs.len();
    loop
        invariant
            cur < msgs.len(),
            fuel <= msgs.len(),
            resolved_parent(msgs@, omit@, i as int) == resolve_from(
                msgs@,
                omit@,
                cur as int,
                fuel as nat,
            ),
        decreases fuel,
    {
        match &msgs[cur].parent_uuid {
            None => {
                return None;
            },
            Some(u) => {
                assert(parents@[cur as int] == parents[cur as int]);
                match parents[cur] {
                    None => {
                        return Some(u.clone());
                    },
                    Some(j) => {
                        proof {
                            lemma_uuid_index_bound(msgs@, u@, msgs.len() as int);
                        }
                        if !omit.contains(&j) {
                            return Some(u.clone());
                        } else if fuel == 0 {
                            return None;
                        } else {
                            cur = j;
                            fuel = fuel - 1;
                        }
                    },
                }
            },
        }
    }
}

proof fn lemma_resolve_target(msgs: Seq<Message>, omit: Set<usize>, i: int, fuel: nat)
    ensures
        resolve_from(msgs, omit, i, fuel) matches Some(p) ==> (uuid_index(msgs, p) matches Some(
            j,
        ) ==> !omit.contains(j as usize)),
    decreases fuel,
{
    match msgs[i].parent_uuid {
        None => {},
        Some(u) => match uuid_index(msgs, u@) {
            None => {},
            Some(j) => {
                if omit.contains(j as usize) && fuel > 0 {
                    lemma_resolve_target(msgs, omit, j, (fuel - 1) as nat);
                }
            },
        },
    }
}

/// A surviving record is never written with a `parentUuid` that names a
/// deleted record: the parent it keeps is a surviving record, a uuid no
/// record of the file carries, or none.
pub proof fn relinked_parent_is_not_deleted(msgs: Seq<Message>, omit: Set<usize>, i: int)
    ensures
        resolved_parent(msgs, omit, i) matches Some(p) ==> (uuid_index(msgs, p) matches Some(
            j,
        ) ==> !omit.contains(j as usize)),
{
    lemma_resolve_target(msgs, omit, i, msgs.len());
}

proof fn lemma_uuid_index_range(msgs: Seq<Message>, u: Seq<char>, k: int)
    requires
        k <= msgs.len(),
    ensures
        uuid_index_below(msgs, u, k) matches Some(j) ==> 0 <= j < k,
    decreases k,
{
    if k > 0 {
        lemma_uuid_index_range(msgs, u, k - 1);
    }
}

/// No chain of deleted records loops: each deleted record whose parent is
/// deleted too ranks above that parent, and ranks stay below the record
/// count.
pub open spec fn deleted_links_ranked(msgs: Seq<Message>, omit: Set<usize>, rank: spec_fn(int) -> nat) -> bool {
    forall|j: int|
        0 <= j < msgs.len() && omit.contains(j as usize) ==> #[trigger] rank(j) < msgs.len() && match parent_index(msgs, j) {
            Some(k) => omit.contains(k as usize) ==> rank(k) < rank(j),
            None => true,
        }
}

proof fn lemma_walk_stable(
    msgs: Seq<Message>,
    omit: Set<usize>,
    p: int,
    f: nat,
    g: nat,
    rank: spec_fn(int) -> nat,
)
    requires
        0 <= p < msgs.len(),
        omit.contains(p as usize),
        deleted_links_ranked(msgs, omit, rank),
        f >= rank(p),
        g >= rank(p),
    ensures
        resolve_from(msgs, omit, p, f) == resolve_from(msgs, omit, p, g),
    decreases rank(p),
{
    assert(rank(p) < msgs.len());
    match msgs[p].parent_uuid {
        None => {},
        Some(u) => {
            lemma_uuid_index_range(msgs, u@, msgs.len() as int);
            match uuid_index(msgs, u@) {
                None => {},
                Some(k) => {
                    if omit.contains(k as usize) {
                        assert(parent_index(msgs, p) == Some(k));
                        assert(rank(k) < rank(p));
                        lemma_walk_stable(msgs, omit, k, (f - 1) as nat, (g - 1) as nat, rank);
                    }
                },
            }
        },
    }
}

/// When the deleted records' parent links hold no cycle, the walk up
/// through deleted records never runs short: with any more steps allowed
/// it finds the same `parentUuid`, the one an unbounded walk finds.
pub proof fn relink_walk_is_complete(
    msgs: Seq<Message>,
    omit: Set<usize>,
    i: int,
    fuel: nat,
    rank: spec_fn(int) -> nat,
)
    requires
        0 <= i < msgs.len(),
        fuel >= msgs.len(),
        deleted_links_ranked(msgs, omit, rank),
    ensures
        resolve_from(msgs, omit, i, fuel) == resolved_parent(msgs, omit, i),
{
    match msgs[i].parent_uuid {
        None => {},
        Some(u) => {
            lemma_uuid_index_range(msgs, u@, msgs.len() as int);
            match uuid_index(msgs, u@) {
                None => {},
                Some(k) => {
                    if omit.contains(k as usize) {
                        assert(rank(k) < msgs.len());
                        lemma_walk_stable(
                            msgs,
                            omit,
                            k,
                            (fuel - 1) as nat,
                            (msgs.len() - 1) as nat,
                            rank,
                        );
                    }
                },
            }
        },
    }
}

/// A record whose parent record is deleted is written with the parent
/// that record itself would be written with: re-linking climbs through
/// any number of deleted ancestors in a row, up to the nearest surviving
/// one (or the root, or a uuid foreign to the file).
pub proof fn relink_climbs_deleted_parents(
    msgs: Seq<Message>,
    omit: Set<usize>,
    i: int,
    j: int,
    rank: spec_fn(int) -> nat,
)
    requires
        0 <= i < msgs.len(),
        deleted_links_ranked(msgs, omit, rank),
        parent_index(msgs, i) == Some(j),
        omit.contains(j as usize),
    ensures
        resolved_parent(msgs, omit, i) == resolved_parent(msgs, omit, j),
{
    let u = msgs[i].parent_uuid->0;
    lemma_uuid_index_range(msgs, u@, msgs.len() as int);
    assert(0 <= j < msgs.len());
    assert(rank(j) < msgs.len());
    lemma_walk_stable(msgs, omit, j, (msgs.len() - 1) as nat, msgs.len(), rank);
}

proof fn lemma_relinked_count_filter(msgs: Seq<Message>, omit: Set<usize>, k: int)
    requires
        0 <= k,
    ensures
        relinked_count(msgs, omit, k) == Seq::new(k as nat, |i: int| i).filter(
            |i: int| !omit.contains(i as usize) && needs_relink(msgs, omit, i),
        ).len(),
    decreases k,
{
    reveal(Seq::filter);
    let f = |i: int| !omit.contains(i as usize) && needs_relink(msgs, omit, i);
    let t = Seq::new(k as nat, |i: int| i);
    if k > 0 {
        lemma_relinked_count_filter(msgs, omit, k - 1);
        assert(t.drop_last() =~= Seq::new((k - 1) as nat, |i: int| i));
        assert(t.last() == k - 1);
        assert(t.filter(f) == if f(t.last()) {
            t.drop_last().filter(f).push(t.last())
        } else {
            t.drop_last().filter(f)
        });
    } else {
        assert(t.len() == 0);
    }
}

/// The number of re-linked records that a render reports is the number
/// of surviving records whose `parentUuid` changes.
pub proof fn relinked_count_counts_changed_parents(msgs: Seq<Message>, omit: Set<usize>)
    ensures
        relinked_count(msgs, omit, msgs.len() as int) == Seq::new(msgs.len(), |i: int| i).filter(
            |i: int| !omit.contains(i as usize) && resolved_parent(msgs, omit, i) != opt_view(
                msgs[i].parent_uuid,
            ),
        ).len(),
{
    lemma_relinked_count_filter(msgs, omit, msgs.len() as int);
    let f = |i: int| !omit.contains(i as usize) && needs_relink(msgs, omit, i);
    let g = |i: int| !omit.contains(i as usize) && resolved_parent(msgs, omit, i) != opt_view(
        msgs[i].parent_uuid,
    );
    assert(f =~= g);
}

/// Only a record whose parent record is deleted gets a new `parentUuid`;
/// a record whose parent survives, whose parent is foreign to the file, or
/// that has no parent keeps its line.
pub proof fn relink_only_under_deleted_parent(msgs: Seq<Message>, omit: Set<usize>, i: int)
    ensures
        needs_relink(msgs, omit, i) ==> (parent_index(msgs, i) matches Some(j) && omit.contains(
            j as usize,
        )),
{
}

proof fn lemma_nothing_omitted(msgs: Seq<Message>, k: int)
    requires
        0 <= k <= msgs.len(),
    ensures
        relinked_count(msgs, Set::empty(), k) == 0,
        survivor_lines(msgs, Set::empty(), k).len() == k,
        forall|i: int|
            0 <= i < k ==> #[trigger] survivor_lines(msgs, Set::empty(), k)[i] == match msgs[i].original_line {
                Some(l) => l@,
                None => message_text(msgs[i], opt_view(msgs[i].parent_uuid)),
            },
    decreases k,
{
    if k > 0 {
        lemma_nothing_omitted(msgs, k - 1);
        assert(!needs_relink(msgs, Set::empty(), k - 1));
    }
}

/// With nothing deleted no record is re-linked, and the file is written
/// back as it was read: each record's original line (or, for a record
/// built in memory, its fields written out), one per line, with the
/// source's final newline.
pub proof fn render_without_deletions_is_verbatim(msgs: Seq<Message>, trailing_newline: bool)
    ensures
        relinked_count(msgs, Set::empty(), msgs.len() as int) == 0,
        survivor_lines(msgs, Set::empty(), msgs.len() as int) == msgs.map_values(
            |m: Message|
                match m.original_line {
                    Some(l) => l@,
                    None => message_text(m, opt_view(m.parent_uuid)),
                },
        ),
        rendered_file(msgs, Set::empty(), trailing_newline) == join_s(
            msgs.map_values(
                |m: Message|
                    match m.original_line {
                        Some(l) => l@,
                        None => message_text(m, opt_view(m.parent_uuid)),
                    },
            ),
            seq!['\n'],
        ) + if trailing_newline && msgs.len() > 0 {
            seq!['\n']
        } else {
            Seq::empty()
        },
{
    lemma_nothing_omitted(msgs, msgs.len() as int);
    assert(survivor_lines(msgs, Set::empty(), msgs.len() as int) =~= msgs.map_values(
        |m: Message|
            match m.original_line {
                Some(l) => l@,
                None => message_text(m, opt_view(m.parent_uuid)),
            },
    ));
}

/// Drops one `\r` at the end of a line.
pub open spec fn strip_cr(l: Seq<char>) -> Seq<char> {
    if l.len() > 0 && l.last() == '\r' {
        l.drop_last()
    } else {
        l
    }
}

/// The lines of `s` after the partial line `cur`, as `BufRead::lines`
/// splits them: at each `\n`, dropping a `\r` just before it; a last line
/// without a newline is kept as it is.
pub open spec fn lines_from(s: Seq<char>, cur: Seq<char>) -> Seq<Seq<char>>
    decreases s.len(),
{
    if s.len() == 0 {
        if cur.len() == 0 {
            Seq::empty()
        } else {
            seq![cur]
        }
    } else if s[0] == '\n' {
        seq![strip_cr(cur)] + lines_from(s.drop_first(), Seq::empty())
    } else {
        lines_from(s.drop_first(), cur.push(s[0]))
    }
}

/// The lines of a file's contents, as `BufRead::lines` gives them.
pub open spec fn lines_s(s: Seq<char>) -> Seq<Seq<char>> {
    lines_from(s, Seq::empty())
}

/// The non-empty lines among the first `k`, each with its 1-based line
/// number.
pub open spec fn records_below(lines: Seq<Seq<char>>, k: int) -> Seq<(int, Seq<char>)>
    decreases k,
{
    if k <= 0 {
        Seq::empty()
    } else if lines[k - 1].len() == 0 {
        records_below(lines, k - 1)
    } else {
        records_below(lines, k - 1).push((k, lines[k - 1]))
    }
}

proof fn lemma_lines_len(s: Seq<char>, cur: Seq<char>)
    ensures
        lines_from(s, cur).len() <= s.len() + 1,
    decreases s.len(),
{
    if s.len() > 0 {
        if s[0] == '\n' {
            lemma_lines_len(s.drop_first(), Seq::empty());
        } else {
            lemma_lines_len(s.drop_first(), cur.push(s[0]));
        }
    }
}

fn strip_cr_string(v: &Vec<char>, lo: usize, hi: usize) -> (r: String)
    requires
        lo <= hi <= v.len(),
    ensures
        r@ == strip_cr(v@.subrange(lo as int, hi as int)),
{
    let ghost l = v@.subrange(lo as int, hi as int);
    if hi > lo && v[hi - 1] == '\r' {
        assert(l.drop_last() =~= v@.subrange(lo as int, hi - 1));
        string_of(v, lo, hi - 1)
    } else {
        string_of(v, lo, hi)
    }
}

/// The lines of `content`, as `BufRead::lines` gives them.
pub fn split_lines(content: &str) -> (r: Vec<String>)
    ensures
        r@.map_values(|l: String| l@) == lines_s(content@),
{
    let v = chars_of(content);
    let mut out: Vec<String> = Vec::new();
    let mut start: usize = 0;
    let mut i: usize = 0;
    assert(v@.skip(0) =~= v@);
    assert(v@.subrange(0, 0) =~= Seq::<char>::empty());
    while i < v.len()
        invariant
            start <= i <= v.len(),
            v@ == content@,
            lines_s(content@) == out@.map_values(|l: String| l@) + lines_from(
                v@.skip(i as int),
                v@.subrange(start as int, i as int),
            ),
        decreases v.len() - i,
    {
        let ghost rest = v@.skip(i as int);
        let ghost cur = v@.subrange(start as int, i as int);
        assert(rest[0] == v@[i as int]);
        assert(rest.drop_first() =~= v@.skip(i + 1));
        if v[i] == '\n' {
            let l = strip_cr_string(&v, start, i);
            let ghost before = out@;
            out.push(l);
            assert(out@.map_values(|l: String| l@) =~= before.map_values(|l: String| l@).push(l@));
            assert(v@.subrange(i + 1, i + 1) =~= Seq::<char>::empty());
            assert(lines_from(rest, cur) == seq![strip_cr(cur)] + lines_from(
                rest.drop_first(),
                Seq::empty(),
            ));
            assert(lines_s(content@) =~= out@.map_values(|l: String| l@) + lines_from(
                v@.skip(i + 1),
                v@.subrange(i + 1, i + 1),
            ));
            start = i + 1;
        } else {
            assert(cur.push(v@[i as int]) =~= v@.subrange(start as int, i + 1));
        }
        i = i + 1;
    }
    let ghost cur = v@.subrange(start as int, v.len() as int);
    assert(v@.skip(v.len() as int) =~= Seq::<char>::empty());
    if start < v.len() {
        let l = string_of(&v, start, v.len());
        let ghost before = out@;
        out.push(l);
        assert(out@.map_values(|l: String| l@) =~= before.map_values(|l: String| l@).push(l@));
        assert(lines_s(content@) =~= out@.map_values(|l: String| l@));
    } else {
        assert(lines_s(content@) =~= out@.map_values(|l: String| l@));
    }
    out
}

/// The records of a session file's contents: each non-empty line with its
/// 1-based line number, in file order.
pub fn jsonl_records(content: &str) -> (r: Vec<(usize, String)>)
    ensures
        r@.map_values(|e: (usize, String)| (e.0 as int, e.1@)) == records_below(
            lines_s(content@),
            lines_s(content@).len() as int,
        ),
{
    let lines = split_lines(content);
    let ghost ls = lines_s(content@);
    proof {
        lemma_lines_len(content@, Seq::empty());
    }
    let mut out: Vec<(usize, String)> = Vec::new();
    let mut i: usize = 0;
    while i < lines.len()
        invariant
            i <= lines.len(),
            ls == lines@.map_values(|l: String| l@),
            out@.map_values(|e: (usize, String)| (e.0 as int, e.1@)) == records_below(ls, i as int),
        decreases lines.len() - i,
    {
        assert(ls[i as int] == lines@[i as int]@);
        if lines[i].as_str().is_empty() {
        } else {
            let ghost before = out@;
            out.push((i + 1, lines[i].clone()));
            assert(out@.map_values(|e: (usize, String)| (e.0 as int, e.1@)) =~= before.map_values(
                |e: (usize, String)| (e.0 as int, e.1@),
            ).push((i + 1, ls[i as int])));
        }
        i = i + 1;
    }
    out
}

/// Whether the contents end with a newline.
pub fn ends_with_newline(content: &str) -> (r: bool)
    ensures
        r == (content@.len() > 0 && content@.last() == '\n'),
{
    let v = chars_of(content);
    v.len() > 0 && v[v.len() - 1] == '\n'
}

/// A newline after the last line, when the text ends with one.
pub open spec fn final_newline(s: Seq<char>) -> Seq<char> {
    if s.len() > 0 && s.last() == '\n' {
        seq!['\n']
    } else {
        Seq::empty()
    }
}

proof fn lemma_join_cons(a: Seq<char>, rest: Seq<Seq<char>>, sep: Seq<char>)
    ensures
        join_s(seq![a] + rest, sep) == if rest.len() == 0 {
            a
        } else {
            a + sep + join_s(rest, sep)
        },
    decreases rest.len(),
{
    let x = seq![a] + rest;
    if rest.len() == 0 {
        assert(x =~= seq![a]);
    } else if rest.len() == 1 {
        assert(x.drop_last() =~= seq![a]);
        assert(x.last() == rest[0]);
        assert(join_s(seq![a], sep) == a);
        assert(join_s(x, sep) == join_s(x.drop_last(), sep) + sep + x.last());
        assert(join_s(rest, sep) == rest[0]);
    } else {
        lemma_join_cons(a, rest.drop_last(), sep);
        assert(x.drop_last() =~= seq![a] + rest.drop_last());
        assert(x.last() == rest.last());
        assert(join_s(x, sep) == join_s(x.drop_last(), sep) + sep + x.last());
        assert(join_s(rest, sep) == join_s(rest.drop_last(), sep) + sep + rest.last());
        assert(a + sep + join_s(rest.drop_last(), sep) + sep + rest.last() =~= a + sep + (join_s(
            rest.drop_last(),
            sep,
        ) + sep + rest.last()));
    }
}

proof fn lemma_lines_empty(s: Seq<char>, cur: Seq<char>)
    ensures
        (lines_from(s, cur).len() == 0) == (s.len() == 0 && cur.len() == 0),
    decreases s.len(),
{
    if s.len() > 0 {
        if s[0] != '\n' {
            lemma_lines_empty(s.drop_first(), cur.push(s[0]));
        }
    }
}

/// Joining the lines read from `cur + s` gives the text back, when it
/// holds no carriage return.
proof fn lemma_lines_rejoin(s: Seq<char>, cur: Seq<char>)
    requires
        forall|i: int| 0 <= i < s.len() ==> s[i] != '\r',
        forall|i: int| 0 <= i < cur.len() ==> cur[i] != '\r',
    ensures
        join_s(lines_from(s, cur), seq!['\n']) + final_newline(s) == cur + s,
    decreases s.len(),
{
    if s.len() == 0 {
        assert(cur + s =~= cur);
    } else {
        let t = s.drop_first();
        if t.len() > 0 {
            assert(t.last() == s.last());
        }
        if s[0] == '\n' {
            assert(cur.len() > 0 ==> cur.last() != '\r');
            assert(strip_cr(cur) == cur);
            lemma_lines_rejoin(t, Seq::empty());
            lemma_join_cons(cur, lines_from(t, Seq::empty()), seq!['\n']);
            lemma_lines_empty(t, Seq::empty());
            assert(Seq::<char>::empty() + t =~= t);
            if t.len() == 0 {
                assert(cur + s =~= cur + seq!['\n']);
            } else {
                assert(cur + s =~= cur + seq!['\n'] + t);
                assert(cur + seq!['\n'] + join_s(lines_from(t, Seq::empty()), seq!['\n'])
                    + final_newline(t) =~= cur + seq!['\n'] + (join_s(
                    lines_from(t, Seq::empty()),
                    seq!['\n'],
                ) + final_newline(t)));
            }
        } else {
            let c2 = cur.push(s[0]);
            assert forall|i: int| 0 <= i < c2.len() implies c2[i] != '\r' by {
                if i < cur.len() {
                    assert(c2[i] == cur[i]);
                }
            }
            lemma_lines_rejoin(t, c2);
            assert(c2 + t =~= cur + s);
        }
    }
}

proof fn lemma_records_all(lines: Seq<Seq<char>>, k: int)
    requires
        0 <= k <= lines.len(),
        forall|i: int| 0 <= i < lines.len() ==> #[trigger] lines[i].len() > 0,
    ensures
        records_below(lines, k).len() == k,
        forall|i: int| 0 <= i < k ==> #[trigger] records_below(lines, k)[i] == (i + 1, lines[i]),
    decreases k,
{
    if k > 0 {
        lemma_records_all(lines, k - 1);
        assert(lines[k - 1].len() > 0);
    }
}

/// Reading a file and writing it back with nothing deleted gives the file
/// byte for byte, unknown members and their order included, when no line
/// of it is empty and it holds no carriage return: `messages` stand for
/// the records `jsonl_records` reads from `content`, each keeping the line
/// it was read from, and the final newline is kept as `ends_with_newline`
/// found it.
pub proof fn loaded_file_renders_verbatim(content: Seq<char>, messages: Seq<Message>)
    requires
        forall|i: int| 0 <= i < content.len() ==> content[i] != '\r',
        forall|i: int|
            0 <= i < lines_s(content).len() ==> #[trigger] lines_s(content)[i].len() > 0,
        messages.len() == records_below(lines_s(content), lines_s(content).len() as int).len(),
        forall|i: int|
            0 <= i < messages.len() ==> (#[trigger] messages[i].original_line matches Some(l) && l@
                == records_below(lines_s(content), lines_s(content).len() as int)[i].1),
    ensures
        rendered_file(messages, Set::empty(), content.len() > 0 && content.last() == '\n')
            == content,
        relinked_count(messages, Set::empty(), messages.len() as int) == 0,
{
    let ls = lines_s(content);
    lemma_records_all(ls, ls.len() as int);
    lemma_lines_rejoin(content, Seq::empty());
    lemma_lines_empty(content, Seq::empty());
    assert(Seq::<char>::empty() + content =~= content);
    render_without_deletions_is_verbatim(
        messages,
        content.len() > 0 && content.last() == '\n',
    );
    let orig = messages.map_values(
        |m: Message|
            match m.original_line {
                Some(l) => l@,
                None => message_text(m, opt_view(m.parent_uuid)),
            },
    );
    assert forall|i: int| 0 <= i < ls.len() implies orig[i] == ls[i] by {
        assert(records_below(ls, ls.len() as int)[i] == (i + 1, ls[i]));
    }
    assert(orig =~= ls);
}

impl Session {
    /// The file contents without the records whose indices are in `omit`.
    /// A surviving record whose `parentUuid` points into the deleted set is
    /// re-linked to its nearest surviving ancestor (or to none at the
    /// root) and written afresh; other records keep their original line.
    /// Also returns how many records were re-linked.
    pub fn render_with_relink(&self, omit: &HashSet<usize>) -> (res: Result<
        (String, usize),
        SessionError,
    >)
        ensures
            res matches Ok((out, n)) && out@ == rendered_file(
                self.messages@,
                omit@,
                self.trailing_newline,
            ) && n == relinked_count(self.messages@, omit@, self.messages.len() as int),
    {
        let msgs = &self.messages;
        let parents = parent_indices(msgs);
        let mut lines: Vec<String> = Vec::new();
        let mut relinked: usize = 0;
        let mut idx: usize = 0;
        while idx < msgs.len()
            invariant
                idx <= msgs.len(),
                lines@.map_values(|p: String| p@) == survivor_lines(msgs@, omit@, idx as int),
                relinked == relinked_count(msgs@, omit@, idx as int),
                relinked <= idx,
            decreases msgs.len() - idx,
        {
            let ghost before = lines@;
            if !omit.contains(&idx) {
                let resolved = resolve(msgs, &parents, omit, idx);
                let m = &msgs[idx];
                let line = if !opt_eq(&resolved, &m.parent_uuid) {
                    relinked = relinked + 1;
                    message_json(m, &resolved)
                } else {
                    match &m.original_line {
                        Some(l) => l.clone(),
                        None => message_json(m, &m.parent_uuid),
                    }
                };
                lines.push(line);
                assert(lines@.map_values(|p: String| p@) =~= before.map_values(|p: String| p@).push(
                    line@,
                ));
            }
            idx = idx + 1;
        }
        proof {
            reveal_strlit("\n");
            assert("\n"@ =~= seq!['\n']);
        }
        let mut out = join(&lines, "\n");
        if self.trailing_newline && lines.len() > 0 {
            out.append("\n");
        }
        Ok((out, relinked))
    }

    /// The file contents without the records whose indices are in `omit`
    /// (`render_with_relink` without the count).
    pub fn render(&self, omit: &HashSet<usize>) -> (res: Result<String, SessionError>)
        ensures
            res matches Ok(out) && out@ == rendered_file(
                self.messages@,
                omit@,
                self.trailing_newline,
            ),
    {
        match self.render_with_relink(omit) {
            Ok((out, _)) => Ok(out),
            Err(e) => Err(e),
        }
    }
}

} // verus!
