//! What a record shows and what it pairs with: the readable text of a
//! record, whether it is a visible prompt, the tool calls it makes or
//! answers, and the conversational turn it belongs to.

use std::collections::{HashMap, HashSet};
use vstd::prelude::*;
use vstd::std_specs::iter::IteratorSpec;
use crate::json::{field_is, get_str, str_field, JsonValue};
use crate::session::{opt_view, Message};
use crate::text::{join, join_s, starts_with, starts_with_s, str_eq, trim, trim_s, trim_start, trim_start_s};

verus! {

broadcast use vstd::std_specs::hash::group_hash_axioms;

/// The sequence holding the value, if any.
pub open spec fn opt_seq<T>(o: Option<T>) -> Seq<T> {
    match o {
        Some(x) => seq![x],
        None => Seq::empty(),
    }
}

/// The role of a record: `message.role`, else its `type`, else empty.
pub open spec fn role_s(m: Message) -> Seq<char> {
    match m.message {
        Some(b) if b.role is Some => b.role->0@,
        _ => match m.entry_type {
            Some(t) => t@,
            None => Seq::empty(),
        },
    }
}

/// The text of a content block that is `{"type":"text","text":...}`.
pub open spec fn block_text(b: JsonValue) -> Option<Seq<char>> {
    if str_field(b, "type"@) == Some("text"@) {
        str_field(b, "text"@)
    } else {
        None
    }
}

/// The texts of the text blocks, in order.
pub open spec fn text_parts_s(blocks: Seq<JsonValue>) -> Seq<Seq<char>>
    decreases blocks.len(),
{
    if blocks.len() == 0 {
        Seq::empty()
    } else {
        text_parts_s(blocks.drop_last()) + opt_seq(block_text(blocks.last()))
    }
}

/// The readable text of a record: its string content trimmed, or its text
/// blocks joined by newlines; `None` when there is none.
pub open spec fn extract_text_s(m: Message) -> Option<Seq<char>> {
    match m.message {
        None => None,
        Some(b) => match b.content {
            Some(JsonValue::Str(s)) => if trim_s(s@).len() == 0 {
                None
            } else {
                Some(trim_s(s@))
            },
            Some(JsonValue::Array(blocks)) => if text_parts_s(blocks@).len() == 0 {
                None
            } else {
                Some(join_s(text_parts_s(blocks@), seq!['\n']))
            },
            _ => None,
        },
    }
}

/// The content blocks of a record whose content is an array.
pub open spec fn content_blocks(m: Message) -> Option<Seq<JsonValue>> {
    match m.message {
        Some(b) => match b.content {
            Some(JsonValue::Array(blocks)) => Some(blocks@),
            _ => None,
        },
        None => None,
    }
}

/// The readable text of a record with content blocks grows block by
/// block: a record with one more block at the end reads as before, with a
/// newline and that block's text added when it is a text block (or as
/// that text alone when nothing was readable before). A single text block
/// reads as its text. So every text block's text is kept, in order.
pub proof fn extract_text_appends_blocks(m1: Message, m2: Message, b: JsonValue)
    requires
        content_blocks(m1) is Some,
        content_blocks(m2) == Some(content_blocks(m1)->0.push(b)),
    ensures
        block_text(b) matches Some(t) ==> extract_text_s(m2) == Some(
            match extract_text_s(m1) {
                Some(x) => x + seq!['\n'] + t,
                None => t,
            },
        ),
        block_text(b) is None ==> extract_text_s(m2) == extract_text_s(m1),
        content_blocks(m1)->0.len() == 0 ==> extract_text_s(m1) is None,
{
    let a1 = content_blocks(m1)->0;
    let a2 = a1.push(b);
    assert(a2.drop_last() =~= a1);
    assert(a2.last() == b);
    let p1 = text_parts_s(a1);
    assert(text_parts_s(a2) == p1 + opt_seq(block_text(b)));
    if a1.len() == 0 {
        assert(text_parts_s(a1) == Seq::<Seq<char>>::empty());
    }
    match block_text(b) {
        Some(t) => {
            let p2 = p1 + seq![t];
            assert(opt_seq(block_text(b)) == seq![t]);
            assert(p2.drop_last() =~= p1);
            assert(p2.last() == t);
            if p1.len() == 0 {
                assert(p2 =~= seq![t]);
            }
        },
        None => {
            assert(opt_seq(block_text(b)) == Seq::<Seq<char>>::empty());
            assert(p1 + Seq::<Seq<char>>::empty() =~= p1);
        },
    }
}

/// Text that the harness wraps around commands and reminders rather than
/// conversation: after leading whitespace it starts with one of its tags.
pub open spec fn is_harness_wrapper_s(s: Seq<char>) -> bool {
    let t = trim_start_s(s);
    ||| starts_with_s(t, "<local-command-caveat>"@)
    ||| starts_with_s(t, "<command-message>"@)
    ||| starts_with_s(t, "<command-name>"@)
    ||| starts_with_s(t, "<command-args>"@)
    ||| starts_with_s(t, "<bash-input>"@)
    ||| starts_with_s(t, "<bash-stdout>"@)
    ||| starts_with_s(t, "<bash-stderr>"@)
    ||| starts_with_s(t, "<system-reminder>"@)
}

/// The record carries conversation text: some readable text that is not
/// blank and not a harness wrapper.
pub open spec fn has_conversation_text(m: Message) -> bool {
    match extract_text_s(m) {
        Some(t) => trim_s(t).len() > 0 && !is_harness_wrapper_s(trim_s(t)),
        None => false,
    }
}

/// A user prompt shown to the reader: role `user` with conversation text.
pub open spec fn is_visible_user_s(m: Message) -> bool {
    role_s(m) == "user"@ && has_conversation_text(m)
}

/// A message shown to the reader: role `user` or `assistant` with
/// conversation text.
pub open spec fn is_visible_s(m: Message) -> bool {
    (role_s(m) == "user"@ || role_s(m) == "assistant"@) && has_conversation_text(m)
}

/// The role of a record.
pub fn role_of(m: &Message) -> (r: String)
    ensures
        r@ == role_s(*m),
{
    match &m.message {
        Some(b) if b.role.is_some() => {
            match &b.role {
                Some(x) => x.clone(),
                None => String::new(),
            }
        },
        _ => match &m.entry_type {
            Some(t) => t.clone(),
            None => String::new(),
        },
    }
}

/// The texts of the text blocks, in order.
pub fn text_parts(blocks: &Vec<JsonValue>) -> (r: Vec<String>)
    ensures
        r@.map_values(|p: String| p@) == text_parts_s(blocks@),
{
    let mut out: Vec<String> = Vec::new();
    let mut i: usize = 0;
    while i < blocks.len()
        invariant
            i <= blocks.len(),
            out@.map_values(|p: String| p@) == text_parts_s(blocks@.take(i as int)),
        decreases blocks.len() - i,
    {
        let ghost before = out@;
        proof {
            let t = blocks@.take(i + 1);
            assert(t.drop_last() =~= blocks@.take(i as int));
            assert(t.last() == blocks@[i as int]);
        }
        if field_is(&blocks[i], "type", "text") {
            match get_str(&blocks[i], "text") {
                Some(t) => {
                    out.push(t.clone());
                },
                None => {},
            }
        }
        assert(out@.map_values(|p: String| p@) =~= before.map_values(|p: String| p@) + opt_seq(
            block_text(blocks@[i as int]),
        ));
        i = i + 1;
    }
    assert(blocks@.take(blocks.len() as int) =~= blocks@);
    out
}

/// The readable text of a record.
pub fn extract_text(m: &Message) -> (r: Option<String>)
    ensures
        opt_view(r) == extract_text_s(*m),
{
    match &m.message {
        None => None,
        Some(b) => match &b.content {
            Some(JsonValue::Str(s)) => {
                let t = trim(s.as_str());
                if t.as_str().is_empty() {
                    None
                } else {
                    Some(t)
                }
            },
            Some(JsonValue::Array(blocks)) => {
                let parts = text_parts(blocks);
                if parts.len() == 0 {
                    None
                } else {
                    proof {
                        reveal_strlit("\n");
                        assert("\n"@ =~= seq!['\n']);
                    }
                    Some(join(&parts, "\n"))
                }
            },
            _ => None,
        },
    }
}

/// Whether `s` is a harness wrapper rather than conversation.
pub fn is_harness_wrapper(s: &str) -> (r: bool)
    ensures
        r == is_harness_wrapper_s(s@),
{
    let t = trim_start(s);
    let t = t.as_str();
    starts_with(t, "<local-command-caveat>") || starts_with(t, "<command-message>")
        || starts_with(t, "<command-name>") || starts_with(t, "<command-args>")
        || starts_with(t, "<bash-input>") || starts_with(t, "<bash-stdout>")
        || starts_with(t, "<bash-stderr>") || starts_with(t, "<system-reminder>")
}

/// Whether the record carries conversation text.
pub fn conversation_text(m: &Message) -> (r: bool)
    ensures
        r == has_conversation_text(*m),
{
    match extract_text(m) {
        Some(text) => {
            let t = trim(text.as_str());
            !t.as_str().is_empty() && !is_harness_wrapper(t.as_str())
        },
        None => false,
    }
}

/// Whether the record is a user prompt shown to the reader.
pub fn is_visible_user(m: &Message) -> (r: bool)
    ensures
        r == is_visible_user_s(*m),
{
    let role = role_of(m);
    if !str_eq(role.as_str(), "user") {
        return false;
    }
    conversation_text(m)
}

/// Whether the record is a user or assistant message shown to the reader.
pub fn is_visible(m: &Message) -> (r: bool)
    ensures
        r == is_visible_s(*m),
{
    let role = role_of(m);
    if !str_eq(role.as_str(), "user") && !str_eq(role.as_str(), "assistant") {
        return false;
    }
    conversation_text(m)
}

/// Where a tool call lives: the record holding its `tool_use`, and the
/// record holding its `tool_result`, if any.
#[derive(Debug, Default, Clone, Copy)]
pub struct PairEntry {
    pub use_idx: usize,
    pub result_idx: Option<usize>,
}

/// The tool-call and turn structure of a session.
#[derive(Debug)]
pub struct PairIndex {
    /// Tool call id -> where its use and result live, one entry per id in
    /// the order the ids were first used.
    pub by_id: Vec<(String, PairEntry)>,
    /// Record index -> the tool call ids it uses or answers, in block
    /// order; records without any have no entry.
    pub by_msg: HashMap<usize, Vec<String>>,
    /// Records holding a `tool_result` whose call was not used before it.
    pub orphan_results: Vec<usize>,
    /// Per record, the index of the visible user prompt that opens its
    /// turn: the last visible user prompt at or before it; `usize::MAX`
    /// before the first one.
    pub turn_of: Vec<usize>,
}

/// The tool call a content block makes (`true`, with its `id`) or answers
/// (`false`, with its `tool_use_id`).
pub open spec fn block_ref(b: JsonValue) -> Option<(bool, Seq<char>)> {
    if str_field(b, "type"@) == Some("tool_use"@) {
        match str_field(b, "id"@) {
            Some(id) => Some((true, id)),
            None => None,
        }
    } else if str_field(b, "type"@) == Some("tool_result"@) {
        match str_field(b, "tool_use_id"@) {
            Some(id) => Some((false, id)),
            None => None,
        }
    } else {
        None
    }
}

/// The tool calls made or answered by the blocks, in order.
pub open spec fn refs_s(blocks: Seq<JsonValue>) -> Seq<(bool, Seq<char>)>
    decreases blocks.len(),
{
    if blocks.len() == 0 {
        Seq::empty()
    } else {
        refs_s(blocks.drop_last()) + opt_seq(block_ref(blocks.last()))
    }
}

/// The tool calls a record makes or answers: those of its content blocks
/// when its content is an array.
pub open spec fn msg_refs(m: Message) -> Seq<(bool, Seq<char>)> {
    match m.message {
        Some(b) => match b.content {
            Some(JsonValue::Array(blocks)) => refs_s(blocks@),
            _ => Seq::empty(),
        },
        None => Seq::empty(),
    }
}

/// The tool call ids of a record, in order.
pub open spec fn msg_ids(m: Message) -> Seq<Seq<char>> {
    msg_refs(m).map_values(|r: (bool, Seq<char>)| r.1)
}

/// The position of the entry for `id`.
pub open spec fn entry_pos(by_id: Seq<(Seq<char>, PairEntry)>, id: Seq<char>) -> Option<int>
    decreases by_id.len(),
{
    if by_id.len() == 0 {
        None
    } else if by_id.last().0 == id {
        match entry_pos(by_id.drop_last(), id) {
            Some(p) => Some(p),
            None => Some(by_id.len() - 1),
        }
    } else {
        entry_pos(by_id.drop_last(), id)
    }
}

/// The entry for `id`.
pub open spec fn entry_s(by_id: Seq<(Seq<char>, PairEntry)>, id: Seq<char>) -> Option<PairEntry> {
    match entry_pos(by_id, id) {
        Some(p) => Some(by_id[p].1),
        None => None,
    }
}

/// The state of the tool-call table while a session is read: the entries,
/// and the results read before any use of their call (record and id).
pub type PairState = (Seq<(Seq<char>, PairEntry)>, Seq<(usize, Seq<char>)>);

/// The position of the last waiting result for call `id`.
pub open spec fn last_pending(pend: Seq<(usize, Seq<char>)>, id: Seq<char>) -> Option<int>
    decreases pend.len(),
{
    if pend.len() == 0 {
        None
    } else if pend.last().1 == id {
        Some(pend.len() - 1)
    } else {
        last_pending(pend.drop_last(), id)
    }
}

/// The waiting results without those for call `id`.
pub open spec fn without_id(pend: Seq<(usize, Seq<char>)>, id: Seq<char>) -> Seq<(usize, Seq<char>)>
    decreases pend.len(),
{
    if pend.len() == 0 {
        Seq::empty()
    } else if pend.last().1 == id {
        without_id(pend.drop_last(), id)
    } else {
        without_id(pend.drop_last(), id).push(pend.last())
    }
}

/// The records of the waiting results.
pub open spec fn pending_records(pend: Seq<(usize, Seq<char>)>) -> Seq<usize> {
    pend.map_values(|x: (usize, Seq<char>)| x.0)
}

/// Reading one tool call of record `idx`: a use records (or moves) where
/// the call is used; the first use of a call whose result was read before
/// it pairs with the last such result, which stops waiting (with the other
/// results read for that call). A result attaches to its call, or waits as
/// an orphan when the call was not used yet.
pub open spec fn apply_ref(st: PairState, idx: usize, r: (bool, Seq<char>)) -> PairState {
    if r.0 {
        match entry_pos(st.0, r.1) {
            Some(p) => (
                st.0.update(p, (r.1, PairEntry { use_idx: idx, result_idx: st.0[p].1.result_idx })),
                st.1,
            ),
            None => match last_pending(st.1, r.1) {
                Some(k) => (
                    st.0.push((r.1, PairEntry { use_idx: idx, result_idx: Some(st.1[k].0) })),
                    without_id(st.1, r.1),
                ),
                None => (st.0.push((r.1, PairEntry { use_idx: idx, result_idx: None })), st.1),
            },
        }
    } else {
        match entry_pos(st.0, r.1) {
            Some(p) => (
                st.0.update(p, (r.1, PairEntry { use_idx: st.0[p].1.use_idx, result_idx: Some(idx) })),
                st.1,
            ),
            None => (st.0, st.1.push((idx, r.1))),
        }
    }
}

pub open spec fn apply_refs(st: PairState, idx: usize, refs: Seq<(bool, Seq<char>)>) -> PairState
    decreases refs.len(),
{
    if refs.len() == 0 {
        st
    } else {
        apply_ref(apply_refs(st, idx, refs.drop_last()), idx, refs.last())
    }
}

/// The table after reading the first `k` records.
pub open spec fn pair_state(msgs: Seq<Message>, k: int) -> PairState
    decreases k,
{
    if k <= 0 {
        (Seq::empty(), Seq::empty())
    } else {
        apply_refs(pair_state(msgs, k - 1), (k - 1) as usize, msg_refs(msgs[k - 1]))
    }
}

/// An orphan result is settled when one of the ids of its record has its
/// result at that very record.
pub open spec fn orphan_settled(by_id: Seq<(Seq<char>, PairEntry)>, ids: Seq<Seq<char>>, o: usize) -> bool {
    exists|k: int|
        0 <= k < ids.len() && ((#[trigger] entry_s(by_id, ids[k])) matches Some(e) && e.result_idx
            == Some(o))
}

/// The orphans among `orphans` that are not settled.
pub open spec fn open_orphans(msgs: Seq<Message>, by_id: Seq<(Seq<char>, PairEntry)>, orphans: Seq<usize>) -> Seq<usize>
    decreases orphans.len(),
{
    if orphans.len() == 0 {
        Seq::empty()
    } else {
        let o = orphans.last();
        let keep = !(o < msgs.len() && orphan_settled(by_id, msg_ids(msgs[o as int]), o));
        open_orphans(msgs, by_id, orphans.drop_last()) + if keep {
            seq![o]
        } else {
            Seq::empty()
        }
    }
}

/// The last visible user prompt among the first `k` records.
pub open spec fn anchor_below(msgs: Seq<Message>, k: int) -> Option<int>
    decreases k,
{
    if k <= 0 {
        None
    } else if is_visible_user_s(msgs[k - 1]) {
        Some(k - 1)
    } else {
        anchor_below(msgs, k - 1)
    }
}

/// The turn anchor of record `i`.
pub open spec fn turn_anchor(msgs: Seq<Message>, i: int) -> usize {
    match anchor_below(msgs, i + 1) {
        Some(a) => a as usize,
        None => usize::MAX,
    }
}

/// The table with ids written as strings.
pub open spec fn by_id_view(v: Seq<(String, PairEntry)>) -> Seq<(Seq<char>, PairEntry)> {
    v.map_values(|e: (String, PairEntry)| (e.0@, e.1))
}

/// The index that `PairIndex::build` gives for `msgs`.
pub open spec fn built_from(p: PairIndex, msgs: Seq<Message>) -> bool {
    let st = pair_state(msgs, msgs.len() as int);
    &&& by_id_view(p.by_id@) == st.0
    &&& p.orphan_results@ == open_orphans(msgs, st.0, pending_records(st.1))
    &&& p.turn_of@.len() == msgs.len()
    &&& forall|i: int| 0 <= i < msgs.len() ==> #[trigger] p.turn_of@[i] == turn_anchor(msgs, i)
    &&& forall|i: usize|
        #![trigger p.by_msg@.contains_key(i)]
        p.by_msg@.contains_key(i) <==> (i < msgs.len() && msg_refs(msgs[i as int]).len() > 0)
    &&& forall|i: usize|
        #![trigger p.by_msg@[i]]
        p.by_msg@.contains_key(i) ==> p.by_msg@[i]@.map_values(|s: String| s@) == msg_ids(
            msgs[i as int],
        )
}

proof fn lemma_entry_pos_prefix(s: Seq<(Seq<char>, PairEntry)>, id: Seq<char>, k: int)
    requires
        0 <= k < s.len(),
    ensures
        entry_pos(s.take(k + 1), id) == if entry_pos(s.take(k), id) is Some {
            entry_pos(s.take(k), id)
        } else if s[k].0 == id {
            Some(k)
        } else {
            None::<int>
        },
{
    let t = s.take(k + 1);
    assert(t.drop_last() =~= s.take(k));
}

proof fn lemma_entry_pos_stable(s: Seq<(Seq<char>, PairEntry)>, id: Seq<char>, k: int, m: int)
    requires
        0 <= k <= m <= s.len(),
        entry_pos(s.take(k), id) is Some,
    ensures
        entry_pos(s.take(m), id) == entry_pos(s.take(k), id),
    decreases m - k,
{
    if m > k {
        lemma_entry_pos_stable(s, id, k, m - 1);
        lemma_entry_pos_prefix(s, id, m - 1);
    }
}

proof fn lemma_entry_pos_bound(s: Seq<(Seq<char>, PairEntry)>, id: Seq<char>)
    ensures
        entry_pos(s, id) matches Some(p) ==> 0 <= p < s.len() && s[p].0 == id,
    decreases s.len(),
{
    if s.len() > 0 {
        lemma_entry_pos_bound(s.drop_last(), id);
    }
}

/// The position of the entry for `id`.
pub fn find_entry(by_id: &Vec<(String, PairEntry)>, id: &str) -> (r: Option<usize>)
    ensures
        match r {
            Some(p) => entry_pos(by_id_view(by_id@), id@) == Some(p as int),
            None => entry_pos(by_id_view(by_id@), id@) is None,
        },
{
    let ghost s = by_id_view(by_id@);
    let mut i: usize = 0;
    assert(s.take(0) =~= Seq::<(Seq<char>, PairEntry)>::empty());
    while i < by_id.len()
        invariant
            i <= by_id.len(),
            s == by_id_view(by_id@),
            entry_pos(s.take(i as int), id@) is None,
        decreases by_id.len() - i,
    {
        proof {
            lemma_entry_pos_prefix(s, id@, i as int);
        }
        if str_eq(by_id[i].0.as_str(), id) {
            proof {
                lemma_entry_pos_stable(s, id@, i + 1, s.len() as int);
                assert(s.take(s.len() as int) =~= s);
            }
            return Some(i);
        }
        i = i + 1;
    }
    assert(s.take(s.len() as int) =~= s);
    None
}

/// The tool call a content block makes or answers.
fn block_ref_of(b: &JsonValue) -> (r: Option<(bool, String)>)
    ensures
        match r {
            Some(x) => block_ref(*b) == Some((x.0, x.1@)),
            None => block_ref(*b) is None,
        },
{
    if field_is(b, "type", "tool_use") {
        match get_str(b, "id") {
            Some(id) => Some((true, id.clone())),
            None => None,
        }
    } else if field_is(b, "type", "tool_result") {
        match get_str(b, "tool_use_id") {
            Some(id) => Some((false, id.clone())),
            None => None,
        }
    } else {
        None
    }
}

/// The tool calls a record makes or answers, in order.
pub fn message_refs(m: &Message) -> (r: Vec<(bool, String)>)
    ensures
        r@.map_values(|x: (bool, String)| (x.0, x.1@)) == msg_refs(*m),
{
    let mut out: Vec<(bool, String)> = Vec::new();
    match &m.message {
        Some(b) => match &b.content {
            Some(JsonValue::Array(blocks)) => {
                let mut i: usize = 0;
                while i < blocks.len()
                    invariant
                        i <= blocks.len(),
                        msg_refs(*m) == refs_s(blocks@),
                        out@.map_values(|x: (bool, String)| (x.0, x.1@)) == refs_s(
                            blocks@.take(i as int),
                        ),
                    decreases blocks.len() - i,
                {
                    let ghost before = out@;
                    proof {
                        let t = blocks@.take(i + 1);
                        assert(t.drop_last() =~= blocks@.take(i as int));
                        assert(t.last() == blocks@[i as int]);
                    }
                    match block_ref_of(&blocks[i]) {
                        Some(x) => {
                            out.push(x);
                        },
                        None => {},
                    }
                    assert(out@.map_values(|x: (bool, String)| (x.0, x.1@)) =~= before.map_values(
                        |x: (bool, String)| (x.0, x.1@),
                    ) + opt_seq(block_ref(blocks@[i as int])));
                    i = i + 1;
                }
                assert(blocks@.take(blocks.len() as int) =~= blocks@);
            },
            _ => {},
        },
        None => {},
    }
    out
}

/// The waiting results with ids written as strings.
pub open spec fn pend_view(v: Seq<(usize, String)>) -> Seq<(usize, Seq<char>)> {
    v.map_values(|x: (usize, String)| (x.0, x.1@))
}

/// The position of the last waiting result for call `id`.
fn find_pending(pend: &Vec<(usize, String)>, id: &str) -> (r: Option<usize>)
    ensures
        r matches Some(k) ==> last_pending(pend_view(pend@), id@) == Some(k as int),
        r is None ==> last_pending(pend_view(pend@), id@) is None,
{
    let ghost v = pend_view(pend@);
    let mut k: usize = pend.len();
    assert(v.take(k as int) =~= v);
    while k > 0
        invariant
            k <= pend.len(),
            v == pend_view(pend@),
            last_pending(v, id@) == last_pending(v.take(k as int), id@),
        decreases k,
    {
        let ghost t = v.take(k as int);
        if str_eq(pend[k - 1].1.as_str(), id) {
            assert(t.last() == v[k - 1]);
            return Some(k - 1);
        }
        assert(t.drop_last() =~= v.take(k - 1));
        k = k - 1;
    }
    None
}

/// The waiting results without those for call `id`.
fn drop_pending(pend: &Vec<(usize, String)>, id: &str) -> (r: Vec<(usize, String)>)
    ensures
        pend_view(r@) == without_id(pend_view(pend@), id@),
{
    let ghost v = pend_view(pend@);
    let mut out: Vec<(usize, String)> = Vec::new();
    let mut k: usize = 0;
    while k < pend.len()
        invariant
            k <= pend.len(),
            v == pend_view(pend@),
            pend_view(out@) == without_id(v.take(k as int), id@),
        decreases pend.len() - k,
    {
        let ghost t = v.take(k + 1);
        assert(t.drop_last() =~= v.take(k as int));
        if !str_eq(pend[k].1.as_str(), id) {
            let ghost before = out@;
            out.push((pend[k].0, pend[k].1.clone()));
            assert(pend_view(out@) =~= pend_view(before).push(v[k as int]));
        }
        k = k + 1;
    }
    assert(v.take(pend.len() as int) =~= v);
    out
}

/// Reads one tool call of record `idx` into the table.
fn apply_ref_exec(
    by_id: &mut Vec<(String, PairEntry)>,
    pending: &mut Vec<(usize, String)>,
    idx: usize,
    is_use: bool,
    id: &String,
)
    ensures
        (by_id_view(final(by_id)@), pend_view(final(pending)@)) == apply_ref(
            (by_id_view(old(by_id)@), pend_view(old(pending)@)),
            idx,
            (is_use, id@),
        ),
{
    let ghost s = by_id_view(by_id@);
    let ghost pv = pend_view(pending@);
    proof {
        lemma_entry_pos_bound(s, id@);
        lemma_last_pending(pv, id@);
    }
    match find_entry(by_id, id.as_str()) {
        Some(p) => {
            let old_entry = by_id[p].1;
            let e = if is_use {
                PairEntry { use_idx: idx, result_idx: old_entry.result_idx }
            } else {
                PairEntry { use_idx: old_entry.use_idx, result_idx: Some(idx) }
            };
            by_id.set(p, (id.clone(), e));
            assert(by_id_view(by_id@) =~= s.update(p as int, (id@, e)));
        },
        None => {
            if is_use {
                let result_idx = match find_pending(pending, id.as_str()) {
                    Some(k) => {
                        let r = pending[k].0;
                        let rest = drop_pending(pending, id.as_str());
                        *pending = rest;
                        Some(r)
                    },
                    None => None,
                };
                by_id.push((id.clone(), PairEntry { use_idx: idx, result_idx }));
                assert(by_id_view(by_id@) =~= s.push((id@, PairEntry { use_idx: idx, result_idx })));
            } else {
                let ghost before = pending@;
                pending.push((idx, id.clone()));
                assert(pend_view(pending@) =~= pend_view(before).push((idx, id@)));
            }
        },
    }
}

/// Whether one of `ids` has its result at record `o`.
fn settled(by_id: &Vec<(String, PairEntry)>, ids: &Vec<String>, o: usize) -> (r: bool)
    ensures
        r == orphan_settled(by_id_view(by_id@), ids@.map_values(|s: String| s@), o),
{
    let ghost s = by_id_view(by_id@);
    let ghost v = ids@.map_values(|s: String| s@);
    let mut k: usize = 0;
    while k < ids.len()
        invariant
            k <= ids.len(),
            s == by_id_view(by_id@),
            v == ids@.map_values(|s: String| s@),
            forall|j: int|
                0 <= j < k ==> !((#[trigger] entry_s(s, v[j])) matches Some(e) && e.result_idx
                    == Some(o)),
        decreases ids.len() - k,
    {
        proof {
            lemma_entry_pos_bound(s, v[k as int]);
        }
        match find_entry(by_id, ids[k].as_str()) {
            Some(p) => {
                if by_id[p].1.result_idx == Some(o) {
                    assert(entry_s(s, v[k as int]) == Some(by_id@[p as int].1));
                    return true;
                }
            },
            None => {},
        }
        k = k + 1;
    }
    false
}

/// The records that tool calls `ids[0..k]` pair with: where each is used
/// and where it is answered.
pub open spec fn ids_partners(p: PairIndex, ids: Seq<String>, k: int) -> Set<usize> {
    Set::new(
        |x: usize|
            exists|q: int|
                0 <= q < k && q < ids.len() && ((#[trigger] entry_s(by_id_view(p.by_id@), ids[q]@))
                    matches Some(e) && (e.use_idx == x || e.result_idx == Some(x))),
    )
}

/// The records that the tool calls of record `i` pair it with.
pub open spec fn partners(p: PairIndex, i: usize) -> Set<usize> {
    if p.by_msg@.contains_key(i) {
        ids_partners(p, p.by_msg@[i]@, p.by_msg@[i]@.len() as int)
    } else {
        Set::empty()
    }
}

/// The records paired through tool calls with the records of `list`.
pub open spec fn list_partners(p: PairIndex, list: Seq<usize>) -> Set<usize> {
    Set::new(
        |x: usize| exists|j: int| 0 <= j < list.len() && #[trigger] partners(p, list[j]).contains(x),
    )
}

/// First step of auto-pairing: a marked record pulls in the records where
/// its tool calls are used and answered.
pub open spec fn pair_tools(p: PairIndex, marked: Set<usize>) -> Set<usize> {
    marked.union(
        Set::new(|x: usize| exists|i: usize| marked.contains(i) && #[trigger] partners(p, i).contains(x)),
    )
}

/// The turns touched by the marked records.
pub open spec fn turn_anchors(p: PairIndex, marked: Set<usize>) -> Set<usize> {
    Set::new(
        |a: usize|
            a != usize::MAX && exists|i: usize|
                marked.contains(i) && i < p.turn_of.len() && #[trigger] p.turn_of@[i as int] == a,
    )
}

/// Second step of auto-pairing: every record of a touched turn is marked.
pub open spec fn pair_turns(p: PairIndex, marked: Set<usize>) -> Set<usize> {
    marked.union(
        Set::new(
            |i: usize|
                i < p.turn_of.len() && p.turn_of@[i as int] != usize::MAX && turn_anchors(
                    p,
                    marked,
                ).contains(p.turn_of@[i as int]),
        ),
    )
}

/// One pass of auto-pairing: the tool step, then the turn step.
pub open spec fn pair_pass(p: PairIndex, marked: Set<usize>) -> Set<usize> {
    pair_turns(p, pair_tools(p, marked))
}

/// A marked set that auto-pairing leaves as it is: with every marked
/// record, the records where its tool calls are used and answered are
/// marked, and so is every record of its turn.
pub open spec fn pair_closed(p: PairIndex, m: Set<usize>) -> bool {
    &&& forall|i: usize, x: usize|
        m.contains(i) && #[trigger] partners(p, i).contains(x) ==> m.contains(x)
    &&& forall|i: usize, j: usize|
        m.contains(i) && i < p.turn_of.len() && j < p.turn_of.len() && p.turn_of@[i as int]
            != usize::MAX && #[trigger] p.turn_of@[j as int] == #[trigger] p.turn_of@[i as int]
            ==> m.contains(j)
}

/// The marked set after auto-pairing: the least set that holds `marked`
/// and is closed under both steps (the records in every such set).
pub open spec fn auto_paired(p: PairIndex, marked: Set<usize>) -> Set<usize> {
    Set::new(
        |x: usize|
            forall|s: Set<usize>| #[trigger]
                marked.subset_of(s) && pair_closed(p, s) ==> s.contains(x),
    )
}

/// The indices of an index's entries name records of its session.
pub open spec fn bounded(p: PairIndex) -> bool {
    entries_below(by_id_view(p.by_id@), p.turn_of.len() as int)
}

proof fn lemma_closed_pass(p: PairIndex, m: Set<usize>)
    requires
        pair_closed(p, m),
    ensures
        pair_pass(p, m) == m,
{
    assert(pair_tools(p, m) =~= m);
    assert(pair_pass(p, m) =~= m);
}

proof fn lemma_pass_closed(p: PairIndex, m: Set<usize>)
    requires
        pair_pass(p, m) == m,
    ensures
        pair_closed(p, m),
{
    assert forall|i: usize, x: usize| m.contains(i) && #[trigger] partners(p, i).contains(x) implies m.contains(x) by {
        assert(pair_tools(p, m).contains(x));
    }
    assert forall|i: usize, j: usize|
        m.contains(i) && i < p.turn_of.len() && j < p.turn_of.len() && p.turn_of@[i as int]
            != usize::MAX && #[trigger] p.turn_of@[j as int] == #[trigger] p.turn_of@[i as int]
            implies m.contains(j) by {
        assert(pair_tools(p, m).contains(i));
        assert(turn_anchors(p, pair_tools(p, m)).contains(p.turn_of@[i as int]));
        assert(pair_pass(p, m).contains(j));
    }
}

proof fn lemma_pass_monotone(p: PairIndex, a: Set<usize>, b: Set<usize>)
    requires
        a.subset_of(b),
    ensures
        pair_pass(p, a).subset_of(pair_pass(p, b)),
{
    assert(pair_tools(p, a).subset_of(pair_tools(p, b)));
    assert(turn_anchors(p, pair_tools(p, a)).subset_of(turn_anchors(p, pair_tools(p, b))));
}

/// Auto-pairing leaves a closed set: every record it marks carries its
/// tool-call partners and its whole turn.
pub proof fn auto_pair_is_closed(p: PairIndex, marked: Set<usize>)
    ensures
        pair_closed(p, auto_paired(p, marked)),
{
    let c = auto_paired(p, marked);
    assert forall|i: usize, x: usize| c.contains(i) && #[trigger] partners(p, i).contains(x) implies c.contains(x) by {
        assert forall|s: Set<usize>| #[trigger] marked.subset_of(s) && pair_closed(p, s) implies s.contains(x) by {
            assert(s.contains(i));
        }
    }
    assert forall|i: usize, j: usize|
        c.contains(i) && i < p.turn_of.len() && j < p.turn_of.len() && p.turn_of@[i as int]
            != usize::MAX && #[trigger] p.turn_of@[j as int] == #[trigger] p.turn_of@[i as int]
            implies c.contains(j) by {
        assert forall|s: Set<usize>| #[trigger] marked.subset_of(s) && pair_closed(p, s) implies s.contains(j) by {
            assert(s.contains(i));
        }
    }
}

/// Auto-pairing only adds: every marked record stays marked.
pub proof fn auto_pair_keeps_marked(p: PairIndex, marked: Set<usize>)
    ensures
        marked.subset_of(auto_paired(p, marked)),
{
}

/// Auto-pairing adds no more than it must: its result lies inside every
/// closed set that holds the marked records.
pub proof fn auto_pair_is_least(p: PairIndex, marked: Set<usize>, s: Set<usize>)
    requires
        marked.subset_of(s),
        pair_closed(p, s),
    ensures
        auto_paired(p, marked).subset_of(s),
{
}

/// No delete splits a tool call: for a tool call of any record that
/// auto-pairing marks, the records of its `tool_use` and of its
/// `tool_result` are marked too.
pub proof fn auto_pair_marks_tool_partners(p: PairIndex, marked: Set<usize>, i: usize, q: int)
    requires
        auto_paired(p, marked).contains(i),
        p.by_msg@.contains_key(i),
        0 <= q < p.by_msg@[i]@.len(),
    ensures
        entry_s(by_id_view(p.by_id@), p.by_msg@[i]@[q]@) matches Some(e) ==> {
            &&& auto_paired(p, marked).contains(e.use_idx)
            &&& (e.result_idx matches Some(r) ==> auto_paired(p, marked).contains(r))
        },
{
    auto_pair_is_closed(p, marked);
    let ids = p.by_msg@[i]@;
    if let Some(e) = entry_s(by_id_view(p.by_id@), ids[q]@) {
        assert(ids_partners(p, ids, ids.len() as int).contains(e.use_idx));
        assert(partners(p, i).contains(e.use_idx));
        if let Some(r) = e.result_idx {
            assert(ids_partners(p, ids, ids.len() as int).contains(r));
            assert(partners(p, i).contains(r));
        }
    }
}

/// Whole turns travel together: when auto-pairing marks a record of a
/// turn, it marks every record of that turn.
pub proof fn auto_pair_marks_whole_turn(p: PairIndex, marked: Set<usize>, i: usize, j: usize)
    requires
        auto_paired(p, marked).contains(i),
        i < p.turn_of.len(),
        j < p.turn_of.len(),
        p.turn_of@[i as int] != usize::MAX,
        p.turn_of@[j as int] == p.turn_of@[i as int],
    ensures
        auto_paired(p, marked).contains(j),
{
    auto_pair_is_closed(p, marked);
}

/// Marking more never pairs less.
pub proof fn auto_pair_monotone(p: PairIndex, a: Set<usize>, b: Set<usize>)
    requires
        a.subset_of(b),
    ensures
        auto_paired(p, a).subset_of(auto_paired(p, b)),
{
    auto_pair_is_closed(p, b);
    auto_pair_keeps_marked(p, b);
    assert(a.subset_of(auto_paired(p, b)));
    auto_pair_is_least(p, a, auto_paired(p, b));
}

/// Nothing marked pairs nothing.
pub proof fn auto_pair_of_nothing(p: PairIndex)
    ensures
        auto_paired(p, Set::empty()) == Set::<usize>::empty(),
{
    assert(pair_closed(p, Set::<usize>::empty()));
    assert(auto_paired(p, Set::empty()) =~= Set::<usize>::empty()) by {
        assert forall|x: usize| !auto_paired(p, Set::empty()).contains(x) by {
            assert(Set::<usize>::empty().subset_of(Set::<usize>::empty()));
        }
    }
}

/// Auto-pairing a closed set together with record `i` adds exactly the
/// records that auto-pairing `i` alone marks.
pub proof fn auto_pair_joins_closed(p: PairIndex, m: Set<usize>, i: usize)
    requires
        pair_closed(p, m),
    ensures
        auto_paired(p, m.insert(i)) == m.union(auto_paired(p, set![i])),
{
    let c = auto_paired(p, set![i]);
    auto_pair_is_closed(p, set![i]);
    let u = m.union(c);
    assert(pair_closed(p, u)) by {
        assert forall|a: usize, x: usize| u.contains(a) && #[trigger] partners(p, a).contains(x) implies u.contains(x) by {
            if m.contains(a) {
            } else {
                assert(c.contains(a));
            }
        }
        assert forall|a: usize, b: usize|
            u.contains(a) && a < p.turn_of.len() && b < p.turn_of.len() && p.turn_of@[a as int]
                != usize::MAX && #[trigger] p.turn_of@[b as int] == #[trigger] p.turn_of@[a as int]
                implies u.contains(b) by {
            if m.contains(a) {
            } else {
                assert(c.contains(a));
            }
        }
    }
    auto_pair_keeps_marked(p, set![i]);
    assert(m.insert(i).subset_of(u));
    auto_pair_is_least(p, m.insert(i), u);
    auto_pair_keeps_marked(p, m.insert(i));
    auto_pair_monotone(p, set![i], m.insert(i));
    assert(auto_paired(p, m.insert(i)) =~= u);
}

proof fn lemma_anchor_below(msgs: Seq<Message>, k: int)
    ensures
        anchor_below(msgs, k) matches Some(a) ==> {
            &&& 0 <= a < k
            &&& is_visible_user_s(msgs[a])
            &&& forall|b: int| a < b < k ==> !is_visible_user_s(#[trigger] msgs[b])
        },
        anchor_below(msgs, k) is None ==> forall|b: int|
            0 <= b < k ==> !is_visible_user_s(#[trigger] msgs[b]),
    decreases k,
{
    if k > 0 {
        lemma_anchor_below(msgs, k - 1);
    }
}

/// A turn is a visible user prompt and every record after it up to the
/// next visible user prompt: record `i` belongs to the turn of prompt `a`
/// exactly when `a <= i`, record `a` is a visible user prompt, and no
/// visible user prompt lies in `a+1..=i`; records before the first prompt
/// belong to no turn.
pub proof fn turn_is_last_prompt(p: PairIndex, msgs: Seq<Message>, i: int)
    requires
        built_from(p, msgs),
        0 <= i < msgs.len(),
        msgs.len() < usize::MAX,
    ensures
        p.turn_of@[i] != usize::MAX ==> {
            let a = p.turn_of@[i] as int;
            &&& a <= i
            &&& is_visible_user_s(msgs[a])
            &&& forall|b: int| a < b <= i ==> !is_visible_user_s(#[trigger] msgs[b])
        },
        p.turn_of@[i] == usize::MAX ==> forall|b: int|
            0 <= b <= i ==> !is_visible_user_s(#[trigger] msgs[b]),
{
    lemma_anchor_below(msgs, i + 1);
}

/// Every entry of the table names records below `b`.
pub open spec fn entries_below(s: Seq<(Seq<char>, PairEntry)>, b: int) -> bool {
    forall|j: int|
        0 <= j < s.len() ==> (#[trigger] s[j]).1.use_idx < b && (s[j].1.result_idx matches Some(
            r,
        ) ==> r < b)
}

/// Every waiting result names a record below `b`.
pub open spec fn pending_below(pend: Seq<(usize, Seq<char>)>, b: int) -> bool {
    forall|j: int| 0 <= j < pend.len() ==> (#[trigger] pend[j]).0 < b
}

proof fn lemma_last_pending(pend: Seq<(usize, Seq<char>)>, id: Seq<char>)
    ensures
        last_pending(pend, id) matches Some(k) ==> 0 <= k < pend.len(),
    decreases pend.len(),
{
    if pend.len() > 0 {
        lemma_last_pending(pend.drop_last(), id);
    }
}

proof fn lemma_without_id_below(pend: Seq<(usize, Seq<char>)>, id: Seq<char>, b: int)
    requires
        pending_below(pend, b),
    ensures
        pending_below(without_id(pend, id), b),
    decreases pend.len(),
{
    if pend.len() > 0 {
        lemma_without_id_below(pend.drop_last(), id, b);
        let w = without_id(pend.drop_last(), id);
        if pend.last().1 != id {
            assert forall|j: int| 0 <= j < w.push(pend.last()).len() implies (#[trigger] w.push(
                pend.last(),
            )[j]).0 < b by {
                if j < w.len() {
                    assert(w.push(pend.last())[j] == w[j]);
                }
            }
        }
    }
}

proof fn lemma_apply_refs_below(st: PairState, idx: usize, refs: Seq<(bool, Seq<char>)>, b: int)
    requires
        entries_below(st.0, b),
        pending_below(st.1, b),
        idx < b,
    ensures
        entries_below(apply_refs(st, idx, refs).0, b),
        pending_below(apply_refs(st, idx, refs).1, b),
    decreases refs.len(),
{
    if refs.len() > 0 {
        lemma_apply_refs_below(st, idx, refs.drop_last(), b);
        let s1 = apply_refs(st, idx, refs.drop_last());
        lemma_entry_pos_bound(s1.0, refs.last().1);
        lemma_last_pending(s1.1, refs.last().1);
        lemma_without_id_below(s1.1, refs.last().1, b);
        let s2 = apply_refs(st, idx, refs);
        assert forall|j: int| 0 <= j < s2.1.len() implies (#[trigger] s2.1[j]).0 < b by {
            if s2.1 != s1.1 && s2.1 != without_id(s1.1, refs.last().1) {
                if j < s1.1.len() {
                    assert(s2.1[j] == s1.1[j]);
                }
            }
        }
    }
}

proof fn lemma_pair_state_below(msgs: Seq<Message>, k: int)
    requires
        0 <= k <= msgs.len(),
        msgs.len() <= usize::MAX,
    ensures
        entries_below(pair_state(msgs, k).0, k),
        pending_below(pair_state(msgs, k).1, k),
    decreases k,
{
    if k > 0 {
        lemma_pair_state_below(msgs, k - 1);
        lemma_apply_refs_below(pair_state(msgs, k - 1), (k - 1) as usize, msg_refs(msgs[k - 1]), k);
    }
}

/// The records below `n`.
pub open spec fn below(n: int) -> Set<usize> {
    Set::new(|x: usize| x < n)
}

proof fn lemma_below_len(n: int)
    requires
        0 <= n <= usize::MAX + 1,
    ensures
        below(n).finite(),
        below(n).len() == n,
    decreases n,
{
    if n == 0 {
        assert(below(0) =~= Set::<usize>::empty());
    } else {
        lemma_below_len(n - 1);
        assert(below(n) =~= below(n - 1).insert((n - 1) as usize));
    }
}

proof fn lemma_partners_bounded(p: PairIndex, i: usize, x: usize)
    requires
        bounded(p),
        partners(p, i).contains(x),
    ensures
        x < p.turn_of.len(),
{
    let ids = p.by_msg@[i]@;
    let q = choose|q: int|
        0 <= q < ids.len() && q < ids.len() && ((#[trigger] entry_s(by_id_view(p.by_id@), ids[q]@))
            matches Some(e) && (e.use_idx == x || e.result_idx == Some(x)));
    lemma_entry_pos_bound(by_id_view(p.by_id@), ids[q]@);
}

/// An index built from a session is bounded by it.
pub proof fn built_index_is_bounded(p: PairIndex, msgs: Seq<Message>)
    requires
        built_from(p, msgs),
    ensures
        bounded(p),
{
    assert(p.turn_of.len() == msgs.len());
    lemma_pair_state_below(msgs, msgs.len() as int);
}

/// The records that the first `k` tool-call entries name.
pub open spec fn targets_below(s: Seq<(Seq<char>, PairEntry)>, k: int) -> Set<usize>
    decreases k,
{
    if k <= 0 {
        Set::empty()
    } else {
        let e = s[k - 1].1;
        targets_below(s, k - 1).insert(e.use_idx).union(
            match e.result_idx {
                Some(r) => set![r],
                None => Set::empty(),
            },
        )
    }
}

proof fn lemma_targets(s: Seq<(Seq<char>, PairEntry)>, k: int)
    requires
        0 <= k <= s.len(),
    ensures
        targets_below(s, k).finite(),
        targets_below(s, k).len() <= 2 * k,
        forall|j: int|
            0 <= j < k ==> targets_below(s, k).contains((#[trigger] s[j]).1.use_idx) && (
            s[j].1.result_idx matches Some(r) ==> targets_below(s, k).contains(r)),
    decreases k,
{
    if k > 0 {
        lemma_targets(s, k - 1);
        let e = s[k - 1].1;
        let a = targets_below(s, k - 1).insert(e.use_idx);
        let b: Set<usize> = match e.result_idx {
            Some(r) => set![r],
            None => Set::empty(),
        };
        vstd::set_lib::lemma_len_union(a, b);
        assert(b.len() <= 1) by {
            if let Some(r) = e.result_idx {
                assert(b =~= Set::<usize>::empty().insert(r));
            }
        }
    }
}

/// The records an index can mark at all: those of its session and those
/// its tool-call entries name.
pub open spec fn pair_universe(p: PairIndex) -> Set<usize> {
    below(p.turn_of.len() as int).union(
        targets_below(by_id_view(p.by_id@), by_id_view(p.by_id@).len() as int),
    )
}

proof fn lemma_universe(p: PairIndex)
    ensures
        pair_universe(p).finite(),
        pair_universe(p).len() <= p.turn_of.len() + 2 * p.by_id@.len(),
{
    let bv = by_id_view(p.by_id@);
    lemma_below_len(p.turn_of.len() as int);
    lemma_targets(bv, bv.len() as int);
    vstd::set_lib::lemma_len_union(below(p.turn_of.len() as int), targets_below(bv, bv.len() as int));
}

proof fn lemma_pass_within(p: PairIndex, m: Set<usize>)
    ensures
        pair_pass(p, m).subset_of(m.union(pair_universe(p))),
{
    let bv = by_id_view(p.by_id@);
    lemma_targets(bv, bv.len() as int);
    assert forall|x: usize| pair_tools(p, m).contains(x) && !m.contains(x) implies pair_universe(
        p,
    ).contains(x) by {
        let i = choose|i: usize| m.contains(i) && #[trigger] partners(p, i).contains(x);
        let ids = p.by_msg@[i]@;
        let q = choose|q: int|
            0 <= q < ids.len() && q < ids.len() && ((#[trigger] entry_s(bv, ids[q]@)) matches Some(
                e,
            ) && (e.use_idx == x || e.result_idx == Some(x)));
        lemma_entry_pos_bound(bv, ids[q]@);
        let pos = entry_pos(bv, ids[q]@)->0;
        assert(bv[pos].1.use_idx == x || bv[pos].1.result_idx == Some(x));
    }
}

/// Auto-pairing stays inside the session: when every marked index is a
/// record of the session, so is every index it marks.
pub proof fn auto_pair_stays_in_session(p: PairIndex, msgs: Seq<Message>, marked: Set<usize>)
    requires
        built_from(p, msgs),
        forall|x: usize| marked.contains(x) ==> x < msgs.len(),
    ensures
        forall|x: usize| auto_paired(p, marked).contains(x) ==> x < msgs.len(),
{
    built_index_is_bounded(p, msgs);
    let s = below(msgs.len() as int);
    assert(pair_closed(p, s)) by {
        assert forall|i: usize, x: usize| s.contains(i) && #[trigger] partners(p, i).contains(x) implies s.contains(x) by {
            lemma_partners_bounded(p, i, x);
        }
    }
    assert(marked.subset_of(s));
    auto_pair_is_least(p, marked, s);
}

/// The elements of a set, each once.
fn snapshot(m: &HashSet<usize>) -> (v: Vec<usize>)
    ensures
        v@.to_set() == m@,
        v@.no_duplicates(),
{
    let ghost all = vstd::std_specs::hash::spec_hash_keys_iter(m).remaining();
    let mut v: Vec<usize> = Vec::new();
    for x in it: m.iter()
        invariant
            it.seq() == all,
            v@ == all.take(it.index() as int).unref(),
    {
        v.push(*x);
        assert(v@ =~= all.take(it.index() + 1).unref());
    }
    assert(all.take(all.len() as int) =~= all);
    assert(v@ =~= all.unref());
    v
}

impl PairIndex {
    /// Extends `marked` so that whole exchanges are covered: the
    /// `tool_use` and `tool_result` records of every tool call of a marked
    /// record are marked, and every record of a turn that holds a marked
    /// record is marked, until nothing more is added. Returns how many
    /// indices were added.
    pub fn auto_pair(&self, marked: &mut HashSet<usize>) -> (r: usize)
        ensures
            final(marked)@ == auto_paired(*self, old(marked)@),
            r == final(marked)@.len() - old(marked)@.len(),
    {
        let ghost m0 = marked@;
        let ghost u = pair_universe(*self);
        let ghost n = self.turn_of.len() + 2 * self.by_id.len();
        let before = marked.len();
        // a listing of the set shows that it is finite
        let _ = snapshot(marked);
        proof {
            lemma_universe(*self);
            vstd::set_lib::lemma_len_union(m0, u);
            auto_pair_keeps_marked(*self, m0);
        }
        let mut added = self.pair_pass_once(marked);
        proof {
            lemma_pass_within(*self, m0);
            auto_pair_is_closed(*self, m0);
            lemma_closed_pass(*self, auto_paired(*self, m0));
            lemma_pass_monotone(*self, m0, auto_paired(*self, m0));
            if added == 0 {
                vstd::set_lib::lemma_subset_equality(m0, marked@);
                lemma_pass_closed(*self, m0);
            }
        }
        while added > 0
            invariant
                marked@.finite(),
                m0.finite(),
                u == pair_universe(*self),
                u.finite(),
                m0.union(u).len() <= m0.len() + n,
                m0.subset_of(marked@),
                marked@.subset_of(m0.union(u)),
                marked@.subset_of(auto_paired(*self, m0)),
                added == 0 ==> pair_closed(*self, marked@),
            decreases m0.len() + n - marked@.len(), added,
        {
            let ghost mi = marked@;
            proof {
                vstd::set_lib::lemma_len_subset(mi, m0.union(u));
            }
            added = self.pair_pass_once(marked);
            proof {
                lemma_pass_within(*self, mi);
                auto_pair_is_closed(*self, m0);
                lemma_closed_pass(*self, auto_paired(*self, m0));
                lemma_pass_monotone(*self, mi, auto_paired(*self, m0));
                vstd::set_lib::lemma_len_subset(marked@, m0.union(u));
                if added == 0 {
                    vstd::set_lib::lemma_subset_equality(mi, marked@);
                    lemma_pass_closed(*self, mi);
                }
            }
        }
        proof {
            auto_pair_is_least(*self, m0, marked@);
            assert(marked@ =~= auto_paired(*self, m0));
            vstd::set_lib::lemma_len_subset(m0, marked@);
        }
        marked.len() - before
    }

    /// One pass of auto-pairing (see `pair_pass`).
    fn pair_pass_once(&self, marked: &mut HashSet<usize>) -> (r: usize)
        ensures
            final(marked)@ == pair_pass(*self, old(marked)@),
            r == final(marked)@.len() - old(marked)@.len(),
    {
        let ghost m0 = marked@;
        let before = marked.len();
        let initial = snapshot(marked);
        assert(m0.finite());
        let mut j: usize = 0;
        assert(marked@ =~= m0.union(list_partners(*self, initial@.take(0))));
        while j < initial.len()
            invariant
                j <= initial.len(),
                initial@.to_set() == m0,
                marked@.finite(),
                marked@ == m0.union(list_partners(*self, initial@.take(j as int))),
            decreases initial.len() - j,
        {
            let idx = initial[j];
            let ghost mj = marked@;
            match self.by_msg.get(&idx) {
                Some(ids) => {
                    let mut k: usize = 0;
                    assert(marked@ =~= mj.union(ids_partners(*self, ids@, 0)));
                    while k < ids.len()
                        invariant
                            k <= ids.len(),
                            self.by_msg@.contains_key(idx),
                            self.by_msg@[idx] == *ids,
                            marked@.finite(),
                            marked@ == mj.union(ids_partners(*self, ids@, k as int)),
                        decreases ids.len() - k,
                    {
                        let ghost mk = marked@;
                        match self.entry_for(ids[k].as_str()) {
                            Some(e) => {
                                marked.insert(e.use_idx);
                                match e.result_idx {
                                    Some(r) => {
                                        marked.insert(r);
                                    },
                                    None => {},
                                }
                            },
                            None => {},
                        }
                        assert(marked@ =~= mj.union(ids_partners(*self, ids@, k + 1))) by {
                            assert forall|x: usize|
                                #![trigger ids_partners(*self, ids@, k + 1).contains(x)]
                                ids_partners(*self, ids@, k + 1).contains(x) implies mk.contains(x)
                                || marked@.contains(x) by {
                                let q = choose|q: int|
                                    0 <= q < k + 1 && q < ids@.len() && ((#[trigger] entry_s(
                                        by_id_view(self.by_id@),
                                        ids@[q]@,
                                    )) matches Some(e) && (e.use_idx == x || e.result_idx == Some(
                                        x,
                                    )));
                                if q < k {
                                    assert(ids_partners(*self, ids@, k as int).contains(x));
                                }
                            }
                            assert forall|x: usize|
                                #![trigger marked@.contains(x)]
                                marked@.contains(x) && !mk.contains(x) implies ids_partners(
                                *self,
                                ids@,
                                k + 1,
                            ).contains(x) by {
                                assert(entry_s(by_id_view(self.by_id@), ids@[k as int]@) matches Some(
                                    e,
                                ) && (e.use_idx == x || e.result_idx == Some(x)));
                            }
                            assert forall|x: usize|
                                #![trigger ids_partners(*self, ids@, k as int).contains(x)]
                                ids_partners(*self, ids@, k as int).contains(x) implies ids_partners(
                                *self,
                                ids@,
                                k + 1,
                            ).contains(x) by {
                                let q = choose|q: int|
                                    0 <= q < k && q < ids@.len() && ((#[trigger] entry_s(
                                        by_id_view(self.by_id@),
                                        ids@[q]@,
                                    )) matches Some(e) && (e.use_idx == x || e.result_idx == Some(
                                        x,
                                    )));
                                assert(0 <= q < k + 1);
                            }
                        }
                        k = k + 1;
                    }
                    assert(partners(*self, idx) == ids_partners(*self, ids@, ids@.len() as int));
                },
                None => {
                    assert(partners(*self, idx) =~= Set::<usize>::empty());
                },
            }
            assert(marked@ =~= m0.union(list_partners(*self, initial@.take(j + 1)))) by {
                let t = initial@.take(j + 1);
                assert(t[j as int] == idx);
                assert forall|x: usize|
                    #![trigger list_partners(*self, t).contains(x)]
                    list_partners(*self, t).contains(x) implies list_partners(
                    *self,
                    initial@.take(j as int),
                ).contains(x) || partners(*self, idx).contains(x) by {
                    let q = choose|q: int| 0 <= q < t.len() && #[trigger] partners(*self, t[q]).contains(x);
                    if q < j {
                        assert(initial@.take(j as int)[q] == t[q]);
                    }
                }
                assert forall|x: usize|
                    #![trigger list_partners(*self, initial@.take(j as int)).contains(x)]
                    list_partners(*self, initial@.take(j as int)).contains(x) implies list_partners(
                    *self,
                    t,
                ).contains(x) by {
                    let q = choose|q: int|
                        0 <= q < j && #[trigger] partners(*self, initial@.take(j as int)[q]).contains(x);
                    assert(t[q] == initial@.take(j as int)[q]);
                }
                assert forall|x: usize|
                    #![trigger partners(*self, idx).contains(x)]
                    partners(*self, idx).contains(x) implies list_partners(*self, t).contains(x) by {
                    assert(partners(*self, t[j as int]).contains(x));
                }
            }
            j = j + 1;
        }
        assert(initial@.take(initial.len() as int) =~= initial@);
        let ghost m1 = marked@;
        assert(m1 =~= pair_tools(*self, m0)) by {
            assert forall|x: usize|
                #![trigger list_partners(*self, initial@).contains(x)]
                list_partners(*self, initial@).contains(x) implies (exists|i: usize|
                    m0.contains(i) && #[trigger] partners(*self, i).contains(x)) by {
                let q = choose|q: int|
                    0 <= q < initial@.len() && #[trigger] partners(*self, initial@[q]).contains(x);
                assert(initial@.contains(initial@[q]));
                assert(m0.contains(initial@[q]));
            }
            assert forall|x: usize|
                (exists|i: usize| m0.contains(i) && #[trigger] partners(*self, i).contains(x)) implies
                list_partners(*self, initial@).contains(x) by {
                let i = choose|i: usize| m0.contains(i) && #[trigger] partners(*self, i).contains(x);
                assert(initial@.to_set().contains(i));
                assert(initial@.contains(i));
                let q = choose|q: int| 0 <= q < initial@.len() && initial@[q] == i;
                assert(partners(*self, initial@[q]).contains(x));
            }
        }
        // Step 2: the turns touched by the marked records.
        let n = self.turn_of.len();
        let mut anchors: HashSet<usize> = HashSet::new();
        let mut i: usize = 0;
        while i < n
            invariant
                i <= n,
                n == self.turn_of.len(),
                marked@ == m1,
                anchors@ == Set::new(
                    |a: usize|
                        a != usize::MAX && exists|t: usize|
                            t < i && m1.contains(t) && #[trigger] self.turn_of@[t as int] == a,
                ),
            decreases n - i,
        {
            let ghost a0 = anchors@;
            if marked.contains(&i) && self.turn_of[i] != usize::MAX {
                anchors.insert(self.turn_of[i]);
            }
            assert(anchors@ =~= Set::new(
                |a: usize|
                    a != usize::MAX && exists|t: usize|
                        t < i + 1 && m1.contains(t) && #[trigger] self.turn_of@[t as int] == a,
            )) by {
                assert forall|a: usize|
                    a != usize::MAX && (exists|t: usize|
                        t < i + 1 && m1.contains(t) && #[trigger] self.turn_of@[t as int] == a)
                        implies anchors@.contains(a) by {
                    let t = choose|t: usize|
                        t < i + 1 && m1.contains(t) && #[trigger] self.turn_of@[t as int] == a;
                    if t < i {
                        assert(a0.contains(a));
                    }
                }
            }
            i = i + 1;
        }
        assert(anchors@ =~= turn_anchors(*self, m1));
        if !anchors.is_empty() {
            let mut i: usize = 0;
            while i < n
                invariant
                    i <= n,
                    n == self.turn_of.len(),
                    anchors@ == turn_anchors(*self, m1),
                    marked@.finite(),
                    marked@ == m1.union(
                        Set::new(
                            |t: usize|
                                t < i && self.turn_of@[t as int] != usize::MAX && anchors@.contains(
                                    self.turn_of@[t as int],
                                ),
                        ),
                    ),
                decreases n - i,
            {
                let ghost mk = marked@;
                if self.turn_of[i] != usize::MAX && anchors.contains(&self.turn_of[i]) {
                    marked.insert(i);
                }
                assert(marked@ =~= m1.union(
                    Set::new(
                        |t: usize|
                            t < i + 1 && self.turn_of@[t as int] != usize::MAX && anchors@.contains(
                                self.turn_of@[t as int],
                            ),
                    ),
                ));
                i = i + 1;
            }
            assert(marked@ =~= pair_turns(*self, m1));
        } else {
            assert(marked@ =~= pair_turns(*self, m1));
        }
        proof {
            vstd::set_lib::lemma_len_subset(m0, marked@);
        }
        marked.len() - before
    }

    /// The entry of tool call `id`.
    pub fn entry_for(&self, id: &str) -> (r: Option<PairEntry>)
        ensures
            r == entry_s(by_id_view(self.by_id@), id@),
    {
        proof {
            lemma_entry_pos_bound(by_id_view(self.by_id@), id@);
        }
        match find_entry(&self.by_id, id) {
            Some(p) => Some(self.by_id[p].1),
            None => None,
        }
    }

    /// Reads the tool calls and turns of a session.
    pub fn build(messages: &[Message]) -> (r: PairIndex)
        ensures
            built_from(r, messages@),
    {
        let mut by_id: Vec<(String, PairEntry)> = Vec::new();
        let mut by_msg: HashMap<usize, Vec<String>> = HashMap::new();
        let mut orphans: Vec<(usize, String)> = Vec::new();
        let mut turn_of: Vec<usize> = Vec::new();
        let mut current: Option<usize> = None;
        let mut idx: usize = 0;
        assert(by_id_view(by_id@) =~= Seq::<(Seq<char>, PairEntry)>::empty());
        assert(pend_view(orphans@) =~= Seq::<(usize, Seq<char>)>::empty());
        while idx < messages.len()
            invariant
                idx <= messages.len(),
                (by_id_view(by_id@), pend_view(orphans@)) == pair_state(messages@, idx as int),
                turn_of@.len() == idx,
                forall|i: int| 0 <= i < idx ==> #[trigger] turn_of@[i] == turn_anchor(messages@, i),
                match current {
                    Some(a) => anchor_below(messages@, idx as int) == Some(a as int),
                    None => anchor_below(messages@, idx as int) is None,
                },
                forall|i: usize|
                    #![trigger by_msg@.contains_key(i)]
                    by_msg@.contains_key(i) <==> (i < idx && msg_refs(messages@[i as int]).len()
                        > 0),
                forall|i: usize|
                    #![trigger by_msg@[i]]
                    by_msg@.contains_key(i) ==> by_msg@[i]@.map_values(|s: String| s@) == msg_ids(
                        messages@[i as int],
                    ),
            decreases messages.len() - idx,
        {
            let refs = message_refs(&messages[idx]);
            let ghost rv = refs@.map_values(|x: (bool, String)| (x.0, x.1@));
            let ghost st0 = pair_state(messages@, idx as int);
            let mut ids: Vec<String> = Vec::new();
            let mut k: usize = 0;
            while k < refs.len()
                invariant
                    k <= refs.len(),
                    rv == refs@.map_values(|x: (bool, String)| (x.0, x.1@)),
                    rv == msg_refs(messages@[idx as int]),
                    (by_id_view(by_id@), pend_view(orphans@)) == apply_refs(st0, idx, rv.take(k as int)),
                    ids@.map_values(|s: String| s@) == rv.take(k as int).map_values(
                        |r: (bool, Seq<char>)| r.1,
                    ),
                decreases refs.len() - k,
            {
                proof {
                    let t = rv.take(k + 1);
                    assert(t.drop_last() =~= rv.take(k as int));
                    assert(t.last() == rv[k as int]);
                }
                apply_ref_exec(&mut by_id, &mut orphans, idx, refs[k].0, &refs[k].1);
                let ghost before = ids@;
                ids.push(refs[k].1.clone());
                assert(rv[k as int].1 == refs@[k as int].1@);
                assert(ids@.map_values(|s: String| s@) =~= before.map_values(|s: String| s@).push(
                    refs@[k as int].1@,
                ));
                assert(rv.take(k + 1).map_values(|r: (bool, Seq<char>)| r.1) =~= rv.take(
                    k as int,
                ).map_values(|r: (bool, Seq<char>)| r.1).push(rv[k as int].1));
                assert(ids@.map_values(|s: String| s@) =~= rv.take(k + 1).map_values(
                    |r: (bool, Seq<char>)| r.1,
                ));
                k = k + 1;
            }
            assert(rv.take(refs.len() as int) =~= rv);
            if ids.len() > 0 {
                by_msg.insert(idx, ids);
            }
            if is_visible_user(&messages[idx]) {
                current = Some(idx);
            }
            match current {
                Some(a) => turn_of.push(a),
                None => turn_of.push(usize::MAX),
            }
            idx = idx + 1;
        }
        let ghost st = pair_state(messages@, messages.len() as int);
        let mut kept: Vec<usize> = Vec::new();
        let mut j: usize = 0;
        while j < orphans.len()
            invariant
                j <= orphans.len(),
                (by_id_view(by_id@), pend_view(orphans@)) == st,
                kept@ == open_orphans(messages@, st.0, pending_records(st.1).take(j as int)),
                forall|i: usize|
                    #![trigger by_msg@.contains_key(i)]
                    by_msg@.contains_key(i) <==> (i < messages.len() && msg_refs(
                        messages@[i as int],
                    ).len() > 0),
                forall|i: usize|
                    #![trigger by_msg@[i]]
                    by_msg@.contains_key(i) ==> by_msg@[i]@.map_values(|s: String| s@) == msg_ids(
                        messages@[i as int],
                    ),
            decreases orphans.len() - j,
        {
            let o = orphans[j].0;
            proof {
                let t = pending_records(st.1).take(j + 1);
                assert(t.drop_last() =~= pending_records(st.1).take(j as int));
                assert(t.last() == o);
            }
            let done = match by_msg.get(&o) {
                Some(ids) => settled(&by_id, ids, o),
                None => {
                    proof {
                        if o < messages.len() {
                            assert(msg_ids(messages@[o as int]).len() == 0);
                        }
                    }
                    false
                },
            };
            if !done {
                kept.push(o);
            }
            j = j + 1;
        }
        assert(pending_records(st.1).take(orphans.len() as int) =~= pending_records(st.1));
        PairIndex { by_id, by_msg, orphan_results: kept, turn_of }
    }
}

} // verus!
