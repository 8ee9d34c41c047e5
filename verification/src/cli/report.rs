//! What `show`, `info` and `heatmap` report about a session: the rows of
//! its records, its counts, and its turns ranked by token weight.

use vstd::prelude::*;
use crate::cli::{collect_tool_ids, preview_for, preview_s, render_text, render_text_s, tool_ids_s};
use crate::order::{desc_order, desc_order_sorted_permutation, order_desc, permute};
use crate::pairing::{built_from, is_visible, is_visible_s, is_visible_user_s, turn_is_last_prompt, PairIndex};
use crate::session::{opt_view, Message};
use crate::text::str_eq;
use crate::tokens::{count_text, render_for_count, token_count_s, TokenCounter};

verus! {

/// The token weight of a record.
pub open spec fn msg_tokens(m: Message) -> usize {
    token_count_s(count_text(m))
}

/// A count that stops at `usize::MAX`.
pub open spec fn sat(n: nat) -> usize {
    if n > usize::MAX {
        usize::MAX
    } else {
        n as usize
    }
}

/// The `role` of a record's message body, or empty.
pub open spec fn body_role_s(m: Message) -> Seq<char> {
    match m.message {
        Some(b) => match b.role {
            Some(r) => r@,
            None => Seq::empty(),
        },
        None => Seq::empty(),
    }
}

/// The `type` of a record, or empty.
pub open spec fn type_s(m: Message) -> Seq<char> {
    match m.entry_type {
        Some(t) => t@,
        None => Seq::empty(),
    }
}

/// Over the first `k` records: how many are visible, how many have a
/// message body of role `user`, of role `assistant`; how many tool calls
/// they make, answer; and their token weight.
pub open spec fn info_sums(msgs: Seq<Message>, k: int) -> (nat, nat, nat, nat, nat, nat)
    decreases k,
{
    if k <= 0 {
        (0, 0, 0, 0, 0, 0)
    } else {
        let s = info_sums(msgs, k - 1);
        let m = msgs[k - 1];
        (
            s.0 + if is_visible_s(m) { 1nat } else { 0nat },
            s.1 + if body_role_s(m) == "user"@ { 1nat } else { 0nat },
            s.2 + if body_role_s(m) == "assistant"@ { 1nat } else { 0nat },
            s.3 + tool_ids_s(m).0.len(),
            s.4 + tool_ids_s(m).1.len(),
            s.5 + msg_tokens(m) as nat,
        )
    }
}

/// The token weight of records `lo..hi`.
pub open spec fn tokens_between(msgs: Seq<Message>, lo: int, hi: int) -> nat
    decreases hi - lo,
{
    if hi <= lo {
        0
    } else {
        tokens_between(msgs, lo, hi - 1) + msg_tokens(msgs[hi - 1]) as nat
    }
}

/// One record as `show` lists it.
#[derive(Debug)]
pub struct ShowRow {
    pub index: usize,
    /// The `role` of the message body, or empty.
    pub role: String,
    /// The record's `type`, or empty.
    pub entry_type: String,
    pub timestamp: Option<String>,
    pub tokens: usize,
    pub visible: bool,
    pub tool_use_ids: Vec<String>,
    pub tool_result_ids: Vec<String>,
    pub text: String,
    pub truncated: bool,
}

/// `row` describes record `i` of `msgs`.
pub open spec fn row_of(row: ShowRow, msgs: Seq<Message>, i: int, full: bool) -> bool {
    &&& row.index == i
    &&& row.role@ == body_role_s(msgs[i])
    &&& row.entry_type@ == type_s(msgs[i])
    &&& opt_view(row.timestamp) == opt_view(msgs[i].timestamp)
    &&& row.tokens == msg_tokens(msgs[i])
    &&& row.visible == is_visible_s(msgs[i])
    &&& row.tool_use_ids@.map_values(|s: String| s@) == tool_ids_s(msgs[i]).0
    &&& row.tool_result_ids@.map_values(|s: String| s@) == tool_ids_s(msgs[i]).1
    &&& (row.text@, row.truncated) == render_text_s(msgs[i], full)
}

/// The records among the first `k` that `show` lists: all of them with
/// `include_hidden`, else the visible ones.
pub open spec fn shown_indices(msgs: Seq<Message>, include_hidden: bool, k: int) -> Seq<int>
    decreases k,
{
    if k <= 0 {
        Seq::empty()
    } else if include_hidden || is_visible_s(msgs[k - 1]) {
        shown_indices(msgs, include_hidden, k - 1).push(k - 1)
    } else {
        shown_indices(msgs, include_hidden, k - 1)
    }
}

/// How many of the first `k` records are visible.
pub open spec fn visible_count(msgs: Seq<Message>, k: int) -> nat {
    info_sums(msgs, k).0
}

/// The token weight of a record.
fn msg_token_count(tc: &TokenCounter, m: &Message) -> (r: usize)
    ensures
        r == msg_tokens(*m),
{
    let text = render_for_count(m);
    tc.count_str(text.as_str())
}

fn clone_opt(o: &Option<String>) -> (r: Option<String>)
    ensures
        opt_view(r) == opt_view(*o),
{
    match o {
        Some(s) => Some(s.clone()),
        None => None,
    }
}

/// The role of a record's message body, or empty.
fn body_role(m: &Message) -> (r: String)
    ensures
        r@ == body_role_s(*m),
{
    match &m.message {
        Some(b) => match &b.role {
            Some(r) => r.clone(),
            None => String::new(),
        },
        None => String::new(),
    }
}

/// The rows `show` prints (every record with `include_hidden`, else the
/// visible ones; text whole with `full`) and how many records are
/// visible.
pub fn show_rows(messages: &Vec<Message>, include_hidden: bool, full: bool) -> (r: (
    Vec<ShowRow>,
    usize,
))
    ensures
        r.0.len() == shown_indices(messages@, include_hidden, messages.len() as int).len(),
        forall|j: int|
            0 <= j < r.0.len() ==> row_of(
                #[trigger] r.0@[j],
                messages@,
                shown_indices(messages@, include_hidden, messages.len() as int)[j],
                full,
            ),
        r.1 == visible_count(messages@, messages.len() as int),
{
    let tc = TokenCounter::new();
    let mut rows: Vec<ShowRow> = Vec::new();
    let mut visible: usize = 0;
    let mut i: usize = 0;
    while i < messages.len()
        invariant
            i <= messages.len(),
            visible <= i,
            visible == visible_count(messages@, i as int),
            rows.len() == shown_indices(messages@, include_hidden, i as int).len(),
            forall|j: int|
                0 <= j < rows.len() ==> row_of(
                    #[trigger] rows@[j],
                    messages@,
                    shown_indices(messages@, include_hidden, i as int)[j],
                    full,
                ),
        decreases messages.len() - i,
    {
        let m = &messages[i];
        let vis = is_visible(m);
        if vis {
            visible = visible + 1;
        }
        if include_hidden || vis {
            let (text, truncated) = render_text(m, full);
            let (uses, results) = collect_tool_ids(m);
            let entry_type = match &m.entry_type {
                Some(t) => t.clone(),
                None => String::new(),
            };
            let row = ShowRow {
                index: i,
                role: body_role(m),
                entry_type,
                timestamp: clone_opt(&m.timestamp),
                tokens: msg_token_count(&tc, m),
                visible: vis,
                tool_use_ids: uses,
                tool_result_ids: results,
                text,
                truncated,
            };
            assert(row_of(row, messages@, i as int, full));
            rows.push(row);
        }
        i = i + 1;
    }
    (rows, visible)
}

/// What `info` counts in a session.
#[derive(Debug)]
pub struct InfoCounts {
    pub total: usize,
    pub visible: usize,
    /// Records whose message body has role `user`.
    pub users: usize,
    /// Records whose message body has role `assistant`.
    pub assistants: usize,
    pub tool_uses: usize,
    pub tool_results: usize,
    pub tokens: usize,
}

/// The counts of `info` for the first `k` records; the sums of tool
/// calls and tokens stop at `usize::MAX`.
pub open spec fn info_s(msgs: Seq<Message>, k: int) -> InfoCounts {
    let s = info_sums(msgs, k);
    InfoCounts {
        total: k as usize,
        visible: s.0 as usize,
        users: s.1 as usize,
        assistants: s.2 as usize,
        tool_uses: sat(s.3),
        tool_results: sat(s.4),
        tokens: sat(s.5),
    }
}

/// The `tool_use` ids of every record, one after another.
pub open spec fn all_use_ids(msgs: Seq<Message>) -> Seq<Seq<char>> {
    msgs.map_values(|m: Message| tool_ids_s(m).0).flatten()
}

/// The `tool_result` ids of every record, one after another.
pub open spec fn all_result_ids(msgs: Seq<Message>) -> Seq<Seq<char>> {
    msgs.map_values(|m: Message| tool_ids_s(m).1).flatten()
}

proof fn lemma_info_tool_sums(msgs: Seq<Message>, k: int)
    requires
        0 <= k <= msgs.len(),
    ensures
        info_sums(msgs, k).0 == msgs.take(k).filter(|m: Message| is_visible_s(m)).len(),
        info_sums(msgs, k).1 == msgs.take(k).filter(|m: Message| body_role_s(m) == "user"@).len(),
        info_sums(msgs, k).2 == msgs.take(k).filter(|m: Message| body_role_s(m) == "assistant"@).len(),
        info_sums(msgs, k).3 == all_use_ids(msgs.take(k)).len(),
        info_sums(msgs, k).4 == all_result_ids(msgs.take(k)).len(),
        info_sums(msgs, k).5 == tokens_between(msgs, 0, k),
    decreases k,
{
    reveal(Seq::filter);
    let t = msgs.take(k);
    let u = t.map_values(|m: Message| tool_ids_s(m).0);
    let r = t.map_values(|m: Message| tool_ids_s(m).1);
    u.lemma_flatten_and_flatten_alt_are_equivalent();
    r.lemma_flatten_and_flatten_alt_are_equivalent();
    if k > 0 {
        lemma_info_tool_sums(msgs, k - 1);
        let t0 = msgs.take(k - 1);
        let u0 = t0.map_values(|m: Message| tool_ids_s(m).0);
        let r0 = t0.map_values(|m: Message| tool_ids_s(m).1);
        u0.lemma_flatten_and_flatten_alt_are_equivalent();
        r0.lemma_flatten_and_flatten_alt_are_equivalent();
        assert(t.drop_last() =~= t0);
        assert(t.last() == msgs[k - 1]);
        let fv = |m: Message| is_visible_s(m);
        let fu = |m: Message| body_role_s(m) == "user"@;
        let fa = |m: Message| body_role_s(m) == "assistant"@;
        assert(t.filter(fv) == if fv(t.last()) {
            t.drop_last().filter(fv).push(t.last())
        } else {
            t.drop_last().filter(fv)
        });
        assert(t.filter(fu) == if fu(t.last()) {
            t.drop_last().filter(fu).push(t.last())
        } else {
            t.drop_last().filter(fu)
        });
        assert(t.filter(fa) == if fa(t.last()) {
            t.drop_last().filter(fa).push(t.last())
        } else {
            t.drop_last().filter(fa)
        });
        assert(u.drop_last() =~= u0);
        assert(r.drop_last() =~= r0);
        assert(u.last() == tool_ids_s(msgs[k - 1]).0);
        assert(r.last() == tool_ids_s(msgs[k - 1]).1);
    } else {
        assert(u.len() == 0);
        assert(r.len() == 0);
    }
}

/// What `info` counts: the records, the visible ones, those whose message
/// role is `user` and `assistant`, the tokens of all records (as
/// `tokens_between` weighs a span), and the tool calls rather than the
/// records holding them: `tool_uses` is the number of `tool_use` ids over
/// all records and `tool_results` the number of `tool_result` ids (sums
/// stop at `usize::MAX`), so a record with two `tool_use` blocks adds two.
pub proof fn info_counts_every_tool_id(msgs: Seq<Message>)
    requires
        msgs.len() <= usize::MAX,
    ensures
        info_s(msgs, msgs.len() as int).total == msgs.len(),
        info_s(msgs, msgs.len() as int).visible == msgs.filter(|m: Message| is_visible_s(m)).len(),
        info_s(msgs, msgs.len() as int).users == msgs.filter(
            |m: Message| body_role_s(m) == "user"@,
        ).len(),
        info_s(msgs, msgs.len() as int).assistants == msgs.filter(
            |m: Message| body_role_s(m) == "assistant"@,
        ).len(),
        info_s(msgs, msgs.len() as int).tokens == sat(tokens_between(msgs, 0, msgs.len() as int)),
        info_s(msgs, msgs.len() as int).tool_uses == sat(all_use_ids(msgs).len()),
        info_s(msgs, msgs.len() as int).tool_results == sat(all_result_ids(msgs).len()),
{
    lemma_info_tool_sums(msgs, msgs.len() as int);
    assert(msgs.take(msgs.len() as int) =~= msgs);
}

/// The counts `info` reports for a session.
pub fn info_counts(messages: &Vec<Message>) -> (r: InfoCounts)
    ensures
        r == info_s(messages@, messages.len() as int),
{
    let tc = TokenCounter::new();
    let mut visible: usize = 0;
    let mut users: usize = 0;
    let mut assistants: usize = 0;
    let mut uses: usize = 0;
    let mut results: usize = 0;
    let mut tokens: usize = 0;
    let mut i: usize = 0;
    proof {
        reveal_strlit("user");
        reveal_strlit("assistant");
    }
    while i < messages.len()
        invariant
            i <= messages.len(),
            visible == info_sums(messages@, i as int).0,
            users == info_sums(messages@, i as int).1,
            assistants == info_sums(messages@, i as int).2,
            visible <= i,
            users + assistants <= i,
            uses == sat(info_sums(messages@, i as int).3),
            results == sat(info_sums(messages@, i as int).4),
            tokens == sat(info_sums(messages@, i as int).5),
        decreases messages.len() - i,
    {
        let m = &messages[i];
        if is_visible(m) {
            visible = visible + 1;
        }
        let role = body_role(m);
        let is_user = str_eq(role.as_str(), "user");
        let is_assistant = str_eq(role.as_str(), "assistant");
        proof {
            reveal_strlit("user");
            reveal_strlit("assistant");
            assert("user"@.len() != "assistant"@.len());
        }
        if is_user {
            users = users + 1;
        } else if is_assistant {
            assistants = assistants + 1;
        }
        let (u, r) = collect_tool_ids(m);
        assert(u@.map_values(|s: String| s@).len() == u.len());
        assert(r@.map_values(|s: String| s@).len() == r.len());
        uses = uses.saturating_add(u.len());
        results = results.saturating_add(r.len());
        tokens = tokens.saturating_add(msg_token_count(&tc, m));
        i = i + 1;
    }
    InfoCounts {
        total: messages.len(),
        visible,
        users,
        assistants,
        tool_uses: uses,
        tool_results: results,
        tokens,
    }
}

/// The records among the first `k` that open a turn (their turn anchor
/// is themselves), ascending.
pub open spec fn anchors_below(turn_of: Seq<usize>, k: int) -> Seq<usize>
    decreases k,
{
    if k <= 0 {
        Seq::empty()
    } else if turn_of[k - 1] == (k - 1) as usize {
        anchors_below(turn_of, k - 1).push((k - 1) as usize)
    } else {
        anchors_below(turn_of, k - 1)
    }
}

/// Where turn `k` starts, or `n` past the last turn.
pub open spec fn turn_start(an: Seq<usize>, n: int, k: int) -> int {
    if k < an.len() {
        an[k] as int
    } else {
        n
    }
}

/// The last record of turn `k`: the one before the next turn, or the last
/// record of the session.
pub open spec fn turn_end(an: Seq<usize>, n: int, k: int) -> int {
    turn_start(an, n, k + 1) - 1
}

/// Some record of `lo..hi` makes a tool call.
pub open spec fn has_tool_between(msgs: Seq<Message>, lo: int, hi: int) -> bool {
    exists|i: int| lo <= i < hi && #[trigger] tool_ids_s(msgs[i]).0.len() > 0
}

/// The token weight of turn `k`.
pub open spec fn turn_tokens(msgs: Seq<Message>, an: Seq<usize>, k: int) -> usize {
    sat(tokens_between(msgs, an[k] as int, turn_end(an, msgs.len() as int, k) + 1))
}

/// One turn as `heatmap` lists it.
#[derive(Debug)]
pub struct HeatTurn {
    /// The visible user prompt that opens the turn.
    pub anchor_idx: usize,
    pub start_idx: usize,
    pub end_idx: usize,
    pub msg_count: usize,
    pub tokens: usize,
    pub has_tool_use: bool,
    /// The prompt's text on one line.
    pub preview: String,
}

/// `t` describes turn `k` of the session, whose turns start at `an`.
pub open spec fn heat_turn_of(t: HeatTurn, msgs: Seq<Message>, an: Seq<usize>, k: int) -> bool {
    let lo = an[k] as int;
    let hi = turn_end(an, msgs.len() as int, k);
    &&& t.anchor_idx == lo
    &&& t.start_idx == lo
    &&& t.end_idx == hi
    &&& t.msg_count == hi - lo + 1
    &&& t.tokens == turn_tokens(msgs, an, k)
    &&& t.has_tool_use == has_tool_between(msgs, lo, hi + 1)
    &&& t.preview@ == preview_s(msgs[lo])
}

/// The token weights of the turns, as sort keys.
pub open spec fn heat_keys(msgs: Seq<Message>, an: Seq<usize>) -> Seq<u128> {
    Seq::new(an.len(), |k: int| turn_tokens(msgs, an, k) as u128)
}

/// How many turns `heatmap` shows: the limit given, else 20.
pub open spec fn heat_limit(limit: Option<usize>) -> usize {
    match limit {
        Some(n) => n,
        None => 20,
    }
}

proof fn lemma_anchors(turn_of: Seq<usize>, k: int)
    requires
        0 <= k <= turn_of.len(),
        turn_of.len() <= usize::MAX,
    ensures
        forall|a: int, b: int|
            0 <= a < b < anchors_below(turn_of, k).len() ==> anchors_below(turn_of, k)[a]
                < anchors_below(turn_of, k)[b],
        forall|a: int|
            0 <= a < anchors_below(turn_of, k).len() ==> #[trigger] anchors_below(turn_of, k)[a]
                < k,
        anchors_below(turn_of, k).len() <= k,
    decreases k,
{
    if k > 0 {
        lemma_anchors(turn_of, k - 1);
    }
}

proof fn lemma_tokens_split(msgs: Seq<Message>, lo: int, mid: int, hi: int)
    requires
        lo <= mid <= hi,
    ensures
        tokens_between(msgs, lo, mid) + tokens_between(msgs, mid, hi) == tokens_between(msgs, lo, hi),
    decreases hi - mid,
{
    if hi > mid {
        lemma_tokens_split(msgs, lo, mid, hi - 1);
    }
}

/// The turns, heaviest first (equal weights keep their order), at most
/// `lim` of them.
fn rank_by_tokens(turns: Vec<HeatTurn>, lim: usize) -> (r: Vec<HeatTurn>)
    ensures
        ({
            let keys = turns@.map_values(|t: HeatTurn| t.tokens as u128);
            let order = desc_order(keys, turns.len() as int);
            &&& r.len() == if lim < turns.len() {
                lim as int
            } else {
                turns.len() as int
            }
            &&& forall|j: int| 0 <= j < r.len() ==> #[trigger] r@[j] == turns@[order[j] as int]
            &&& forall|a: int, b: int| 0 <= a < b < r.len() ==> r@[a].tokens >= r@[b].tokens
        }),
{
    let ghost unsorted = turns@;
    let ghost keys = turns@.map_values(|t: HeatTurn| t.tokens as u128);
    let mut ks: Vec<u128> = Vec::new();
    let mut i: usize = 0;
    while i < turns.len()
        invariant
            i <= turns.len(),
            keys == turns@.map_values(|t: HeatTurn| t.tokens as u128),
            ks@ == keys.take(i as int),
        decreases turns.len() - i,
    {
        ks.push(turns[i].tokens as u128);
        assert(ks@ =~= keys.take(i + 1));
        i = i + 1;
    }
    assert(ks@ =~= keys);
    let order = order_desc(&ks);
    proof {
        desc_order_sorted_permutation(ks@, ks.len() as int);
    }
    let mut ranked = permute(turns, &order);
    ranked.truncate(lim);
    proof {
        let o = order@;
        assert forall|a: int, b: int| 0 <= a < b < ranked.len() implies ranked@[a].tokens
            >= ranked@[b].tokens by {
            assert(keys[o[a] as int] >= keys[o[b] as int]);
            assert(ranked@[a] == unsorted[o[a] as int]);
            assert(ranked@[b] == unsorted[o[b] as int]);
        }
    }
    ranked
}

/// The turns of a session ranked by token weight: each turn is a visible
/// user prompt and the records after it up to the next one; the heaviest
/// come first (equal weights keep session order) and at most `limit` of
/// them (20 without a limit) are kept. Also returns the token weight of
/// all records inside turns.
pub fn heatmap_turns(messages: &Vec<Message>, pairing: &PairIndex, limit: Option<usize>) -> (r: (
    usize,
    Vec<HeatTurn>,
))
    requires
        pairing.turn_of.len() == messages.len(),
    ensures
        ({
            let n = messages.len() as int;
            let an = anchors_below(pairing.turn_of@, n);
            let order = desc_order(heat_keys(messages@, an), an.len() as int);
            &&& r.0 == sat(tokens_between(messages@, turn_start(an, n, 0), n))
            &&& r.1.len() == if heat_limit(limit) < an.len() {
                heat_limit(limit) as int
            } else {
                an.len() as int
            }
            &&& forall|j: int|
                0 <= j < r.1.len() ==> heat_turn_of(#[trigger] r.1@[j], messages@, an, order[j] as int)
            &&& forall|a: int, b: int| 0 <= a < b < r.1.len() ==> r.1@[a].tokens >= r.1@[b].tokens
        }),
{
    let n = messages.len();
    let ghost msgs = messages@;
    let mut an: Vec<usize> = Vec::new();
    let mut a: usize = 0;
    while a < n
        invariant
            a <= n,
            n == pairing.turn_of.len(),
            an@ == anchors_below(pairing.turn_of@, a as int),
        decreases n - a,
    {
        if pairing.turn_of[a] == a {
            an.push(a);
        }
        a = a + 1;
    }
    proof {
        lemma_anchors(pairing.turn_of@, n as int);
    }
    let tc = TokenCounter::new();
    let mut turns: Vec<HeatTurn> = Vec::new();
    let mut total: usize = 0;
    let mut k: usize = 0;
    while k < an.len()
        invariant
            k <= an.len(),
            n == messages.len(),
            msgs == messages@,
            an@ == anchors_below(pairing.turn_of@, n as int),
            forall|x: int, y: int| 0 <= x < y < an.len() ==> an@[x] < an@[y],
            forall|x: int| 0 <= x < an.len() ==> #[trigger] an@[x] < n,
            turns.len() == k,
            forall|j: int| 0 <= j < k ==> heat_turn_of(#[trigger] turns@[j], msgs, an@, j),
            total == sat(tokens_between(msgs, turn_start(an@, n as int, 0), turn_start(an@, n as int, k as int))),
        decreases an.len() - k,
    {
        let lo = an[k];
        let hi: usize = if k + 1 < an.len() {
            an[k + 1] - 1
        } else {
            n - 1
        };
        assert(hi == turn_end(an@, n as int, k as int));
        let mut t: usize = 0;
        let mut has_tool = false;
        let mut i: usize = lo;
        while i <= hi
            invariant
                lo <= i <= hi + 1,
                hi < n,
                n == messages.len(),
                msgs == messages@,
                t == sat(tokens_between(msgs, lo as int, i as int)),
                has_tool == has_tool_between(msgs, lo as int, i as int),
            decreases hi + 1 - i,
        {
            let m = &messages[i];
            t = t.saturating_add(msg_token_count(&tc, m));
            let (u, _) = collect_tool_ids(m);
            assert(u@.map_values(|s: String| s@).len() == u.len());
            if u.len() > 0 {
                has_tool = true;
                assert(tool_ids_s(msgs[i as int]).0.len() > 0);
            }
            proof {
                if has_tool_between(msgs, lo as int, i + 1) && !has_tool_between(msgs, lo as int, i as int) {
                    let w = choose|w: int| lo <= w < i + 1 && #[trigger] tool_ids_s(msgs[w]).0.len() > 0;
                    assert(w == i);
                }
            }
            i = i + 1;
        }
        proof {
            if k == 0 {
                assert(turn_start(an@, n as int, 0) == lo);
            }
            lemma_tokens_split(msgs, turn_start(an@, n as int, 0), lo as int, hi + 1);
            assert(turn_start(an@, n as int, k + 1) == hi + 1);
        }
        total = total.saturating_add(t);
        let preview = preview_for(&messages[lo]);
        let turn = HeatTurn {
            anchor_idx: lo,
            start_idx: lo,
            end_idx: hi,
            msg_count: hi - lo + 1,
            tokens: t,
            has_tool_use: has_tool,
            preview,
        };
        assert(heat_turn_of(turn, msgs, an@, k as int));
        turns.push(turn);
        k = k + 1;
    }
    let lim: usize = match limit {
        Some(x) => x,
        None => 20,
    };
    assert(turns@.map_values(|t: HeatTurn| t.tokens as u128) =~= heat_keys(msgs, an@));
    let ghost tv = turns@;
    let ranked = rank_by_tokens(turns, lim);
    proof {
        let keys = heat_keys(msgs, an@);
        let order = desc_order(keys, an.len() as int);
        desc_order_sorted_permutation(keys, an.len() as int);
        assert forall|j: int| 0 <= j < ranked.len() implies heat_turn_of(
            #[trigger] ranked@[j],
            msgs,
            an@,
            order[j] as int,
        ) by {
            assert(order[j] < an.len());
            assert(ranked@[j] == tv[order[j] as int]);
        }
    }
    (total, ranked)
}

proof fn lemma_anchors_complete(turn_of: Seq<usize>, k: int, b: int)
    requires
        0 <= b < k <= turn_of.len(),
        turn_of.len() <= usize::MAX,
        turn_of[b] == b as usize,
    ensures
        anchors_below(turn_of, k).contains(b as usize),
    decreases k,
{
    if b < k - 1 {
        lemma_anchors_complete(turn_of, k - 1, b);
        let j = choose|j: int| 0 <= j < anchors_below(turn_of, k - 1).len() && #[trigger] anchors_below(turn_of, k - 1)[j] == b as usize;
        assert(anchors_below(turn_of, k)[j] == b as usize);
    } else {
        let an = anchors_below(turn_of, k);
        assert(an[an.len() - 1] == b as usize);
    }
}

/// A record that is a visible user prompt opens its own turn.
proof fn lemma_prompt_is_anchor(p: PairIndex, msgs: Seq<Message>, c: int)
    requires
        built_from(p, msgs),
        0 <= c < msgs.len(),
        msgs.len() < usize::MAX,
        is_visible_user_s(msgs[c]),
    ensures
        p.turn_of@[c] == c as usize,
{
    turn_is_last_prompt(p, msgs, c);
}

/// The turns that `heatmap` lists are the turns of the session: record `i`
/// lies in the span `start_idx..=end_idx` of turn `k` exactly when its
/// turn anchor is that turn's prompt; and the records before the first
/// turn belong to no turn.
pub proof fn heatmap_spans_are_turns(p: PairIndex, msgs: Seq<Message>, k: int, i: int)
    requires
        built_from(p, msgs),
        msgs.len() < usize::MAX,
        0 <= i < msgs.len(),
        0 <= k < anchors_below(p.turn_of@, msgs.len() as int).len(),
    ensures
        ({
            let an = anchors_below(p.turn_of@, msgs.len() as int);
            (an[k] <= i <= turn_end(an, msgs.len() as int, k)) <==> p.turn_of@[i] == an[k]
        }),
        i < turn_start(anchors_below(p.turn_of@, msgs.len() as int), msgs.len() as int, 0)
            ==> p.turn_of@[i] == usize::MAX,
{
    let n = msgs.len() as int;
    let t = p.turn_of@;
    let an = anchors_below(t, n);
    lemma_anchors(t, n);
    let a = an[k] as int;
    assert(an.contains(an[k]));
    turn_is_last_prompt(p, msgs, a);
    assert(t[a] == a as usize) by {
        let j = k;
        assert(an[j] == a);
        lemma_anchor_entries(t, n, j);
    }
    turn_is_last_prompt(p, msgs, i);
    if a <= i <= turn_end(an, n, k) {
        assert(is_visible_user_s(msgs[a]));
        if t[i] != usize::MAX {
            let a2 = t[i] as int;
            assert(a <= a2) by {
                if a2 < a {
                    assert(!is_visible_user_s(msgs[a]));
                }
            }
            if a2 > a {
                lemma_prompt_is_anchor(p, msgs, a2);
                lemma_anchors_complete(t, n, a2);
                let j = choose|j: int| 0 <= j < an.len() && #[trigger] an[j] == a2 as usize;
                assert(an[j] == a2);
                if j <= k {
                    assert(an[j] <= an[k]);
                } else {
                    assert(an[k + 1] <= an[j]);
                }
            }
        }
    }
    if t[i] == an[k] {
        if i > turn_end(an, n, k) {
            let b = an[k + 1] as int;
            lemma_anchor_entries(t, n, k + 1);
            lemma_prompt_entry_visible(p, msgs, b);
            assert(!is_visible_user_s(msgs[b]));
        }
    }
    if i < turn_start(an, n, 0) && t[i] != usize::MAX {
        let a2 = t[i] as int;
        turn_is_last_prompt(p, msgs, a2);
        lemma_prompt_is_anchor(p, msgs, a2);
        lemma_anchors_complete(t, n, a2);
        let j = choose|j: int| 0 <= j < an.len() && #[trigger] an[j] == a2 as usize;
        assert(an[0] <= an[j]);
    }
}

/// Every listed anchor opens its own turn.
proof fn lemma_anchor_entries(turn_of: Seq<usize>, k: int, j: int)
    requires
        0 <= k <= turn_of.len(),
        turn_of.len() <= usize::MAX,
        0 <= j < anchors_below(turn_of, k).len(),
    ensures
        turn_of[anchors_below(turn_of, k)[j] as int] == anchors_below(turn_of, k)[j],
    decreases k,
{
    if k > 0 {
        if j < anchors_below(turn_of, k - 1).len() {
            lemma_anchor_entries(turn_of, k - 1, j);
        }
    }
}

/// A record that opens its own turn is a visible user prompt.
proof fn lemma_prompt_entry_visible(p: PairIndex, msgs: Seq<Message>, b: int)
    requires
        built_from(p, msgs),
        0 <= b < msgs.len(),
        msgs.len() < usize::MAX,
        p.turn_of@[b] == b as usize,
    ensures
        is_visible_user_s(msgs[b]),
{
    turn_is_last_prompt(p, msgs, b);
}

} // verus!
