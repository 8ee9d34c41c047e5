//! The logic behind the command-line subcommands: selecting what to
//! delete, the rows of `show`, the counts of `info`, the turns of
//! `heatmap`, resolving a session argument, and text shortening.

pub mod fork;
pub mod report;

use std::collections::HashSet;
use vstd::prelude::*;
use vstd::string::StringExecFns;
use crate::pairing::{
    auto_pair_stays_in_session, auto_paired, built_from, extract_text, extract_text_s, is_visible,
    is_visible_s, message_refs, msg_refs, PairIndex,
};
use crate::scan::SessionEntry;
use crate::session::{opt_view, relinked_count, Message, Session};
use crate::text::{
    chars_of, contains, contains_s, decimal_s, is_digit, lemma_decimal_reads_back,
    lowercase_s, parse_usize, parse_usize_s, push_char, str_eq, string_of, to_lowercase, trim,
    trim_bounds, trim_s,
};

verus! {

broadcast use vstd::std_specs::hash::group_hash_axioms;

/// What a `delete` asks for: explicit indices, the first or last N
/// records, and an inclusive range `lo..hi`.
#[derive(Debug)]
pub struct DeleteSpec {
    pub indices: Vec<usize>,
    pub from_top: Option<usize>,
    pub from_bottom: Option<usize>,
    pub range: Option<String>,
}

/// Why a range argument was refused.
#[derive(Debug, PartialEq, Eq, Structural)]
pub enum RangeError {
    /// No `..` in it.
    NoSeparator,
    /// The part before `..` is not an index.
    BadLow,
    /// The part after `..` is not an index.
    BadHigh,
    /// The low end is above the high end.
    Inverted { lo: usize, hi: usize },
}

/// The position of the first `..`.
pub open spec fn first_dotdot(s: Seq<char>, from: int) -> Option<int>
    decreases s.len() - from,
{
    if from < 0 || from + 1 >= s.len() {
        None
    } else if s[from] == '.' && s[from + 1] == '.' {
        Some(from)
    } else {
        first_dotdot(s, from + 1)
    }
}

/// A range `lo..hi` (split at the first `..`, each end a `usize`, `lo`
/// not above `hi`).
pub open spec fn parse_range_s(s: Seq<char>) -> Result<(usize, usize), RangeError> {
    match first_dotdot(s, 0) {
        None => Err(RangeError::NoSeparator),
        Some(p) => match parse_usize_s(s.take(p)) {
            None => Err(RangeError::BadLow),
            Some(lo) => match parse_usize_s(s.skip(p + 2)) {
                None => Err(RangeError::BadHigh),
                Some(hi) => if lo > hi {
                    Err(RangeError::Inverted { lo, hi })
                } else {
                    Ok((lo, hi))
                },
            },
        },
    }
}

/// A run of digits before position `k` holds no `..`.
proof fn lemma_dotdot_after_digits(s: Seq<char>, from: int, k: int)
    requires
        0 <= from <= k <= s.len(),
        forall|i: int| 0 <= i < k ==> is_digit(#[trigger] s[i]),
    ensures
        first_dotdot(s, from) == first_dotdot(s, k),
    decreases k - from,
{
    if from < k {
        assert(is_digit(s[from]));
        lemma_dotdot_after_digits(s, from + 1, k);
    }
}

/// A range written as `usize::to_string` writes its ends, with `..`
/// between them, reads back as the same range: `parse_range` of
/// `format!("{lo}..{hi}")` is `Ok((lo, hi))` whenever `lo <= hi`.
pub proof fn range_text_reads_back(lo: usize, hi: usize)
    requires
        lo <= hi,
    ensures
        parse_range_s(decimal_s(lo as nat) + seq!['.', '.'] + decimal_s(hi as nat)) == Ok::<
            (usize, usize),
            RangeError,
        >((lo, hi)),
{
    let a = decimal_s(lo as nat);
    let b = decimal_s(hi as nat);
    let s = a + seq!['.', '.'] + b;
    lemma_decimal_reads_back(lo as nat);
    lemma_decimal_reads_back(hi as nat);
    assert forall|i: int| 0 <= i < a.len() implies is_digit(#[trigger] s[i]) by {
        assert(s[i] == a[i]);
    }
    lemma_dotdot_after_digits(s, 0, a.len() as int);
    assert(s[a.len() as int] == '.');
    assert(s[a.len() + 1int] == '.');
    assert(first_dotdot(s, a.len() as int) == Some(a.len() as int));
    assert(s.take(a.len() as int) =~= a);
    assert(s.skip(a.len() + 2int) =~= b);
    assert(is_digit(a[0]));
    assert(is_digit(b[0]));
}

/// The position of the first `..` in `v`.
fn find_dotdot(v: &Vec<char>) -> (r: Option<usize>)
    ensures
        match r {
            Some(p) => first_dotdot(v@, 0) == Some(p as int) && p + 1 < v.len(),
            None => first_dotdot(v@, 0) is None,
        },
{
    let mut i: usize = 0;
    while i < v.len()
        invariant
            i <= v.len(),
            first_dotdot(v@, 0) == first_dotdot(v@, i as int),
        decreases v.len() - i,
    {
        if i + 1 < v.len() && v[i] == '.' && v[i + 1] == '.' {
            return Some(i);
        }
        if i + 1 >= v.len() {
            return None;
        }
        i = i + 1;
    }
    None
}

/// Parses an inclusive range `lo..hi`.
pub fn parse_range(s: &str) -> (r: Result<(usize, usize), RangeError>)
    ensures
        r == parse_range_s(s@),
{
    let v = chars_of(s);
    let p = match find_dotdot(&v) {
        None => {
            return Err(RangeError::NoSeparator);
        },
        Some(p) => p,
    };
    let lo_s = string_of(&v, 0, p);
    let hi_s = string_of(&v, p + 2, v.len());
    assert(lo_s@ =~= s@.take(p as int));
    assert(hi_s@ =~= s@.skip(p + 2));
    let lo = match parse_usize(lo_s.as_str()) {
        None => {
            return Err(RangeError::BadLow);
        },
        Some(x) => x,
    };
    let hi = match parse_usize(hi_s.as_str()) {
        None => {
            return Err(RangeError::BadHigh);
        },
        Some(x) => x,
    };
    if lo > hi {
        return Err(RangeError::Inverted { lo, hi });
    }
    Ok((lo, hi))
}

/// `s` cut to `n` characters, the last of them an ellipsis, when longer.
pub open spec fn truncate_s(s: Seq<char>, n: usize) -> Seq<char> {
    if s.len() <= n {
        s
    } else {
        s.take(if n >= 1 { n - 1 } else { 0 }).push('…')
    }
}

/// `s` cut to at most `n` characters: when longer, its first `n - 1`
/// characters and an ellipsis.
pub fn truncate(s: &str, n: usize) -> (r: String)
    ensures
        r@ == truncate_s(s@, n),
{
    let v = chars_of(s);
    if v.len() <= n {
        return string_of(&v, 0, v.len());
    }
    let mut out = string_of(&v, 0, n.saturating_sub(1));
    push_char(&mut out, '…');
    out
}

/// The ids among `refs` whose kind (`true` for a `tool_use`, `false` for
/// a `tool_result`) is `kind`, in order.
pub open spec fn ids_of_kind(refs: Seq<(bool, Seq<char>)>, kind: bool) -> Seq<Seq<char>>
    decreases refs.len(),
{
    if refs.len() == 0 {
        Seq::empty()
    } else {
        let rest = ids_of_kind(refs.drop_last(), kind);
        if refs.last().0 == kind {
            rest.push(refs.last().1)
        } else {
            rest
        }
    }
}

/// The `tool_use` ids and the `tool_result` ids of a record, in block
/// order.
pub open spec fn tool_ids_s(m: Message) -> (Seq<Seq<char>>, Seq<Seq<char>>) {
    (ids_of_kind(msg_refs(m), true), ids_of_kind(msg_refs(m), false))
}

/// The `tool_use` ids and the `tool_result` ids of a record.
pub fn collect_tool_ids(m: &Message) -> (r: (Vec<String>, Vec<String>))
    ensures
        r.0@.map_values(|s: String| s@) == tool_ids_s(*m).0,
        r.1@.map_values(|s: String| s@) == tool_ids_s(*m).1,
{
    let refs = message_refs(m);
    let ghost rv = refs@.map_values(|x: (bool, String)| (x.0, x.1@));
    let mut uses: Vec<String> = Vec::new();
    let mut results: Vec<String> = Vec::new();
    let mut i: usize = 0;
    while i < refs.len()
        invariant
            i <= refs.len(),
            rv == refs@.map_values(|x: (bool, String)| (x.0, x.1@)),
            rv == msg_refs(*m),
            uses@.map_values(|s: String| s@) == ids_of_kind(rv.take(i as int), true),
            results@.map_values(|s: String| s@) == ids_of_kind(rv.take(i as int), false),
        decreases refs.len() - i,
    {
        let ghost u0 = uses@.map_values(|s: String| s@);
        let ghost r0 = results@.map_values(|s: String| s@);
        proof {
            let t = rv.take(i + 1);
            assert(t.drop_last() =~= rv.take(i as int));
            assert(t.last() == rv[i as int]);
        }
        if refs[i].0 {
            uses.push(refs[i].1.clone());
            assert(uses@.map_values(|s: String| s@) =~= u0.push(rv[i as int].1));
        } else {
            results.push(refs[i].1.clone());
            assert(results@.map_values(|s: String| s@) =~= r0.push(rv[i as int].1));
        }
        i = i + 1;
    }
    assert(rv.take(refs.len() as int) =~= rv);
    (uses, results)
}

/// The readable text of a record, or empty.
pub open spec fn plain_text_s(m: Message) -> Seq<char> {
    match extract_text_s(m) {
        Some(t) => t,
        None => Seq::empty(),
    }
}

/// The text `show` prints for a record, and whether it was cut: the whole
/// text with `full`; else the text on one line (newlines as spaces),
/// trimmed, cut to 400 characters plus an ellipsis when longer.
pub open spec fn render_text_s(m: Message, full: bool) -> (Seq<char>, bool) {
    if full {
        (plain_text_s(m), false)
    } else {
        let t = trim_s(plain_text_s(m).map_values(|c: char| if c == '\n' { ' ' } else { c }));
        if t.len() <= 400 {
            (t, false)
        } else {
            (t.take(400).push('…'), true)
        }
    }
}

/// The text of a record on one line: newlines as spaces, then trimmed.
pub open spec fn preview_s(m: Message) -> Seq<char> {
    trim_s(plain_text_s(m).map_values(|c: char| if c == '\n' { ' ' } else { c }))
}

/// The readable text of a record, or empty.
pub fn plain_text(m: &Message) -> (r: String)
    ensures
        r@ == plain_text_s(*m),
{
    match extract_text(m) {
        Some(t) => t,
        None => String::new(),
    }
}

/// The characters of the text with newlines turned into spaces.
fn one_line(s: &str) -> (r: Vec<char>)
    ensures
        r@ == s@.map_values(|c: char| if c == '\n' { ' ' } else { c }),
{
    let v = chars_of(s);
    let mut out: Vec<char> = Vec::new();
    let mut i: usize = 0;
    while i < v.len()
        invariant
            i <= v.len(),
            v@ == s@,
            out@ == v@.take(i as int).map_values(|c: char| if c == '\n' { ' ' } else { c }),
        decreases v.len() - i,
    {
        if v[i] == '\n' {
            out.push(' ');
        } else {
            out.push(v[i]);
        }
        assert(out@ =~= v@.take(i + 1).map_values(|c: char| if c == '\n' { ' ' } else { c }));
        i = i + 1;
    }
    assert(v@.take(v.len() as int) =~= v@);
    out
}

/// The text `show` prints for a record, and whether it was cut.
pub fn render_text(m: &Message, full: bool) -> (r: (String, bool))
    ensures
        (r.0@, r.1) == render_text_s(*m, full),
{
    let raw = plain_text(m);
    if full {
        return (raw, false);
    }
    let flat = one_line(raw.as_str());
    let (lo, hi) = trim_bounds(&flat);
    if hi - lo <= 400 {
        (string_of(&flat, lo, hi), false)
    } else {
        let mut s = string_of(&flat, lo, lo + 400);
        push_char(&mut s, '…');
        assert(flat@.subrange(lo as int, hi as int).take(400) =~= flat@.subrange(
            lo as int,
            lo + 400,
        ));
        (s, true)
    }
}

/// The text of a record on one line, for previews.
pub fn preview_for(m: &Message) -> (r: String)
    ensures
        r@ == preview_s(*m),
{
    let raw = plain_text(m);
    let flat = one_line(raw.as_str());
    let (lo, hi) = trim_bounds(&flat);
    string_of(&flat, lo, hi)
}

/// Why a session argument did not resolve.
#[derive(Debug)]
pub enum TargetError {
    /// No session id holds it.
    NoMatch,
    /// Several session ids hold it and none equals it; the count and the
    /// first five ids.
    Ambiguous { count: usize, first: Vec<String> },
}

/// The session id of entry `e` holds the target, ignoring case.
pub open spec fn id_matches(e: SessionEntry, target: Seq<char>) -> bool {
    contains_s(lowercase_s(e.session_id@), lowercase_s(target))
}

/// The session id of entry `e` equals the target, ignoring case.
pub open spec fn id_equals(e: SessionEntry, target: Seq<char>) -> bool {
    lowercase_s(e.session_id@) == lowercase_s(target)
}

/// The indices of the entries among the first `k` satisfying `p`.
pub open spec fn indices_where(entries: Seq<SessionEntry>, p: spec_fn(SessionEntry) -> bool, k: int) -> Seq<usize>
    decreases k,
{
    if k <= 0 {
        Seq::empty()
    } else if p(entries[k - 1]) {
        indices_where(entries, p, k - 1).push((k - 1) as usize)
    } else {
        indices_where(entries, p, k - 1)
    }
}

/// How a session argument resolves against the listed sessions: the only
/// entry whose id holds it; among several, the only one whose id equals
/// it; else an error.
pub open spec fn resolve_target_s(entries: Seq<SessionEntry>, target: Seq<char>) -> Result<usize, (usize, Seq<usize>)> {
    let m = indices_where(entries, |e: SessionEntry| id_matches(e, target), entries.len() as int);
    let x = indices_where(entries, |e: SessionEntry| id_equals(e, target), entries.len() as int);
    if m.len() == 0 {
        Err((0, Seq::empty()))
    } else if m.len() == 1 {
        Ok(m[0])
    } else if x.len() == 1 {
        Ok(x[0])
    } else {
        Err((m.len() as usize, m.take(if m.len() < 5 { m.len() as int } else { 5 })))
    }
}

/// Resolves a session argument (an id or a piece of one, any case)
/// against the listed sessions; gives the index of the entry.
pub fn match_target(entries: &Vec<SessionEntry>, target: &str) -> (r: Result<usize, TargetError>)
    ensures
        match r {
            Ok(i) => resolve_target_s(entries@, target@) == Ok::<usize, (usize, Seq<usize>)>(i),
            Err(TargetError::NoMatch) => resolve_target_s(entries@, target@) matches Err((c, _))
                && c == 0,
            Err(TargetError::Ambiguous { count, first }) => resolve_target_s(entries@, target@)
                matches Err((c, f)) && c == count && c > 0 && first@.map_values(|s: String| s@)
                == f.map_values(|i: usize| entries@[i as int].session_id@),
        },
{
    let needle = to_lowercase(target);
    let ghost pm = |e: SessionEntry| id_matches(e, target@);
    let ghost px = |e: SessionEntry| id_equals(e, target@);
    let mut matched: Vec<usize> = Vec::new();
    let mut exact: Vec<usize> = Vec::new();
    let mut i: usize = 0;
    while i < entries.len()
        invariant
            i <= entries.len(),
            needle@ == lowercase_s(target@),
            matched@ == indices_where(entries@, pm, i as int),
            exact@ == indices_where(entries@, px, i as int),
            forall|a: int| 0 <= a < matched.len() ==> #[trigger] matched@[a] < i,
        decreases entries.len() - i,
    {
        let id = to_lowercase(entries[i].session_id.as_str());
        if contains(id.as_str(), needle.as_str()) {
            matched.push(i);
        }
        if str_eq(id.as_str(), needle.as_str()) {
            exact.push(i);
        }
        i = i + 1;
    }
    if matched.len() == 0 {
        return Err(TargetError::NoMatch);
    }
    if matched.len() == 1 {
        return Ok(matched[0]);
    }
    if exact.len() == 1 {
        return Ok(exact[0]);
    }
    let mut first: Vec<String> = Vec::new();
    let mut k: usize = 0;
    let lim: usize = if matched.len() < 5 {
        matched.len()
    } else {
        5
    };
    while k < lim
        invariant
            k <= lim <= matched.len(),
            forall|a: int| 0 <= a < matched.len() ==> #[trigger] matched@[a] < entries.len(),
            first@.map_values(|s: String| s@) == matched@.take(k as int).map_values(
                |j: usize| entries@[j as int].session_id@,
            ),
        decreases lim - k,
    {
        let ghost f0 = first@.map_values(|s: String| s@);
        let j = matched[k];
        let id = entries[j].session_id.clone();
        assert(id@ == entries@[j as int].session_id@);
        first.push(id);
        assert(first@.map_values(|s: String| s@) =~= f0.push(entries@[j as int].session_id@));
        assert(matched@.take(k + 1) =~= matched@.take(k as int).push(j));
        assert(first@.map_values(|s: String| s@) =~= matched@.take(k + 1).map_values(
            |j: usize| entries@[j as int].session_id@,
        ));
        k = k + 1;
    }
    Err(TargetError::Ambiguous { count: matched.len(), first })
}

/// The project slug holds `project`, ignoring case.
pub open spec fn in_project(e: SessionEntry, project: Seq<char>) -> bool {
    contains_s(lowercase_s(e.project_slug@), lowercase_s(project))
}

/// The entries whose project slug holds `project` (ignoring case), in
/// order.
pub fn filter_by_project(entries: &Vec<SessionEntry>, project: &str) -> (r: Vec<usize>)
    ensures
        r@ == indices_where(entries@, |e: SessionEntry| in_project(e, project@), entries.len() as int),
{
    let needle = to_lowercase(project);
    let ghost p = |e: SessionEntry| in_project(e, project@);
    let mut out: Vec<usize> = Vec::new();
    let mut i: usize = 0;
    while i < entries.len()
        invariant
            i <= entries.len(),
            needle@ == lowercase_s(project@),
            out@ == indices_where(entries@, p, i as int),
        decreases entries.len() - i,
    {
        let slug = to_lowercase(entries[i].project_slug.as_str());
        if contains(slug.as_str(), needle.as_str()) {
            out.push(i);
        }
        i = i + 1;
    }
    out
}

/// Why a `delete` request was refused.
#[derive(Debug, PartialEq, Eq, Structural)]
pub enum DeleteError {
    /// An explicit index is not a record of the session.
    IndexOutOfRange { index: usize, total: usize },
    /// The range argument is malformed.
    Range(RangeError),
    /// The range ends past the last record.
    RangeOutOfRange { hi: usize, total: usize },
    /// Nothing was asked for.
    NothingSelected,
}

/// The first element of `s` that is at least `total`.
pub open spec fn first_at_least(s: Seq<usize>, total: usize) -> Option<usize>
    decreases s.len(),
{
    if s.len() == 0 {
        None
    } else if s[0] >= total {
        Some(s[0])
    } else {
        first_at_least(s.drop_first(), total)
    }
}

/// Record `i` is asked for by `spec` in a session of `total` records:
/// listed explicitly, among the first `n` or the last `n`, or inside the
/// range.
pub open spec fn in_request(spec: DeleteSpec, total: usize, i: usize) -> bool {
    ||| spec.indices@.contains(i)
    ||| (spec.from_top matches Some(n) && i < n && i < total)
    ||| (spec.from_bottom matches Some(n) && i < total && i + n >= total)
    ||| (spec.range matches Some(r) && parse_range_s(r@) matches Ok((lo, hi)) && lo <= i <= hi)
}

/// The records asked for.
pub open spec fn requested_s(spec: DeleteSpec, total: usize) -> Set<usize> {
    Set::new(|i: usize| in_request(spec, total, i))
}

/// A delete asks for exactly the records it names: every listed index,
/// the first `n` records for `from_top`, the last `n` for `from_bottom`,
/// and each record of a well-formed range, and no other record.
pub proof fn delete_asks_for_named_records(spec: DeleteSpec, total: usize)
    ensures
        forall|k: int|
            0 <= k < spec.indices@.len() ==> requested_s(spec, total).contains(
                #[trigger] spec.indices@[k],
            ),
        forall|i: usize|
            #![trigger requested_s(spec, total).contains(i)]
            spec.from_top matches Some(n) && i < n && i < total ==> requested_s(spec, total).contains(i),
        forall|i: usize|
            #![trigger requested_s(spec, total).contains(i)]
            spec.from_bottom matches Some(n) && i < total && i + n >= total ==> requested_s(
                spec,
                total,
            ).contains(i),
        forall|i: usize|
            #![trigger requested_s(spec, total).contains(i)]
            spec.range matches Some(r) && parse_range_s(r@) matches Ok((lo, hi)) && lo <= i <= hi
                ==> requested_s(spec, total).contains(i),
        forall|i: usize|
            #[trigger] requested_s(spec, total).contains(i) ==> (exists|k: int|
                0 <= k < spec.indices@.len() && spec.indices@[k] == i) || (spec.from_top matches Some(
                n,
            ) && i < n && i < total) || (spec.from_bottom matches Some(n) && i < total && i + n
                >= total) || (spec.range matches Some(r) && parse_range_s(r@) matches Ok((lo, hi))
                && lo <= i <= hi),
{
    assert forall|k: int| 0 <= k < spec.indices@.len() implies requested_s(spec, total).contains(
        #[trigger] spec.indices@[k],
    ) by {
        assert(spec.indices@.contains(spec.indices@[k]));
    }
}

/// Why a request is refused, checked in this order: an explicit index
/// past the end (the first one), a malformed range, a range past the end,
/// nothing asked for.
pub open spec fn delete_error_s(spec: DeleteSpec, total: usize) -> Option<DeleteError> {
    match first_at_least(spec.indices@, total) {
        Some(i) => Some(DeleteError::IndexOutOfRange { index: i, total }),
        None => match spec.range {
            Some(r) => match parse_range_s(r@) {
                Err(e) => Some(DeleteError::Range(e)),
                Ok((lo, hi)) => if hi >= total {
                    Some(DeleteError::RangeOutOfRange { hi, total })
                } else if requested_s(spec, total).len() == 0 {
                    Some(DeleteError::NothingSelected)
                } else {
                    None
                },
            },
            None => if requested_s(spec, total).len() == 0 {
                Some(DeleteError::NothingSelected)
            } else {
                None
            },
        },
    }
}

/// Strictly increasing.
pub open spec fn ascending(s: Seq<usize>) -> bool {
    forall|a: int, b: int| 0 <= a < b < s.len() ==> s[a] < s[b]
}

/// `s` lists the members of `set` in increasing order, each once.
pub open spec fn lists_exactly(s: Seq<usize>, set: Set<usize>) -> bool {
    &&& ascending(s)
    &&& forall|x: usize| #[trigger] s.contains(x) <==> set.contains(x)
}

/// What a `delete` will remove.
#[derive(Debug)]
pub struct DeletePlan {
    /// The records removed: those asked for, after auto-pairing.
    pub marked: HashSet<usize>,
    /// The records asked for, ascending.
    pub requested: Vec<usize>,
    /// The records removed, ascending.
    pub after_auto_pair: Vec<usize>,
    /// The records that auto-pairing added, ascending.
    pub paired_added: Vec<usize>,
    /// How many surviving records get a new `parentUuid`.
    pub relinked: usize,
    pub total_before: usize,
    pub total_after: usize,
}

/// The members of `set`, ascending; all of them are below `n`.
fn members_below(set: &HashSet<usize>, n: usize) -> (r: Vec<usize>)
    requires
        forall|x: usize| set@.contains(x) ==> x < n,
    ensures
        lists_exactly(r@, set@),
        r.len() <= n,
{
    let mut out: Vec<usize> = Vec::new();
    let mut i: usize = 0;
    while i < n
        invariant
            i <= n,
            out.len() <= i,
            ascending(out@),
            forall|a: int| 0 <= a < out.len() ==> #[trigger] out@[a] < i,
            forall|x: usize| #[trigger] out@.contains(x) <==> (set@.contains(x) && x < i),
        decreases n - i,
    {
        let ghost before = out@;
        if set.contains(&i) {
            out.push(i);
        }
        proof {
            assert forall|x: usize| #[trigger] out@.contains(x) <==> (set@.contains(x) && x < i + 1) by {
                if out@.contains(x) {
                    let a = choose|a: int| 0 <= a < out.len() && out@[a] == x;
                    if a < before.len() {
                        assert(before[a] == x);
                        assert(before.contains(x));
                    }
                }
                if set@.contains(x) && x < i {
                    assert(before.contains(x));
                    let a = choose|a: int| 0 <= a < before.len() && before[a] == x;
                    assert(out@[a] == x);
                }
                if set@.contains(x) && x == i {
                    assert(out@[out.len() - 1] == x);
                }
            }
        }
        i = i + 1;
    }
    out
}

/// A list of distinct members of a set holds as many members as the set.
proof fn lemma_listed_len(s: Seq<usize>, set: Set<usize>)
    requires
        lists_exactly(s, set),
    ensures
        set.len() == s.len(),
        set.finite(),
{
    assert(s.no_duplicates());
    s.unique_seq_to_set();
    assert(s.to_set() =~= set);
}

/// Works out what a `delete` removes: the records asked for by `spec`,
/// then, by auto-pairing, the records of the same tool calls and turns;
/// with how many surviving records get re-linked. Refuses the request as
/// `delete_error_s` says.
pub fn plan_delete(session: &Session, pairing: &PairIndex, spec: &DeleteSpec) -> (r: Result<
    DeletePlan,
    DeleteError,
>)
    requires
        built_from(*pairing, session.messages@),
    ensures
        match r {
            Err(e) => delete_error_s(*spec, session.messages.len()) == Some(e),
            Ok(plan) => {
                let n = session.messages.len();
                let req = requested_s(*spec, n);
                let all = auto_paired(*pairing, req);
                &&& delete_error_s(*spec, n) is None
                &&& plan.marked@ == all
                &&& lists_exactly(plan.requested@, req)
                &&& lists_exactly(plan.after_auto_pair@, all)
                &&& lists_exactly(plan.paired_added@, all.difference(req))
                &&& plan.relinked == relinked_count(session.messages@, all, n as int)
                &&& plan.total_before == n
                &&& plan.total_after == n - all.len()
            },
        },
{
    let total = session.messages.len();
    let ghost sp = *spec;
    let mut req: HashSet<usize> = HashSet::new();
    let mut k: usize = 0;
    assert(spec.indices@.skip(0) =~= spec.indices@);
    assert(spec.indices@.take(0) =~= Seq::<usize>::empty());
    while k < spec.indices.len()
        invariant
            k <= spec.indices.len(),
            first_at_least(spec.indices@, total) == first_at_least(spec.indices@.skip(k as int), total),
            forall|x: usize| #[trigger] req@.contains(x) <==> spec.indices@.take(k as int).contains(x),
            forall|x: usize| req@.contains(x) ==> x < total,
        decreases spec.indices.len() - k,
    {
        let i = spec.indices[k];
        assert(spec.indices@.skip(k as int)[0] == i);
        if i >= total {
            return Err(DeleteError::IndexOutOfRange { index: i, total });
        }
        assert(spec.indices@.skip(k as int).drop_first() =~= spec.indices@.skip(k + 1));
        req.insert(i);
        assert(spec.indices@.take(k + 1) =~= spec.indices@.take(k as int).push(i));
        k = k + 1;
    }
    assert(spec.indices@.take(k as int) =~= spec.indices@);
    assert(first_at_least(spec.indices@.skip(k as int), total) is None);
    let ghost r0 = req@;
    assert(forall|x: usize| #[trigger] r0.contains(x) <==> spec.indices@.contains(x));
    if let Some(n) = spec.from_top {
        let lim: usize = if n < total {
            n
        } else {
            total
        };
        let mut i: usize = 0;
        while i < lim
            invariant
                i <= lim <= total,
                lim == if n < total { n } else { total },
                spec.from_top == Some(n),
                forall|x: usize| #[trigger] req@.contains(x) <==> (r0.contains(x) || x < i),
            decreases lim - i,
        {
            req.insert(i);
            i = i + 1;
        }
    }
    let ghost r1 = req@;
    assert forall|x: usize| #[trigger] r1.contains(x) <==> (spec.indices@.contains(x) || (
    spec.from_top matches Some(n) && x < n && x < total)) by {
        assert(r0.contains(x) <==> spec.indices@.contains(x));
    }
    assert forall|x: usize| #[trigger] req@.contains(x) implies x < total by {
        assert(r0.contains(x) ==> x < total);
    }
    if let Some(n) = spec.from_bottom {
        let mut i: usize = total.saturating_sub(n);
        while i < total
            invariant
                i <= total,
                i + n >= total,
                spec.from_bottom == Some(n),
                forall|x: usize| #[trigger] req@.contains(x) <==> (r1.contains(x) || (x + n
                    >= total && x < i)),
            decreases total - i,
        {
            req.insert(i);
            i = i + 1;
        }
    }
    let ghost r2 = req@;
    assert forall|x: usize| #[trigger] r2.contains(x) <==> (spec.indices@.contains(x) || (
    spec.from_top matches Some(n) && x < n && x < total) || (spec.from_bottom matches Some(n)
        && x < total && x + n >= total)) by {
        assert(r1.contains(x) <==> (spec.indices@.contains(x) || (spec.from_top matches Some(n)
            && x < n && x < total)));
    }
    assert forall|x: usize| #[trigger] req@.contains(x) implies x < total by {
        assert(r1.contains(x) ==> x < total);
    }
    match &spec.range {
        Some(rs) => {
            match parse_range(rs.as_str()) {
                Err(e) => {
                    return Err(DeleteError::Range(e));
                },
                Ok((lo, hi)) => {
                    if hi >= total {
                        return Err(DeleteError::RangeOutOfRange { hi, total });
                    }
                    let mut i: usize = lo;
                    while i <= hi
                        invariant
                            lo <= i <= hi + 1,
                            hi < total,
                            forall|x: usize| #[trigger] req@.contains(x) <==> (r2.contains(x)
                                || (lo <= x && x < i)),
                        decreases hi + 1 - i,
                    {
                        req.insert(i);
                        i = i + 1;
                    }
                },
            }
        },
        None => {},
    }
    assert forall|x: usize| #[trigger] req@.contains(x) <==> requested_s(sp, total).contains(x) by {
        assert(r2.contains(x) <==> (spec.indices@.contains(x) || (spec.from_top matches Some(n)
            && x < n && x < total) || (spec.from_bottom matches Some(n) && x < total && x + n
            >= total)));
    }
    assert(req@ =~= requested_s(sp, total));
    assert forall|x: usize| #[trigger] req@.contains(x) implies x < total by {
        assert(r2.contains(x) ==> x < total);
    }
    if req.len() == 0 {
        return Err(DeleteError::NothingSelected);
    }
    let requested = members_below(&req, total);
    let mut marked: HashSet<usize> = HashSet::new();
    let mut j: usize = 0;
    while j < requested.len()
        invariant
            j <= requested.len(),
            lists_exactly(requested@, req@),
            forall|x: usize| #[trigger] marked@.contains(x) <==> requested@.take(j as int).contains(x),
        decreases requested.len() - j,
    {
        let ghost m0 = marked@;
        let ghost t0 = requested@.take(j as int);
        marked.insert(requested[j]);
        assert(requested@.take(j + 1) =~= t0.push(requested@[j as int]));
        assert forall|x: usize| #[trigger] marked@.contains(x) <==> requested@.take(j + 1).contains(
            x,
        ) by {
            assert(m0.contains(x) <==> t0.contains(x));
            if requested@.take(j + 1).contains(x) && x != requested@[j as int] {
                let a = choose|a: int| 0 <= a < j + 1 && #[trigger] requested@.take(j + 1)[a] == x;
                assert(t0[a] == x);
            }
            if t0.contains(x) {
                let a = choose|a: int| 0 <= a < j && #[trigger] t0[a] == x;
                assert(requested@.take(j + 1)[a] == x);
            }
            if x == requested@[j as int] {
                assert(requested@.take(j + 1)[j as int] == x);
            }
        }
        j = j + 1;
    }
    assert(requested@.take(j as int) =~= requested@);
    assert(marked@ =~= req@);
    let _ = pairing.auto_pair(&mut marked);
    proof {
        auto_pair_stays_in_session(*pairing, session.messages@, req@);
    }
    let after = members_below(&marked, total);
    let mut added: Vec<usize> = Vec::new();
    let mut i: usize = 0;
    while i < total
        invariant
            i <= total,
            ascending(added@),
            forall|a: int| 0 <= a < added.len() ==> #[trigger] added@[a] < i,
            forall|x: usize| #[trigger] added@.contains(x) <==> (marked@.contains(x) && !req@.contains(
                x,
            ) && x < i),
        decreases total - i,
    {
        let ghost before = added@;
        if marked.contains(&i) && !req.contains(&i) {
            added.push(i);
        }
        proof {
            assert forall|x: usize| #[trigger] added@.contains(x) <==> (marked@.contains(x)
                && !req@.contains(x) && x < i + 1) by {
                if added@.contains(x) {
                    let a = choose|a: int| 0 <= a < added.len() && added@[a] == x;
                    if a < before.len() {
                        assert(before[a] == x);
                        assert(before.contains(x));
                    }
                }
                if marked@.contains(x) && !req@.contains(x) && x < i {
                    assert(before.contains(x));
                    let a = choose|a: int| 0 <= a < before.len() && before[a] == x;
                    assert(added@[a] == x);
                }
                if marked@.contains(x) && !req@.contains(x) && x == i {
                    assert(added@[added.len() - 1] == x);
                }
            }
        }
        i = i + 1;
    }
    assert forall|x: usize| #[trigger] added@.contains(x) <==> marked@.difference(req@).contains(
        x,
    ) by {
        if marked@.contains(x) {
            assert(x < total);
        }
    }
    let relinked = match session.render_with_relink(&marked) {
        Ok((_, n)) => n,
        Err(_) => 0,
    };
    proof {
        lemma_listed_len(after@, marked@);
    }
    let total_after = total - after.len();
    Ok(
        DeletePlan {
            marked,
            requested,
            after_auto_pair: after,
            paired_added: added,
            relinked,
            total_before: total,
            total_after,
        },
    )
}

} // verus!
