//! Fuzzy search over listed sessions, by project and title, ranked by the
//! `nucleo-matcher` score.

use vstd::prelude::*;
use vstd::string::StringExecFns;
use crate::order::{desc_order, desc_order_sorted_permutation, order_desc};
use crate::scan::SessionEntry;
use crate::text::{trim, trim_s};

verus! {

/// What `Pattern::score` gives for `query` (parsed ignoring case, with
/// smart normalization) on `hay` passed as ASCII bytes.
pub uninterp spec fn nucleo_ascii_score(query: Seq<char>, hay: Seq<char>) -> Option<u32>;

/// What `Pattern::score` gives for `query` (parsed ignoring case, with
/// smart normalization) on `hay` passed through `Utf32Str::new`.
pub uninterp spec fn nucleo_score(query: Seq<char>, hay: Seq<char>) -> Option<u32>;

/// Longest haystack, in UTF-8 bytes, that is scored. The matcher adds up
/// one atom's score in a `u16`: at most 36 for the first character it
/// matches, 26 for each further one and 8 for the prefix, and an atom
/// matches at most as many characters as the haystack holds, so
/// `26 * 2048 + 18` stays below `u16::MAX`. A project directory name of
/// at most 255 bytes and a title of at most 70 characters fit.
pub const MAX_HAY_BYTES: usize = 2048;

/// Longest query, in characters, that is scored. The matcher adds up the
/// atoms' scores in a `u32`; an atom scores at most 26 for each of its
/// characters plus 18, at most 44 for each character of the query, so
/// `44 * 2^26` stays below `u32::MAX`.
pub const MAX_QUERY_CHARS: usize = 67108864;

/// The length of a text in UTF-8 bytes (`str::len`).
pub open spec fn utf8_len(s: Seq<char>) -> nat
    decreases s.len(),
{
    if s.len() == 0 {
        0
    } else {
        utf8_len(s.drop_last()) + utf8_width(s.last())
    }
}

/// Calls `Pattern::parse(query, CaseMatching::Ignore, Normalization::Smart)`
/// and `Pattern::score` on `Utf32Str::Ascii(hay.as_bytes())` with a
/// `Matcher` of `Config::DEFAULT`; its contract names the score
/// `nucleo_ascii_score` of the query and the haystack. The matcher is
/// scratch space only: the pattern sets the matcher options it reads.
#[verifier::external_body]
fn score_ascii(query: &str, hay: &str) -> (r: Option<u32>)
    requires
        utf8_len(hay@) <= MAX_HAY_BYTES,
        query@.len() <= MAX_QUERY_CHARS,
    ensures
        r == nucleo_ascii_score(query@, hay@),
{
    let mut matcher = nucleo_matcher::Matcher::new(nucleo_matcher::Config::DEFAULT);
    let pattern = nucleo_matcher::pattern::Pattern::parse(
        query,
        nucleo_matcher::pattern::CaseMatching::Ignore,
        nucleo_matcher::pattern::Normalization::Smart,
    );
    pattern.score(nucleo_matcher::Utf32Str::Ascii(hay.as_bytes()), &mut matcher)
}

/// Calls `Pattern::parse(query, CaseMatching::Ignore, Normalization::Smart)`
/// and `Pattern::score` on `Utf32Str::new(hay, ..)` with a `Matcher` of
/// `Config::DEFAULT`; its contract names the score `nucleo_score` of the
/// query and the haystack.
#[verifier::external_body]
fn score_unicode(query: &str, hay: &str) -> (r: Option<u32>)
    requires
        utf8_len(hay@) <= MAX_HAY_BYTES,
        query@.len() <= MAX_QUERY_CHARS,
    ensures
        r == nucleo_score(query@, hay@),
{
    let mut matcher = nucleo_matcher::Matcher::new(nucleo_matcher::Config::DEFAULT);
    let pattern = nucleo_matcher::pattern::Pattern::parse(
        query,
        nucleo_matcher::pattern::CaseMatching::Ignore,
        nucleo_matcher::pattern::Normalization::Smart,
    );
    let mut buf = Vec::new();
    pattern.score(nucleo_matcher::Utf32Str::new(hay, &mut buf), &mut matcher)
}

/// What an entry is matched against: its project, a space, its title.
pub open spec fn hay_s(e: SessionEntry) -> Seq<char> {
    e.project_slug@ + seq![' '] + e.title@
}

/// The entry is short enough for the matcher: its haystack holds at
/// most `MAX_HAY_BYTES` bytes.
pub open spec fn entry_fits(e: SessionEntry) -> bool {
    utf8_len(hay_s(e)) <= MAX_HAY_BYTES
}

/// The UTF-8 width of a character.
pub open spec fn utf8_width(c: char) -> nat {
    if (c as u32) < 0x80 {
        1
    } else if (c as u32) < 0x800 {
        2
    } else if (c as u32) < 0x10000 {
        3
    } else {
        4
    }
}

proof fn lemma_utf8_len_prefix(s: Seq<char>, i: int)
    requires
        0 <= i <= s.len(),
    ensures
        utf8_len(s.take(i)) <= utf8_len(s),
        i < s.len() ==> utf8_len(s.take(i + 1)) == utf8_len(s.take(i)) + utf8_width(s[i]),
    decreases s.len() - i,
{
    if i < s.len() {
        lemma_utf8_len_prefix(s, i + 1);
        assert(s.take(i + 1).drop_last() =~= s.take(i));
    } else {
        assert(s.take(i) =~= s);
    }
}

/// Whether the matcher can score an entry (see `entry_fits`).
pub fn fits_matcher(e: &SessionEntry) -> (r: bool)
    ensures
        r == entry_fits(*e),
{
    let hay = hay_of(e);
    let v = crate::text::chars_of(hay.as_str());
    let mut n: usize = 0;
    let mut i: usize = 0;
    while i < v.len()
        invariant
            i <= v.len(),
            v@ == hay_s(*e),
            n == utf8_len(v@.take(i as int)),
            n <= MAX_HAY_BYTES,
        decreases v.len() - i,
    {
        proof {
            lemma_utf8_len_prefix(v@, i as int);
        }
        let c = v[i] as u32;
        let w: usize = if c < 0x80 {
            1
        } else if c < 0x800 {
            2
        } else if c < 0x10000 {
            3
        } else {
            4
        };
        if n + w > MAX_HAY_BYTES {
            proof {
                lemma_utf8_len_prefix(v@, i + 1);
            }
            return false;
        }
        n = n + w;
        i = i + 1;
    }
    assert(v@.take(v.len() as int) =~= v@);
    true
}

/// The score of an entry: the ASCII score, else the Unicode one.
pub open spec fn score_s(query: Seq<char>, e: SessionEntry) -> Option<u32> {
    match nucleo_ascii_score(query, hay_s(e)) {
        Some(s) => Some(s),
        None => nucleo_score(query, hay_s(e)),
    }
}

/// The matching entries among the first `k`, with their scores, in order.
pub open spec fn scored_below(query: Seq<char>, entries: Seq<SessionEntry>, k: int) -> Seq<(u32, usize)>
    decreases k,
{
    if k <= 0 {
        Seq::empty()
    } else {
        scored_below(query, entries, k - 1) + match score_s(query, entries[k - 1]) {
            Some(s) => seq![(s, (k - 1) as usize)],
            None => Seq::empty(),
        }
    }
}

/// The indices of the entries that a search for `query` shows, in order:
/// all of them for a blank query; else the matching ones, best score
/// first, equal scores in list order.
pub open spec fn search_order(query: Seq<char>, entries: Seq<SessionEntry>) -> Seq<usize> {
    if trim_s(query).len() == 0 {
        Seq::new(entries.len(), |i: int| i as usize)
    } else {
        let m = scored_below(query, entries, entries.len() as int);
        desc_order(m.map_values(|x: (u32, usize)| x.0 as u128), m.len() as int).map_values(
            |j: usize| m[j as int].1,
        )
    }
}

/// Whether an entry matches `query`: a blank query matches everything.
pub open spec fn matches_s(query: Seq<char>, e: SessionEntry) -> bool {
    trim_s(query).len() == 0 || score_s(query, e) is Some
}

/// What the entry is matched against.
fn hay_of(e: &SessionEntry) -> (r: String)
    ensures
        r@ == hay_s(*e),
{
    proof {
        reveal_strlit(" ");
        assert(" "@ =~= seq![' ']);
    }
    let mut h = e.project_slug.clone();
    h.append(" ");
    h.append(e.title.as_str());
    h
}

/// The score of an entry.
fn score_entry(query: &str, e: &SessionEntry) -> (r: Option<u32>)
    requires
        entry_fits(*e),
        query@.len() <= MAX_QUERY_CHARS,
    ensures
        r == score_s(query@, *e),
{
    let hay = hay_of(e);
    match score_ascii(query, hay.as_str()) {
        Some(s) => Some(s),
        None => score_unicode(query, hay.as_str()),
    }
}

/// Whether an entry matches `query`.
pub fn matches(e: &SessionEntry, query: &str) -> (r: bool)
    requires
        entry_fits(*e),
        query@.len() <= MAX_QUERY_CHARS,
    ensures
        r == matches_s(query@, *e),
{
    let q = trim(query);
    if q.as_str().is_empty() {
        return true;
    }
    score_entry(query, e).is_some()
}

/// The entries that match `query`, best first (see `search_order`).
pub fn fuzzy_filter<'a>(entries: &'a [SessionEntry], query: &str) -> (r: Vec<&'a SessionEntry>)
    requires
        query@.len() <= MAX_QUERY_CHARS,
        forall|i: int| 0 <= i < entries@.len() ==> entry_fits(#[trigger] entries@[i]),
    ensures
        r@.map_values(|e: &SessionEntry| *e) == search_order(query@, entries@).map_values(
            |i: usize| entries@[i as int],
        ),
{
    let q = trim(query);
    if q.as_str().is_empty() {
        let mut all: Vec<&'a SessionEntry> = Vec::new();
        let mut i: usize = 0;
        while i < entries.len()
            invariant
                i <= entries.len(),
                all@.map_values(|e: &SessionEntry| *e) == entries@.take(i as int),
            decreases entries.len() - i,
        {
            all.push(&entries[i]);
            assert(all@.map_values(|e: &SessionEntry| *e) =~= entries@.take(i + 1));
            i = i + 1;
        }
        assert(search_order(query@, entries@).map_values(|i: usize| entries@[i as int])
            =~= entries@);
        assert(entries@.take(entries.len() as int) =~= entries@);
        return all;
    }
    let mut scores: Vec<u128> = Vec::new();
    let mut idxs: Vec<usize> = Vec::new();
    let ghost mut m: Seq<(u32, usize)> = Seq::empty();
    let mut i: usize = 0;
    while i < entries.len()
        invariant
            i <= entries.len(),
            forall|k: int| 0 <= k < entries@.len() ==> entry_fits(#[trigger] entries@[k]),
            m == scored_below(query@, entries@, i as int),
            scores@ == m.map_values(|x: (u32, usize)| x.0 as u128),
            idxs@ == m.map_values(|x: (u32, usize)| x.1),
        decreases entries.len() - i,
    {
        match score_entry(query, &entries[i]) {
            Some(s) => {
                scores.push(s as u128);
                idxs.push(i);
                proof {
                    m = m.push((s, i));
                }
            },
            None => {},
        }
        assert(scores@ =~= m.map_values(|x: (u32, usize)| x.0 as u128));
        assert(idxs@ =~= m.map_values(|x: (u32, usize)| x.1));
        assert(m =~= scored_below(query@, entries@, i + 1));
        i = i + 1;
    }
    let order = order_desc(&scores);
    proof {
        desc_order_sorted_permutation(scores@, scores.len() as int);
        lemma_scored_bound(query@, entries@, entries.len() as int);
    }
    let mut out: Vec<&'a SessionEntry> = Vec::new();
    let mut k: usize = 0;
    while k < order.len()
        invariant
            k <= order.len(),
            order.len() == scores.len(),
            idxs.len() == scores.len(),
            order@ == desc_order(scores@, scores.len() as int),
            forall|a: int| 0 <= a < order.len() ==> #[trigger] order@[a] < scores.len(),
            forall|a: int| 0 <= a < idxs.len() ==> #[trigger] idxs@[a] < entries.len(),
            out@.map_values(|e: &SessionEntry| *e) == order@.take(k as int).map_values(
                |j: usize| entries@[idxs@[j as int] as int],
            ),
        decreases order.len() - k,
    {
        let j = order[k];
        let e = idxs[j];
        let ghost before = out@;
        out.push(&entries[e]);
        assert(out@.map_values(|e: &SessionEntry| *e) =~= before.map_values(|e: &SessionEntry| *e).push(
            entries@[e as int],
        ));
        assert(out@.map_values(|e: &SessionEntry| *e) =~= order@.take(k + 1).map_values(
            |j: usize| entries@[idxs@[j as int] as int],
        ));
        k = k + 1;
    }
    assert(order@.take(order.len() as int) =~= order@);
    assert(out@.map_values(|e: &SessionEntry| *e) =~= search_order(query@, entries@).map_values(
        |i: usize| entries@[i as int],
    ));
    out
}

proof fn lemma_scored_bound(query: Seq<char>, entries: Seq<SessionEntry>, k: int)
    requires
        k <= usize::MAX,
    ensures
        forall|a: int|
            0 <= a < scored_below(query, entries, k).len() ==> #[trigger] scored_below(
                query,
                entries,
                k,
            )[a].1 < k,
    decreases k,
{
    if k > 0 {
        lemma_scored_bound(query, entries, k - 1);
        let prev = scored_below(query, entries, k - 1);
        assert forall|a: int|
            0 <= a < scored_below(query, entries, k).len() implies #[trigger] scored_below(
            query,
            entries,
            k,
        )[a].1 < k by {
            if a < prev.len() {
                assert(scored_below(query, entries, k)[a] == prev[a]);
            }
        }
    }
}

proof fn lemma_scored_entries(query: Seq<char>, entries: Seq<SessionEntry>, k: int)
    requires
        0 <= k <= entries.len(),
        entries.len() <= usize::MAX,
    ensures
        forall|a: int|
            0 <= a < scored_below(query, entries, k).len() ==> score_s(
                query,
                entries[(#[trigger] scored_below(query, entries, k)[a]).1 as int],
            ) == Some(scored_below(query, entries, k)[a].0),
        scored_below(query, entries, k).len() <= k,
    decreases k,
{
    if k > 0 {
        lemma_scored_entries(query, entries, k - 1);
        let prev = scored_below(query, entries, k - 1);
        let cur = scored_below(query, entries, k);
        assert forall|a: int| 0 <= a < cur.len() implies score_s(
            query,
            entries[(#[trigger] cur[a]).1 as int],
        ) == Some(cur[a].0) by {
            if a < prev.len() {
                assert(cur[a] == prev[a]);
            }
        }
    }
}

proof fn lemma_scored_complete(query: Seq<char>, entries: Seq<SessionEntry>, k: int)
    requires
        0 <= k <= entries.len(),
        entries.len() <= usize::MAX,
    ensures
        forall|a: int, b: int|
            0 <= a < b < scored_below(query, entries, k).len() ==> (#[trigger] scored_below(
                query,
                entries,
                k,
            )[a]).1 < (#[trigger] scored_below(query, entries, k)[b]).1,
        forall|i: int|
            0 <= i < k && (#[trigger] score_s(query, entries[i])) is Some ==> exists|a: int|
                0 <= a < scored_below(query, entries, k).len() && scored_below(query, entries, k)[a].1
                    == i,
    decreases k,
{
    if k > 0 {
        lemma_scored_complete(query, entries, k - 1);
        lemma_scored_bound(query, entries, k - 1);
        let prev = scored_below(query, entries, k - 1);
        let cur = scored_below(query, entries, k);
        assert forall|a: int| 0 <= a < prev.len() implies cur[a] == prev[a] by {}
        assert forall|a: int, b: int| 0 <= a < b < cur.len() implies (#[trigger] cur[a]).1 < (
        #[trigger] cur[b]).1 by {
            if b < prev.len() {
                assert(prev[a].1 < prev[b].1);
            } else {
                assert(cur[b].1 == k - 1);
                assert(prev[a].1 < k - 1);
            }
        }
        assert forall|i: int| 0 <= i < k && (#[trigger] score_s(query, entries[i])) is Some implies exists|a: int|
            0 <= a < cur.len() && cur[a].1 == i by {
            if i < k - 1 {
                let a = choose|a: int| 0 <= a < prev.len() && prev[a].1 == i;
                assert(cur[a] == prev[a]);
            } else {
                assert(cur[prev.len() as int].1 == i);
            }
        }
    }
}

/// A search with a non-blank query shows every matching entry once and
/// nothing else, best score first, entries of equal score in list order.
pub proof fn search_shows_best_first(query: Seq<char>, entries: Seq<SessionEntry>)
    requires
        trim_s(query).len() > 0,
        entries.len() <= usize::MAX,
    ensures
        search_order(query, entries).no_duplicates(),
        forall|i: int|
            0 <= i < entries.len() && (#[trigger] score_s(query, entries[i])) is Some
                ==> search_order(query, entries).contains(i as usize),
        forall|a: int, b: int|
            0 <= a < b < search_order(query, entries).len() && score_s(
                query,
                entries[#[trigger] search_order(query, entries)[a] as int],
            ) == score_s(query, entries[#[trigger] search_order(query, entries)[b] as int])
                ==> search_order(query, entries)[a] < search_order(query, entries)[b],
        forall|a: int|
            0 <= a < search_order(query, entries).len() ==> (score_s(
                query,
                entries[#[trigger] search_order(query, entries)[a] as int],
            ) is Some),
        forall|a: int, b: int|
            0 <= a < b < search_order(query, entries).len() ==> score_s(
                query,
                entries[search_order(query, entries)[a] as int],
            )->0 >= score_s(query, entries[search_order(query, entries)[b] as int])->0,
{
    let m = scored_below(query, entries, entries.len() as int);
    let keys = m.map_values(|x: (u32, usize)| x.0 as u128);
    let order = desc_order(keys, m.len() as int);
    lemma_scored_entries(query, entries, entries.len() as int);
    lemma_scored_bound(query, entries, entries.len() as int);
    desc_order_sorted_permutation(keys, m.len() as int);
    let so = search_order(query, entries);
    assert forall|a: int| 0 <= a < so.len() implies (score_s(
        query,
        entries[#[trigger] so[a] as int],
    ) is Some) by {
        assert(so[a] == m[order[a] as int].1);
        assert(order[a] < m.len());
    }
    assert forall|a: int, b: int| 0 <= a < b < so.len() implies score_s(
        query,
        entries[so[a] as int],
    )->0 >= score_s(query, entries[so[b] as int])->0 by {
        assert(so[a] == m[order[a] as int].1);
        assert(so[b] == m[order[b] as int].1);
        assert(keys[order[a] as int] >= keys[order[b] as int]);
        assert(m[order[a] as int] == m[order[a] as int]);
    }
    lemma_scored_complete(query, entries, entries.len() as int);
    assert forall|a: int, b: int| 0 <= a < b < so.len() implies so[a] != so[b] by {
        assert(so[a] == m[order[a] as int].1);
        assert(so[b] == m[order[b] as int].1);
        assert(order[a] != order[b]);
        if order[a] < order[b] {
            assert(m[order[a] as int].1 < m[order[b] as int].1);
        } else {
            assert(m[order[b] as int].1 < m[order[a] as int].1);
        }
    }
    assert forall|i: int|
        0 <= i < entries.len() && (#[trigger] score_s(query, entries[i])) is Some implies so.contains(
        i as usize,
    ) by {
        let a = choose|a: int| 0 <= a < m.len() && m[a].1 == i;
        assert(order.contains(a as usize));
        let c = choose|c: int| 0 <= c < order.len() && order[c] == a as usize;
        assert(so[c] == m[order[c] as int].1);
    }
    assert forall|a: int, b: int|
        0 <= a < b < so.len() && score_s(query, entries[#[trigger] so[a] as int]) == score_s(
            query,
            entries[#[trigger] so[b] as int],
        ) implies so[a] < so[b] by {
        assert(so[a] == m[order[a] as int].1);
        assert(so[b] == m[order[b] as int].1);
        assert(order[a] < m.len() && order[b] < m.len());
        assert(keys[order[a] as int] == m[order[a] as int].0 as u128);
        assert(keys[order[b] as int] == m[order[b] as int].0 as u128);
        assert(keys[order[a] as int] == keys[order[b] as int]);
        assert(order[a] < order[b]);
    }
}

} // verus!
