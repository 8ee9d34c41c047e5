//! Token counts of whole records, with the `cl100k_base` encoding: the
//! count reflects what the model loads for a record (text, tool
//! arguments, tool output and metadata alike).

use std::collections::HashMap;
use vstd::prelude::*;
use crate::session::{message_json, message_text, opt_view, Message};

verus! {

broadcast use vstd::std_specs::hash::group_hash_axioms;

/// What encoding `s` with `cl100k_base`, special tokens allowed, gives as
/// a token count; `None` where the encoder reports an error.
pub uninterp spec fn cl100k_len(s: Seq<char>) -> Option<usize>;

/// Calls `CoreBPE::encode` of tiktoken's shared `cl100k_base` encoder
/// (`cl100k_base_singleton`), with every special token allowed, as
/// `encode_with_special_tokens` does; its contract names the length of
/// the token list `cl100k_len` of the text. Where `encode` returns an
/// error (a regex failure) the wrapper gives `None` instead of panicking.
#[verifier::external_body]
fn cl100k_count(s: &str) -> (r: Option<usize>)
    ensures
        r == cl100k_len(s@),
{
    let bpe = tiktoken_rs::cl100k_base_singleton();
    bpe.encode(s, &bpe.special_tokens()).ok().map(|(tokens, _)| tokens.len())
}

/// The token count of a text: 0 for the empty text, else its
/// `cl100k_base` length (0 where the encoder fails).
pub open spec fn token_count_s(s: Seq<char>) -> usize {
    if s.len() == 0 {
        0
    } else {
        match cl100k_len(s) {
            Some(n) => n,
            None => 0,
        }
    }
}

/// The text that is counted for a record: the line it was read from, or,
/// for a record built in memory, its fields written out.
pub open spec fn count_text(m: Message) -> Seq<char> {
    match m.original_line {
        Some(l) => l@,
        None => message_text(m, opt_view(m.parent_uuid)),
    }
}

/// The text that is counted for a record.
pub fn render_for_count(m: &Message) -> (r: String)
    ensures
        r@ == count_text(*m),
{
    match &m.original_line {
        Some(l) => l.clone(),
        None => message_json(m, &m.parent_uuid),
    }
}

/// What counting record `m` at index `idx` gives with the counts `cache`
/// remembered: the remembered count for that index, else the record's
/// token count.
pub open spec fn counted(cache: Map<usize, usize>, idx: usize, m: Message) -> usize {
    if cache.contains_key(idx) {
        cache[idx]
    } else {
        token_count_s(count_text(m))
    }
}

/// Counting an index a second time gives the first count, whatever
/// record is passed the second time.
pub proof fn recount_gives_first_count(
    cache: Map<usize, usize>,
    idx: usize,
    first: Message,
    second: Message,
)
    ensures
        counted(cache.insert(idx, counted(cache, idx, first)), idx, second) == counted(
            cache,
            idx,
            first,
        ),
{
}

/// Counts tokens of records, remembering each count by record index.
#[derive(Debug)]
pub struct TokenCounter {
    cache: HashMap<usize, usize>,
}

impl TokenCounter {
    /// The counts remembered so far, by record index.
    pub closed spec fn cached(&self) -> Map<usize, usize> {
        self.cache@
    }

    pub fn new() -> (r: TokenCounter)
        ensures
            r.cached() == Map::<usize, usize>::empty(),
    {
        TokenCounter { cache: HashMap::new() }
    }

    /// The token count of `s`.
    pub fn count_str(&self, s: &str) -> (r: usize)
        ensures
            r == token_count_s(s@),
    {
        self.encode(s)
    }

    fn encode(&self, s: &str) -> (r: usize)
        ensures
            r == token_count_s(s@),
    {
        if s.is_empty() {
            return 0;
        }
        match cl100k_count(s) {
            Some(n) => n,
            None => 0,
        }
    }

    /// The token count of record `msg` at index `msg_idx`. A count already
    /// remembered for that index is returned as it is; otherwise the
    /// record is counted and the count remembered.
    pub fn count(&mut self, msg_idx: usize, msg: &Message) -> (r: usize)
        ensures
            r == counted(old(self).cached(), msg_idx, *msg),
            final(self).cached() == old(self).cached().insert(msg_idx, r),
    {
        match self.cache.get(&msg_idx) {
            Some(c) => {
                let c = *c;
                assert(self.cache@.insert(msg_idx, c) =~= self.cache@);
                return c;
            },
            None => {},
        }
        let text = render_for_count(msg);
        let n = self.encode(text.as_str());
        self.cache.insert(msg_idx, n);
        n
    }
}

impl Default for TokenCounter {
    fn default() -> (r: TokenCounter)
        ensures
            r.cached() == Map::<usize, usize>::empty(),
    {
        TokenCounter::new()
    }
}

} // verus!
