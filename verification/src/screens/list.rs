//! The list screen: the sessions found, filtered by a search query, with
//! one of them selected.

use vstd::prelude::*;
use std::path::PathBuf;
use crate::scan::SessionEntry;
use crate::screens::{clamp_move, clamped_move, Key, Transition};
use crate::search::{entry_fits, matches_s, MAX_QUERY_CHARS};
use crate::text::{chars_of, push_char, string_of};

verus! {

/// Browsing the list, or typing a search query.
#[derive(Debug, Clone, Copy, PartialEq, Eq, Structural)]
pub enum Mode {
    Browse,
    Search,
}

/// The list screen.
#[derive(Debug)]
pub struct ListState {
    pub entries: Vec<SessionEntry>,
    pub query: String,
    pub mode: Mode,
    /// The selected row of the filtered list.
    pub selected: Option<usize>,
}

/// The entries among the first `k` that match `query`, in order.
pub open spec fn filtered_s(entries: Seq<SessionEntry>, query: Seq<char>, k: int) -> Seq<
    SessionEntry,
>
    decreases k,
{
    if k <= 0 {
        Seq::empty()
    } else if matches_s(query, entries[k - 1]) {
        filtered_s(entries, query, k - 1).push(entries[k - 1])
    } else {
        filtered_s(entries, query, k - 1)
    }
}

/// Every entry can be matched.
pub open spec fn all_fit(entries: Seq<SessionEntry>) -> bool {
    forall|i: int| 0 <= i < entries.len() ==> entry_fits(#[trigger] entries[i])
}

impl ListState {
    /// The list can be searched: every entry can be matched, and the
    /// query is not longer than `MAX_QUERY_CHARS`.
    pub open spec fn wf(&self) -> bool {
        all_fit(self.entries@) && self.query@.len() <= MAX_QUERY_CHARS
    }

    /// The entries that match the query, in order.
    pub open spec fn shown(&self) -> Seq<SessionEntry> {
        filtered_s(self.entries@, self.query@, self.entries@.len() as int)
    }

    /// A fresh list: no query, browsing, the first row selected when there
    /// is one.
    pub fn new(entries: Vec<SessionEntry>) -> (r: ListState)
        requires
            all_fit(entries@),
        ensures
            r.entries@ == entries@,
            r.query@ == Seq::<char>::empty(),
            r.mode == Mode::Browse,
            r.selected == if entries.len() > 0 {
                Some(0usize)
            } else {
                None::<usize>
            },
            r.wf(),
    {
        let selected = if entries.len() > 0 {
            Some(0)
        } else {
            None
        };
        ListState { entries, query: String::new(), mode: Mode::Browse, selected }
    }

    /// The entries that match the query, in order.
    pub fn filtered(&self) -> (r: Vec<&SessionEntry>)
        requires
            self.wf(),
        ensures
            r@.map_values(|e: &SessionEntry| *e) == self.shown(),
    {
        let mut out: Vec<&SessionEntry> = Vec::new();
        let mut i: usize = 0;
        while i < self.entries.len()
            invariant
                i <= self.entries.len(),
                self.wf(),
                out@.map_values(|e: &SessionEntry| *e) == filtered_s(
                    self.entries@,
                    self.query@,
                    i as int,
                ),
            decreases self.entries.len() - i,
        {
            let e = &self.entries[i];
            let ghost before = out@.map_values(|e: &SessionEntry| *e);
            if crate::search::matches(e, self.query.as_str()) {
                out.push(e);
                assert(out@.map_values(|e: &SessionEntry| *e) =~= before.push(*e));
            }
            i = i + 1;
        }
        out
    }

    /// The path of the selected entry, if a row is selected and shown.
    pub fn selected_path(&self) -> (r: Option<PathBuf>)
        requires
            self.wf(),
        ensures
            r == match self.selected {
                Some(i) => if i < self.shown().len() {
                    Some(self.shown()[i as int].path)
                } else {
                    None::<PathBuf>
                },
                None => None::<PathBuf>,
            },
    {
        let shown = self.filtered();
        match self.selected {
            Some(i) => {
                if i < shown.len() {
                    assert(shown@.map_values(|e: &SessionEntry| *e)[i as int] == *shown@[i as int]);
                    Some(shown[i].path.clone())
                } else {
                    None
                }
            },
            None => None,
        }
    }

    /// Moves the selection by `delta` rows, kept inside the filtered list;
    /// nothing is selected when the list is empty.
    pub fn move_selection(&mut self, delta: isize)
        requires
            old(self).wf(),
        ensures
            final(self).entries@ == old(self).entries@,
            final(self).query@ == old(self).query@,
            final(self).mode == old(self).mode,
            final(self).selected == if old(self).shown().len() == 0 {
                None::<usize>
            } else {
                Some(
                    clamp_move(
                        match old(self).selected {
                            Some(c) => c as int,
                            None => 0,
                        },
                        delta as int,
                        old(self).shown().len() as int,
                    ) as usize,
                )
            },
    {
        let len = self.filtered().len();
        if len == 0 {
            self.selected = None;
            return;
        }
        let cur = match self.selected {
            Some(c) => c,
            None => 0,
        };
        self.selected = Some(clamped_move(cur, delta, len));
    }
}

/// The query without its last character.
fn drop_last_char(s: &String) -> (r: String)
    ensures
        r@ == if s@.len() > 0 {
            s@.drop_last()
        } else {
            s@
        },
{
    let v = chars_of(s.as_str());
    if v.len() > 0 {
        string_of(&v, 0, v.len() - 1)
    } else {
        string_of(&v, 0, 0)
    }
}

/// A character typed into a query that already holds `MAX_QUERY_CHARS`
/// characters: the matcher could not score the longer query.
pub open spec fn list_key_fails(l: ListState, key: Key) -> bool {
    l.mode == Mode::Search && key is Char && l.query@.len() >= MAX_QUERY_CHARS
}

/// What a key press does on the list screen. Browsing: `q` quits; `j`
/// or Down and `k` or Up move the selection; `t` and `b` select the first
/// and the last row; `/` starts a new search; Enter opens the selected
/// session. Searching: characters and Backspace edit the query, Enter keeps it, Esc drops it; each of these
/// selects the first row.
pub fn handle_key(state: &mut ListState, key: Key) -> (t: Transition)
    requires
        old(state).wf(),
        !list_key_fails(*old(state), key),
    ensures
        final(state).wf(),
        final(state).entries@ == old(state).entries@,
        ({
            let o = *old(state);
            let f = *final(state);
            let len = o.shown().len();
            match o.mode {
                Mode::Browse => match key {
                    Key::Char('q') => t is Quit && f.query@ == o.query@ && f.mode == o.mode
                        && f.selected == o.selected,
                    Key::Char('j') | Key::Down => t is Stay && f.query@ == o.query@ && f.mode
                        == o.mode && f.selected == if len == 0 {
                        None::<usize>
                    } else {
                        Some(
                            clamp_move(
                                match o.selected {
                                    Some(c) => c as int,
                                    None => 0,
                                },
                                1,
                                len as int,
                            ) as usize,
                        )
                    },
                    Key::Char('k') | Key::Up => t is Stay && f.query@ == o.query@ && f.mode
                        == o.mode && f.selected == if len == 0 {
                        None::<usize>
                    } else {
                        Some(
                            clamp_move(
                                match o.selected {
                                    Some(c) => c as int,
                                    None => 0,
                                },
                                -1,
                                len as int,
                            ) as usize,
                        )
                    },
                    Key::Char('t') => t is Stay && f.query@ == o.query@ && f.mode == o.mode
                        && f.selected == Some(0usize),
                    Key::Char('b') => t is Stay && f.query@ == o.query@ && f.mode == o.mode
                        && f.selected == if len > 0 {
                        Some((len - 1) as usize)
                    } else {
                        o.selected
                    },
                    Key::Char('/') => t is Stay && f.query@ == Seq::<char>::empty() && f.mode
                        == Mode::Search && f.selected == o.selected,
                    Key::Enter => f.query@ == o.query@ && f.mode == o.mode && f.selected
                        == o.selected && match o.selected {
                        Some(i) => if i < len {
                            t == Transition::OpenEdit(o.shown()[i as int].path)
                        } else {
                            t is Stay
                        },
                        None => t is Stay,
                    },
                    _ => t is Stay && f.query@ == o.query@ && f.mode == o.mode && f.selected
                        == o.selected,
                },
                Mode::Search => t is Stay && match key {
                    Key::Esc => f.mode == Mode::Browse && f.query@ == Seq::<char>::empty()
                        && f.selected == Some(0usize),
                    Key::Enter => f.mode == Mode::Browse && f.query@ == o.query@ && f.selected
                        == Some(0usize),
                    Key::Backspace => f.mode == Mode::Search && f.query@ == (if o.query@.len()
                        > 0 {
                        o.query@.drop_last()
                    } else {
                        o.query@
                    }) && f.selected == Some(0usize),
                    Key::Char(c) => f.mode == Mode::Search && f.query@ == o.query@.push(c)
                        && f.selected == Some(0usize),
                    _ => f.mode == o.mode && f.query@ == o.query@ && f.selected == o.selected,
                },
            }
        }),
{
    match state.mode {
        Mode::Browse => match key {
            Key::Char('q') => {
                return Transition::Quit;
            },
            Key::Char('j') | Key::Down => state.move_selection(1),
            Key::Char('k') | Key::Up => state.move_selection(-1),
            Key::Char('t') => {
                state.selected = Some(0);
            },
            Key::Char('b') => {
                let len = state.filtered().len();
                if len > 0 {
                    state.selected = Some(len - 1);
                }
            },
            Key::Char('/') => {
                state.mode = Mode::Search;
                state.query = String::new();
            },
            Key::Enter => {
                match state.selected_path() {
                    Some(path) => {
                        return Transition::OpenEdit(path);
                    },
                    None => {},
                }
            },
            _ => {},
        },
        Mode::Search => match key {
            Key::Esc => {
                state.mode = Mode::Browse;
                state.query = String::new();
                state.selected = Some(0);
            },
            Key::Enter => {
                state.mode = Mode::Browse;
                state.selected = Some(0);
            },
            Key::Backspace => {
                state.query = drop_last_char(&state.query);
                state.selected = Some(0);
            },
            Key::Char(c) => {
                push_char(&mut state.query, c);
                state.selected = Some(0);
            },
            _ => {},
        },
    }
    Transition::Stay
}

} // verus!
