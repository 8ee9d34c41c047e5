//! The edit screen: the visible records of one session, marks for
//! deletion that auto-pairing keeps whole, and saving as a fork.

use std::collections::HashSet;
use vstd::prelude::*;
use vstd::string::StringExecFns;
use crate::pairing::{
    auto_pair_joins_closed, auto_pair_stays_in_session, auto_paired, pair_closed, built_from, is_visible,
    is_visible_s, PairIndex,
};
use crate::screens::{clamp_move, clamped_move, Key, Transition};
use crate::session::{Message, Session};
use crate::text::{decimal_s, usize_to_string};
use crate::tokens::TokenCounter;

verus! {

broadcast use vstd::std_specs::hash::group_hash_axioms;

/// The dialog shown over the edit screen, if any.
#[derive(Debug, PartialEq, Eq)]
pub enum Modal {
    /// No dialog.
    Hidden,
    /// Asks to confirm saving a fork without `count` records.
    ConfirmSave { count: usize },
    /// Tells how a save went.
    SaveResult(String),
}

/// The dialog, with its text as characters.
pub enum ModalView {
    Hidden,
    ConfirmSave { count: usize },
    SaveResult(Seq<char>),
}

/// The dialog, with its text as characters.
pub open spec fn modal_view(m: Modal) -> ModalView {
    match m {
        Modal::Hidden => ModalView::Hidden,
        Modal::ConfirmSave { count } => ModalView::ConfirmSave { count },
        Modal::SaveResult(s) => ModalView::SaveResult(s@),
    }
}

/// The edit screen.
#[derive(Debug)]
pub struct EditState {
    pub session: Session,
    pub pairing: PairIndex,
    pub tokens: TokenCounter,
    /// Index into `visible` (not into the session's records).
    pub selected: usize,
    /// Indices of the records marked for deletion.
    pub marked: HashSet<usize>,
    /// Indices of the records shown, ascending.
    pub visible: Vec<usize>,
    /// The row the list widget highlights.
    pub list_selected: Option<usize>,
    /// The last notice shown under the list.
    pub banner: Option<String>,
    /// Counts the notices set, so that the caller can time each one.
    pub banner_serial: u64,
    pub modal: Modal,
    /// The row where a range selection started.
    pub anchor: Option<usize>,
    /// A save was confirmed: the caller writes the fork and reports back
    /// through `finish_save`.
    pub save_requested: bool,
}

/// What a key press can change on the edit screen.
pub struct EditScreen {
    pub selected: usize,
    pub list_selected: Option<usize>,
    pub marked: Set<usize>,
    pub banner: Option<Seq<char>>,
    pub banner_serial: u64,
    pub modal: ModalView,
    pub anchor: Option<usize>,
    pub save_requested: bool,
}

/// The visible records among the first `k`, ascending.
pub open spec fn visible_indices(msgs: Seq<Message>, k: int) -> Seq<usize>
    decreases k,
{
    if k <= 0 {
        Seq::empty()
    } else if is_visible_s(msgs[k - 1]) {
        visible_indices(msgs, k - 1).push((k - 1) as usize)
    } else {
        visible_indices(msgs, k - 1)
    }
}

/// The next notice counter.
pub open spec fn next_serial(n: u64) -> u64 {
    if n == u64::MAX {
        0
    } else {
        (n + 1) as u64
    }
}

/// The screen with notice `text` shown.
pub open spec fn with_banner(sc: EditScreen, text: Seq<char>) -> EditScreen {
    EditScreen { banner: Some(text), banner_serial: next_serial(sc.banner_serial), ..sc }
}

/// Unmarking record `i`: every record that marking `i` alone pairs with
/// it (its tool-call partners and its turn, and theirs) is unmarked, so a
/// second `d` undoes the first.
pub open spec fn unmark_s(p: PairIndex, marked: Set<usize>, i: usize) -> Set<usize> {
    marked.difference(auto_paired(p, set![i]))
}

/// A second `d` undoes the first: marking record `i` on closed marks that
/// hold nothing of what `i` pairs with, then unmarking it, gives the marks
/// back.
pub proof fn toggle_twice_restores(p: PairIndex, m: Set<usize>, i: usize)
    requires
        pair_closed(p, m),
        forall|x: usize| m.contains(x) ==> !auto_paired(p, set![i]).contains(x),
    ensures
        unmark_s(p, auto_paired(p, m.insert(i)), i) == m,
{
    auto_pair_joins_closed(p, m, i);
    assert(unmark_s(p, auto_paired(p, m.insert(i)), i) =~= m);
}

/// `d` on the selected row (no range pending): a marked record is
/// unmarked with everything marking it pairs with it; an unmarked one is
/// marked and auto-paired, with a notice when pairing added records.
pub open spec fn toggle_s(p: PairIndex, vis: Seq<usize>, sc: EditScreen) -> EditScreen {
    if sc.selected < vis.len() {
        let i = vis[sc.selected as int];
        if sc.marked.contains(i) {
            EditScreen { marked: unmark_s(p, sc.marked, i), ..sc }
        } else {
            let m1 = sc.marked.insert(i);
            let m2 = auto_paired(p, m1);
            let added = (m2.len() - m1.len()) as nat;
            let sc2 = EditScreen { marked: m2, ..sc };
            if added > 0 {
                with_banner(sc2, "auto-paired "@ + decimal_s(added) + " tool call(s)"@)
            } else {
                sc2
            }
        }
    } else {
        sc
    }
}

/// `d` with a range pending: every record between the records of the
/// anchor row and of the selected row (hidden ones too) is marked, then
/// auto-paired; the range is dropped.
pub open spec fn range_s(p: PairIndex, vis: Seq<usize>, sc: EditScreen) -> EditScreen {
    match sc.anchor {
        None => sc,
        Some(a) => {
            let lo = if a <= sc.selected { a } else { sc.selected };
            let hi = if a <= sc.selected { sc.selected } else { a };
            let rl = vis[lo as int];
            let rh = vis[hi as int];
            let m1 = sc.marked.union(Set::new(|i: usize| rl <= i <= rh));
            let m2 = auto_paired(p, m1);
            with_banner(
                EditScreen { marked: m2, anchor: None, ..sc },
                "range marked: "@ + decimal_s((hi - lo + 1) as nat) + " msg(s); auto-paired "@
                    + decimal_s((m2.len() - m1.len()) as nat) + " extra"@,
            )
        },
    }
}

/// Marking every record from the first one to the selected row's record.
pub open spec fn top_s(p: PairIndex, vis: Seq<usize>, sc: EditScreen) -> EditScreen {
    if sc.selected < vis.len() {
        let r = vis[sc.selected as int];
        let m1 = sc.marked.union(Set::new(|i: usize| i <= r));
        let m2 = auto_paired(p, m1);
        with_banner(
            EditScreen { marked: m2, ..sc },
            "marked top→here ("@ + decimal_s((sc.selected + 1) as nat) + "); auto-paired "@
                + decimal_s((m2.len() - m1.len()) as nat) + " extra"@,
        )
    } else {
        sc
    }
}

/// Marking every record from the selected row's record to the last one.
pub open spec fn bottom_s(p: PairIndex, vis: Seq<usize>, sc: EditScreen, n: int) -> EditScreen {
    if sc.selected < vis.len() {
        let r = vis[sc.selected as int];
        let m1 = sc.marked.union(Set::new(|i: usize| r <= i < n));
        let m2 = auto_paired(p, m1);
        with_banner(
            EditScreen { marked: m2, ..sc },
            "marked here→bottom ("@ + decimal_s((vis.len() - sc.selected) as nat)
                + "); auto-paired "@ + decimal_s((m2.len() - m1.len()) as nat) + " extra"@,
        )
    } else {
        sc
    }
}

/// Moving the selection by `delta` rows inside the visible rows.
pub open spec fn move_s(vis: Seq<usize>, sc: EditScreen, delta: int) -> EditScreen {
    if vis.len() == 0 {
        sc
    } else {
        let new = clamp_move(sc.selected as int, delta, vis.len() as int) as usize;
        EditScreen { selected: new, list_selected: Some(new), ..sc }
    }
}

/// What a key press does to the edit screen. With the save dialog open,
/// `y` confirms (a save is requested, or, with nothing marked, a notice
/// says there is nothing to save) and any other key cancels; a result
/// dialog is closed by any key. Otherwise: `j`/Down and `k`/Up move, `t`
/// and `b` go to the first and the last row, `d` marks (a range when one
/// was started, else the selected row), `v` starts a range at the
/// selected row, `s` asks to save.
pub open spec fn key_s(p: PairIndex, vis: Seq<usize>, sc: EditScreen, key: Key) -> EditScreen {
    match sc.modal {
        ModalView::ConfirmSave { count } => if key == Key::Char('y') {
            if count == 0 {
                EditScreen { modal: ModalView::SaveResult("no changes to save"@), ..sc }
            } else {
                EditScreen { modal: ModalView::Hidden, save_requested: true, ..sc }
            }
        } else {
            EditScreen { modal: ModalView::Hidden, ..sc }
        },
        ModalView::SaveResult(_) => EditScreen { modal: ModalView::Hidden, ..sc },
        ModalView::Hidden => match key {
            Key::Char('j') | Key::Down => move_s(vis, sc, 1),
            Key::Char('k') | Key::Up => move_s(vis, sc, -1),
            Key::Char('t') => EditScreen { selected: 0, list_selected: Some(0), ..sc },
            Key::Char('b') => if vis.len() > 0 {
                EditScreen {
                    selected: (vis.len() - 1) as usize,
                    list_selected: Some((vis.len() - 1) as usize),
                    ..sc
                }
            } else {
                sc
            },
            Key::Char('d') => if sc.anchor is Some {
                range_s(p, vis, sc)
            } else {
                toggle_s(p, vis, sc)
            },
            Key::Char('v') => with_banner(
                EditScreen { anchor: Some(sc.selected), ..sc },
                "range anchor set; move and press 'd' to mark range"@,
            ),
            Key::Char('s') => EditScreen {
                modal: ModalView::ConfirmSave { count: sc.marked.len() as usize },
                ..sc
            },
            _ => sc,
        },
    }
}

/// `q` and Esc leave for the list when no dialog is open.
pub open spec fn leaves_s(sc: EditScreen, key: Key) -> bool {
    sc.modal is Hidden && (key == Key::Char('q') || key == Key::Esc)
}

impl EditState {
    /// What a key press can change.
    pub open spec fn screen(&self) -> EditScreen {
        EditScreen {
            selected: self.selected,
            list_selected: self.list_selected,
            marked: self.marked@,
            banner: match self.banner {
                Some(b) => Some(b@),
                None => None,
            },
            banner_serial: self.banner_serial,
            modal: modal_view(self.modal),
            anchor: self.anchor,
            save_requested: self.save_requested,
        }
    }

    /// The state holds together: the pairing and the visible rows are
    /// those of the session, and the selection and a range anchor point
    /// at rows.
    pub open spec fn wf(&self) -> bool {
        &&& built_from(self.pairing, self.session.messages@)
        &&& self.visible@ == visible_indices(
            self.session.messages@,
            self.session.messages@.len() as int,
        )
        &&& (self.selected < self.visible.len() || (self.visible.len() == 0 && self.selected
            == 0))
        &&& (self.anchor matches Some(a) ==> (a < self.visible.len() || self.visible.len()
            == 0))
    }

    /// Only what a key press can change has changed.
    pub open spec fn same_session(&self, other: EditState) -> bool {
        &&& other.session == self.session
        &&& other.pairing == self.pairing
        &&& other.tokens == self.tokens
        &&& other.visible == self.visible
    }

    /// Opens a session for editing: nothing marked, the first row
    /// selected.
    pub fn new(session: Session, pairing: PairIndex) -> (r: EditState)
        requires
            built_from(pairing, session.messages@),
        ensures
            r.session == session,
            r.pairing == pairing,
            r.tokens.cached() == Map::<usize, usize>::empty(),
            r.wf(),
            r.selected == 0,
            r.marked@ == Set::<usize>::empty(),
            r.list_selected == if r.visible.len() > 0 {
                Some(0usize)
            } else {
                None::<usize>
            },
            r.banner is None,
            r.banner_serial == 0,
            r.modal == Modal::Hidden,
            r.anchor is None,
            !r.save_requested,
    {
        let visible = compute_visible(&session.messages);
        let list_selected = if visible.len() > 0 {
            Some(0)
        } else {
            None
        };
        EditState {
            session,
            pairing,
            tokens: TokenCounter::new(),
            selected: 0,
            marked: HashSet::new(),
            visible,
            list_selected,
            banner: None,
            banner_serial: 0,
            modal: Modal::Hidden,
            anchor: None,
            save_requested: false,
        }
    }

    /// The record of the selected row.
    pub fn current_real_idx(&self) -> (r: Option<usize>)
        ensures
            r == if self.selected < self.visible.len() {
                Some(self.visible@[self.selected as int])
            } else {
                None::<usize>
            },
    {
        if self.selected < self.visible.len() {
            Some(self.visible[self.selected])
        } else {
            None
        }
    }

    /// Moves the selection by `delta` rows, kept inside the visible rows.
    pub fn move_selection(&mut self, delta: isize)
        ensures
            old(self).same_session(*final(self)),
            final(self).screen() == move_s(old(self).visible@, old(self).screen(), delta as int),
    {
        let len = self.visible.len();
        if len == 0 {
            return;
        }
        let new = clamped_move(self.selected, delta, len);
        self.selected = new;
        self.list_selected = Some(new);
    }

    /// Shows a notice.
    pub fn banner_set(&mut self, msg: String)
        ensures
            old(self).same_session(*final(self)),
            final(self).screen() == with_banner(old(self).screen(), msg@),
    {
        self.banner = Some(msg);
        self.banner_serial = self.banner_serial.wrapping_add(1);
    }

    /// Unmarks record `idx` and every record that marking it pairs with
    /// it.
    fn unmark(&mut self, idx: usize)
        requires
            old(self).wf(),
            idx < old(self).session.messages.len(),
        ensures
            old(self).same_session(*final(self)),
            final(self).wf(),
            final(self).screen() == (EditScreen {
                marked: unmark_s(old(self).pairing, old(self).marked@, idx),
                ..old(self).screen()
            }),
    {
        let ghost p = self.pairing;
        let ghost m0 = self.marked@;
        let n = self.session.messages.len();
        let mut group: HashSet<usize> = HashSet::new();
        group.insert(idx);
        proof {
            assert(group@ =~= set![idx]);
        }
        self.pairing.auto_pair(&mut group);
        proof {
            auto_pair_stays_in_session(p, self.session.messages@, set![idx]);
        }
        let mut j: usize = 0;
        while j < n
            invariant
                j <= n,
                n == self.session.messages.len(),
                group@ == auto_paired(p, set![idx]),
                forall|x: usize| group@.contains(x) ==> x < n,
                old(self).same_session(*self),
                self.screen() == (EditScreen { marked: self.marked@, ..old(self).screen() }),
                self.marked@ == m0.difference(group@.filter(|x: usize| x < j)),
            decreases n - j,
        {
            if group.contains(&j) {
                self.marked.remove(&j);
            }
            assert(self.marked@ =~= m0.difference(group@.filter(|x: usize| x < j + 1)));
            j = j + 1;
        }
        assert(group@.filter(|x: usize| x < n) =~= group@);
    }

    /// `d` on the selected row: marks it (auto-paired) or unmarks it and
    /// what marking it pairs with it.
    pub fn toggle_mark_current(&mut self)
        requires
            old(self).wf(),
        ensures
            final(self).wf(),
            old(self).same_session(*final(self)),
            final(self).screen() == toggle_s(
                old(self).pairing,
                old(self).visible@,
                old(self).screen(),
            ),
    {
        let idx = match self.current_real_idx() {
            Some(i) => i,
            None => {
                return;
            },
        };
        proof {
            assert(self.session.messages@.len() == self.session.messages.len());
            lemma_visible_ascending(self.session.messages@, self.session.messages@.len() as int);
        }
        if self.marked.contains(&idx) {
            self.unmark(idx);
        } else {
            self.marked.insert(idx);
            let added = self.pairing.auto_pair(&mut self.marked);
            if added > 0 {
                let mut msg = String::new();
                msg.append("auto-paired ");
                msg.append(usize_to_string(added).as_str());
                msg.append(" tool call(s)");
                self.banner_set(msg);
            }
        }
    }

    /// Marks the records `lo..=hi`, then auto-pairs; gives how many
    /// records pairing added.
    fn mark_span(&mut self, lo: usize, hi: usize) -> (added: usize)
        requires
            lo <= hi + 1,
            hi < usize::MAX,
        ensures
            old(self).same_session(*final(self)),
            final(self).screen() == (EditScreen {
                marked: auto_paired(
                    old(self).pairing,
                    old(self).marked@.union(Set::new(|i: usize| lo <= i <= hi)),
                ),
                ..old(self).screen()
            }),
            added == final(self).marked@.len() - old(self).marked@.union(
                Set::new(|i: usize| lo <= i <= hi),
            ).len(),
    {
        let ghost m0 = self.marked@;
        let mut i: usize = lo;
        while i <= hi
            invariant
                lo <= i <= hi + 1,
                self.marked@ == m0.union(Set::new(|x: usize| lo <= x < i)),
                old(self).same_session(*self),
                self.screen() == (EditScreen { marked: self.marked@, ..old(self).screen() }),
            decreases hi + 1 - i,
        {
            self.marked.insert(i);
            assert(self.marked@ =~= m0.union(Set::new(|x: usize| lo <= x < i + 1)));
            i = i + 1;
        }
        assert(self.marked@ =~= m0.union(Set::new(|x: usize| lo <= x <= hi)));
        self.pairing.auto_pair(&mut self.marked)
    }

    /// `d` with a range pending: marks every record between the anchor
    /// row's and the selected row's (inclusive), then auto-pairs.
    pub fn mark_range_to_anchor(&mut self)
        requires
            old(self).wf(),
            old(self).session.messages.len() < usize::MAX,
            old(self).anchor matches Some(a) ==> a < old(self).visible.len()
                && old(self).selected < old(self).visible.len(),
        ensures
            old(self).same_session(*final(self)),
            final(self).screen() == range_s(
                old(self).pairing,
                old(self).visible@,
                old(self).screen(),
            ),
    {
        proof {
            lemma_visible_ascending(self.session.messages@, self.session.messages@.len() as int);
        }
        let anchor = match self.anchor {
            Some(a) => a,
            None => {
                return;
            },
        };
        self.anchor = None;
        let (lo, hi) = if anchor <= self.selected {
            (anchor, self.selected)
        } else {
            (self.selected, anchor)
        };
        let real_lo = self.visible[lo];
        let real_hi = self.visible[hi];
        assert(real_lo <= real_hi);
        let added = self.mark_span(real_lo, real_hi);
        let mut msg = String::new();
        msg.append("range marked: ");
        msg.append(usize_to_string(hi - lo + 1).as_str());
        msg.append(" msg(s); auto-paired ");
        msg.append(usize_to_string(added).as_str());
        msg.append(" extra");
        self.banner_set(msg);
    }

    /// Marks every record from the first one to the selected row's.
    pub fn mark_to_top(&mut self)
        requires
            old(self).wf(),
            old(self).session.messages.len() < usize::MAX,
        ensures
            old(self).same_session(*final(self)),
            final(self).screen() == top_s(old(self).pairing, old(self).visible@, old(self).screen()),
    {
        proof {
            lemma_visible_ascending(self.session.messages@, self.session.messages@.len() as int);
        }
        let real_idx = match self.current_real_idx() {
            Some(i) => i,
            None => {
                return;
            },
        };
        let added = self.mark_span(0, real_idx);
        assert(Set::new(|i: usize| 0 <= i <= real_idx) =~= Set::new(|i: usize| i <= real_idx));
        let mut msg = String::new();
        msg.append("marked top→here (");
        msg.append(usize_to_string(self.selected + 1).as_str());
        msg.append("); auto-paired ");
        msg.append(usize_to_string(added).as_str());
        msg.append(" extra");
        self.banner_set(msg);
    }

    /// Marks every record from the selected row's to the last one.
    pub fn mark_to_bottom(&mut self)
        requires
            old(self).wf(),
            old(self).session.messages.len() < usize::MAX,
        ensures
            old(self).same_session(*final(self)),
            final(self).screen() == bottom_s(
                old(self).pairing,
                old(self).visible@,
                old(self).screen(),
                old(self).session.messages.len() as int,
            ),
    {
        proof {
            lemma_visible_ascending(self.session.messages@, self.session.messages@.len() as int);
        }
        let real_idx = match self.current_real_idx() {
            Some(i) => i,
            None => {
                return;
            },
        };
        let len = self.session.messages.len();
        let added = self.mark_span(real_idx, len - 1);
        assert(Set::new(|i: usize| real_idx <= i <= len - 1) =~= Set::new(
            |i: usize| real_idx <= i < len,
        ));
        let mut msg = String::new();
        msg.append("marked here→bottom (");
        msg.append(usize_to_string(self.visible.len() - self.selected).as_str());
        msg.append("); auto-paired ");
        msg.append(usize_to_string(added).as_str());
        msg.append(" extra");
        self.banner_set(msg);
    }

    /// Reports how the requested save went: on success (the command that
    /// resumes the new session, and the new file) the marks are cleared;
    /// either way the result dialog tells it.
    pub fn finish_save(&mut self, outcome: &Result<(String, String), String>)
        ensures
            old(self).same_session(*final(self)),
            final(self).screen() == (EditScreen {
                marked: match outcome {
                    Ok(_) => Set::<usize>::empty(),
                    Err(_) => old(self).marked@,
                },
                modal: ModalView::SaveResult(
                    match outcome {
                        Ok((resume, file)) => "Forked. "@ + decimal_s(old(self).marked@.len())
                            + " message(s) removed.\nresume: "@ + resume@ + "\nfile: "@ + file@,
                        Err(e) => "Fork failed: "@ + e@,
                    },
                ),
                save_requested: false,
                ..old(self).screen()
            }),
    {
        let removed = self.marked.len();
        let mut msg = String::new();
        match outcome {
            Ok((resume, file)) => {
                msg.append("Forked. ");
                msg.append(usize_to_string(removed).as_str());
                msg.append(" message(s) removed.\nresume: ");
                msg.append(resume.as_str());
                msg.append("\nfile: ");
                msg.append(file.as_str());
                self.marked.clear();
            },
            Err(e) => {
                msg.append("Fork failed: ");
                msg.append(e.as_str());
            },
        }
        self.modal = Modal::SaveResult(msg);
        self.save_requested = false;
    }
}

/// The visible records, ascending.
pub fn compute_visible(messages: &Vec<Message>) -> (r: Vec<usize>)
    ensures
        r@ == visible_indices(messages@, messages.len() as int),
{
    let mut out: Vec<usize> = Vec::new();
    let mut i: usize = 0;
    while i < messages.len()
        invariant
            i <= messages.len(),
            out@ == visible_indices(messages@, i as int),
        decreases messages.len() - i,
    {
        if is_visible(&messages[i]) {
            out.push(i);
        }
        i = i + 1;
    }
    out
}

proof fn lemma_visible_ascending(msgs: Seq<Message>, k: int)
    requires
        0 <= k <= msgs.len(),
        msgs.len() <= usize::MAX,
    ensures
        forall|a: int, b: int|
            0 <= a < b < visible_indices(msgs, k).len() ==> visible_indices(msgs, k)[a]
                < visible_indices(msgs, k)[b],
        forall|a: int|
            0 <= a < visible_indices(msgs, k).len() ==> #[trigger] visible_indices(msgs, k)[a]
                < k,
    decreases k,
{
    if k > 0 {
        lemma_visible_ascending(msgs, k - 1);
        let prev = visible_indices(msgs, k - 1);
        let v = visible_indices(msgs, k);
        if is_visible_s(msgs[k - 1]) {
            assert(v == prev.push((k - 1) as usize));
            assert forall|a: int| 0 <= a < v.len() implies #[trigger] v[a] < k by {
                if a < prev.len() {
                    assert(v[a] == prev[a]);
                }
            }
            assert forall|a: int, b: int| 0 <= a < b < v.len() implies v[a] < v[b] by {
                assert(v[a] == prev[a]);
                if b < prev.len() {
                    assert(v[b] == prev[b]);
                }
            }
        }
    }
}

/// What a key press does on the edit screen (see `key_s`); `q` and Esc
/// go back to the list. A confirmed save is left to the caller, who
/// sees `save_requested` set.
pub fn handle_key(state: &mut EditState, key: Key) -> (t: Transition)
    requires
        old(state).wf(),
        old(state).session.messages.len() < usize::MAX,
        !(old(state).modal is Hidden && key == Key::Char('d') && old(state).anchor is Some
            && old(state).visible.len() == 0),
    ensures
        old(state).same_session(*final(state)),
        final(state).wf(),
        final(state).screen() == key_s(
            old(state).pairing,
            old(state).visible@,
            old(state).screen(),
            key,
        ),
        if leaves_s(old(state).screen(), key) {
            t is BackToList
        } else {
            t is Stay
        },
{
    proof {
        lemma_visible_ascending(state.session.messages@, state.session.messages@.len() as int);
    }
    match &state.modal {
        Modal::ConfirmSave { count } => {
            let count = *count;
            if key == Key::Char('y') {
                if count == 0 {
                    state.modal = Modal::SaveResult("no changes to save".to_string());
                } else {
                    state.modal = Modal::Hidden;
                    state.save_requested = true;
                }
            } else {
                state.modal = Modal::Hidden;
            }
            return Transition::Stay;
        },
        Modal::SaveResult(_) => {
            state.modal = Modal::Hidden;
            return Transition::Stay;
        },
        Modal::Hidden => {},
    }
    match key {
        Key::Char('q') | Key::Esc => {
            return Transition::BackToList;
        },
        Key::Char('j') | Key::Down => state.move_selection(1),
        Key::Char('k') | Key::Up => state.move_selection(-1),
        Key::Char('t') => {
            state.selected = 0;
            state.list_selected = Some(0);
        },
        Key::Char('b') => {
            let len = state.visible.len();
            if len > 0 {
                state.selected = len - 1;
                state.list_selected = Some(len - 1);
            }
        },
        Key::Char('d') => {
            if state.anchor.is_some() {
                state.mark_range_to_anchor();
            } else {
                state.toggle_mark_current();
            }
        },
        Key::Char('v') => {
            state.anchor = Some(state.selected);
            state.banner_set("range anchor set; move and press 'd' to mark range".to_string());
        },
        Key::Char('s') => {
            state.modal = Modal::ConfirmSave { count: state.marked.len() };
        },
        _ => {},
    }
    Transition::Stay
}

} // verus!
