//! The interactive editor's state: which screen is shown, and what each
//! key press and transition does to it. Reading session files and the
//! projects directory is left to the caller, which hands the results in.

use std::path::PathBuf;
use vstd::prelude::*;
use crate::pairing::{built_from, PairIndex};
use crate::scan::SessionEntry;
use crate::screens::edit::{key_s, leaves_s, EditState, Modal};
use crate::screens::list::{all_fit, list_key_fails, ListState, Mode};
use crate::search::MAX_QUERY_CHARS;
use crate::text::char_count;
use crate::screens::{Key, Transition};
use crate::session::Session;

verus! {

/// How the editor is started.
#[derive(Debug)]
pub struct Config {
    /// Where the session files are; the caller's default when absent.
    pub projects_dir: Option<PathBuf>,
}

/// The screen shown.
#[derive(Debug)]
pub enum Screen {
    List(ListState),
    Edit(Box<EditState>),
}

/// The editor.
#[derive(Debug)]
pub struct App {
    pub screen: Screen,
    pub projects_dir: PathBuf,
    pub should_quit: bool,
}

/// What the caller has to read before the editor can go on.
#[derive(Debug)]
pub enum Load {
    /// The session file at this path, to open it for editing.
    Session(PathBuf),
    /// The sessions under the projects directory, to list them afresh.
    Rescan,
}

/// A key press that the edit screen cannot take: `d` with a range started
/// on an empty list of rows.
pub open spec fn edit_key_fails(s: EditState, key: Key) -> bool {
    s.modal == Modal::Hidden && key == Key::Char('d') && s.anchor is Some && s.visible.len() == 0
}

impl App {
    /// The screen holds together: a list can match all its entries; an
    /// edit screen is well formed.
    pub open spec fn wf(&self) -> bool {
        match self.screen {
            Screen::List(l) => l.wf(),
            Screen::Edit(e) => e.wf() && e.session.messages.len() < usize::MAX,
        }
    }

    /// The editor on the list of `entries`.
    pub fn new(projects_dir: PathBuf, entries: Vec<SessionEntry>) -> (r: App)
        requires
            all_fit(entries@),
        ensures
            r.wf(),
            r.projects_dir == projects_dir,
            !r.should_quit,
            r.screen matches Screen::List(l) && l.entries@ == entries@ && l.query@.len() == 0,
    {
        App { screen: Screen::List(ListState::new(entries)), projects_dir, should_quit: false }
    }

    /// Carries out a transition as far as it needs nothing read: quitting
    /// sets `should_quit`; opening a session or going back to the list
    /// asks the caller to read the session file or the sessions, and to
    /// hand them to `open_edit` or `show_list`.
    pub fn apply_transition(&mut self, t: Transition) -> (r: Option<Load>)
        ensures
            final(self).screen == old(self).screen,
            final(self).projects_dir == old(self).projects_dir,
            final(self).should_quit == (old(self).should_quit || t is Quit),
            r == match t {
                Transition::OpenEdit(p) => Some(Load::Session(p)),
                Transition::BackToList => Some(Load::Rescan),
                _ => None::<Load>,
            },
    {
        match t {
            Transition::Stay => None,
            Transition::Quit => {
                self.should_quit = true;
                None
            },
            Transition::OpenEdit(p) => Some(Load::Session(p)),
            Transition::BackToList => Some(Load::Rescan),
        }
    }

    /// Shows the edit screen on a session that was read.
    pub fn open_edit(&mut self, session: Session)
        requires
            session.messages.len() < usize::MAX,
        ensures
            final(self).wf(),
            final(self).projects_dir == old(self).projects_dir,
            final(self).should_quit == old(self).should_quit,
            final(self).screen matches Screen::Edit(e) && e.session == session && built_from(
                e.pairing,
                session.messages@,
            ) && e.marked@.len() == 0,
    {
        let pairing = PairIndex::build(&session.messages);
        let state = EditState::new(session, pairing);
        self.screen = Screen::Edit(Box::new(state));
    }

    /// Shows the list screen on sessions that were read.
    pub fn show_list(&mut self, entries: Vec<SessionEntry>)
        requires
            all_fit(entries@),
        ensures
            final(self).wf(),
            final(self).projects_dir == old(self).projects_dir,
            final(self).should_quit == old(self).should_quit,
            final(self).screen matches Screen::List(l) && l.entries@ == entries@,
    {
        self.screen = Screen::List(ListState::new(entries));
    }

    /// The screen shown cannot take this key (see `list_key_fails` and
    /// `edit_key_fails`).
    pub fn key_fails(&self, key: Key) -> (r: bool)
        ensures
            r == ((self.screen matches Screen::List(l) && list_key_fails(l, key)) || (
            self.screen matches Screen::Edit(e) && edit_key_fails(*e, key))),
    {
        match &self.screen {
            Screen::List(l) => {
                let typed = match key {
                    Key::Char(_) => true,
                    _ => false,
                };
                l.mode == Mode::Search && typed && char_count(l.query.as_str()) >= MAX_QUERY_CHARS
            },
            Screen::Edit(e) => {
                match e.modal {
                    Modal::Hidden => key == Key::Char('d') && e.anchor.is_some() && e.visible.len()
                        == 0,
                    _ => false,
                }
            },
        }
    }

    /// Passes a key press to the screen shown, then carries out the
    /// transition it asks for (see `apply_transition`). On the list, `q`
    /// while browsing quits and Enter on a shown row asks for that
    /// session; on the edit screen, `q` and Esc without a dialog ask for
    /// the list afresh.
    pub fn handle_key(&mut self, key: Key) -> (r: Option<Load>)
        requires
            old(self).wf(),
            !(old(self).screen matches Screen::List(l) && list_key_fails(l, key)),
            !(old(self).screen matches Screen::Edit(e) && edit_key_fails(*e, key)),
        ensures
            final(self).wf(),
            final(self).projects_dir == old(self).projects_dir,
            match old(self).screen {
                Screen::List(l) => {
                    &&& (final(self).screen matches Screen::List(g) && g.entries@ == l.entries@)
                    &&& final(self).should_quit == (old(self).should_quit || (l.mode
                        == Mode::Browse && key == Key::Char('q')))
                    &&& (r matches Some(Load::Session(p)) ==> l.mode == Mode::Browse && key
                        == Key::Enter)
                    &&& (r is None || r matches Some(Load::Session(_)))
                    &&& (l.mode == Mode::Browse && key == Key::Enter && (l.selected matches Some(
                        i,
                    ) && i < l.shown().len())) ==> r == Some(
                        Load::Session(l.shown()[l.selected->0 as int].path),
                    )
                },
                Screen::Edit(e) => {
                    &&& (final(self).screen matches Screen::Edit(f) && e.same_session(*f)
                        && f.screen() == key_s(e.pairing, e.visible@, e.screen(), key))
                    &&& final(self).should_quit == old(self).should_quit
                    &&& if leaves_s(e.screen(), key) {
                        r == Some(Load::Rescan)
                    } else {
                        r is None
                    }
                },
            },
    {
        let t = match &mut self.screen {
            Screen::List(state) => crate::screens::list::handle_key(state, key),
            Screen::Edit(state) => crate::screens::edit::handle_key(&mut **state, key),
        };
        self.apply_transition(t)
    }
}

} // verus!
