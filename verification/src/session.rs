//! The editor-session state machine.
//!
//! One session owns the currently selected file capability, the in-memory
//! text buffer, and the dirty flag. Selecting an editable file starts a
//! load; a local edit marks the buffer dirty; applying changes starts a
//! save. The transition functions are total where the design calls for a
//! no-op (selecting an inert entry, applying while not dirty) and carry the
//! exact before/after relation in their contracts. The `select_in` and
//! `apply_in` methods drive a whole load or save against the in-memory
//! provider model.

use vstd::prelude::*;
use crate::entry::{FileSystemEntry, spec_is_editable, is_editable};
use crate::provider::{HostError, MemProvider};

verus! {

/// The editor states: no selection yet, a read in flight, a buffer equal to
/// the last loaded-or-saved text, a buffer with unsaved edits, and a write
/// in flight.
#[derive(Debug, Clone, Copy, PartialEq, Eq, Structural)]
pub enum SessionState {
    Idle,
    Loading,
    Clean,
    Dirty,
    Saving,
}

/// The editor session: selected capability, buffer, and state.
pub struct EditorSession {
    pub state: SessionState,
    pub selected: Option<u64>,
    pub buffer: String,
}

impl EditorSession {
    /// Once a selection has happened, a capability is held.
    pub open spec fn wf(self) -> bool {
        self.state != SessionState::Idle ==> self.selected is Some
    }

    /// The buffer has diverged from the most recently loaded-or-saved text:
    /// it carries an unsaved edit, whether or not a save is in flight.
    pub open spec fn spec_dirty(self) -> bool {
        self.state == SessionState::Dirty || self.state == SessionState::Saving
    }

    /// A fresh session: empty, with nothing selected.
    pub fn new() -> (s: EditorSession)
        ensures
            s.state == SessionState::Idle,
            s.selected is None,
            s.buffer@ == Seq::<char>::empty(),
            s.wf(),
    {
        EditorSession { state: SessionState::Idle, selected: None, buffer: String::new() }
    }

    /// The dirty flag.
    pub fn dirty(&self) -> (r: bool)
        ensures
            r == self.spec_dirty(),
    {
        match self.state {
            SessionState::Dirty => true,
            SessionState::Saving => true,
            _ => false,
        }
    }

    /// The apply action is enabled exactly in the `Dirty` state.
    pub fn can_apply(&self) -> (r: bool)
        ensures
            r == (self.state == SessionState::Dirty),
    {
        match self.state {
            SessionState::Dirty => true,
            _ => false,
        }
    }

    /// Selects an entry. An editable file with a capability replaces the
    /// selection, resets the dirty flag, and starts a load: the returned
    /// capability is the one to read. Any other entry is inert and the
    /// session is unchanged — in particular, selecting a different file
    /// while dirty silently discards the unsaved buffer.
    pub fn select(&mut self, e: &FileSystemEntry) -> (r: Option<u64>)
        ensures
            match r {
                Some(cap) => {
                    &&& spec_is_editable(*e)
                    &&& e.capability == Some(cap)
                    &&& final(self).state == SessionState::Loading
                    &&& final(self).selected == Some(cap)
                    &&& final(self).buffer == old(self).buffer
                },
                None => {
                    &&& !(spec_is_editable(*e) && e.capability is Some)
                    &&& *final(self) == *old(self)
                },
            },
            old(self).wf() ==> final(self).wf(),
    {
        if is_editable(e) {
            match e.capability {
                Some(cap) => {
                    self.state = SessionState::Loading;
                    self.selected = Some(cap);
                    Some(cap)
                },
                None => None,
            }
        } else {
            None
        }
    }

    /// The in-flight read returns its text: the buffer is replaced wholesale
    /// and the session is clean.
    pub fn load_succeeded(&mut self, text: String)
        requires
            old(self).state == SessionState::Loading,
        ensures
            final(self).state == SessionState::Clean,
            final(self).buffer == text,
            final(self).selected == old(self).selected,
            !final(self).spec_dirty(),
    {
        self.buffer = text;
        self.state = SessionState::Clean;
    }

    /// The in-flight read fails: the session remains as it was, without a
    /// usable buffer; the failure goes to the diagnostics channel only.
    pub fn load_failed(&mut self)
        requires
            old(self).state == SessionState::Loading,
        ensures
            *final(self) == *old(self),
    {
    }

    /// A local edit replaces the buffer and marks it dirty, even when the
    /// new text equals the old one.
    pub fn edit(&mut self, text: String)
        requires
            old(self).state == SessionState::Clean || old(self).state == SessionState::Dirty,
        ensures
            final(self).state == SessionState::Dirty,
            final(self).buffer == text,
            final(self).selected == old(self).selected,
            final(self).spec_dirty(),
    {
        self.buffer = text;
        self.state = SessionState::Dirty;
    }

    /// The apply action. In the `Dirty` state it starts a save and returns
    /// the capability to write; in every other state it is a no-op and
    /// nothing is to be written.
    pub fn begin_apply(&mut self) -> (r: Option<u64>)
        requires
            old(self).wf(),
        ensures
            final(self).wf(),
            match r {
                Some(cap) => {
                    &&& old(self).state == SessionState::Dirty
                    &&& old(self).selected == Some(cap)
                    &&& final(self).state == SessionState::Saving
                    &&& final(self).selected == old(self).selected
                    &&& final(self).buffer == old(self).buffer
                },
                None => {
                    &&& old(self).state != SessionState::Dirty
                    &&& *final(self) == *old(self)
                },
            },
    {
        match self.state {
            SessionState::Dirty => {
                match self.selected {
                    Some(cap) => {
                        self.state = SessionState::Saving;
                        Some(cap)
                    },
                    None => None,  // unreachable under wf
                }
            },
            _ => None,
        }
    }

    /// The in-flight write commits: the session is clean again and the
    /// buffer is untouched.
    pub fn save_succeeded(&mut self)
        requires
            old(self).state == SessionState::Saving,
        ensures
            final(self).state == SessionState::Clean,
            final(self).buffer == old(self).buffer,
            final(self).selected == old(self).selected,
            !final(self).spec_dirty(),
    {
        self.state = SessionState::Clean;
    }

    /// The in-flight write fails: the buffer and the dirty flag are
    /// preserved, so no user data is lost; applying again may retry.
    pub fn save_failed(&mut self)
        requires
            old(self).state == SessionState::Saving,
        ensures
            final(self).state == SessionState::Dirty,
            final(self).buffer == old(self).buffer,
            final(self).selected == old(self).selected,
            final(self).spec_dirty(),
    {
        self.state = SessionState::Dirty;
    }

    /// Selects an entry and, when that starts a load, drives the read
    /// against the provider model to completion. Returns the diagnostics of
    /// a failed read, and `None` when nothing failed.
    pub fn select_in(&mut self, e: &FileSystemEntry, p: &MemProvider) -> (r: Option<HostError>)
        requires
            old(self).wf(),
        ensures
            final(self).wf(),
            !(spec_is_editable(*e) && e.capability is Some) ==> {
                &&& *final(self) == *old(self)
                &&& r is None
            },
            (spec_is_editable(*e) && e.capability is Some) ==> {
                let cap = e.capability->0;
                &&& final(self).selected == Some(cap)
                &&& match p.spec_file(cap) {
                    Some(t) => {
                        &&& final(self).state == SessionState::Clean
                        &&& final(self).buffer@ == t@
                        &&& !final(self).spec_dirty()
                        &&& r is None
                    },
                    None => {
                        &&& final(self).state == SessionState::Loading
                        &&& final(self).buffer == old(self).buffer
                        &&& r == Some(HostError::ReadFailed)
                    },
                }
            },
    {
        match self.select(e) {
            Some(cap) => {
                match p.read_text(cap) {
                    Ok(text) => {
                        self.load_succeeded(text);
                        None
                    },
                    Err(err) => {
                        self.load_failed();
                        Some(err)
                    },
                }
            },
            None => None,
        }
    }

    /// The apply action against the provider model. When the session is not
    /// dirty this is a no-op: the session and the provider — in particular
    /// every file text — are untouched, and no write happens. When it is
    /// dirty, the whole buffer is written to the selected capability in one
    /// atomic replacement; on failure the buffer and the dirty flag survive.
    pub fn apply_in(&mut self, p: &mut MemProvider) -> (r: Option<HostError>)
        requires
            old(self).wf(),
        ensures
            final(self).wf(),
            old(self).state != SessionState::Dirty ==> {
                &&& *final(self) == *old(self)
                &&& *final(p) == *old(p)
                &&& r is None
            },
            old(self).state == SessionState::Dirty ==> {
                let cap = old(self).selected->0;
                &&& old(self).selected is Some
                &&& final(self).selected == old(self).selected
                &&& final(self).buffer == old(self).buffer
                &&& final(p).dirs == old(p).dirs
                &&& match old(p).spec_file(cap) {
                    Some(_) => {
                        &&& final(self).state == SessionState::Clean
                        &&& !final(self).spec_dirty()
                        &&& final(p).spec_file(cap) matches Some(t) && t@ == old(self).buffer@
                        &&& forall|c: u64| c != cap ==> final(p).spec_file(c) == old(p).spec_file(c)
                        &&& r is None
                    },
                    None => {
                        &&& final(self).state == SessionState::Dirty
                        &&& final(self).spec_dirty()
                        &&& final(p).files == old(p).files
                        &&& r == Some(HostError::WriteFailed)
                    },
                }
            },
    {
        match self.begin_apply() {
            Some(cap) => {
                match p.write_text(cap, self.buffer.as_str()) {
                    Ok(()) => {
                        self.save_succeeded();
                        None
                    },
                    Err(err) => {
                        self.save_failed();
                        Some(err)
                    },
                }
            },
            None => None,
        }
    }
}

} // verus!
