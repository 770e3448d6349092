//! The decisions of one launcher session: what is listed, what is launched,
//! and when the launcher ends. The host performs each launch and reports
//! back how it went.

use vstd::prelude::*;
use crate::entry::{AppEntry, EntryView};
use crate::index::{listing, views_of, AppIndex};
use crate::recency::{after_launch, stored_names, RecencyStore};

verus! {

/// Where a session stands.
#[derive(Clone, Copy, Debug, PartialEq, Eq)]
pub enum Phase {
    /// The user edits the query and sees the matching entries.
    Searching,
    /// A launch was handed to the host, which has not reported back yet.
    Launching,
    /// The launcher is to end.
    Terminated,
}

/// Why a launch failed.
#[derive(Clone, Copy, Debug, PartialEq, Eq)]
pub enum LaunchError {
    /// The recency store could not be locked.
    Lock,
    /// The recency store could not be written.
    Persistence,
    /// No home directory to start the command in.
    HomeDirectory,
    /// The command could not be started.
    Spawn,
}

/// One launcher session.
pub struct Session {
    query: String,
    results: Vec<AppEntry>,
    phase: Phase,
    quit_on_failure: bool,
}

/// The mathematical value of a session.
pub struct SessionView {
    pub query: Seq<char>,
    pub results: Seq<EntryView>,
    pub phase: Phase,
    pub quit_on_failure: bool,
}

impl View for Session {
    type V = SessionView;

    closed spec fn view(&self) -> SessionView {
        SessionView {
            query: self.query@,
            results: views_of(self.results@),
            phase: self.phase,
            quit_on_failure: self.quit_on_failure,
        }
    }
}

impl Session {
    /// A session with an empty query, listing the recently launched entries.
    pub fn start(index: &AppIndex, recent: &RecencyStore) -> (r: Session)
        ensures
            r@.query.len() == 0,
            r@.results == listing(Seq::empty(), index@, recent@),
            r@.phase == Phase::Searching,
    {
        let query = String::new();
        let results = index.listing(query.as_str(), recent);
        Session { query, results, phase: Phase::Searching, quit_on_failure: false }
    }

    /// The query was edited to `text`: while searching, the listing follows
    /// it; otherwise nothing changes.
    pub fn query_changed(&mut self, text: &str, index: &AppIndex, recent: &RecencyStore)
        ensures
            old(self)@.phase == Phase::Searching ==> final(self)@ == (SessionView {
                query: text@,
                results: listing(text@, index@, recent@),
                ..old(self)@
            }),
            old(self)@.phase != Phase::Searching ==> final(self)@ == old(self)@,
    {
        match self.phase {
            Phase::Searching => {
                self.results = index.listing(text, recent);
                self.query = text.to_owned();
            },
            _ => {},
        }
    }

    /// The user confirmed with the keyboard: while searching, the first
    /// listed entry is launched, and the launcher ends however the launch
    /// goes. With nothing listed, nothing happens.
    pub fn submit(&mut self) -> (r: Option<AppEntry>)
        ensures
            old(self)@.phase == Phase::Searching && old(self)@.results.len() > 0 ==> r is Some
                && r->0@ == old(self)@.results[0] && final(self)@ == (SessionView {
                phase: Phase::Launching,
                quit_on_failure: true,
                ..old(self)@
            }),
            !(old(self)@.phase == Phase::Searching && old(self)@.results.len() > 0) ==> r is None
                && final(self)@ == old(self)@,
    {
        match self.phase {
            Phase::Searching => {
                if self.results.len() > 0 {
                    self.phase = Phase::Launching;
                    self.quit_on_failure = true;
                    Some(self.results[0].duplicate())
                } else {
                    None
                }
            },
            _ => None,
        }
    }

    /// The user picked the listed entry at position `i`: while searching,
    /// it is launched, and the launcher ends only if the launch succeeds.
    /// Past the end of the listing, nothing happens.
    pub fn select(&mut self, i: usize) -> (r: Option<AppEntry>)
        ensures
            old(self)@.phase == Phase::Searching && i < old(self)@.results.len() ==> r is Some
                && r->0@ == old(self)@.results[i as int] && final(self)@ == (SessionView {
                phase: Phase::Launching,
                quit_on_failure: false,
                ..old(self)@
            }),
            !(old(self)@.phase == Phase::Searching && i < old(self)@.results.len()) ==> r is None
                && final(self)@ == old(self)@,
    {
        match self.phase {
            Phase::Searching => {
                if i < self.results.len() {
                    self.phase = Phase::Launching;
                    self.quit_on_failure = false;
                    Some(self.results[i].duplicate())
                } else {
                    None
                }
            },
            _ => None,
        }
    }

    /// The host reports how the pending launch went. A success ends the
    /// launcher; a failure ends it after a keyboard confirmation and returns
    /// to searching after a pick from the list.
    pub fn launch_finished(&mut self, succeeded: bool)
        ensures
            old(self)@.phase == Phase::Launching ==> final(self)@ == (SessionView {
                phase: if succeeded || old(self)@.quit_on_failure {
                    Phase::Terminated
                } else {
                    Phase::Searching
                },
                ..old(self)@
            }),
            old(self)@.phase != Phase::Launching ==> final(self)@ == old(self)@,
    {
        match self.phase {
            Phase::Launching => {
                if succeeded || self.quit_on_failure {
                    self.phase = Phase::Terminated;
                } else {
                    self.phase = Phase::Searching;
                }
            },
            _ => {},
        }
    }

    /// The user cancelled: the launcher ends.
    pub fn cancel(&mut self)
        ensures
            final(self)@ == (SessionView { phase: Phase::Terminated, ..old(self)@ }),
    {
        self.phase = Phase::Terminated;
    }

    /// Whether the launcher is to end.
    pub fn should_exit(&self) -> (r: bool)
        ensures
            r == (self@.phase == Phase::Terminated),
    {
        match self.phase {
            Phase::Terminated => true,
            _ => false,
        }
    }

    /// Where the session stands.
    pub fn phase(&self) -> (r: Phase)
        ensures
            r == self@.phase,
    {
        self.phase
    }

    /// The current query.
    pub fn query(&self) -> (r: &str)
        ensures
            r@ == self@.query,
    {
        self.query.as_str()
    }

    /// The entries listed now.
    pub fn results(&self) -> (r: &Vec<AppEntry>)
        ensures
            views_of(r@) == self@.results,
    {
        &self.results
    }
}

/// Commits a launch of `entry`: its name moves to the front of `store`, and
/// the store's persisted form is returned, to be written before the command
/// is started.
pub fn commit_launch(store: &mut RecencyStore, entry: &AppEntry) -> (r: Result<Vec<u8>, LaunchError>)
    requires
        old(store).wf(),
    ensures
        final(store)@ == after_launch(old(store)@, entry.name@, old(store).cap()),
        final(store).cap() == old(store).cap(),
        final(store).wf(),
        r is Ok,
        match r {
            Ok(b) => stored_names(b@, final(store).cap()) == Some(final(store)@),
            Err(e) => e == LaunchError::Persistence,
        },
{
    store.record(entry.name.as_str());
    match store.to_bytes() {
        Ok(b) => Ok(b),
        Err(_) => Err(LaunchError::Persistence),
    }
}

/// The program and arguments that start `entry`: its command line, run by
/// the shell.
pub fn shell_invocation(entry: &AppEntry) -> (r: (String, Vec<String>))
    ensures
        r.0@ == "sh"@,
        r.1@.len() == 2,
        r.1@[0]@ == "-c"@,
        r.1@[1]@ == entry.command@,
{
    let mut args: Vec<String> = Vec::new();
    args.push("-c".to_owned());
    args.push(entry.command.clone());
    ("sh".to_owned(), args)
}

} // verus!
