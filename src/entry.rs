//! Launch targets: a display name and the command line that starts them.

use vstd::prelude::*;

verus! {

/// A discovered launch target.
#[derive(Clone, Debug)]
pub struct AppEntry {
    /// The user-facing name, matched against queries; never empty.
    pub name: String,
    /// The command line handed to the shell.
    pub command: String,
}

/// The mathematical value of an entry: its name and its command.
pub struct EntryView {
    pub name: Seq<char>,
    pub command: Seq<char>,
}

impl View for AppEntry {
    type V = EntryView;

    open spec fn view(&self) -> EntryView {
        EntryView { name: self.name@, command: self.command@ }
    }
}

impl AppEntry {
    /// An entry is well formed when its name is not empty.
    pub open spec fn wf(&self) -> bool {
        self.name@.len() > 0
    }

    /// A new entry from its two parts.
    pub fn new(name: String, command: String) -> (r: AppEntry)
        ensures
            r.name@ == name@,
            r.command@ == command@,
    {
        AppEntry { name, command }
    }

    /// A copy of this entry with the same name and command.
    pub fn duplicate(&self) -> (r: AppEntry)
        ensures
            r@ == self@,
    {
        AppEntry { name: self.name.clone(), command: self.command.clone() }
    }

    /// The display name.
    pub fn name(&self) -> (r: &str)
        ensures
            r@ == self.name@,
    {
        self.name.as_str()
    }

    /// The command line.
    pub fn command(&self) -> (r: &str)
        ensures
            r@ == self.command@,
    {
        self.command.as_str()
    }
}

} // verus!
