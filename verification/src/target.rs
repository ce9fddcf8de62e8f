//! Which tab a command is for. The commands of a script are for the tab that was
//! active when the script was started, whatever becomes active meanwhile.
use vstd::prelude::*;

use crate::commands::{ArgCommand, Command, Simple};
use crate::list::TabsList;
use crate::pane::TabId;

verus! {

/// Which tab commands are for.
#[derive(Clone, Copy, Debug, PartialEq, Eq, Structural)]
pub enum Target {
    /// Whichever tab is active.
    Active,
    /// The one that was active when a script was started, if one was.
    Started(Option<TabId>),
}

/// Where a command does its work.
#[derive(Clone, Copy, Debug, PartialEq, Eq, Structural)]
pub enum Reach {
    /// In a tab.
    Tab(TabId),
    /// There is no tab for it.
    NoTab,
    /// It is not about a tab.
    Anywhere,
    /// It is refused, as another tab is active by now.
    Refused,
    /// It does nothing, as the tab is no longer visible.
    Hidden,
    /// Later commands are for whichever tab is active.
    Cleared,
}

/// Whether a command works in a tab that is open.
pub open spec fn in_tab(c: Simple) -> bool {
    match c {
        Simple::Activate
        | Simple::OpenDefault
        | Simple::OpenWith
        | Simple::Copy
        | Simple::Cut
        | Simple::Paste
        | Simple::CloseTab
        | Simple::CloseTabNoReplacement
        | Simple::ClosePane
        | Simple::CloseActive
        | Simple::Forward
        | Simple::Back
        | Simple::Parent
        | Simple::BackOrParent
        | Simple::Child
        | Simple::Trash
        | Simple::Delete
        | Simple::Rename
        | Simple::Properties
        | Simple::NewFolder
        | Simple::NewFile
        | Simple::Search
        | Simple::FocusLocation
        | Simple::Unselect => true,
        _ => false,
    }
}

fn works_in_tab(c: Simple) -> (r: bool)
    ensures
        r == in_tab(c),
{
    match c {
        Simple::Activate
        | Simple::OpenDefault
        | Simple::OpenWith
        | Simple::Copy
        | Simple::Cut
        | Simple::Paste
        | Simple::CloseTab
        | Simple::CloseTabNoReplacement
        | Simple::ClosePane
        | Simple::CloseActive
        | Simple::Forward
        | Simple::Back
        | Simple::Parent
        | Simple::BackOrParent
        | Simple::Child
        | Simple::Trash
        | Simple::Delete
        | Simple::Rename
        | Simple::Properties
        | Simple::NewFolder
        | Simple::NewFile
        | Simple::Search
        | Simple::FocusLocation
        | Simple::Unselect => true,
        _ => false,
    }
}

impl Target {
    /// The target of the commands of a script that is started now.
    pub fn for_script(list: &TabsList) -> (r: Target)
        ensures
            r == Target::Started(list.active),
    {
        Target::Started(list.active)
    }

    /// The tab that commands are for, if it is still open.
    pub open spec fn tab(self, list: &TabsList) -> Option<TabId> {
        match self {
            Target::Active => list.active,
            Target::Started(Some(t)) => if list.lists(t) {
                Some(t)
            } else {
                None
            },
            Target::Started(None) => None,
        }
    }

    /// The tab that commands are for.
    pub fn find_tab(self, list: &TabsList) -> (r: Option<TabId>)
        requires
            list.valid(),
        ensures
            r == self.tab(list),
            r matches Some(t) ==> list.lists(t),
    {
        match self {
            Target::Active => list.active,
            Target::Started(Some(t)) => match list.position(t) {
                Some(_) => Some(t),
                None => None,
            },
            Target::Started(None) => None,
        }
    }

    /// Where work in the tab is done.
    pub open spec fn in_its_tab(self, list: &TabsList) -> Reach {
        match self.tab(list) {
            Some(t) => Reach::Tab(t),
            None => Reach::NoTab,
        }
    }

    /// Where a command without an argument does its work. Entries are deleted
    /// only in the tab that is active, and going home opens a tab for lack of
    /// one.
    pub open spec fn simple_reach(self, c: Simple, list: &TabsList) -> Reach {
        if c is ClearTargetTab {
            Reach::Cleared
        } else if c is Delete && self.tab(list) != list.active {
            Reach::Refused
        } else if in_tab(c) || c is Home || c is NewTab || c is NewBackgroundTab {
            self.in_its_tab(list)
        } else {
            Reach::Anywhere
        }
    }

    /// Where a command with an argument does its work.
    pub open spec fn arg_reach(self, c: ArgCommand, list: &TabsList) -> Reach {
        match c {
            ArgCommand::SaveSession | ArgCommand::LoadSession | ArgCommand::DeleteSession =>
                Reach::Anywhere,
            _ => self.in_its_tab(list),
        }
    }

    /// Where a pane is split: that of the tab, if it is visible. For lack of
    /// visible tabs a new one is opened.
    pub open spec fn split_reach(self, list: &TabsList) -> Reach {
        match self {
            Target::Active => self.in_its_tab(list),
            Target::Started(_) => match self.tab(list) {
                Some(t) => if list.visible(t) {
                    Reach::Tab(t)
                } else {
                    Reach::Hidden
                },
                None => if self == Target::Started(None) {
                    Reach::NoTab
                } else {
                    Reach::Hidden
                },
            },
        }
    }

    /// Where a command does its work.
    pub open spec fn reach(self, c: Command, list: &TabsList) -> Reach {
        match c {
            Command::Simple(s) => self.simple_reach(s, list),
            Command::With(a, _) => self.arg_reach(a, list),
            Command::Display(_) | Command::SortBy(_) | Command::SortDir(_) => self.in_its_tab(list),
            Command::Split { .. } => self.split_reach(list),
            Command::Unrecognized(_) => self.in_its_tab(list),
        }
    }

    /// The target of the commands that come after one.
    pub open spec fn after(self, c: Command) -> Target {
        if c == Command::Simple(Simple::ClearTargetTab) {
            Target::Active
        } else {
            self
        }
    }

    fn locate(self, list: &TabsList) -> (r: Reach)
        requires
            list.valid(),
        ensures
            r == self.in_its_tab(list),
    {
        match self.find_tab(list) {
            Some(t) => Reach::Tab(t),
            None => Reach::NoTab,
        }
    }

    /// Says where a command does its work, and notes what it changes about the
    /// target.
    pub fn take(&mut self, c: &Command, list: &TabsList) -> (r: Reach)
        requires
            list.valid(),
        ensures
            r == old(self).reach(*c, list),
            *final(self) == old(self).after(*c),
            r matches Reach::Tab(t) ==> list.lists(t),
    {
        match c {
            Command::Simple(Simple::ClearTargetTab) => {
                *self = Target::Active;
                Reach::Cleared
            },
            Command::Simple(Simple::Delete) => {
                let tab = self.find_tab(list);
                if tab != list.active {
                    Reach::Refused
                } else {
                    self.locate(list)
                }
            },
            Command::Simple(s) => {
                let opens = match s {
                    Simple::Home | Simple::NewTab | Simple::NewBackgroundTab => true,
                    _ => false,
                };
                if opens || works_in_tab(*s) {
                    self.locate(list)
                } else {
                    Reach::Anywhere
                }
            },
            Command::With(a, _) => match a {
                ArgCommand::SaveSession | ArgCommand::LoadSession | ArgCommand::DeleteSession =>
                    Reach::Anywhere,
                _ => self.locate(list),
            },
            Command::Split { .. } => match *self {
                Target::Active => self.locate(list),
                Target::Started(started) => match self.find_tab(list) {
                    Some(t) => if list.is_visible(t) {
                        Reach::Tab(t)
                    } else {
                        Reach::Hidden
                    },
                    None => if started.is_none() {
                        Reach::NoTab
                    } else {
                        Reach::Hidden
                    },
                },
            },
            Command::Display(_)
            | Command::SortBy(_)
            | Command::SortDir(_)
            | Command::Unrecognized(_) => self.locate(list),
        }
    }
}

/// As long as its tab is open, a script works there whichever tab is active, and
/// does not delete anything while that is another one.
pub proof fn script_stays_in_its_tab(t: TabId, c: Simple, list: &TabsList)
    requires
        list.valid(),
        list.lists(t),
        in_tab(c),
    ensures
        ({
            let r = Target::Started(Some(t)).reach(Command::Simple(c), list);
            if c is Delete && list.active != Some(t) {
                r == Reach::Refused
            } else {
                r == Reach::Tab(t)
            }
        }),
{
}

/// A script acts in the tab that it was started in, whichever tab is active. What is
/// about no tab is the same for it as for anyone, and its deletions are refused once
/// another tab is active.
pub proof fn scripts_act_in_their_tab(t: TabId, c: Simple, list: &TabsList)
    requires
        list.valid(),
        list.lists(t),
    ensures
        ({
            let r = Target::Started(Some(t)).reach(Command::Simple(c), list);
            &&& r is Cleared <==> c is ClearTargetTab
            &&& r is Refused <==> c is Delete && list.active != Some(t)
            &&& r is Anywhere <==> (c is Quit || c is Help || c is Cancel || c is Undo
                || c is ReopenTab || c is Refresh || c is RefreshAll || c is HidePanes
                || c is ReloadActions)
            &&& !(r is Cleared || r is Refused || r is Anywhere) ==> r == Reach::Tab(t)
        }),
{
}

/// A script whose tab was closed, or that was started without one, reaches no tab.
pub proof fn scripts_without_a_tab(start: Option<TabId>, c: Command, list: &TabsList)
    requires
        start matches Some(t) ==> !list.lists(t),
    ensures
        !(Target::Started(start).reach(c, list) is Tab),
{
}

/// After `ClearTargetTab`, commands are for whichever tab is active.
pub proof fn cleared_follows_active(target: Target, c: Simple, a: TabId, list: &TabsList)
    requires
        list.valid(),
        list.active == Some(a),
        in_tab(c),
    ensures
        target.after(Command::Simple(Simple::ClearTargetTab)).reach(Command::Simple(c), list)
            == Reach::Tab(a),
{
}

} // verus!
