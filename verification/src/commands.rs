//! The text commands that control the program.
use std::sync::Arc;

use ahash::AHashMap;
use vstd::prelude::*;
use vstd::string::*;

use crate::collections::{self, get_number, no_numbers, set_number};
use crate::config::Shortcut;
use crate::names::{self, file_stem_len};
use crate::operations::{self, Kind};
use crate::path::{self, FilePath};
use crate::settings::{DisplayMode, SortDir, SortMode};
use crate::strings::{self, holds_char, lossy_text, space, split_once, trim_start, Strip};
use crate::text::{self, chars_of, contains_bytes, equal_bytes, same_text};

verus! {

/// A command without an argument.
#[derive(Clone, Copy, Debug, PartialEq, Eq, Structural)]
pub enum Simple {
    Quit,
    Help,
    Activate,
    OpenDefault,
    OpenWith,
    Copy,
    Cut,
    Paste,
    Cancel,
    Undo,
    Home,
    NewTab,
    NewBackgroundTab,
    ReopenTab,
    Refresh,
    RefreshAll,
    CloseTab,
    CloseTabNoReplacement,
    ClosePane,
    HidePanes,
    CloseActive,
    Forward,
    Back,
    Parent,
    BackOrParent,
    Child,
    Trash,
    Delete,
    Rename,
    Properties,
    NewFolder,
    NewFile,
    Search,
    FocusLocation,
    Unselect,
    ClearTargetTab,
    ReloadActions,
}

impl Simple {
    pub open spec fn spec_name(self) -> Seq<char> {
        match self {
            Simple::Quit => "Quit"@,
            Simple::Help => "Help"@,
            Simple::Activate => "Activate"@,
            Simple::OpenDefault => "OpenDefault"@,
            Simple::OpenWith => "OpenWith"@,
            Simple::Copy => "Copy"@,
            Simple::Cut => "Cut"@,
            Simple::Paste => "Paste"@,
            Simple::Cancel => "Cancel"@,
            Simple::Undo => "Undo"@,
            Simple::Home => "Home"@,
            Simple::NewTab => "NewTab"@,
            Simple::NewBackgroundTab => "NewBackgroundTab"@,
            Simple::ReopenTab => "ReopenTab"@,
            Simple::Refresh => "Refresh"@,
            Simple::RefreshAll => "RefreshAll"@,
            Simple::CloseTab => "CloseTab"@,
            Simple::CloseTabNoReplacement => "CloseTabNoReplacement"@,
            Simple::ClosePane => "ClosePane"@,
            Simple::HidePanes => "HidePanes"@,
            Simple::CloseActive => "CloseActive"@,
            Simple::Forward => "Forward"@,
            Simple::Back => "Back"@,
            Simple::Parent => "Parent"@,
            Simple::BackOrParent => "BackOrParent"@,
            Simple::Child => "Child"@,
            Simple::Trash => "Trash"@,
            Simple::Delete => "Delete"@,
            Simple::Rename => "Rename"@,
            Simple::Properties => "Properties"@,
            Simple::NewFolder => "NewFolder"@,
            Simple::NewFile => "NewFile"@,
            Simple::Search => "Search"@,
            Simple::FocusLocation => "FocusLocation"@,
            Simple::Unselect => "Unselect"@,
            Simple::ClearTargetTab => "ClearTargetTab"@,
            Simple::ReloadActions => "ReloadActions"@,
        }
    }

    /// The command with the given name.
    pub open spec fn parsed(s: Seq<char>) -> Option<Simple> {
        if s == "Quit"@ {
            Some(Simple::Quit)
        } else if s == "Help"@ {
            Some(Simple::Help)
        } else if s == "Activate"@ {
            Some(Simple::Activate)
        } else if s == "OpenDefault"@ {
            Some(Simple::OpenDefault)
        } else if s == "OpenWith"@ {
            Some(Simple::OpenWith)
        } else if s == "Copy"@ {
            Some(Simple::Copy)
        } else if s == "Cut"@ {
            Some(Simple::Cut)
        } else if s == "Paste"@ {
            Some(Simple::Paste)
        } else if s == "Cancel"@ {
            Some(Simple::Cancel)
        } else if s == "Undo"@ {
            Some(Simple::Undo)
        } else if s == "Home"@ {
            Some(Simple::Home)
        } else if s == "NewTab"@ {
            Some(Simple::NewTab)
        } else if s == "NewBackgroundTab"@ {
            Some(Simple::NewBackgroundTab)
        } else if s == "ReopenTab"@ {
            Some(Simple::ReopenTab)
        } else if s == "Refresh"@ {
            Some(Simple::Refresh)
        } else if s == "RefreshAll"@ {
            Some(Simple::RefreshAll)
        } else if s == "CloseTab"@ {
            Some(Simple::CloseTab)
        } else if s == "CloseTabNoReplacement"@ {
            Some(Simple::CloseTabNoReplacement)
        } else if s == "ClosePane"@ {
            Some(Simple::ClosePane)
        } else if s == "HidePanes"@ {
            Some(Simple::HidePanes)
        } else if s == "CloseActive"@ {
            Some(Simple::CloseActive)
        } else if s == "Forward"@ {
            Some(Simple::Forward)
        } else if s == "Back"@ {
            Some(Simple::Back)
        } else if s == "Parent"@ {
            Some(Simple::Parent)
        } else if s == "BackOrParent"@ {
            Some(Simple::BackOrParent)
        } else if s == "Child"@ {
            Some(Simple::Child)
        } else if s == "Trash"@ {
            Some(Simple::Trash)
        } else if s == "Delete"@ {
            Some(Simple::Delete)
        } else if s == "Rename"@ {
            Some(Simple::Rename)
        } else if s == "Properties"@ {
            Some(Simple::Properties)
        } else if s == "NewFolder"@ {
            Some(Simple::NewFolder)
        } else if s == "NewFile"@ {
            Some(Simple::NewFile)
        } else if s == "Search"@ {
            Some(Simple::Search)
        } else if s == "FocusLocation"@ {
            Some(Simple::FocusLocation)
        } else if s == "Unselect"@ {
            Some(Simple::Unselect)
        } else if s == "ClearTargetTab"@ {
            Some(Simple::ClearTargetTab)
        } else if s == "ReloadActions"@ {
            Some(Simple::ReloadActions)
        } else {
            None
        }
    }

    pub fn parse(s: &str) -> (r: Option<Simple>)
        ensures
            r == Simple::parsed(s@),
    {
        if same_text(s, "Quit") {
            Some(Simple::Quit)
        } else if same_text(s, "Help") {
            Some(Simple::Help)
        } else if same_text(s, "Activate") {
            Some(Simple::Activate)
        } else if same_text(s, "OpenDefault") {
            Some(Simple::OpenDefault)
        } else if same_text(s, "OpenWith") {
            Some(Simple::OpenWith)
        } else if same_text(s, "Copy") {
            Some(Simple::Copy)
        } else if same_text(s, "Cut") {
            Some(Simple::Cut)
        } else if same_text(s, "Paste") {
            Some(Simple::Paste)
        } else if same_text(s, "Cancel") {
            Some(Simple::Cancel)
        } else if same_text(s, "Undo") {
            Some(Simple::Undo)
        } else if same_text(s, "Home") {
            Some(Simple::Home)
        } else if same_text(s, "NewTab") {
            Some(Simple::NewTab)
        } else if same_text(s, "NewBackgroundTab") {
            Some(Simple::NewBackgroundTab)
        } else if same_text(s, "ReopenTab") {
            Some(Simple::ReopenTab)
        } else if same_text(s, "Refresh") {
            Some(Simple::Refresh)
        } else if same_text(s, "RefreshAll") {
            Some(Simple::RefreshAll)
        } else if same_text(s, "CloseTab") {
            Some(Simple::CloseTab)
        } else if same_text(s, "CloseTabNoReplacement") {
            Some(Simple::CloseTabNoReplacement)
        } else if same_text(s, "ClosePane") {
            Some(Simple::ClosePane)
        } else if same_text(s, "HidePanes") {
            Some(Simple::HidePanes)
        } else if same_text(s, "CloseActive") {
            Some(Simple::CloseActive)
        } else if same_text(s, "Forward") {
            Some(Simple::Forward)
        } else if same_text(s, "Back") {
            Some(Simple::Back)
        } else if same_text(s, "Parent") {
            Some(Simple::Parent)
        } else if same_text(s, "BackOrParent") {
            Some(Simple::BackOrParent)
        } else if same_text(s, "Child") {
            Some(Simple::Child)
        } else if same_text(s, "Trash") {
            Some(Simple::Trash)
        } else if same_text(s, "Delete") {
            Some(Simple::Delete)
        } else if same_text(s, "Rename") {
            Some(Simple::Rename)
        } else if same_text(s, "Properties") {
            Some(Simple::Properties)
        } else if same_text(s, "NewFolder") {
            Some(Simple::NewFolder)
        } else if same_text(s, "NewFile") {
            Some(Simple::NewFile)
        } else if same_text(s, "Search") {
            Some(Simple::Search)
        } else if same_text(s, "FocusLocation") {
            Some(Simple::FocusLocation)
        } else if same_text(s, "Unselect") {
            Some(Simple::Unselect)
        } else if same_text(s, "ClearTargetTab") {
            Some(Simple::ClearTargetTab)
        } else if same_text(s, "ReloadActions") {
            Some(Simple::ReloadActions)
        } else {
            None
        }
    }
}

/// A command with an argument.
#[derive(Clone, Copy, Debug, PartialEq, Eq, Structural)]
pub enum ArgCommand {
    Navigate,
    JumpTo,
    NewTab,
    NewBackgroundTab,
    Search,
    SaveSession,
    LoadSession,
    DeleteSession,
    Execute,
    Script,
}

impl ArgCommand {
    pub open spec fn spec_name(self) -> Seq<char> {
        match self {
            ArgCommand::Navigate => "Navigate"@,
            ArgCommand::JumpTo => "JumpTo"@,
            ArgCommand::NewTab => "NewTab"@,
            ArgCommand::NewBackgroundTab => "NewBackgroundTab"@,
            ArgCommand::Search => "Search"@,
            ArgCommand::SaveSession => "SaveSession"@,
            ArgCommand::LoadSession => "LoadSession"@,
            ArgCommand::DeleteSession => "DeleteSession"@,
            ArgCommand::Execute => "Execute"@,
            ArgCommand::Script => "Script"@,
        }
    }

    /// The command with the given name.
    pub open spec fn parsed(s: Seq<char>) -> Option<ArgCommand> {
        if s == "Navigate"@ {
            Some(ArgCommand::Navigate)
        } else if s == "JumpTo"@ {
            Some(ArgCommand::JumpTo)
        } else if s == "NewTab"@ {
            Some(ArgCommand::NewTab)
        } else if s == "NewBackgroundTab"@ {
            Some(ArgCommand::NewBackgroundTab)
        } else if s == "Search"@ {
            Some(ArgCommand::Search)
        } else if s == "SaveSession"@ {
            Some(ArgCommand::SaveSession)
        } else if s == "LoadSession"@ {
            Some(ArgCommand::LoadSession)
        } else if s == "DeleteSession"@ {
            Some(ArgCommand::DeleteSession)
        } else if s == "Execute"@ {
            Some(ArgCommand::Execute)
        } else if s == "Script"@ {
            Some(ArgCommand::Script)
        } else {
            None
        }
    }

    pub fn parse(s: &str) -> (r: Option<ArgCommand>)
        ensures
            r == ArgCommand::parsed(s@),
    {
        if same_text(s, "Navigate") {
            Some(ArgCommand::Navigate)
        } else if same_text(s, "JumpTo") {
            Some(ArgCommand::JumpTo)
        } else if same_text(s, "NewTab") {
            Some(ArgCommand::NewTab)
        } else if same_text(s, "NewBackgroundTab") {
            Some(ArgCommand::NewBackgroundTab)
        } else if same_text(s, "Search") {
            Some(ArgCommand::Search)
        } else if same_text(s, "SaveSession") {
            Some(ArgCommand::SaveSession)
        } else if same_text(s, "LoadSession") {
            Some(ArgCommand::LoadSession)
        } else if same_text(s, "DeleteSession") {
            Some(ArgCommand::DeleteSession)
        } else if same_text(s, "Execute") {
            Some(ArgCommand::Execute)
        } else if same_text(s, "Script") {
            Some(ArgCommand::Script)
        } else {
            None
        }
    }
}

/// Every command without an argument is known by its name.
pub proof fn simple_names_parse(c: Simple)
    ensures
        Simple::parsed(c.spec_name()) == Some(c),
{
    reveal_strlit("Quit");
    reveal_strlit("Help");
    reveal_strlit("Activate");
    reveal_strlit("OpenDefault");
    reveal_strlit("OpenWith");
    reveal_strlit("Copy");
    reveal_strlit("Cut");
    reveal_strlit("Paste");
    reveal_strlit("Cancel");
    reveal_strlit("Undo");
    reveal_strlit("Home");
    reveal_strlit("NewTab");
    reveal_strlit("NewBackgroundTab");
    reveal_strlit("ReopenTab");
    reveal_strlit("Refresh");
    reveal_strlit("RefreshAll");
    reveal_strlit("CloseTab");
    reveal_strlit("CloseTabNoReplacement");
    reveal_strlit("ClosePane");
    reveal_strlit("HidePanes");
    reveal_strlit("CloseActive");
    reveal_strlit("Forward");
    reveal_strlit("Back");
    reveal_strlit("Parent");
    reveal_strlit("BackOrParent");
    reveal_strlit("Child");
    reveal_strlit("Trash");
    reveal_strlit("Delete");
    reveal_strlit("Rename");
    reveal_strlit("Properties");
    reveal_strlit("NewFolder");
    reveal_strlit("NewFile");
    reveal_strlit("Search");
    reveal_strlit("FocusLocation");
    reveal_strlit("Unselect");
    reveal_strlit("ClearTargetTab");
    reveal_strlit("ReloadActions");
    assert("Quit"@.len() == 4);
    assert("Help"@.len() == 4);
    assert("Activate"@.len() == 8);
    assert("OpenDefault"@.len() == 11);
    assert("OpenWith"@.len() == 8);
    assert("Copy"@.len() == 4);
    assert("Cut"@.len() == 3);
    assert("Paste"@.len() == 5);
    assert("Cancel"@.len() == 6);
    assert("Undo"@.len() == 4);
    assert("Home"@.len() == 4);
    assert("NewTab"@.len() == 6);
    assert("NewBackgroundTab"@.len() == 16);
    assert("ReopenTab"@.len() == 9);
    assert("Refresh"@.len() == 7);
    assert("RefreshAll"@.len() == 10);
    assert("CloseTab"@.len() == 8);
    assert("CloseTabNoReplacement"@.len() == 21);
    assert("ClosePane"@.len() == 9);
    assert("HidePanes"@.len() == 9);
    assert("CloseActive"@.len() == 11);
    assert("Forward"@.len() == 7);
    assert("Back"@.len() == 4);
    assert("Parent"@.len() == 6);
    assert("BackOrParent"@.len() == 12);
    assert("Child"@.len() == 5);
    assert("Trash"@.len() == 5);
    assert("Delete"@.len() == 6);
    assert("Rename"@.len() == 6);
    assert("Properties"@.len() == 10);
    assert("NewFolder"@.len() == 9);
    assert("NewFile"@.len() == 7);
    assert("Search"@.len() == 6);
    assert("FocusLocation"@.len() == 13);
    assert("Unselect"@.len() == 8);
    assert("ClearTargetTab"@.len() == 14);
    assert("ReloadActions"@.len() == 13);
    assert("Quit"@[0] != "Help"@[0]);
    assert("Quit"@[0] != "Copy"@[0]);
    assert("Quit"@[0] != "Undo"@[0]);
    assert("Quit"@[0] != "Home"@[0]);
    assert("Quit"@[0] != "Back"@[0]);
    assert("Help"@[0] != "Copy"@[0]);
    assert("Help"@[0] != "Undo"@[0]);
    assert("Help"@[1] != "Home"@[1]);
    assert("Help"@[0] != "Back"@[0]);
    assert("Copy"@[0] != "Undo"@[0]);
    assert("Copy"@[0] != "Home"@[0]);
    assert("Copy"@[0] != "Back"@[0]);
    assert("Undo"@[0] != "Home"@[0]);
    assert("Undo"@[0] != "Back"@[0]);
    assert("Home"@[0] != "Back"@[0]);
    assert("Paste"@[0] != "Child"@[0]);
    assert("Paste"@[0] != "Trash"@[0]);
    assert("Child"@[0] != "Trash"@[0]);
    assert("Cancel"@[0] != "NewTab"@[0]);
    assert("Cancel"@[0] != "Parent"@[0]);
    assert("Cancel"@[0] != "Delete"@[0]);
    assert("Cancel"@[0] != "Rename"@[0]);
    assert("Cancel"@[0] != "Search"@[0]);
    assert("NewTab"@[0] != "Parent"@[0]);
    assert("NewTab"@[0] != "Delete"@[0]);
    assert("NewTab"@[0] != "Rename"@[0]);
    assert("NewTab"@[0] != "Search"@[0]);
    assert("Parent"@[0] != "Delete"@[0]);
    assert("Parent"@[0] != "Rename"@[0]);
    assert("Parent"@[0] != "Search"@[0]);
    assert("Delete"@[0] != "Rename"@[0]);
    assert("Delete"@[0] != "Search"@[0]);
    assert("Rename"@[0] != "Search"@[0]);
    assert("Refresh"@[0] != "Forward"@[0]);
    assert("Refresh"@[0] != "NewFile"@[0]);
    assert("Forward"@[0] != "NewFile"@[0]);
    assert("Activate"@[0] != "OpenWith"@[0]);
    assert("Activate"@[0] != "CloseTab"@[0]);
    assert("Activate"@[0] != "Unselect"@[0]);
    assert("OpenWith"@[0] != "CloseTab"@[0]);
    assert("OpenWith"@[0] != "Unselect"@[0]);
    assert("CloseTab"@[0] != "Unselect"@[0]);
    assert("ReopenTab"@[0] != "ClosePane"@[0]);
    assert("ReopenTab"@[0] != "HidePanes"@[0]);
    assert("ReopenTab"@[0] != "NewFolder"@[0]);
    assert("ClosePane"@[0] != "HidePanes"@[0]);
    assert("ClosePane"@[0] != "NewFolder"@[0]);
    assert("HidePanes"@[0] != "NewFolder"@[0]);
    assert("RefreshAll"@[0] != "Properties"@[0]);
    assert("OpenDefault"@[0] != "CloseActive"@[0]);
    assert("FocusLocation"@[0] != "ReloadActions"@[0]);
}

/// Every command with an argument is known by its name.
pub proof fn arg_names_parse(c: ArgCommand)
    ensures
        ArgCommand::parsed(c.spec_name()) == Some(c),
{
    reveal_strlit("Navigate");
    reveal_strlit("JumpTo");
    reveal_strlit("NewTab");
    reveal_strlit("NewBackgroundTab");
    reveal_strlit("Search");
    reveal_strlit("SaveSession");
    reveal_strlit("LoadSession");
    reveal_strlit("DeleteSession");
    reveal_strlit("Execute");
    reveal_strlit("Script");
    assert("Navigate"@.len() == 8);
    assert("JumpTo"@.len() == 6);
    assert("NewTab"@.len() == 6);
    assert("NewBackgroundTab"@.len() == 16);
    assert("Search"@.len() == 6);
    assert("SaveSession"@.len() == 11);
    assert("LoadSession"@.len() == 11);
    assert("DeleteSession"@.len() == 13);
    assert("Execute"@.len() == 7);
    assert("Script"@.len() == 6);
    assert("JumpTo"@[0] != "NewTab"@[0]);
    assert("JumpTo"@[0] != "Search"@[0]);
    assert("JumpTo"@[0] != "Script"@[0]);
    assert("NewTab"@[0] != "Search"@[0]);
    assert("NewTab"@[0] != "Script"@[0]);
    assert("Search"@[1] != "Script"@[1]);
    assert("SaveSession"@[0] != "LoadSession"@[0]);
}

/// Something to do.
pub enum Command {
    Simple(Simple),
    With(ArgCommand, String),
    Display(DisplayMode),
    SortBy(SortMode),
    SortDir(SortDir),
    Split { horizontal: bool },
    Unrecognized(String),
}

/// Something to do, as a mathematical value.
pub enum CommandView {
    Simple(Simple),
    With(ArgCommand, Seq<char>),
    Display(DisplayMode),
    SortBy(SortMode),
    SortDir(SortDir),
    Split { horizontal: bool },
    Unrecognized(Seq<char>),
}

impl View for Command {
    type V = CommandView;

    open spec fn view(&self) -> CommandView {
        match self {
            Command::Simple(c) => CommandView::Simple(*c),
            Command::With(c, arg) => CommandView::With(*c, arg@),
            Command::Display(m) => CommandView::Display(*m),
            Command::SortBy(m) => CommandView::SortBy(*m),
            Command::SortDir(d) => CommandView::SortDir(*d),
            Command::Split { horizontal } => CommandView::Split { horizontal: *horizontal },
            Command::Unrecognized(s) => CommandView::Unrecognized(s@),
        }
    }
}

/// The direction that "horizontal" and "vertical" stand for.
pub open spec fn parsed_orientation(s: Seq<char>) -> Option<bool> {
    if s == "horizontal"@ {
        Some(true)
    } else if s == "vertical"@ {
        Some(false)
    } else {
        None
    }
}

/// What a command with an argument stands for.
pub open spec fn with_argument(cmd: Seq<char>, arg: Seq<char>) -> Option<CommandView> {
    if cmd == "Display"@ {
        match DisplayMode::parsed(arg) {
            Some(m) => Some(CommandView::Display(m)),
            None => None,
        }
    } else if cmd == "SortBy"@ {
        match SortMode::parsed(arg) {
            Some(m) => Some(CommandView::SortBy(m)),
            None => None,
        }
    } else if cmd == "SortDir"@ {
        match SortDir::parsed(arg) {
            Some(d) => Some(CommandView::SortDir(d)),
            None => None,
        }
    } else if cmd == "Split"@ {
        match parsed_orientation(arg) {
            Some(horizontal) => Some(CommandView::Split { horizontal }),
            None => None,
        }
    } else {
        match ArgCommand::parsed(cmd) {
            Some(c) => Some(CommandView::With(c, arg)),
            None => None,
        }
    }
}

/// What a text stands for. The spaces at its start and those before its argument
/// do not matter; those at its end do, since the names of files can end in
/// spaces.
pub open spec fn parsed_command(text: Seq<char>) -> CommandView {
    let cmd = strings::strip_start(text, Strip::Space);
    let argued = match strings::split_at_first(cmd, ' ') {
        Some((word, arg)) => with_argument(word, strings::strip_start(arg, Strip::Space)),
        None => None,
    };
    match argued {
        Some(c) => c,
        None => match Simple::parsed(cmd) {
            Some(c) => CommandView::Simple(c),
            None => CommandView::Unrecognized(cmd),
        },
    }
}

/// White space in front of a command does not matter.
pub proof fn space_in_front(pad: Seq<char>, text: Seq<char>)
    requires
        forall|i: int| 0 <= i < pad.len() ==> strings::is_space(#[trigger] pad[i]),
    ensures
        parsed_command(pad + text) == parsed_command(text),
    decreases pad.len(),
{
    if pad.len() > 0 {
        assert((pad + text).skip(1) =~= pad.skip(1) + text);
        assert(strings::is_space(pad[0]));
        assert forall|i: int| 0 <= i < pad.skip(1).len() implies strings::is_space(
            #[trigger] pad.skip(1)[i],
        ) by {
            assert(pad.skip(1)[i] == pad[i + 1]);
        }
        space_in_front(pad.skip(1), text);
    } else {
        assert(pad + text =~= text);
    }
}

proof fn arg_name_is_one_word(c: ArgCommand)
    ensures
        c.spec_name().len() > 0,
        !strings::is_space(c.spec_name()[0]),
        !c.spec_name().contains(' '),
        c.spec_name() != "Display"@,
        c.spec_name() != "SortBy"@,
        c.spec_name() != "SortDir"@,
        c.spec_name() != "Split"@,
{
    reveal_strlit("Navigate");
    reveal_strlit("JumpTo");
    reveal_strlit("NewTab");
    reveal_strlit("NewBackgroundTab");
    reveal_strlit("Search");
    reveal_strlit("SaveSession");
    reveal_strlit("LoadSession");
    reveal_strlit("DeleteSession");
    reveal_strlit("Execute");
    reveal_strlit("Script");
    reveal_strlit("Display");
    reveal_strlit("SortBy");
    reveal_strlit("SortDir");
    reveal_strlit("Split");
    let name = c.spec_name();
    assert forall|i: int| 0 <= i < name.len() implies #[trigger] name[i] != ' ' by {}
    assert(name.len() == "Display"@.len() ==> name[0] != "Display"@[0]);
    assert(name.len() == "SortBy"@.len() ==> name[0] != "SortBy"@[0] || name[1] != "SortBy"@[1]);
    assert(name.len() == "SortDir"@.len() ==> name[0] != "SortDir"@[0]);
    assert(name.len() == "Split"@.len() ==> name[0] != "Split"@[0]);
}

/// What follows the name of a command and the white space behind it is its argument,
/// kept to its last character.
pub proof fn argument_is_kept(c: ArgCommand, pad: Seq<char>, arg: Seq<char>)
    requires
        forall|i: int| 0 <= i < pad.len() ==> strings::is_space(#[trigger] pad[i]),
        arg.len() > 0,
        !strings::is_space(arg[0]),
    ensures
        parsed_command(c.spec_name() + seq![' '] + pad + arg) == CommandView::With(c, arg),
{
    let name = c.spec_name();
    arg_name_is_one_word(c);
    arg_names_parse(c);
    let text = name + seq![' '] + pad + arg;
    assert(text[0] == name[0]);
    assert(text =~= name + seq![' '] + (pad + arg));
    strings::first_separator_splits(name, pad + arg, ' ');
    assert(strings::strip_start(pad + arg, Strip::Space) == arg) by {
        argument_is_stripped(pad, arg);
    }
}

proof fn argument_is_stripped(pad: Seq<char>, arg: Seq<char>)
    requires
        forall|i: int| 0 <= i < pad.len() ==> strings::is_space(#[trigger] pad[i]),
        arg.len() > 0,
        !strings::is_space(arg[0]),
    ensures
        strings::strip_start(pad + arg, Strip::Space) == arg,
    decreases pad.len(),
{
    if pad.len() > 0 {
        assert((pad + arg).skip(1) =~= pad.skip(1) + arg);
        assert(strings::is_space(pad[0]));
        assert forall|i: int| 0 <= i < pad.skip(1).len() implies strings::is_space(
            #[trigger] pad.skip(1)[i],
        ) by {
            assert(pad.skip(1)[i] == pad[i + 1]);
        }
        argument_is_stripped(pad.skip(1), arg);
    } else {
        assert(pad + arg =~= arg);
    }
}

/// A single word that names no command is not recognized, and is handed back.
pub proof fn unknown_words(word: Seq<char>)
    requires
        word.len() > 0,
        !strings::is_space(word[0]),
        !word.contains(' '),
        forall|c: Simple| #[trigger] c.spec_name() != word,
    ensures
        parsed_command(word) == CommandView::Unrecognized(word),
{
    strings::first_separator_splits(word, Seq::empty(), ' ');
    if let Some(c) = Simple::parsed(word) {
        assert(c.spec_name() == word);
    }
}

fn parse_with_argument(cmd: &str, arg: String) -> (r: Option<Command>)
    ensures
        match with_argument(cmd@, arg@) {
            Some(c) => r matches Some(x) && x@ == c,
            None => r is None,
        },
{
    if same_text(cmd, "Display") {
        return match DisplayMode::parse(arg.as_str()) {
            Some(m) => Some(Command::Display(m)),
            None => None,
        };
    }
    if same_text(cmd, "SortBy") {
        return match SortMode::parse(arg.as_str()) {
            Some(m) => Some(Command::SortBy(m)),
            None => None,
        };
    }
    if same_text(cmd, "SortDir") {
        return match SortDir::parse(arg.as_str()) {
            Some(d) => Some(Command::SortDir(d)),
            None => None,
        };
    }
    if same_text(cmd, "Split") {
        if same_text(arg.as_str(), "horizontal") {
            return Some(Command::Split { horizontal: true });
        }
        if same_text(arg.as_str(), "vertical") {
            return Some(Command::Split { horizontal: false });
        }
        return None;
    }
    match ArgCommand::parse(cmd) {
        Some(c) => Some(Command::With(c, arg)),
        None => None,
    }
}

/// Decides what a text stands for.
pub fn run_command(text: &str) -> (r: Command)
    ensures
        r@ == parsed_command(text@),
{
    let cmd = trim_start(text);
    if let Some((word, arg)) = split_once(cmd.as_str(), ' ') {
        if let Some(c) = parse_with_argument(word.as_str(), trim_start(arg.as_str())) {
            return c;
        }
    }
    match Simple::parse(cmd.as_str()) {
        Some(c) => Command::Simple(c),
        None => Command::Unrecognized(cmd),
    }
}

/// The bits that stand for the keys that are held down.
pub const SHIFT_MASK: u32 = 1;

pub const LOCK_MASK: u32 = 2;

pub const CONTROL_MASK: u32 = 4;

pub const ALT_MASK: u32 = 8;

pub const SUPER_MASK: u32 = 67108864;

pub const META_MASK: u32 = 268435456;

pub open spec fn bit_if(mask: u32, word: Seq<char>, modifiers: Seq<char>) -> nat {
    if text::occurs(
        vstd::utf8::encode_utf8(word),
        crate::natsort::lowercase_text(modifiers),
    ) {
        mask as nat
    } else {
        0
    }
}

/// The modifiers that a text names, in any case and with anything between them.
pub open spec fn modifier_bits(modifiers: Option<Seq<char>>) -> nat {
    match modifiers {
        None => 0,
        Some(m) => bit_if(CONTROL_MASK, "control"@, m) + bit_if(ALT_MASK, "alt"@, m) + bit_if(
            SHIFT_MASK,
            "shift"@,
            m,
        ) + bit_if(SUPER_MASK, "super"@, m) + bit_if(META_MASK, "command"@, m),
    }
}

fn bit_for(mask: u32, word: &str, lower: &Vec<u8>) -> (r: u32)
    ensures
        r == (if text::occurs(vstd::utf8::encode_utf8(word@), lower@) {
            mask
        } else {
            0
        }),
{
    if contains_bytes(lower, &word.as_bytes_vec()) {
        mask
    } else {
        0
    }
}

/// The modifiers that a text names.
pub fn modifiers_of(modifiers: &Option<String>) -> (r: u32)
    ensures
        r == modifier_bits(
            match *modifiers {
                Some(m) => Some(m@),
                None => None,
            },
        ),
{
    match modifiers {
        None => 0,
        Some(m) => {
            let lower = crate::natsort::to_lowercase(m.as_str());
            bit_for(CONTROL_MASK, "control", &lower) + bit_for(ALT_MASK, "alt", &lower) + bit_for(
                SHIFT_MASK,
                "shift",
                &lower,
            ) + bit_for(SUPER_MASK, "super", &lower) + bit_for(META_MASK, "command", &lower)
        },
    }
}

/// The code of a key together with its modifiers.
pub open spec fn key_code(mods: nat, key: nat) -> nat {
    mods * 0x1_0000_0000 + key
}

pub open spec fn code_of(s: Shortcut, key: u32) -> nat {
    key_code(
        modifier_bits(
            match s.modifiers {
                Some(m) => Some(m@),
                None => None,
            },
        ),
        key as nat,
    )
}

/// The last of the first `n` shortcuts that has the given code, or a negative
/// number.
pub open spec fn last_shortcut(
    shortcuts: Seq<Shortcut>,
    keys: Seq<u32>,
    n: nat,
    code: nat,
) -> int
    decreases n,
{
    if n == 0 {
        -1
    } else if code_of(shortcuts[n - 1], keys[n - 1]) == code {
        n - 1
    } else {
        last_shortcut(shortcuts, keys, (n - 1) as nat, code)
    }
}

/// Which shortcut each key with its modifiers runs.
pub struct Shortcuts {
    pub table: AHashMap<u64, u32>,
}

impl Shortcuts {
    /// Whether the table holds the last shortcut for each code among the first
    /// `n`.
    pub open spec fn holds(self, shortcuts: Seq<Shortcut>, keys: Seq<u32>, n: nat) -> bool {
        forall|code: u64|
            #![trigger last_shortcut(shortcuts, keys, n, code as nat)]
            {
                let i = last_shortcut(shortcuts, keys, n, code as nat);
                let t = collections::numbers(self.table);
                &&& t.dom().contains(code) <==> i >= 0
                &&& i >= 0 ==> t[code] == i
            }
    }

    /// Reads the configured shortcuts. `keys` holds the decoded key of each.
    pub fn parse_shortcuts(shortcuts: &Vec<Shortcut>, keys: &Vec<u32>) -> (r: Shortcuts)
        requires
            shortcuts@.len() == keys@.len(),
            shortcuts@.len() <= u32::MAX,
        ensures
            r.holds(shortcuts@, keys@, shortcuts@.len()),
    {
        let mut r = Shortcuts { table: no_numbers() };
        let mut i: usize = 0;
        while i < shortcuts.len()
            invariant
                i <= shortcuts.len(),
                shortcuts@.len() == keys@.len(),
                shortcuts@.len() <= u32::MAX,
                r.holds(shortcuts@, keys@, i as nat),
            decreases shortcuts.len() - i,
        {
            let ghost before = collections::numbers(r.table);
            let mods: u32 = modifiers_of(&shortcuts[i].modifiers);
            let code: u64 = mods as u64 * 0x1_0000_0000 + keys[i] as u64;
            set_number(&mut r.table, code, i as u32);
            proof {
                let t = collections::numbers(r.table);
                assert(code == code_of(shortcuts@[i as int], keys@[i as int]));
                assert forall|c: u64|
                    #![trigger last_shortcut(shortcuts@, keys@, (i + 1) as nat, c as nat)]
                    {
                        let k = last_shortcut(shortcuts@, keys@, (i + 1) as nat, c as nat);
                        &&& t.dom().contains(c) <==> k >= 0
                        &&& k >= 0 ==> t[c] == k
                    } by {
                    let k = last_shortcut(shortcuts@, keys@, i as nat, c as nat);
                    assert(before.dom().contains(c) <==> k >= 0);
                }
            }
            i += 1;
        }
        r
    }

    /// The command for a key in upper case with the modifiers that are held
    /// down. Caps lock does not count.
    pub fn shortcut_from_key(
        &self,
        shortcuts: &Vec<Shortcut>,
        keys: &Vec<u32>,
        upper: u32,
        mods: u32,
    ) -> (r: Option<String>)
        requires
            shortcuts@.len() == keys@.len(),
            self.holds(shortcuts@, keys@, shortcuts@.len()),
        ensures
            ({
                let i = last_shortcut(
                    shortcuts@,
                    keys@,
                    shortcuts@.len(),
                    key_code((mods & !LOCK_MASK) as nat, upper as nat),
                );
                &&& r is Some <==> i >= 0
                &&& r matches Some(action) ==> i < shortcuts@.len() && action@
                    == shortcuts@[i].action@
            }),
    {
        let held: u32 = mods & !LOCK_MASK;
        let code: u64 = held as u64 * 0x1_0000_0000 + upper as u64;
        proof {
            last_shortcut_bounds(shortcuts@, keys@, shortcuts@.len(), code as nat);
        }
        match get_number(&self.table, code) {
            Some(i) => Some(shortcuts[i as usize].action.clone()),
            None => None,
        }
    }
}

proof fn last_shortcut_bounds(shortcuts: Seq<Shortcut>, keys: Seq<u32>, n: nat, code: nat)
    requires
        n <= shortcuts.len(),
    ensures
        -1 <= last_shortcut(shortcuts, keys, n, code) < n || last_shortcut(
            shortcuts,
            keys,
            n,
            code,
        ) == -1,
    decreases n,
{
    if n > 0 {
        last_shortcut_bounds(shortcuts, keys, (n - 1) as nat, code);
    }
}

/// Of the shortcuts for a key with its modifiers the last one counts.
pub proof fn later_shortcut_wins(shortcuts: Seq<Shortcut>, keys: Seq<u32>, n: nat, code: nat)
    requires
        n <= shortcuts.len(),
        keys.len() == shortcuts.len(),
    ensures
        ({
            let i = last_shortcut(shortcuts, keys, n, code);
            &&& i < n
            &&& i >= 0 ==> code_of(shortcuts[i], keys[i]) == code
            &&& forall|j: int|
                0 <= j < n && j > i ==> #[trigger] code_of(shortcuts[j], keys[j]) != code
        }),
    decreases n,
{
    if n > 0 {
        later_shortcut_wins(shortcuts, keys, (n - 1) as nat, code);
    }
}

/// Different keys, and different modifiers, have different codes.
pub proof fn codes_differ(mods: u32, key: u32, other_mods: u32, other_key: u32)
    requires
        key_code(mods as nat, key as nat) == key_code(other_mods as nat, other_key as nat),
    ensures
        mods == other_mods,
        key == other_key,
{
}

/// The case in which modifiers are named does not matter.
pub proof fn modifiers_in_any_case(a: Seq<char>, b: Seq<char>)
    requires
        vstd::utf8::is_ascii_chars(a),
        vstd::utf8::is_ascii_chars(b),
        a.len() == b.len(),
        forall|j: int|
            0 <= j < a.len() ==> crate::search::same_letter(#[trigger] a[j] as int, b[j] as int),
    ensures
        modifier_bits(Some(a)) == modifier_bits(Some(b)),
{
    let (x, y) = (crate::natsort::lowercase_text(a), crate::natsort::lowercase_text(b));
    assert forall|j: int| 0 <= j < a.len() implies #[trigger] x[j] == y[j] by {
        assert(crate::search::same_letter(a[j] as int, b[j] as int));
    }
    assert(x =~= y);
}

/// Whether a character is a control character.
pub open spec fn is_control(c: char) -> bool {
    let n = c as u32;
    n <= 0x1f || 0x7f <= n <= 0x9f
}

/// How a key is shown: by its character, unless that cannot be seen.
pub fn key_label(unicode: Option<char>, key: &str) -> (r: String)
    ensures
        r@ == match unicode {
            Some(c) if !strings::is_space(c) && !is_control(c) => seq![c],
            _ => key@,
        },
{
    match unicode {
        Some(c) => {
            let n: u32 = c as u32;
            if !space(c) && !(n <= 0x1f || (0x7f <= n && n <= 0x9f)) {
                let mut v: Vec<char> = Vec::new();
                v.push(c);
                let r = text::text_of(&v, 0, 1);
                assert(r@ =~= seq![c]);
                return r;
            }
            key.to_owned()
        },
        None => key.to_owned(),
    }
}

/// Whether a text can be the name of a file.
pub open spec fn valid_name(name: Seq<char>) -> bool {
    name.len() > 0 && !name.contains('/') && !name.contains('\\')
}

pub fn is_valid_name(name: &str) -> (r: bool)
    ensures
        r == valid_name(name@),
{
    name.unicode_len() > 0 && !holds_char(name, '/') && !holds_char(name, '\\')
}

/// The path of a name in a directory. The name `.` is the directory itself.
pub open spec fn joined(dir: Seq<Seq<u8>>, name: Seq<u8>) -> Seq<Seq<u8>> {
    if name == seq![path::DOT] {
        dir
    } else {
        dir.push(name)
    }
}

fn join(dir: &FilePath, name: &str) -> (r: FilePath)
    ensures
        r@ == joined(dir@, vstd::utf8::encode_utf8(name@)),
{
    let bytes = name.as_bytes_vec();
    let mut dot: Vec<u8> = Vec::new();
    dot.push(path::DOT);
    assert(dot@ =~= seq![path::DOT]);
    if equal_bytes(&bytes, &dot) {
        dir.copy()
    } else {
        dir.join_name(&bytes)
    }
}

/// The operation that renames a file, unless the new name is invalid or the file
/// has no name.
pub fn rename_to(p: &FilePath, new_name: &str) -> (r: Option<Kind>)
    ensures
        r is Some <==> operations::name_of(p@) is Some && valid_name(new_name@),
        r matches Some(k) ==> k matches Kind::Rename(dest) && dest@ == joined(
            p@.drop_last(),
            vstd::utf8::encode_utf8(new_name@),
        ),
{
    if p.file_name().is_none() || !is_valid_name(new_name) {
        return None;
    }
    match p.parent() {
        Some(parent) => Some(Kind::Rename(Arc::new(join(&parent, new_name)))),
        None => None,
    }
}

/// The operation that makes a folder or a file, unless its name is invalid.
pub fn create_in(dir: &FilePath, new_name: &str, folder: bool) -> (r: Option<Kind>)
    ensures
        r is Some <==> valid_name(new_name@),
        r matches Some(k) ==> k.spec_dir() == joined(dir@, vstd::utf8::encode_utf8(new_name@))
            && (if folder {
            k is MakeDir
        } else {
            k is MakeFile
        }),
{
    if !is_valid_name(new_name) {
        return None;
    }
    let p = Arc::new(join(dir, new_name));
    if folder {
        Some(Kind::MakeDir(p))
    } else {
        Some(Kind::MakeFile(p))
    }
}

/// The name without its extension, as it is shown.
pub open spec fn shown_stem(name: Seq<u8>) -> Seq<char> {
    strings::lossy(name.take(names::stem_len(name) as int))
}

/// How much of a name is selected when it is edited: for a file, the name
/// without its extension; all of it for a directory, which is what a negative
/// number stands for.
pub fn end_pos(p: &FilePath, dir: bool) -> (r: i64)
    ensures
        match operations::name_of(p@) {
            Some(name) if !dir && shown_stem(name).len() <= i32::MAX => r == shown_stem(name).len(),
            _ => r == -1,
        },
{
    if dir {
        return -1;
    }
    match p.file_name() {
        Some(name) => {
            let n: usize = file_stem_len(&name);
            let mut stem: Vec<u8> = Vec::new();
            let mut i: usize = 0;
            while i < n
                invariant
                    i <= n <= name.len(),
                    stem@ =~= name@.take(i as int),
                decreases n - i,
            {
                stem.push(name[i]);
                i += 1;
            }
            let len: usize = chars_of(lossy_text(&stem).as_str()).len();
            if len > 0x7fff_ffff {
                -1
            } else {
                len as i64
            }
        },
        None => -1,
    }
}

/// A name is not empty and holds neither kind of slash. All other texts are names, and
/// what is made under a name is in its directory.
pub proof fn names_have_no_slashes(a: Seq<char>, c: char, b: Seq<char>, dir: Seq<Seq<u8>>)
    ensures
        !valid_name(Seq::empty()),
        c == '/' || c == '\\' ==> !valid_name(a + seq![c] + b),
        c != '/' && c != '\\' ==> valid_name(seq![c]),
        valid_name(a) && valid_name(b) ==> valid_name(a + b),
        joined(dir, seq![46u8]) == dir,
        forall|name: Seq<u8>|
            name != seq![46u8] ==> (#[trigger] joined(dir, name)).last() == name && joined(
                dir,
                name,
            ).drop_last() == dir,
{
    let s = a + seq![c] + b;
    assert(s[a.len() as int] == c);
    assert forall|name: Seq<u8>| name != seq![46u8] implies (#[trigger] joined(dir, name)).last()
        == name && joined(dir, name).drop_last() == dir by {
        assert(dir.push(name).drop_last() =~= dir);
    }
    if valid_name(a) && valid_name(b) {
        assert forall|i: int| 0 <= i < (a + b).len() implies (#[trigger] (a + b)[i]) != '/' && (a
            + b)[i] != '\\' by {
            if i < a.len() {
                assert(a.contains(a[i]));
            } else {
                assert(b.contains(b[i - a.len()]));
            }
        }
    }
}

proof fn simple_name_is_one_word(c: Simple)
    ensures
        c.spec_name().len() > 0,
        !strings::is_space(c.spec_name()[0]),
        !c.spec_name().contains(' '),
{
    reveal_strlit("Quit");
    reveal_strlit("Help");
    reveal_strlit("Activate");
    reveal_strlit("OpenDefault");
    reveal_strlit("OpenWith");
    reveal_strlit("Copy");
    reveal_strlit("Cut");
    reveal_strlit("Paste");
    reveal_strlit("Cancel");
    reveal_strlit("Undo");
    reveal_strlit("Home");
    reveal_strlit("NewTab");
    reveal_strlit("NewBackgroundTab");
    reveal_strlit("ReopenTab");
    reveal_strlit("Refresh");
    reveal_strlit("RefreshAll");
    reveal_strlit("CloseTab");
    reveal_strlit("CloseTabNoReplacement");
    reveal_strlit("ClosePane");
    reveal_strlit("HidePanes");
    reveal_strlit("CloseActive");
    reveal_strlit("Forward");
    reveal_strlit("Back");
    reveal_strlit("Parent");
    reveal_strlit("BackOrParent");
    reveal_strlit("Child");
    reveal_strlit("Trash");
    reveal_strlit("Delete");
    reveal_strlit("Rename");
    reveal_strlit("Properties");
    reveal_strlit("NewFolder");
    reveal_strlit("NewFile");
    reveal_strlit("Search");
    reveal_strlit("FocusLocation");
    reveal_strlit("Unselect");
    reveal_strlit("ClearTargetTab");
    reveal_strlit("ReloadActions");
    let name = c.spec_name();
    assert forall|i: int| 0 <= i < name.len() implies #[trigger] name[i] != ' ' by {}
}

/// Every command without an argument is run by its name.
pub proof fn simple_commands_run(c: Simple)
    ensures
        parsed_command(c.spec_name()) == CommandView::Simple(c),
{
    simple_name_is_one_word(c);
    simple_names_parse(c);
    strings::first_separator_splits(c.spec_name(), Seq::empty(), ' ');
}

/// How a directory is shown is set by the name of each mode.
pub proof fn modes_are_set(mode: DisplayMode, sort: SortMode, dir: SortDir)
    ensures
        parsed_command("Display"@ + seq![' '] + mode.spec_name()) == CommandView::Display(mode),
        parsed_command("SortBy"@ + seq![' '] + sort.spec_name()) == CommandView::SortBy(sort),
        parsed_command("SortDir"@ + seq![' '] + dir.spec_name()) == CommandView::SortDir(dir),
        parsed_command("Split"@ + seq![' '] + "horizontal"@) == (CommandView::Split {
            horizontal: true,
        }),
        parsed_command("Split"@ + seq![' '] + "vertical"@) == (CommandView::Split {
            horizontal: false,
        }),
{
    reveal_strlit("Display");
    reveal_strlit("SortBy");
    reveal_strlit("SortDir");
    reveal_strlit("Split");
    reveal_strlit("horizontal");
    reveal_strlit("vertical");
    reveal_strlit("icons");
    reveal_strlit("columns");
    reveal_strlit("name");
    reveal_strlit("mtime");
    reveal_strlit("size");
    reveal_strlit("ascending");
    reveal_strlit("descending");
    let (a, b, c, d) = ("Display"@, "SortBy"@, "SortDir"@, "Split"@);
    assert forall|i: int| 0 <= i < a.len() implies #[trigger] a[i] != ' ' by {}
    assert forall|i: int| 0 <= i < b.len() implies #[trigger] b[i] != ' ' by {}
    assert forall|i: int| 0 <= i < c.len() implies #[trigger] c[i] != ' ' by {}
    assert forall|i: int| 0 <= i < d.len() implies #[trigger] d[i] != ' ' by {}
    assert(a.len() == 7 && b.len() == 6 && c.len() == 7 && d.len() == 5 && a[0] != c[0]);
    assert("icons"@.len() == 5 && "columns"@.len() == 7);
    assert("name"@.len() == 4 && "mtime"@.len() == 5 && "size"@.len() == 4);
    assert("name"@[0] != "size"@[0]);
    assert("ascending"@.len() == 9 && "descending"@.len() == 10);
    assert("horizontal"@.len() == 10 && "vertical"@.len() == 8);
    strings::first_separator_splits(a, mode.spec_name(), ' ');
    strings::first_separator_splits(b, sort.spec_name(), ' ');
    strings::first_separator_splits(c, dir.spec_name(), ' ');
    strings::first_separator_splits(d, "horizontal"@, ' ');
    strings::first_separator_splits(d, "vertical"@, ' ');
}

/// Each modifier has the bit that the toolkit gives it, and those that are named add up.
pub proof fn modifiers_add_up(m: Seq<char>)
    ensures
        ({
            let named = |word: Seq<char>|
                text::occurs(
                    vstd::utf8::encode_utf8(word),
                    crate::natsort::lowercase_text(m),
                );
            modifier_bits(Some(m)) == (if named("shift"@) {
                1int
            } else {
                0
            }) + (if named("control"@) {
                4int
            } else {
                0
            }) + (if named("alt"@) {
                8int
            } else {
                0
            }) + (if named("super"@) {
                67108864int
            } else {
                0
            }) + (if named("command"@) {
                268435456int
            } else {
                0
            })
        }),
        modifier_bits(None) == 0,
{
}

/// Of the first characters of Unicode exactly those from the space to the tilde can be
/// shown, and of the later ones all but the second set of control characters.
pub proof fn characters_that_are_shown(c: char)
    ensures
        (c as u32) < 0x80 ==> (!is_control(c) <==> ' ' <= c <= '~'),
        (c as u32) >= 0x80 ==> (is_control(c) <==> (c as u32) < 0xa0),
{
}

} // verus!
