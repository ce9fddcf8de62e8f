//! How a directory is displayed and sorted.
use vstd::prelude::*;

use crate::text::same_text;

verus! {

#[derive(Clone, Copy, Debug, PartialEq, Eq, Structural)]
pub enum DisplayMode {
    Icons,
    Columns,
}

#[derive(Clone, Copy, Debug, PartialEq, Eq, Structural)]
pub enum SortMode {
    Name,
    MTime,
    Size,
}

#[derive(Clone, Copy, Debug, PartialEq, Eq, Structural)]
pub enum SortDir {
    Ascending,
    Descending,
}

#[derive(Clone, Copy, Debug, PartialEq, Eq, Structural)]
pub struct SortSettings {
    pub mode: SortMode,
    pub direction: SortDir,
}

#[derive(Clone, Copy, Debug, PartialEq, Eq, Structural)]
pub struct DirSettings {
    pub display_mode: DisplayMode,
    pub sort: SortSettings,
}

impl DisplayMode {
    /// The name under which the mode is written in commands and in storage.
    pub open spec fn spec_name(self) -> Seq<char> {
        match self {
            DisplayMode::Icons => "icons"@,
            DisplayMode::Columns => "columns"@,
        }
    }

    pub fn name(self) -> (r: &'static str)
        ensures
            r@ == self.spec_name(),
    {
        match self {
            DisplayMode::Icons => "icons",
            DisplayMode::Columns => "columns",
        }
    }

    /// What the name stands for.
    pub open spec fn parsed(s: Seq<char>) -> Option<DisplayMode> {
        if s == "icons"@ {
            Some(DisplayMode::Icons)
        } else if s == "columns"@ {
            Some(DisplayMode::Columns)
        } else {
            None
        }
    }

    /// The mode with the given name.
    pub fn parse(s: &str) -> (r: Option<DisplayMode>)
        ensures
            r == DisplayMode::parsed(s@),
            r matches Some(m) ==> m.spec_name() == s@,
            r is None ==> forall|m: DisplayMode| #[trigger] m.spec_name() != s@,
    {
        if same_text(s, "icons") {
            Some(DisplayMode::Icons)
        } else if same_text(s, "columns") {
            Some(DisplayMode::Columns)
        } else {
            None
        }
    }
}

impl SortMode {
    pub open spec fn spec_name(self) -> Seq<char> {
        match self {
            SortMode::Name => "name"@,
            SortMode::MTime => "mtime"@,
            SortMode::Size => "size"@,
        }
    }

    pub fn name(self) -> (r: &'static str)
        ensures
            r@ == self.spec_name(),
    {
        match self {
            SortMode::Name => "name",
            SortMode::MTime => "mtime",
            SortMode::Size => "size",
        }
    }

    /// What the name stands for.
    pub open spec fn parsed(s: Seq<char>) -> Option<SortMode> {
        if s == "name"@ {
            Some(SortMode::Name)
        } else if s == "mtime"@ {
            Some(SortMode::MTime)
        } else if s == "size"@ {
            Some(SortMode::Size)
        } else {
            None
        }
    }

    pub fn parse(s: &str) -> (r: Option<SortMode>)
        ensures
            r == SortMode::parsed(s@),
            r matches Some(m) ==> m.spec_name() == s@,
            r is None ==> forall|m: SortMode| #[trigger] m.spec_name() != s@,
    {
        if same_text(s, "name") {
            Some(SortMode::Name)
        } else if same_text(s, "mtime") {
            Some(SortMode::MTime)
        } else if same_text(s, "size") {
            Some(SortMode::Size)
        } else {
            None
        }
    }
}

impl SortDir {
    pub open spec fn spec_name(self) -> Seq<char> {
        match self {
            SortDir::Ascending => "ascending"@,
            SortDir::Descending => "descending"@,
        }
    }

    pub fn name(self) -> (r: &'static str)
        ensures
            r@ == self.spec_name(),
    {
        match self {
            SortDir::Ascending => "ascending",
            SortDir::Descending => "descending",
        }
    }

    /// What the name stands for.
    pub open spec fn parsed(s: Seq<char>) -> Option<SortDir> {
        if s == "ascending"@ {
            Some(SortDir::Ascending)
        } else if s == "descending"@ {
            Some(SortDir::Descending)
        } else {
            None
        }
    }

    pub fn parse(s: &str) -> (r: Option<SortDir>)
        ensures
            r == SortDir::parsed(s@),
            r matches Some(m) ==> m.spec_name() == s@,
            r is None ==> forall|m: SortDir| #[trigger] m.spec_name() != s@,
    {
        if same_text(s, "ascending") {
            Some(SortDir::Ascending)
        } else if same_text(s, "descending") {
            Some(SortDir::Descending)
        } else {
            None
        }
    }
}

/// Different display modes have different names.
pub proof fn display_names_differ(a: DisplayMode, b: DisplayMode)
    ensures
        a.spec_name() == b.spec_name() ==> a == b,
{
    reveal_strlit("icons");
    reveal_strlit("columns");
    assert("icons"@.len() != "columns"@.len());
}

/// Different sort modes have different names.
pub proof fn sort_mode_names_differ(a: SortMode, b: SortMode)
    ensures
        a.spec_name() == b.spec_name() ==> a == b,
{
    reveal_strlit("name");
    reveal_strlit("mtime");
    reveal_strlit("size");
    assert("name"@[0] != "size"@[0]);
    assert("mtime"@.len() == 5);
}

/// Different sort directions have different names.
pub proof fn sort_dir_names_differ(a: SortDir, b: SortDir)
    ensures
        a.spec_name() == b.spec_name() ==> a == b,
{
    reveal_strlit("ascending");
    reveal_strlit("descending");
    assert("ascending"@.len() != "descending"@.len());
}

impl Default for DisplayMode {
    fn default() -> (r: DisplayMode)
        ensures
            r is Icons,
    {
        DisplayMode::Icons
    }
}

impl Default for SortMode {
    fn default() -> (r: SortMode)
        ensures
            r is Name,
    {
        SortMode::Name
    }
}

impl Default for SortDir {
    fn default() -> (r: SortDir)
        ensures
            r is Ascending,
    {
        SortDir::Ascending
    }
}

impl Default for SortSettings {
    fn default() -> (r: SortSettings)
        ensures
            r == (SortSettings { mode: SortMode::Name, direction: SortDir::Ascending }),
    {
        SortSettings { mode: SortMode::Name, direction: SortDir::Ascending }
    }
}

impl DirSettings {
    /// The settings of a directory that nobody has customised.
    pub open spec fn spec_default() -> DirSettings {
        DirSettings {
            display_mode: DisplayMode::Icons,
            sort: SortSettings { mode: SortMode::Name, direction: SortDir::Ascending },
        }
    }

    /// Whether the entries of the previous directory may stay on screen while
    /// this one loads: only the same kind of view can keep showing them.
    pub fn allow_stale(self, old: DirSettings) -> (r: bool)
        ensures
            r == (self.display_mode == old.display_mode),
    {
        self.display_mode == old.display_mode
    }
}

impl Default for DirSettings {
    fn default() -> (r: DirSettings)
        ensures
            r == DirSettings::spec_default(),
    {
        DirSettings {
            display_mode: DisplayMode::Icons,
            sort: SortSettings { mode: SortMode::Name, direction: SortDir::Ascending },
        }
    }
}

/// A setting is read back from its name, and nothing else is read as one.
pub proof fn names_are_read_back(d: DisplayMode, m: SortMode, o: SortDir, s: Seq<char>)
    ensures
        DisplayMode::parsed(s) == Some(d) <==> s == d.spec_name(),
        SortMode::parsed(s) == Some(m) <==> s == m.spec_name(),
        SortDir::parsed(s) == Some(o) <==> s == o.spec_name(),
{
    display_names_differ(DisplayMode::Icons, DisplayMode::Columns);
    sort_mode_names_differ(SortMode::Name, SortMode::MTime);
    sort_mode_names_differ(SortMode::Name, SortMode::Size);
    sort_mode_names_differ(SortMode::MTime, SortMode::Size);
    sort_dir_names_differ(SortDir::Ascending, SortDir::Descending);
}

} // verus!
