//! The texts around a pane: how much is selected, what is being typed to seek,
//! and what the tab is called.
use std::sync::Arc;

use vstd::prelude::*;
use vstd::string::*;
use vstd::utf8::*;

use crate::calendar;
use crate::entry::{self, format_windows_size, Entry, EntryKind};
use crate::natsort::to_lowercase;
use crate::path::{self, FilePath};
use crate::selection;
use crate::settings::{SortDir, SortMode, SortSettings};
use crate::strings::{self, lossy_text};
use crate::text::{self, chars_of, contains_bytes, decimal_string, text_of};

verus! {

/// What the bar under a pane shows.
#[derive(Clone, Copy, Debug, PartialEq, Eq, Structural)]
pub enum StackChild {
    Count,
    Selection,
    Seek,
    Clipboard,
}

/// The bar under a pane.
pub struct StatusBar {
    pub shown: StackChild,
    pub count: String,
    pub selection: String,
    pub seek: String,
    pub clipboard: String,
}

/// How many entries there are.
pub open spec fn count_text(n: nat) -> Seq<char> {
    text::decimal(n) + " items"@
}

/// How many of the entries are directories.
pub open spec fn dir_count(entries: Seq<Arc<Entry>>) -> nat
    decreases entries.len(),
{
    if entries.len() == 0 {
        0
    } else {
        dir_count(entries.drop_last()) + (if entries.last().kind is Directory {
            1nat
        } else {
            0nat
        })
    }
}

/// What is in the directories among the entries, or how large the others are.
pub open spec fn total(entries: Seq<Arc<Entry>>, dirs: bool) -> nat
    decreases entries.len(),
{
    if entries.len() == 0 {
        0
    } else {
        total(entries.drop_last(), dirs) + (if (entries.last().kind is Directory) == dirs {
            entries.last().spec_raw_size() as nat
        } else {
            0nat
        })
    }
}

/// An ending for more than one.
pub open spec fn plural(n: nat) -> Seq<char> {
    if n > 1 {
        "s"@
    } else {
        ""@
    }
}

/// What is selected, in words.
pub open spec fn selected_text(entries: Seq<Arc<Entry>>) -> Seq<char> {
    let dirs = dir_count(entries);
    let files = (entries.len() - dirs) as nat;
    let folders = text::decimal(dirs) + " folder"@ + plural(dirs) + " selected (containing "@
        + text::decimal(total(entries, true)) + " items)"@;
    let rest = text::decimal(files) + " file"@ + plural(files) + " selected ("@
        + entry::windows_size(total(entries, false) as u64) + ")"@;
    if dirs > 0 && files > 0 {
        folders + ", "@ + rest
    } else if dirs > 0 {
        folders
    } else if files > 0 {
        rest
    } else {
        ""@
    }
}

/// What one selected entry is, in words.
pub open spec fn one_selected_text(e: &Entry) -> Seq<char> {
    "\""@ + strings::lossy(e.name.name@) + "\" selected ("@ + (if e.kind is Directory {
        "containing "@
    } else {
        ""@
    }) + e.spec_long_size() + ")"@
}

proof fn totals_grow(entries: Seq<Arc<Entry>>, i: int, dirs: bool)
    requires
        0 <= i <= entries.len(),
    ensures
        total(entries.take(i), dirs) <= total(entries, dirs),
        dir_count(entries.take(i)) <= i,
    decreases entries.len() - i,
{
    if i < entries.len() {
        assert(entries.take(i + 1).drop_last() =~= entries.take(i));
        totals_grow(entries, i + 1, dirs);
        dirs_at_most(entries.take(i));
    } else {
        assert(entries.take(i) =~= entries);
        dirs_at_most(entries);
    }
}

proof fn dirs_at_most(entries: Seq<Arc<Entry>>)
    ensures
        dir_count(entries) <= entries.len(),
    decreases entries.len(),
{
    if entries.len() > 0 {
        dirs_at_most(entries.drop_last());
    }
}

/// Each selected entry counts once, a directory with what is in it and a file with its
/// size, in whatever order they come.
pub proof fn each_counts_once(a: Seq<Arc<Entry>>, e: Arc<Entry>, b: Seq<Arc<Entry>>, dirs: bool)
    ensures
        dir_count(seq![e]) == (if e.kind is Directory {
            1nat
        } else {
            0nat
        }),
        e.kind matches EntryKind::File { size, .. } ==> total(seq![e], false) == size && total(
            seq![e],
            true,
        ) == 0,
        e.kind matches EntryKind::Directory { contents: Some(n) } ==> total(seq![e], true) == n
            && total(seq![e], false) == 0,
        dir_count(a + b) == dir_count(a) + dir_count(b),
        dir_count(a + b) == dir_count(b + a),
        total(a + b, dirs) == total(a, dirs) + total(b, dirs),
        total(a + b, dirs) == total(b + a, dirs),
{
    assert(seq![e].drop_last() =~= Seq::<Arc<Entry>>::empty());
    assert(dir_count(seq![e].drop_last()) == 0);
    assert(total(seq![e].drop_last(), true) == 0);
    assert(total(seq![e].drop_last(), false) == 0);
    counts_add_up(a, b, dirs);
    counts_add_up(b, a, dirs);
}

proof fn counts_add_up(a: Seq<Arc<Entry>>, b: Seq<Arc<Entry>>, dirs: bool)
    ensures
        dir_count(a + b) == dir_count(a) + dir_count(b),
        total(a + b, dirs) == total(a, dirs) + total(b, dirs),
    decreases b.len(),
{
    if b.len() > 0 {
        counts_add_up(a, b.drop_last(), dirs);
        assert((a + b).drop_last() =~= a + b.drop_last());
    } else {
        assert(a + b =~= a);
    }
}

/// The text for a selection of files alone, of directories alone, or of both.
pub proof fn selection_in_words(files: Seq<Arc<Entry>>, dirs: Seq<Arc<Entry>>)
    requires
        forall|i: int| 0 <= i < files.len() ==> !((#[trigger] files[i]).kind is Directory),
        forall|i: int| 0 <= i < dirs.len() ==> (#[trigger] dirs[i]).kind is Directory,
        files.len() > 0,
        dirs.len() > 0,
    ensures
        dir_count(files + dirs) == dirs.len(),
        selected_text(files + dirs) == selected_text(dirs) + ", "@ + selected_text(files),
{
    counts_add_up(files, dirs, true);
    counts_add_up(files, dirs, false);
    one_kind(files, false);
    one_kind(dirs, true);
}

proof fn one_kind(entries: Seq<Arc<Entry>>, dirs: bool)
    requires
        forall|i: int|
            0 <= i < entries.len() ==> ((#[trigger] entries[i]).kind is Directory) == dirs,
    ensures
        dir_count(entries) == (if dirs {
            entries.len()
        } else {
            0
        }),
        total(entries, !dirs) == 0,
    decreases entries.len(),
{
    if entries.len() > 0 {
        assert((entries[entries.len() - 1].kind is Directory) == dirs);
        assert forall|i: int| 0 <= i < entries.drop_last().len() implies ((
        #[trigger] entries.drop_last()[i]).kind is Directory) == dirs by {
            assert(entries.drop_last()[i] == entries[i]);
        }
        one_kind(entries.drop_last(), dirs);
    }
}

/// What is selected, in words.
pub fn selected_string(entries: &Vec<Arc<Entry>>) -> (r: String)
    requires
        forall|i: int| 0 <= i < entries@.len() ==> (#[trigger] entries@[i]).ready(),
        total(entries@, true) <= u64::MAX,
        total(entries@, false) <= u64::MAX,
    ensures
        r@ == selected_text(entries@),
{
    let mut dirs: usize = 0;
    let mut bytes: u64 = 0;
    let mut inside: u64 = 0;
    let mut i: usize = 0;
    assert(entries@.take(0) =~= Seq::empty());
    while i < entries.len()
        invariant
            i <= entries@.len(),
            forall|k: int| 0 <= k < entries@.len() ==> (#[trigger] entries@[k]).ready(),
            total(entries@, true) <= u64::MAX,
            total(entries@, false) <= u64::MAX,
            dirs == dir_count(entries@.take(i as int)),
            dirs <= i,
            inside == total(entries@.take(i as int), true),
            bytes == total(entries@.take(i as int), false),
        decreases entries@.len() - i,
    {
        proof {
            assert(entries@.take(i + 1).drop_last() =~= entries@.take(i as int));
            assert(entries@.take(i + 1).last() == entries@[i as int]);
            totals_grow(entries@, i + 1, true);
            totals_grow(entries@, i + 1, false);
        }
        assert(entries@[i as int].ready());
        if entries[i].dir() {
            dirs += 1;
            inside += entries[i].raw_size();
        } else {
            bytes += entries[i].raw_size();
        }
        i += 1;
    }
    assert(entries@.take(i as int) =~= entries@);
    let files: usize = entries.len() - dirs;
    let mut label = String::new();
    if dirs > 0 {
        label = decimal_string(dirs as u64);
        label.append(" folder");
        label.append(if dirs > 1 { "s" } else { "" });
        label.append(" selected (containing ");
        label.append(decimal_string(inside).as_str());
        label.append(" items)");
        if files == 0 {
            return label;
        }
        label.append(", ");
    }
    if files > 0 {
        let mut rest = decimal_string(files as u64);
        rest.append(" file");
        rest.append(if files > 1 { "s" } else { "" });
        rest.append(" selected (");
        rest.append(format_windows_size(bytes).as_str());
        rest.append(")");
        if dirs > 0 {
            label.append(rest.as_str());
            return label;
        }
        return rest;
    }
    "".to_owned()
}

/// `char::is_alphanumeric`, by the letters and numbers of Unicode.
pub uninterp spec fn alphanumeric(c: char) -> bool;

/// `char::is_alphanumeric`: whether the character is a letter or a number; a
/// function of the character alone.
#[verifier::external_body]
pub(crate) fn is_alphanumeric(c: char) -> (r: bool)
    ensures
        r == alphanumeric(c),
{
    c.is_alphanumeric()
}

/// A key that was pressed in a pane.
#[derive(Clone, Copy, Debug, PartialEq, Eq, Structural)]
pub enum SeekKey {
    Tab,
    BackSpace,
    Escape,
    Other(Option<char>),
}

/// What a pressed key leads to.
pub enum SeekAction {
    /// The key is for someone else.
    Proceed,
    /// Nothing further.
    Stop,
    /// Going to the first entry for the text.
    Seek(String),
    /// Going to the next entry for the text.
    Next(String),
    Prev(String),
}

/// Whether a character can be typed to seek.
pub open spec fn seekable(c: char) -> bool {
    c == ' ' || alphanumeric(c)
}

impl StatusBar {
    /// Whether two bars show the same but for the part that is in view and what
    /// is typed.
    pub open spec fn same_texts(self, other: StatusBar) -> bool {
        self.count == other.count && self.selection == other.selection && self.clipboard
            == other.clipboard
    }

    pub fn new() -> (r: StatusBar)
        ensures
            r.shown is Count,
            r.count@ == ""@,
            r.selection@ == ""@,
            r.seek@ == ""@,
            r.clipboard@ == ""@,
    {
        StatusBar {
            shown: StackChild::Count,
            count: "".to_owned(),
            selection: "".to_owned(),
            seek: "".to_owned(),
            clipboard: "".to_owned(),
        }
    }

    /// Starts over in another place.
    pub fn reset(&mut self)
        ensures
            final(self).shown is Count,
            final(self).seek@ == ""@,
            final(self).same_texts(*old(self)),
    {
        self.seek = "".to_owned();
        self.shown = StackChild::Count;
    }

    /// Shows what was put on the clipboard, unless a text is being typed.
    pub fn clipboard_text(&mut self, text: &str)
        ensures
            final(self).clipboard@ == text@,
            final(self).count == old(self).count,
            final(self).selection == old(self).selection,
            final(self).seek == old(self).seek,
            final(self).shown == (if old(self).shown is Seek {
                StackChild::Seek
            } else {
                StackChild::Clipboard
            }),
    {
        self.clipboard = text.to_owned();
        if self.shown != StackChild::Seek {
            self.shown = StackChild::Clipboard;
        }
    }

    /// What remains in view of what is typed, given the selected entries.
    pub open spec fn after_seek(self, selected: Seq<Arc<Entry>>) -> StackChild {
        if !(self.shown is Seek) {
            self.shown
        } else if selected.len() == 0 {
            StackChild::Count
        } else if selected.len() > 1 || !selection::sought(self.seek@, &selected[0]) {
            StackChild::Selection
        } else {
            StackChild::Seek
        }
    }

    /// Stops seeking when something else gets selected.
    pub fn maybe_close_seek(&mut self, selected: &Vec<Arc<Entry>>)
        ensures
            final(self).same_texts(*old(self)),
            final(self).shown == old(self).after_seek(selected@),
            old(self).shown is Seek && !(final(self).shown is Seek) ==> final(self).seek@ == ""@,
            !(old(self).shown is Seek && !(final(self).shown is Seek)) ==> final(self).seek
                == old(self).seek,
    {
        if self.shown != StackChild::Seek {
            return;
        }
        if selected.len() == 0 {
            self.shown = StackChild::Count;
        } else if selected.len() > 1 {
            self.shown = StackChild::Selection;
        } else {
            let needle = to_lowercase(self.seek.as_str());
            if contains_bytes(&selected[0].name.lowercase, &needle) {
                return;
            }
            self.shown = StackChild::Selection;
        }
        self.seek = "".to_owned();
    }

    /// Notes that the number of entries has changed. Returns whether the text for
    /// the selection is to be updated, which can wait.
    pub fn items_changed(&mut self, count: usize, selected: &Vec<Arc<Entry>>, removed: bool) -> (r:
        bool)
        ensures
            final(self).count@ == count_text(count as nat),
            final(self).selection == old(self).selection,
            final(self).clipboard == old(self).clipboard,
            final(self).shown == old(self).after_seek(selected@),
            final(self).seek@ == (if old(self).shown is Seek && !(final(self).shown is Seek) {
                ""@
            } else {
                old(self).seek@
            }),
            r == (removed && final(self).shown is Selection),
    {
        self.maybe_close_seek(selected);
        let mut t = decimal_string(count as u64);
        t.append(" items");
        self.count = t;
        removed && self.shown == StackChild::Selection
    }

    /// Shows what is selected.
    pub fn update_selected_text(&mut self, selected: &Vec<Arc<Entry>>)
        requires
            forall|i: int| 0 <= i < selected@.len() ==> (#[trigger] selected@[i]).ready(),
            total(selected@, true) <= u64::MAX,
            total(selected@, false) <= u64::MAX,
        ensures
            final(self).count == old(self).count,
            final(self).clipboard == old(self).clipboard,
            final(self).selection@ == (if selected@.len() == 0 {
                ""@
            } else if selected@.len() == 1 {
                one_selected_text(&selected@[0])
            } else {
                selected_text(selected@)
            }),
            final(self).shown == (if old(self).after_seek(selected@) is Seek {
                StackChild::Seek
            } else if selected@.len() == 0 {
                StackChild::Count
            } else {
                StackChild::Selection
            }),
            final(self).seek@ == (if old(self).shown is Seek && !(final(self).shown is Seek) {
                ""@
            } else {
                old(self).seek@
            }),
    {
        self.maybe_close_seek(selected);
        if selected.len() == 0 {
            self.selection = "".to_owned();
            if self.shown != StackChild::Seek {
                self.shown = StackChild::Count;
            }
            return;
        }
        self.selection = if selected.len() == 1 {
            let e = &selected[0];
            assert(selected@[0].ready());
            let mut t = "\"".to_owned();
            t.append(lossy_text(&e.name.name).as_str());
            t.append("\" selected (");
            t.append(if e.dir() { "containing " } else { "" });
            t.append(e.long_size_string().as_str());
            t.append(")");
            t
        } else {
            selected_string(selected)
        };
        if self.shown != StackChild::Seek {
            self.shown = StackChild::Selection;
        }
    }

    /// Where the bar goes when nothing is typed any more.
    pub open spec fn unsought(self) -> StackChild {
        if self.selection@.len() == 0 {
            StackChild::Count
        } else {
            StackChild::Selection
        }
    }

    /// Takes a key that was pressed. Letters and numbers are typed to seek an
    /// entry. `plain` says that no modifier but the shift key was held.
    pub fn handle_seek(&mut self, key: SeekKey, plain: bool, shift: bool) -> (r: SeekAction)
        ensures
            final(self).same_texts(*old(self)),
            ({
                let seeking = old(self).shown is Seek;
                let shown = old(self).seek@;
                if !plain {
                    r is Proceed && *final(self) == *old(self)
                } else if seeking && key is Tab {
                    *final(self) == *old(self) && if shift {
                        r matches SeekAction::Prev(t) && t@ == shown
                    } else {
                        r matches SeekAction::Next(t) && t@ == shown
                    }
                } else if seeking && (key is BackSpace || key is Escape) {
                    &&& r is Stop
                    &&& final(self).seek@ == (if key is BackSpace && shown.len() > 0 {
                        shown.drop_last()
                    } else {
                        Seq::empty()
                    })
                    &&& final(self).shown == (if final(self).seek@.len() == 0 {
                        old(self).unsought()
                    } else {
                        StackChild::Seek
                    })
                } else {
                    match key {
                        SeekKey::Other(Some(c)) if seekable(c) => {
                            &&& final(self).seek@ == shown.push(c)
                            &&& final(self).shown is Seek
                            &&& r matches SeekAction::Seek(t)
                            &&& t@ == shown.push(c)
                        },
                        _ => r is Proceed && *final(self) == *old(self),
                    }
                }
            }),
    {
        if !plain {
            return SeekAction::Proceed;
        }
        if self.shown == StackChild::Seek {
            if key == SeekKey::Tab {
                return if shift {
                    SeekAction::Prev(self.seek.clone())
                } else {
                    SeekAction::Next(self.seek.clone())
                };
            }
            if key == SeekKey::BackSpace || key == SeekKey::Escape {
                let chars = chars_of(self.seek.as_str());
                let keep: usize = if key == SeekKey::BackSpace && chars.len() > 0 {
                    chars.len() - 1
                } else {
                    0
                };
                self.seek = text_of(&chars, 0, keep);
                assert(keep > 0 || chars@.len() > 0 ==> self.seek@ =~= chars@.take(keep as int));
                assert(keep == 0 ==> self.seek@ =~= Seq::empty());
                assert(chars@.len() > 0 ==> chars@.drop_last() =~= chars@.take(
                    chars@.len() - 1,
                ));
                if keep == 0 {
                    self.shown = if chars_of(self.selection.as_str()).len() == 0 {
                        StackChild::Count
                    } else {
                        StackChild::Selection
                    };
                }
                return SeekAction::Stop;
            }
        }
        if let SeekKey::Other(Some(c)) = key {
            if c == ' ' || is_alphanumeric(c) {
                let mut chars = chars_of(self.seek.as_str());
                chars.push(c);
                let t = text_of(&chars, 0, chars.len());
                assert(t@ =~= self.seek@.push(c));
                self.seek = t.clone();
                self.shown = StackChild::Seek;
                return SeekAction::Seek(t);
            }
        }
        SeekAction::Proceed
    }
}

/// The name that a path ends with, or all of it if there is none.
pub open spec fn last_part(p: Seq<Seq<u8>>) -> Seq<u8> {
    if p.len() > 0 && p.last() != seq![46u8, 46u8] {
        p.last()
    } else {
        path::path_bytes(p)
    }
}

fn last_part_of(p: &FilePath) -> (r: Vec<u8>)
    ensures
        r@ == last_part(p@),
{
    match p.file_name() {
        Some(n) => n,
        None => p.to_bytes(),
    }
}

/// The title and the tooltip of a tab.
pub fn flat_title(p: &FilePath) -> (r: (String, String))
    ensures
        r.0@ == strings::lossy(last_part(p@)),
        r.1@ == strings::lossy(path::path_bytes(p@)),
{
    (lossy_text(&last_part_of(p)), lossy_text(&p.to_bytes()))
}

/// The title and the tooltip of a tab that searches.
pub fn search_title(p: &FilePath) -> (r: (String, String))
    ensures
        r.0@ == "Search: "@ + strings::lossy(last_part(p@)),
        r.1@ == "Searching in "@ + strings::lossy(path::path_bytes(p@)),
{
    let mut title = "Search: ".to_owned();
    title.append(lossy_text(&last_part_of(p)).as_str());
    let mut tooltip = "Searching in ".to_owned();
    tooltip.append(lossy_text(&p.to_bytes()).as_str());
    (title, tooltip)
}

/// A column of the details view.
#[derive(Clone, Copy, Debug, PartialEq, Eq, Structural)]
pub enum Column {
    Name,
    Size,
    DateModified,
}

impl Column {
    /// The title of a column.
    pub open spec fn spec_title(self) -> Seq<char> {
        match self {
            Column::Name => "Name"@,
            Column::Size => "Size"@,
            Column::DateModified => "Date Modified"@,
        }
    }

    pub fn title(self) -> (r: &'static str)
        ensures
            r@ == self.spec_title(),
    {
        match self {
            Column::Name => "Name",
            Column::Size => "Size",
            Column::DateModified => "Date Modified",
        }
    }

    /// What a column orders by.
    pub open spec fn spec_mode(self) -> SortMode {
        match self {
            Column::Name => SortMode::Name,
            Column::Size => SortMode::Size,
            Column::DateModified => SortMode::MTime,
        }
    }

    pub fn mode(self) -> (r: SortMode)
        ensures
            r == self.spec_mode(),
    {
        match self {
            Column::Name => SortMode::Name,
            Column::Size => SortMode::Size,
            Column::DateModified => SortMode::MTime,
        }
    }

    /// The column for an order.
    pub open spec fn spec_for(mode: SortMode) -> Column {
        match mode {
            SortMode::Name => Column::Name,
            SortMode::MTime => Column::DateModified,
            SortMode::Size => Column::Size,
        }
    }

    pub fn for_mode(mode: SortMode) -> (r: Column)
        ensures
            r == Column::spec_for(mode),
    {
        match mode {
            SortMode::Name => Column::Name,
            SortMode::MTime => Column::DateModified,
            SortMode::Size => Column::Size,
        }
    }

    /// What a column shows of an entry. When it was modified is shown in the local
    /// time zone.
    pub fn text(self, e: &Entry) -> (r: String)
        requires
            e.ready(),
            self is DateModified ==> e.mtime.has_date(),
        ensures
            self is Name ==> r@ == strings::lossy(e.name.name@),
            self is Size ==> r@ == e.spec_short_size(),
            self is DateModified ==> calendar::shows(r@, e.mtime.signed_sec()),
    {
        match self {
            Column::Name => lossy_text(&e.name.name),
            Column::Size => e.short_size_string(),
            Column::DateModified => e.mtime.seconds_string(),
        }
    }

    /// The order that a click on a column leads to, if it is another one.
    pub fn sorted_by(self, direction: SortDir, current: SortSettings) -> (r: Option<SortSettings>)
        ensures
            ({
                let new = SortSettings { mode: self.spec_mode(), direction };
                r == (if new == current {
                    None
                } else {
                    Some(new)
                })
            }),
    {
        let new = SortSettings { mode: self.mode(), direction };
        if new == current {
            None
        } else {
            Some(new)
        }
    }
}

/// Every order has a column of its own.
pub proof fn columns_are_orders(mode: SortMode, column: Column)
    ensures
        Column::spec_for(mode).spec_mode() == mode,
        Column::spec_for(column.spec_mode()) == column,
{
}

/// What a click on a tab in the list does.
#[derive(Clone, Copy, Debug, PartialEq, Eq, Structural)]
pub enum TabClick {
    Nothing,
    /// Shows the tab beside the active one.
    SplitHorizontal,
    SplitVertical,
    Close,
}

/// What a click on a tab in the list does. `shift` and `control` say that this
/// modifier, and no other, was held.
pub fn tab_click(button: u32, clicks: i32, shift: bool, control: bool) -> (r: TabClick)
    ensures
        r == (if clicks != 1 {
            TabClick::Nothing
        } else if button == 1 {
            if shift {
                TabClick::SplitVertical
            } else if control {
                TabClick::SplitHorizontal
            } else {
                TabClick::Nothing
            }
        } else if button == 2 {
            TabClick::Close
        } else {
            TabClick::Nothing
        }),
{
    if clicks != 1 {
        return TabClick::Nothing;
    }
    if button == 1 {
        if shift {
            TabClick::SplitVertical
        } else if control {
            TabClick::SplitHorizontal
        } else {
            TabClick::Nothing
        }
    } else if button == 2 {
        TabClick::Close
    } else {
        TabClick::Nothing
    }
}

/// What a click on an entry does.
#[derive(Clone, Copy, Debug, PartialEq, Eq, Structural)]
pub enum ItemClick {
    /// The view selects the entry. No selection of an area starts there.
    Select,
    /// Opens the entry in a new tab behind the tab, which is not made active.
    NewBackgroundTab,
    /// Makes the tab active, selects the entry if it is not, and shows the menu.
    ContextMenu,
    Nothing,
}

/// What a click on an entry does. `context` says that it asks for the menu.
pub fn item_click(button: u32, context: bool) -> (r: ItemClick)
    ensures
        r == (if button == 1 {
            ItemClick::Select
        } else if button == 2 {
            ItemClick::NewBackgroundTab
        } else if context {
            ItemClick::ContextMenu
        } else {
            ItemClick::Nothing
        }),
{
    if button == 1 {
        ItemClick::Select
    } else if button == 2 {
        ItemClick::NewBackgroundTab
    } else if context {
        ItemClick::ContextMenu
    } else {
        ItemClick::Nothing
    }
}

/// Whether an entry takes what is dragged over it: only files, and only if it is a
/// directory.
pub fn entry_accepts_drag(uris: bool, is_dir: bool) -> (r: bool)
    ensures
        r == (uris && is_dir),
{
    uris && is_dir
}

/// Why nothing can be dropped somewhere.
#[derive(Clone, Copy, Debug, PartialEq, Eq, Structural)]
pub enum DropError {
    /// It was dropped onto an entry that is not a directory.
    RegularFile,
    /// The tab shows a search that does not take files.
    CannotDrop,
}

/// Where files go that are dropped in a tab: into the entry that they are dropped
/// onto, if it is a directory, or else into the directory of the tab. An entry is given
/// by its path and whether it is a directory.
pub fn drag_drop(
    entry: Option<(Arc<FilePath>, bool)>,
    dir: Arc<FilePath>,
    accepts_paste: bool,
) -> (r: Result<Arc<FilePath>, DropError>)
    ensures
        r == (match entry {
            Some((p, true)) => Ok::<Arc<FilePath>, DropError>(p),
            Some((_, false)) => Err(DropError::RegularFile),
            None => if accepts_paste {
                Ok(dir)
            } else {
                Err(DropError::CannotDrop)
            },
        }),
{
    match entry {
        Some((p, is_dir)) => if is_dir {
            Ok(p)
        } else {
            Err(DropError::RegularFile)
        },
        None => if accepts_paste {
            Ok(dir)
        } else {
            Err(DropError::CannotDrop)
        },
    }
}

/// Whether a click beside all entries unselects them.
pub fn click_unselects(button: u32, shift: bool, control: bool) -> (r: bool)
    ensures
        r == (button <= 3 && !shift && !control),
{
    button <= 3 && !shift && !control
}

/// Whether a tab takes what is dragged over it: not from itself or another tab
/// in the same directory, and only files.
pub fn accepts_drag(same_tab: bool, uris: bool, same_dir: bool, accepts_paste: bool) -> (r: bool)
    ensures
        r == (!same_tab && uris && !same_dir && accepts_paste),
{
    !same_tab && uris && !same_dir && accepts_paste
}

/// Seeking goes on exactly while the only selected entry holds what is typed. When it
/// ends, the count is shown if nothing is selected, and otherwise the selection.
pub proof fn seeking_goes_on(bar: StatusBar, selected: Seq<Arc<Entry>>)
    ensures
        bar.after_seek(selected) is Seek <==> bar.shown is Seek && selected.len() == 1
            && selection::sought(bar.seek@, &selected[0]),
        bar.shown is Seek && !(bar.after_seek(selected) is Seek) ==> if selected.len() == 0 {
            bar.after_seek(selected) is Count
        } else {
            bar.after_seek(selected) is Selection
        },
        !(bar.shown is Seek) ==> bar.after_seek(selected) == bar.shown,
        bar.unsought() is Count <==> bar.selection@.len() == 0,
        bar.unsought() is Selection <==> bar.selection@.len() > 0,
{
}

/// Letters, numbers and the space can be typed to seek, and nothing else.
pub proof fn typed_to_seek(c: char)
    ensures
        alphanumeric(c) ==> seekable(c),
        seekable(' '),
        seekable(c) && c != ' ' ==> alphanumeric(c),
{
}

} // verus!
