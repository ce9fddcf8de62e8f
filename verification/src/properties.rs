//! What the properties dialog shows.
use std::sync::Arc;

use num_format::{Locale, ToFormattedString};
use vstd::prelude::*;
use vstd::string::*;
use vstd::utf8::*;

use crate::entry::{self, format_windows_size, Entry, EntryKind, FileTime};
use crate::path::{self, FilePath};
use crate::snapshot::ChildInfo;
use crate::strings::{self, lossy_text};
use crate::text::{self, contains_bytes, copy_bytes, decimal_string, same_text};

verus! {

/// A number below a thousand with all of its three digits.
pub open spec fn three_digits(n: nat) -> Seq<char> {
    seq![text::digit((n / 100) % 10), text::digit((n / 10) % 10), text::digit(n % 10)]
}

/// The decimal notation of a number with a comma between every three digits.
pub open spec fn grouped(n: nat) -> Seq<char>
    decreases n,
{
    if n < 1000 {
        text::decimal(n)
    } else {
        grouped(n / 1000) + seq![','] + three_digits(n % 1000)
    }
}

/// `ToFormattedString::to_formatted_string` of `num_format` with the English
/// locale: the digits in groups of three, from the right, with commas between
/// them.
#[verifier::external_body]
pub(crate) fn format_grouped(n: u64) -> (r: String)
    ensures
        r@ == grouped(n as nat),
{
    n.to_formatted_string(&Locale::en)
}

/// Separates the entries that are no directories from those that are.
pub open spec fn only(entries: Seq<Arc<Entry>>, dirs: bool) -> Seq<Arc<Entry>>
    decreases entries.len(),
{
    if entries.len() == 0 {
        Seq::empty()
    } else if (entries.last().kind is Directory) == dirs {
        only(entries.drop_last(), dirs).push(entries.last())
    } else {
        only(entries.drop_last(), dirs)
    }
}

/// Separates the entries that are no directories from those that are.
pub fn partition(entries: &Vec<Arc<Entry>>) -> (r: (Vec<Arc<Entry>>, Vec<Arc<Entry>>))
    ensures
        r.0@ == only(entries@, false),
        r.1@ == only(entries@, true),
{
    let mut files: Vec<Arc<Entry>> = Vec::new();
    let mut dirs: Vec<Arc<Entry>> = Vec::new();
    let mut i: usize = 0;
    while i < entries.len()
        invariant
            i <= entries.len(),
            files@ == only(entries@.take(i as int), false),
            dirs@ == only(entries@.take(i as int), true),
        decreases entries.len() - i,
    {
        assert(entries@.take(i + 1).drop_last() =~= entries@.take(i as int));
        if entries[i].dir() {
            dirs.push(entries[i].clone());
        } else {
            files.push(entries[i].clone());
        }
        i += 1;
    }
    assert(entries@.take(i as int) =~= entries@);
    (files, dirs)
}

/// Entries are parted one by one, in their order.
pub proof fn parted_one_by_one(
    a: Seq<Arc<Entry>>,
    e: Arc<Entry>,
    b: Seq<Arc<Entry>>,
    dirs: bool,
)
    ensures
        only(seq![e], true) == (if e.kind is Directory {
            seq![e]
        } else {
            Seq::empty()
        }),
        only(seq![e], false) == (if e.kind is Directory {
            Seq::empty()
        } else {
            seq![e]
        }),
        only(a + b, dirs) == only(a, dirs) + only(b, dirs),
    decreases b.len(),
{
    let none = Seq::<Arc<Entry>>::empty();
    assert(seq![e].drop_last() =~= none);
    assert(only(none, true) =~= none);
    assert(only(none, false) =~= none);
    assert(e.kind is Directory ==> only(seq![e], true) =~= seq![e]);
    assert(!(e.kind is Directory) ==> only(seq![e], false) =~= seq![e]);
    if b.len() > 0 {
        parted_one_by_one(a, e, b.drop_last(), dirs);
        assert((a + b).drop_last() =~= a + b.drop_last());
        assert(only(a + b, dirs) =~= only(a, dirs) + only(b, dirs));
    } else {
        assert(a + b =~= a);
        assert(only(a + b, dirs) =~= only(a, dirs) + only(b, dirs));
    }
}

/// The sizes of files add up, and so does the space that entries take.
pub proof fn sizes_add_up(a: Seq<Arc<Entry>>, e: Arc<Entry>, b: Seq<Arc<Entry>>)
    ensures
        e.kind matches EntryKind::File { size, .. } ==> total_size(seq![e]) == size,
        total_allocated(seq![e]) == e.allocated_size,
        total_size(a + b) == total_size(a) + total_size(b),
        total_allocated(a + b) == total_allocated(a) + total_allocated(b),
    decreases b.len(),
{
    let none = Seq::<Arc<Entry>>::empty();
    assert(seq![e].drop_last() =~= none);
    assert(total_size(none) == 0 && total_allocated(none) == 0);
    if b.len() > 0 {
        sizes_add_up(a, e, b.drop_last());
        assert((a + b).drop_last() =~= a + b.drop_last());
    } else {
        assert(a + b =~= a);
    }
}

/// What is shown of a selection: the size of its files, the space of all of it, and for
/// a single item its name and its time.
pub proof fn shown_of_a_selection(files: Seq<Arc<Entry>>, dirs: Seq<Arc<Entry>>)
    requires
        files.len() + dirs.len() > 0,
    ensures
        ({
            let v = basic_view(files, dirs);
            &&& v.size == total_size(files)
            &&& v.allocated == total_allocated(files + dirs)
            &&& v.show_children <==> dirs.len() > 0
            &&& v.mtime is Some <==> files.len() + dirs.len() == 1
            &&& v.title is Some <==> files.len() + dirs.len() == 1
            &&& files.len() == 1 && dirs.len() == 0 ==> v.mtime == Some(files[0].mtime) && v.name
                == strings::lossy(files[0].name.name@) && v.picture is FirstFile
            &&& files.len() == 0 && dirs.len() == 1 ==> v.mtime == Some(dirs[0].mtime) && v.name
                == strings::lossy(dirs[0].name.name@) && v.picture is FirstDir
            &&& files.len() > 0 && dirs.len() > 0 ==> v.type_text is None && v.picture is Generic
            &&& v.link is Some ==> files.len() + dirs.len() == 1
        }),
{
    if files.len() > 0 {
        sizes_add_up(files, files[0], dirs);
    } else {
        sizes_add_up(files, dirs[0], dirs);
    }
}

/// Every entry is among the files or among the directories.
pub proof fn partition_is_complete(entries: Seq<Arc<Entry>>)
    ensures
        only(entries, false).len() + only(entries, true).len() == entries.len(),
        forall|i: int|
            0 <= i < only(entries, true).len() ==> (#[trigger] only(entries, true)[i]).kind
                is Directory,
        forall|i: int|
            0 <= i < only(entries, false).len() ==> !((#[trigger] only(entries, false)[i]).kind
                is Directory),
    decreases entries.len(),
{
    if entries.len() > 0 {
        partition_is_complete(entries.drop_last());
    }
}

/// The bytes in files.
pub open spec fn total_size(files: Seq<Arc<Entry>>) -> nat
    decreases files.len(),
{
    if files.len() == 0 {
        0
    } else {
        total_size(files.drop_last()) + files.last().spec_raw_size() as nat
    }
}

/// The bytes that entries take up.
pub open spec fn total_allocated(entries: Seq<Arc<Entry>>) -> nat
    decreases entries.len(),
{
    if entries.len() == 0 {
        0
    } else {
        total_allocated(entries.drop_last()) + entries.last().allocated_size as nat
    }
}

proof fn totals_grow(entries: Seq<Arc<Entry>>, i: int)
    requires
        0 <= i <= entries.len(),
    ensures
        total_size(entries.take(i)) <= total_size(entries),
        total_allocated(entries.take(i)) <= total_allocated(entries),
    decreases entries.len() - i,
{
    if i < entries.len() {
        totals_grow(entries, i + 1);
        assert(entries.take(i + 1).drop_last() =~= entries.take(i));
    } else {
        assert(entries.take(i) =~= entries);
    }
}

/// Whose picture is shown.
#[derive(Clone, Copy, Debug, PartialEq, Eq, Structural)]
pub enum Picture {
    FirstFile,
    FirstDir,
    Generic,
}

/// What the first page shows.
pub struct BasicMetadata {
    pub size: u64,
    pub allocated: u64,
    pub show_children: bool,
    pub title: Option<String>,
    pub name: String,
    pub mtime: Option<FileTime>,
    pub link: Option<Vec<u8>>,
    pub media_link_badge: bool,
    pub type_text: Option<String>,
    pub picture: Picture,
}

/// What the first page shows, as a mathematical value.
#[verifier::ext_equal]
pub struct BasicView {
    pub size: nat,
    pub allocated: nat,
    pub show_children: bool,
    pub title: Option<Seq<char>>,
    pub name: Seq<char>,
    pub mtime: Option<FileTime>,
    pub link: Option<Seq<u8>>,
    pub media_link_badge: bool,
    pub type_text: Option<Seq<char>>,
    pub picture: Picture,
}

pub open spec fn text_view(s: Option<String>) -> Option<Seq<char>> {
    match s {
        Some(t) => Some(t@),
        None => None,
    }
}

pub open spec fn bytes_view(s: Option<Vec<u8>>) -> Option<Seq<u8>> {
    match s {
        Some(t) => Some(t@),
        None => None,
    }
}

impl View for BasicMetadata {
    type V = BasicView;

    open spec fn view(&self) -> BasicView {
        BasicView {
            size: self.size as nat,
            allocated: self.allocated as nat,
            show_children: self.show_children,
            title: text_view(self.title),
            name: self.name@,
            mtime: self.mtime,
            link: bytes_view(self.link),
            media_link_badge: self.media_link_badge,
            type_text: text_view(self.type_text),
            picture: self.picture,
        }
    }
}

/// The type of a link says that it is one, unless its mime type does.
pub open spec fn typed(mime: Seq<char>, link: bool, file: bool) -> Seq<char> {
    if link && !(file && mime == "inode/symlink"@) {
        mime + " (symlink)"@
    } else {
        mime
    }
}

/// Whether all entries have the mime type of the first one.
pub open spec fn one_mime(files: Seq<Arc<Entry>>) -> bool {
    forall|i: int| 0 <= i < files.len() ==> (#[trigger] files[i]).mime@ == files[0].mime@
}

/// What is shown for a single entry.
pub open spec fn single(v: BasicView, e: &Entry, file: bool) -> BasicView {
    BasicView {
        title: Some("Properties - "@ + strings::lossy(e.name.name@)),
        name: strings::lossy(e.name.name@),
        mtime: Some(e.mtime),
        link: bytes_view(e.symlink),
        media_link_badge: file && e.symlink is Some,
        type_text: Some(typed(e.mime@, e.symlink is Some, file)),
        picture: if file {
            Picture::FirstFile
        } else {
            Picture::FirstDir
        },
        ..v
    }
}

/// What the first page shows for files and directories.
pub open spec fn basic_view(files: Seq<Arc<Entry>>, dirs: Seq<Arc<Entry>>) -> BasicView {
    let base = BasicView {
        size: total_size(files),
        allocated: total_allocated(files) + total_allocated(dirs),
        show_children: dirs.len() > 0,
        title: None,
        name: Seq::empty(),
        mtime: None,
        link: None,
        media_link_badge: false,
        type_text: None,
        picture: Picture::Generic,
    };
    if files.len() == 1 && dirs.len() == 0 {
        single(base, &files[0], true)
    } else if files.len() == 0 && dirs.len() == 1 {
        single(base, &dirs[0], false)
    } else if dirs.len() == 0 {
        BasicView {
            name: text::decimal(files.len()) + " files"@,
            type_text: if one_mime(files) {
                Some(files[0].mime@)
            } else {
                None
            },
            picture: if one_mime(files) {
                Picture::FirstFile
            } else {
                Picture::Generic
            },
            ..base
        }
    } else if files.len() == 0 {
        BasicView {
            name: text::decimal(dirs.len()) + " directories"@,
            type_text: Some(dirs[0].mime@),
            picture: Picture::FirstDir,
            ..base
        }
    } else {
        BasicView {
            name: text::decimal(dirs.len()) + " directories and "@ + text::decimal(files.len())
                + " files"@,
            ..base
        }
    }
}

fn sum_sizes(files: &Vec<Arc<Entry>>) -> (r: u64)
    requires
        total_size(files@) <= u64::MAX,
        forall|i: int| 0 <= i < files@.len() ==> (#[trigger] files@[i]).ready(),
    ensures
        r == total_size(files@),
{
    let mut sum: u64 = 0;
    let mut i: usize = 0;
    while i < files.len()
        invariant
            i <= files.len(),
            sum == total_size(files@.take(i as int)),
            total_size(files@) <= u64::MAX,
            forall|k: int| 0 <= k < files@.len() ==> (#[trigger] files@[k]).ready(),
        decreases files.len() - i,
    {
        proof {
            totals_grow(files@, i + 1);
            assert(files@.take(i + 1).drop_last() =~= files@.take(i as int));
            assert(files@[i as int].ready());
        }
        sum += files[i].raw_size();
        i += 1;
    }
    assert(files@.take(i as int) =~= files@);
    sum
}

fn sum_allocated(entries: &Vec<Arc<Entry>>) -> (r: u64)
    requires
        total_allocated(entries@) <= u64::MAX,
    ensures
        r == total_allocated(entries@),
{
    let mut sum: u64 = 0;
    let mut i: usize = 0;
    while i < entries.len()
        invariant
            i <= entries.len(),
            sum == total_allocated(entries@.take(i as int)),
            total_allocated(entries@) <= u64::MAX,
        decreases entries.len() - i,
    {
        proof {
            totals_grow(entries@, i + 1);
            assert(entries@.take(i + 1).drop_last() =~= entries@.take(i as int));
        }
        sum += entries[i].allocated_size;
        i += 1;
    }
    assert(entries@.take(i as int) =~= entries@);
    sum
}

fn same_mime(files: &Vec<Arc<Entry>>) -> (r: bool)
    requires
        files@.len() > 0,
    ensures
        r == one_mime(files@),
{
    let mut i: usize = 0;
    while i < files.len()
        invariant
            files@.len() > 0,
            i <= files.len(),
            forall|k: int| 0 <= k < i ==> (#[trigger] files@[k]).mime@ == files@[0].mime@,
        decreases files.len() - i,
    {
        if !same_text(files[i].mime.as_str(), files[0].mime.as_str()) {
            assert(files@[i as int].mime@ != files@[0].mime@);
            return false;
        }
        i += 1;
    }
    true
}

fn show_single(base: BasicMetadata, e: &Entry, file: bool) -> (r: BasicMetadata)
    ensures
        r@ == single(base@, e, file),
{
    let shown = lossy_text(&e.name.name);
    let mut title = "Properties - ".to_owned();
    title.append(shown.as_str());
    let mut type_text = e.mime.clone();
    let link = match &e.symlink {
        Some(l) => {
            if !(file && same_text(e.mime.as_str(), "inode/symlink")) {
                type_text.append(" (symlink)");
            }
            Some(copy_bytes(l))
        },
        None => None,
    };
    let media_link_badge = file && e.symlink.is_some();
    BasicMetadata {
        size: base.size,
        allocated: base.allocated,
        show_children: base.show_children,
        title: Some(title),
        name: shown,
        mtime: Some(e.mtime),
        link,
        media_link_badge,
        type_text: Some(type_text),
        picture: if file {
            Picture::FirstFile
        } else {
            Picture::FirstDir
        },
    }
}

/// Decides what the first page shows.
pub fn setup_basic_metadata(files: &Vec<Arc<Entry>>, dirs: &Vec<Arc<Entry>>) -> (r: BasicMetadata)
    requires
        files@.len() + dirs@.len() > 0,
        total_size(files@) <= u64::MAX,
        total_allocated(files@) + total_allocated(dirs@) <= u64::MAX,
        forall|i: int| 0 <= i < files@.len() ==> (#[trigger] files@[i]).ready(),
    ensures
        r@ == basic_view(files@, dirs@),
{
    let size: u64 = sum_sizes(files);
    let allocated: u64 = sum_allocated(files) + sum_allocated(dirs);
    let mut base = BasicMetadata {
        size,
        allocated,
        show_children: dirs.len() > 0,
        title: None,
        name: String::new(),
        mtime: None,
        link: None,
        media_link_badge: false,
        type_text: None,
        picture: Picture::Generic,
    };
    assert(base.name@ =~= Seq::empty());
    if files.len() == 1 && dirs.len() == 0 {
        return show_single(base, &files[0], true);
    }
    if files.len() == 0 && dirs.len() == 1 {
        return show_single(base, &dirs[0], false);
    }
    if dirs.len() == 0 {
        let mut name = decimal_string(files.len() as u64);
        name.append(" files");
        base.name = name;
        if same_mime(files) {
            base.type_text = Some(files[0].mime.clone());
            base.picture = Picture::FirstFile;
        }
        return base;
    }
    let mut name = decimal_string(dirs.len() as u64);
    if files.len() == 0 {
        name.append(" directories");
        base.name = name;
        base.type_text = Some(dirs[0].mime.clone());
        base.picture = Picture::FirstDir;
        return base;
    }
    name.append(" directories and ");
    name.append(decimal_string(files.len() as u64).as_str());
    name.append(" files");
    base.name = name;
    base
}

/// Where the entries are, as it is shown.
pub fn location_text(location: &FilePath, search: bool) -> (r: String)
    ensures
        r@ == (if search {
            "Search in "@ + strings::lossy(path::path_bytes(location@))
        } else {
            strings::lossy(path::path_bytes(location@))
        }),
{
    let shown = lossy_text(&location.to_bytes());
    if search {
        let mut t = "Search in ".to_owned();
        t.append(shown.as_str());
        t
    } else {
        shown
    }
}

/// Whether a file may have a media page.
pub open spec fn is_media(mime: Seq<char>) -> bool {
    text::occurs(encode_utf8("image"@), encode_utf8(mime)) || text::occurs(
        encode_utf8("video"@),
        encode_utf8(mime),
    ) || text::occurs(encode_utf8("audio"@), encode_utf8(mime))
}

/// Whether there is a media page: only for a single file.
pub fn shows_media(files: &Vec<Arc<Entry>>, dirs: &Vec<Arc<Entry>>) -> (r: bool)
    ensures
        r == (files@.len() == 1 && dirs@.len() == 0 && is_media(files@[0].mime@)),
{
    if files.len() != 1 || dirs.len() != 0 {
        return false;
    }
    let mime = files[0].mime.as_str().as_bytes_vec();
    contains_bytes(&mime, &"image".as_bytes_vec()) || contains_bytes(&mime, &"video".as_bytes_vec())
        || contains_bytes(&mime, &"audio".as_bytes_vec())
}

/// Whether there is a page of permissions: only for a single entry.
pub fn shows_permissions(files: usize, dirs: usize) -> (r: bool)
    requires
        files + dirs <= usize::MAX,
    ensures
        r == (files + dirs <= 1),
{
    files + dirs <= 1
}

/// What the dialog has counted.
#[derive(Clone, Copy, Debug, PartialEq, Eq, Structural)]
pub struct Counted {
    pub size: u64,
    pub allocated: u64,
    pub child_files: usize,
    pub child_dirs: usize,
    pub spinning: bool,
}

impl Counted {
    /// Counts more of what is below the directories.
    pub fn add_children(&mut self, children: ChildInfo)
        requires
            old(self).size + children.size <= u64::MAX,
            old(self).allocated + children.allocated <= u64::MAX,
            old(self).child_files + children.files <= usize::MAX,
            old(self).child_dirs + children.dirs <= usize::MAX,
        ensures
            final(self).size == old(self).size + children.size,
            final(self).allocated == old(self).allocated + children.allocated,
            final(self).child_files == old(self).child_files + children.files,
            final(self).child_dirs == old(self).child_dirs + children.dirs,
            final(self).spinning == (old(self).spinning && !children.done),
    {
        self.size += children.size;
        self.allocated += children.allocated;
        self.child_files += children.files;
        self.child_dirs += children.dirs;
        if children.done {
            self.spinning = false;
        }
    }

    pub open spec fn dirs_text(self) -> Seq<char> {
        text::decimal(self.child_dirs as nat) + " director"@ + (if self.child_dirs > 1 {
            "ies"@
        } else {
            "y"@
        })
    }

    pub open spec fn files_text(self) -> Seq<char> {
        text::decimal(self.child_files as nat) + " file"@ + (if self.child_files > 1 {
            "s"@
        } else {
            ""@
        })
    }

    /// What is below the directories. Nothing is shown while nothing has been
    /// found yet.
    pub open spec fn spec_children_text(self) -> Option<Seq<char>> {
        if self.child_dirs > 0 && self.child_files > 0 {
            Some(self.dirs_text() + " and "@ + self.files_text())
        } else if self.child_dirs > 0 {
            Some(self.dirs_text())
        } else if self.child_files > 0 {
            Some(self.files_text())
        } else if !self.spinning {
            Some("Nothing"@)
        } else {
            None
        }
    }

    fn show_dirs(self) -> (r: String)
        ensures
            r@ == self.dirs_text(),
    {
        let mut t = decimal_string(self.child_dirs as u64);
        t.append(" director");
        if self.child_dirs > 1 {
            t.append("ies");
        } else {
            t.append("y");
        }
        t
    }

    fn show_files(self) -> (r: String)
        ensures
            r@ == self.files_text(),
    {
        let mut t = decimal_string(self.child_files as u64);
        t.append(" file");
        if self.child_files > 1 {
            t.append("s");
        } else {
            t.append("");
        }
        t
    }

    pub fn children_text(self) -> (r: Option<String>)
        ensures
            text_view(r) == self.spec_children_text(),
    {
        if self.child_dirs > 0 && self.child_files > 0 {
            let mut t = self.show_dirs();
            t.append(" and ");
            t.append(self.show_files().as_str());
            Some(t)
        } else if self.child_dirs > 0 {
            Some(self.show_dirs())
        } else if self.child_files > 0 {
            Some(self.show_files())
        } else if !self.spinning {
            Some("Nothing".to_owned())
        } else {
            None
        }
    }
}

/// A size as it is shown, given its short form.
pub open spec fn size_line(short: Seq<char>, n: nat) -> Seq<char> {
    short + " ("@ + grouped(n) + " bytes)"@
}

/// A size as it is shown, given its short form.
pub fn size_text_with(short: &str, n: u64) -> (r: String)
    ensures
        r@ == size_line(short@, n as nat),
{
    let mut t = short.to_owned();
    t.append(" (");
    t.append(format_grouped(n).as_str());
    t.append(" bytes)");
    t
}

/// A size as it is shown.
pub fn size_text(n: u64) -> (r: String)
    ensures
        r@ == size_line(entry::windows_size(n), n as nat),
{
    size_text_with(format_windows_size(n).as_str(), n)
}

/// Who owns an entry, as it is shown.
pub fn owner_text(name: Option<&str>) -> (r: String)
    ensures
        r@ == "User ("@ + (match name {
            Some(n) => n@,
            None => "unknown user"@,
        }) + ")"@,
{
    let mut t = "User (".to_owned();
    match name {
        Some(n) => {
            t.append(n);
        },
        None => {
            t.append("unknown user");
        },
    }
    t.append(")");
    t
}

/// Which group an entry belongs to, as it is shown.
pub fn group_text(name: Option<&str>) -> (r: String)
    ensures
        r@ == "Group ("@ + (match name {
            Some(n) => n@,
            None => "unknown group"@,
        }) + ")"@,
{
    let mut t = "Group (".to_owned();
    match name {
        Some(n) => {
            t.append(n);
        },
        None => {
            t.append("unknown group");
        },
    }
    t.append(")");
    t
}

/// Whether a permission is given.
pub fn is_permitted(mode: u32, mask: u32) -> (r: bool)
    ensures
        r == (mode & mask != 0),
{
    mode & mask != 0
}

/// The permissions once one of them is given or taken away.
pub open spec fn spec_toggled(mode: u32, mask: u32, active: bool) -> u32 {
    if active {
        mode | mask
    } else {
        mode & !mask
    }
}

pub fn toggled(mode: u32, mask: u32, active: bool) -> (r: u32)
    ensures
        r == spec_toggled(mode, mask, active),
{
    if active {
        mode | mask
    } else {
        mode & !mask
    }
}

/// Giving or taking away one permission does just that, and leaves every other
/// one as it was.
pub proof fn toggling_changes_one(mode: u32, mask: u32, other: u32, active: bool)
    requires
        mask != 0,
        mask & other == 0,
    ensures
        spec_toggled(mode, mask, active) & mask == (if active {
            mask
        } else {
            0
        }),
        spec_toggled(mode, mask, active) & other == mode & other,
{
    assert((mode | mask) & mask == mask) by (bit_vector);
    assert((mode & !mask) & mask == 0) by (bit_vector);
    assert(mask & other == 0 ==> (mode | mask) & other == mode & other) by (bit_vector);
    assert(mask & other == 0 ==> (mode & !mask) & other == mode & other) by (bit_vector);
}

/// What is known of a video or picture in a file.
pub struct VideoStream {
    pub is_image: bool,
    pub codec_tag: Option<String>,
    pub caps: Option<String>,
    pub width: u32,
    pub height: u32,
    pub rate_numer: i32,
    pub rate_denom: i32,
}

/// What is known of a sound in a file.
pub struct AudioStream {
    pub codec_tag: Option<String>,
    pub caps: Option<String>,
    pub title: Option<String>,
    pub artist: Option<String>,
    pub album: Option<String>,
}

/// How a rate of frames is shown.
#[derive(Clone, Copy, Debug, PartialEq, Eq, Structural)]
pub enum FrameRate {
    Unknown,
    Whole(u32),
    Fraction(u32, u32),
}

/// What the media page shows. What is missing is not shown.
pub struct MediaPage {
    /// In nanoseconds.
    pub duration: Option<u64>,
    pub codec: Option<String>,
    pub resolution: Option<(u32, u32)>,
    pub framerate: FrameRate,
    pub audio_codec: Option<String>,
    pub title: Option<String>,
    pub artist: Option<String>,
    pub album: Option<String>,
}

/// The stream that a file is about: its first video, or else its first picture.
pub open spec fn main_video(videos: Seq<VideoStream>) -> Option<int> {
    let i = first_moving(videos);
    if i < videos.len() {
        Some(i)
    } else if videos.len() > 0 {
        Some(0)
    } else {
        None
    }
}

pub open spec fn first_moving(videos: Seq<VideoStream>) -> int
    decreases videos.len(),
{
    if videos.len() == 0 {
        0
    } else if !videos[0].is_image {
        0
    } else {
        1 + first_moving(videos.skip(1))
    }
}

/// The name of a codec: its tag is often more readable.
pub open spec fn codec_of(tag: Option<String>, caps: Option<String>) -> Option<Seq<char>> {
    match tag {
        Some(t) => Some(t@),
        None => text_view(caps),
    }
}

pub open spec fn rate_of(numer: i32, denom: i32) -> FrameRate {
    if numer > 0 && denom > 0 {
        if numer as int % denom as int == 0 {
            FrameRate::Whole((numer as int / denom as int) as u32)
        } else {
            FrameRate::Fraction(numer as u32, denom as u32)
        }
    } else {
        FrameRate::Unknown
    }
}

fn find_main(videos: &Vec<VideoStream>) -> (r: Option<usize>)
    ensures
        match r {
            Some(i) => main_video(videos@) == Some(i as int) && i < videos.len(),
            None => main_video(videos@) is None,
        },
{
    let mut i: usize = 0;
    assert(videos@.skip(0) =~= videos@);
    while i < videos.len()
        invariant
            i <= videos.len(),
            first_moving(videos@) == i + first_moving(videos@.skip(i as int)),
        decreases videos.len() - i,
    {
        if !videos[i].is_image {
            return Some(i);
        }
        assert(videos@.skip(i as int).skip(1) =~= videos@.skip(i + 1));
        i += 1;
    }
    if videos.len() > 0 {
        Some(0)
    } else {
        None
    }
}

fn copy_text(t: &Option<String>) -> (r: Option<String>)
    ensures
        text_view(r) == text_view(*t),
        r is Some <==> *t is Some,
{
    match t {
        Some(x) => Some(x.clone()),
        None => None,
    }
}

fn choose_codec(tag: &Option<String>, caps: &Option<String>) -> (r: Option<String>)
    ensures
        text_view(r) == codec_of(*tag, *caps),
{
    match tag {
        Some(t) => Some(t.clone()),
        None => copy_text(caps),
    }
}

/// The video that is shown is the first that is no image, or the first one if all are.
pub proof fn moving_pictures_first(videos: Seq<VideoStream>)
    ensures
        match main_video(videos) {
            Some(i) => {
                &&& 0 <= i < videos.len()
                &&& !videos[i].is_image ==> forall|k: int|
                    0 <= k < i ==> (#[trigger] videos[k]).is_image
                &&& videos[i].is_image ==> i == 0 && forall|k: int|
                    0 <= k < videos.len() ==> (#[trigger] videos[k]).is_image
            },
            None => videos.len() == 0,
        },
{
    first_moving_is_first(videos);
}

proof fn first_moving_is_first(videos: Seq<VideoStream>)
    ensures
        0 <= first_moving(videos) <= videos.len(),
        first_moving(videos) < videos.len() ==> !videos[first_moving(videos)].is_image,
        forall|k: int| 0 <= k < first_moving(videos) ==> (#[trigger] videos[k]).is_image,
    decreases videos.len(),
{
    if videos.len() > 0 && videos[0].is_image {
        let rest = videos.skip(1);
        first_moving_is_first(rest);
        assert forall|k: int| 0 <= k < first_moving(videos) implies (
        #[trigger] videos[k]).is_image by {
            if k > 0 {
                assert(rest[k - 1] == videos[k]);
            }
        }
    }
}

/// A frame rate is shown as a whole number exactly if it is one.
pub proof fn whole_rates(numer: i32, denom: i32)
    ensures
        match rate_of(numer, denom) {
            FrameRate::Whole(n) => denom > 0 && n > 0 && n * denom == numer,
            FrameRate::Fraction(n, d) => n == numer && d == denom && denom > 0 && numer as int
                % denom as int != 0,
            FrameRate::Unknown => numer <= 0 || denom <= 0,
        },
{
    if numer > 0 && denom > 0 {
        let (n, d) = (numer as int, denom as int);
        vstd::arithmetic::div_mod::lemma_fundamental_div_mod(n, d);
        if n % d == 0 {
            let q = n / d;
            assert(d * q == n);
            assert(0 < q <= n) by (nonlinear_arith)
                requires
                    d * q == n,
                    d > 0,
                    n > 0,
            ;
            assert(q * d == n) by (nonlinear_arith)
                requires
                    d * q == n,
            ;
        }
    }
}

/// Decides what the media page shows. A sound in a file without any video has
/// the page to itself.
pub fn setup_media(
    duration: Option<u64>,
    videos: &Vec<VideoStream>,
    audio: &Option<AudioStream>,
) -> (r: MediaPage)
    ensures
        r.duration == (match duration {
            Some(d) if d > 0 => Some(d),
            _ => None,
        }),
        match main_video(videos@) {
            Some(i) => {
                let v = videos@[i];
                &&& text_view(r.codec) == codec_of(v.codec_tag, v.caps)
                &&& r.resolution == Some((v.width, v.height))
                &&& r.framerate == rate_of(v.rate_numer, v.rate_denom)
            },
            None => {
                &&& text_view(r.codec) == (match *audio {
                    Some(a) => codec_of(a.codec_tag, a.caps),
                    None => None,
                })
                &&& r.resolution is None
                &&& r.framerate == FrameRate::Unknown
            },
        },
        match *audio {
            Some(a) => if videos@.len() == 0 {
                &&& r.audio_codec is None
                &&& text_view(r.title) == text_view(a.title)
                &&& text_view(r.artist) == text_view(a.artist)
                &&& text_view(r.album) == text_view(a.album)
            } else {
                &&& text_view(r.audio_codec) == codec_of(a.codec_tag, a.caps)
                &&& r.title is None
                &&& r.artist is None
                &&& r.album is None
            },
            None => r.audio_codec is None && r.title is None && r.artist is None && r.album is None,
        },
{
    let duration = match duration {
        Some(d) => {
            if d > 0 {
                Some(d)
            } else {
                None
            }
        },
        None => None,
    };
    let mut page = MediaPage {
        duration,
        codec: None,
        resolution: None,
        framerate: FrameRate::Unknown,
        audio_codec: None,
        title: None,
        artist: None,
        album: None,
    };
    match find_main(videos) {
        Some(i) => {
            let v = &videos[i];
            page.codec = choose_codec(&v.codec_tag, &v.caps);
            page.resolution = Some((v.width, v.height));
            if v.rate_numer > 0 && v.rate_denom > 0 {
                let n: u32 = v.rate_numer as u32;
                let d: u32 = v.rate_denom as u32;
                page.framerate = if n % d == 0 {
                    FrameRate::Whole(n / d)
                } else {
                    FrameRate::Fraction(n, d)
                };
            }
        },
        None => {},
    }
    match audio {
        Some(a) => {
            let codec = choose_codec(&a.codec_tag, &a.caps);
            if videos.len() == 0 {
                page.codec = codec;
                page.title = copy_text(&a.title);
                page.artist = copy_text(&a.artist);
                page.album = copy_text(&a.album);
            } else {
                page.audio_codec = codec;
            }
        },
        None => {},
    }
    page
}

/// The size of a picture, as it is shown.
pub fn resolution_text(width: u32, height: u32) -> (r: String)
    ensures
        r@ == text::decimal(width as nat) + " x "@ + text::decimal(height as nat),
{
    let mut t = decimal_string(width as u64);
    t.append(" x ");
    t.append(decimal_string(height as u64).as_str());
    t
}

/// A whole rate of frames, as it is shown.
pub fn framerate_text(rate: u32) -> (r: String)
    ensures
        r@ == text::decimal(rate as nat) + "fps"@,
{
    let mut t = decimal_string(rate as u64);
    t.append("fps");
    t
}

/// A type is shown for several files only if all of them have it.
pub proof fn one_type_for_all(files: Seq<Arc<Entry>>, i: int)
    requires
        files.len() > 1,
        0 <= i < files.len(),
    ensures
        basic_view(files, Seq::empty()).type_text matches Some(t) ==> files[i].mime@ == t,
        (forall|k: int| 0 <= k < files.len() ==> (#[trigger] files[k]).mime@ == files[i].mime@)
            ==> basic_view(files, Seq::empty()).type_text == Some(files[i].mime@),
{
    if forall|k: int| 0 <= k < files.len() ==> (#[trigger] files[k]).mime@ == files[i].mime@ {
        assert(files[0].mime@ == files[i].mime@);
        assert(one_mime(files));
    }
}

/// A codec is shown by its tag, or else by its capabilities.
pub proof fn tags_before_capabilities(tag: String, caps: Option<String>, known: String)
    ensures
        codec_of(Some(tag), caps) == Some(tag@),
        codec_of(None, Some(known)) == Some(known@),
        codec_of(None, None) is None,
{
}

/// Only of a link is it said that it is one, and where it leads is shown with it. A
/// badge is put on files alone.
pub proof fn links_are_marked(e: Arc<Entry>, nothing: Seq<Arc<Entry>>)
    requires
        nothing.len() == 0,
    ensures
        ({
            let f = basic_view(seq![e], nothing);
            let d = basic_view(nothing, seq![e]);
            &&& f.link is Some <==> e.symlink is Some
            &&& d.link is Some <==> e.symlink is Some
            &&& f.media_link_badge <==> e.symlink is Some
            &&& !d.media_link_badge
            &&& e.symlink is None ==> f.type_text == Some(e.mime@) && d.type_text == Some(e.mime@)
            &&& e.symlink is Some ==> (d.type_text matches Some(t) && e.mime@.is_prefix_of(t)
                && " (symlink)"@.is_suffix_of(t))
            &&& e.symlink is Some && e.mime@ != "inode/symlink"@ ==> f.type_text == d.type_text
            &&& e.mime@ == "inode/symlink"@ ==> f.type_text == Some(e.mime@)
        }),
{
    let t = e.mime@ + " (symlink)"@;
    assert(t.take(e.mime@.len() as int) =~= e.mime@);
    assert(t.skip(t.len() - " (symlink)"@.len()) =~= " (symlink)"@);
}

} // verus!
