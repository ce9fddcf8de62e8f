//! Directory entries and the order in which they are shown.
use std::cmp::Ordering;

use vstd::prelude::*;
use vstd::string::*;

use crate::calendar::{self, format_at, local_offset};
use crate::natsort::{self, NatKey};
use crate::order::{self, u64_order, Order};
use crate::path::{self, FilePath};
use crate::settings::{SortDir, SortMode, SortSettings};
use crate::text::{self, copy_bytes, decimal_string};

verus! {

/// A modification time, in seconds and microseconds since the epoch.
#[derive(Clone, Copy, Debug, PartialEq, Eq, Structural)]
pub struct FileTime {
    pub sec: u64,
    pub usec: u32,
}

impl Default for FileTime {
    fn default() -> (r: FileTime)
        ensures
            r == (FileTime { sec: 0, usec: 0 }),
    {
        FileTime { sec: 0, usec: 0 }
    }
}

impl FileTime {
    pub open spec fn spec_order(self, other: FileTime) -> Order {
        order::int_order(self.sec as int, other.sec as int).spec_chain(
            order::int_order(self.usec as int, other.usec as int),
        )
    }

    /// Compares by seconds, then by microseconds.
    pub fn compare(self, other: FileTime) -> (r: Order)
        ensures
            r == self.spec_order(other),
    {
        u64_order(self.sec, other.sec).chain(u64_order(self.usec as u64, other.usec as u64))
    }

    /// The second since 1970. File systems report those before it as numbers
    /// that have wrapped around.
    pub open spec fn signed_sec(self) -> int {
        if self.sec < 0x8000_0000_0000_0000 {
            self.sec as int
        } else {
            self.sec - 0x1_0000_0000_0000_0000
        }
    }

    /// Whether the time has a calendar date.
    pub open spec fn has_date(self) -> bool {
        calendar::EARLIEST_SECOND <= self.signed_sec() <= calendar::LATEST_SECOND
    }

    fn signed(self) -> (r: i64)
        ensures
            r == self.signed_sec(),
    {
        let sec = self.sec;
        assert(sec as i64 == (if sec < 0x8000_0000_0000_0000u64 {
            sec as int
        } else {
            sec - 0x1_0000_0000_0000_0000
        })) by (bit_vector);
        sec as i64
    }

    /// The time to the second, on clocks that are `offset` seconds ahead of UTC.
    pub fn seconds_string_at(self, offset: i32) -> (r: String)
        requires
            self.has_date(),
            -calendar::DAY < offset < calendar::DAY,
        ensures
            calendar::shows_at(r@, self.signed_sec(), offset as int),
    {
        format_at(self.signed(), offset)
    }

    /// The time to the second, in the time zone of the machine. Which offset from
    /// UTC the zone has is left open.
    pub fn seconds_string(self) -> (r: String)
        requires
            self.has_date(),
        ensures
            calendar::shows(r@, self.signed_sec()),
    {
        let offset: i32 = local_offset(self.signed());
        self.seconds_string_at(offset)
    }
}

#[derive(Clone, Copy, Debug, PartialEq, Eq, Structural)]
pub enum EntryKind {
    File { size: u64, executable: bool },
    /// `contents` is the number of items inside, once it is known.
    Directory { contents: Option<u64> },
    Uninitialized,
}

/// What the file system reports of one path.
pub struct FileInfo {
    pub mtime: FileTime,
    pub mime: String,
    pub size: u64,
    pub allocated_size: u64,
    pub directory: bool,
    pub mountpoint: bool,
    pub can_execute: bool,
    pub is_symlink: bool,
    pub symlink_target: Option<Vec<u8>>,
    /// Identifies the interned icon.
    pub icon: u64,
    pub inode: u64,
}

/// One file or directory.
pub struct Entry {
    pub kind: EntryKind,
    pub allocated_size: u64,
    /// An absolute but not canonical path.
    pub abs_path: FilePath,
    pub name: NatKey,
    pub mtime: FileTime,
    pub mime: String,
    pub symlink: Option<Vec<u8>>,
    pub icon: u64,
    /// Used for detecting silly renames.
    pub inode: u64,
}

/// The text of a size in bytes, as `humansize` writes it with its `WINDOWS`
/// options.
pub uninterp spec fn windows_size(bytes: u64) -> Seq<char>;

/// `humansize::format_size` with the options `humansize::WINDOWS`; the text is
/// a function of the number of bytes alone.
#[verifier::external_body]
pub(crate) fn format_windows_size(bytes: u64) -> (r: String)
    ensures
        r@ == windows_size(bytes),
{
    humansize::format_size(bytes, humansize::WINDOWS)
}

/// How two optional counts compare: an unknown count comes first.
pub open spec fn count_order(a: Option<u64>, b: Option<u64>) -> Order {
    match (a, b) {
        (Some(x), Some(y)) => order::int_order(x as int, y as int),
        (None, Some(_)) => Order::Less,
        (Some(_), None) => Order::Greater,
        (None, None) => Order::Equal,
    }
}

/// How two entries of the same kind compare by size.
pub open spec fn size_order(a: EntryKind, b: EntryKind) -> Order {
    match (a, b) {
        (EntryKind::File { size: x, .. }, EntryKind::File { size: y, .. }) => order::int_order(
            x as int,
            y as int,
        ),
        (
            EntryKind::Directory { contents: x },
            EntryKind::Directory { contents: y },
        ) => count_order(x, y),
        _ => Order::Equal,
    }
}

/// Whether `a` is a directory and `b` is not, or the reverse.
pub open spec fn kind_order(a: EntryKind, b: EntryKind) -> Order {
    if a is Directory && b is File {
        Order::Less
    } else if a is File && b is Directory {
        Order::Greater
    } else {
        Order::Equal
    }
}

/// How two entries of the same kind compare in ascending order: by the sort
/// mode's own key, with the other keys and at last the path as tie breakers.
pub open spec fn key_order(a: &Entry, b: &Entry, mode: SortMode) -> Order {
    let name = a.name.spec_order(&b.name);
    let mtime = a.mtime.spec_order(b.mtime);
    let size = size_order(a.kind, b.kind);
    let keys = match mode {
        SortMode::Name => name.spec_chain(mtime).spec_chain(size),
        SortMode::MTime => mtime.spec_chain(name).spec_chain(size),
        SortMode::Size => size.spec_chain(name).spec_chain(mtime),
    };
    keys.spec_chain(order::parts_order(a.abs_path@, b.abs_path@))
}

/// How two entries compare. Directories come before files in either direction.
pub open spec fn entry_order(a: &Entry, b: &Entry, sort: SortSettings) -> Order {
    let ascending = key_order(a, b, sort.mode);
    kind_order(a.kind, b.kind).spec_chain(
        match sort.direction {
            SortDir::Ascending => ascending,
            SortDir::Descending => ascending.spec_reverse(),
        },
    )
}

/// The kind that the file system's report amounts to. A directory whose size
/// cannot be a count of its members has unknown contents; otherwise the size
/// counts `.` and `..` too.
pub open spec fn reported_kind(info: &FileInfo) -> EntryKind {
    if !info.directory {
        EntryKind::File { size: info.size, executable: info.can_execute }
    } else if suspicious_size(info) {
        EntryKind::Directory { contents: None }
    } else {
        EntryKind::Directory {
            contents: Some(
                if info.size >= 2 {
                    (info.size - 2) as u64
                } else {
                    0
                },
            ),
        }
    }
}

/// Whether a directory's reported size needs a full count of its contents.
pub open spec fn suspicious_size(info: &FileInfo) -> bool {
    info.allocated_size == 0 || info.size == info.allocated_size || (info.mountpoint && info.size
        <= 2)
}

/// The name of the last component, or the whole path where there is none.
pub open spec fn display_name(p: Seq<Seq<u8>>) -> Seq<u8> {
    if p.len() > 0 && p.last() != seq![path::DOT, path::DOT] {
        p.last()
    } else {
        path::path_bytes(p)
    }
}

/// Comparing entries is antisymmetric, and equal entries have the same path.
pub proof fn entry_order_antisymmetric(a: &Entry, b: &Entry, sort: SortSettings)
    ensures
        entry_order(b, a, sort) == entry_order(a, b, sort).spec_reverse(),
        entry_order(a, b, sort) is Equal ==> a.abs_path@ == b.abs_path@,
{
    order::byte_order_antisymmetric(a.name.key@, b.name.key@);
    order::parts_order_antisymmetric(a.abs_path@, b.abs_path@);
}

/// An entry compares equal to itself.
pub proof fn entry_order_reflexive(a: &Entry, sort: SortSettings)
    ensures
        entry_order(a, a, sort) is Equal,
{
    order::byte_order_antisymmetric(a.name.key@, a.name.key@);
    order::parts_order_antisymmetric(a.abs_path@, a.abs_path@);
}

/// Comparing entries is transitive, on entries whose kind is known.
pub proof fn entry_order_transitive(a: &Entry, b: &Entry, c: &Entry, sort: SortSettings)
    requires
        a.ready() && b.ready() && c.ready(),
        !(entry_order(a, b, sort) is Greater),
        !(entry_order(b, c, sort) is Greater),
    ensures
        !(entry_order(a, c, sort) is Greater),
        entry_order(a, c, sort) is Equal ==> entry_order(a, b, sort) is Equal && entry_order(
            b,
            c,
            sort,
        ) is Equal,
{
    if (a.kind is Directory) == (c.kind is Directory) {
        match sort.direction {
            SortDir::Ascending => {
                key_order_transitive(a, b, c, sort.mode);
            },
            SortDir::Descending => {
                key_order_reverses(a, b, sort.mode);
                key_order_reverses(b, c, sort.mode);
                key_order_reverses(a, c, sort.mode);
                key_order_transitive(c, b, a, sort.mode);
            },
        }
    }
}

proof fn key_order_reverses(a: &Entry, b: &Entry, mode: SortMode)
    ensures
        key_order(b, a, mode) == key_order(a, b, mode).spec_reverse(),
{
    order::byte_order_antisymmetric(a.name.key@, b.name.key@);
    order::parts_order_antisymmetric(a.abs_path@, b.abs_path@);
}

proof fn name_transitive(a: &NatKey, b: &NatKey, c: &NatKey)
    ensures
        !(a.spec_order(b) is Greater) && !(b.spec_order(c) is Greater) ==> !(a.spec_order(
            c,
        ) is Greater) && (a.spec_order(c) is Equal ==> a.spec_order(b) is Equal && b.spec_order(
            c,
        ) is Equal),
        a.spec_order(b) is Equal ==> a.spec_order(c) == b.spec_order(c),
        b.spec_order(c) is Equal ==> a.spec_order(c) == a.spec_order(b),
{
    order::byte_order_antisymmetric(a.key@, b.key@);
    order::byte_order_antisymmetric(b.key@, c.key@);
    if !(a.spec_order(b) is Greater) && !(b.spec_order(c) is Greater) {
        order::byte_order_transitive(a.key@, b.key@, c.key@);
    }
}

proof fn path_transitive(a: Seq<Seq<u8>>, b: Seq<Seq<u8>>, c: Seq<Seq<u8>>)
    ensures
        !(order::parts_order(a, b) is Greater) && !(order::parts_order(b, c) is Greater) ==> !(
        order::parts_order(a, c) is Greater) && (order::parts_order(a, c) is Equal
            ==> order::parts_order(a, b) is Equal && order::parts_order(b, c) is Equal),
{
    if !(order::parts_order(a, b) is Greater) && !(order::parts_order(b, c) is Greater) {
        order::parts_order_transitive(a, b, c);
    }
}

proof fn key_order_transitive(a: &Entry, b: &Entry, c: &Entry, mode: SortMode)
    requires
        a.kind is Directory <==> b.kind is Directory,
        b.kind is Directory <==> c.kind is Directory,
        a.ready() && b.ready() && c.ready(),
    ensures
        !(key_order(a, b, mode) is Greater) && !(key_order(b, c, mode) is Greater) ==> !(key_order(
            a,
            c,
            mode,
        ) is Greater) && (key_order(a, c, mode) is Equal ==> key_order(a, b, mode) is Equal
            && key_order(b, c, mode) is Equal),
{
    name_transitive(&a.name, &b.name, &c.name);
    path_transitive(a.abs_path@, b.abs_path@, c.abs_path@);
}

/// Directories always come before files, whatever the direction.
pub proof fn directories_come_first(a: &Entry, b: &Entry, sort: SortSettings)
    requires
        a.kind is Directory,
        b.kind is File,
    ensures
        entry_order(a, b, sort) is Less,
{
}

/// Changing the direction reverses the order among entries of one kind.
pub proof fn direction_reverses(a: &Entry, b: &Entry, mode: SortMode)
    requires
        a.kind is Directory <==> b.kind is Directory,
        a.ready() && b.ready(),
    ensures
        entry_order(a, b, SortSettings { mode, direction: SortDir::Descending }) == entry_order(
            b,
            a,
            SortSettings { mode, direction: SortDir::Ascending },
        ),
{
    key_order_reverses(a, b, mode);
}

/// Whether one time is before another.
pub open spec fn before(a: FileTime, b: FileTime) -> bool {
    a.sec < b.sec || (a.sec == b.sec && a.usec < b.usec)
}

/// In ascending order smaller files come first when sorting by size, older ones when
/// sorting by time, and those with lesser names when sorting by name. Directories go
/// by the number of items inside, and those of which it is unknown come first.
pub proof fn mode_decides(a: &Entry, b: &Entry, mode: SortMode)
    requires
        a.kind is Directory <==> b.kind is Directory,
        a.ready() && b.ready(),
    ensures
        ({
            let r = entry_order(a, b, SortSettings { mode, direction: SortDir::Ascending });
            match mode {
                SortMode::Name => {
                    &&& a.name.spec_order(&b.name) is Less ==> r is Less
                    &&& a.name.spec_order(&b.name) is Greater ==> r is Greater
                },
                SortMode::MTime => {
                    &&& before(a.mtime, b.mtime) ==> r is Less
                    &&& before(b.mtime, a.mtime) ==> r is Greater
                },
                SortMode::Size => {
                    &&& a.kind matches EntryKind::File { size: x, .. } ==> (
                    b.kind matches EntryKind::File { size: y, .. } ==> (x < y ==> r is Less) && (x
                        > y ==> r is Greater))
                    &&& a.kind matches EntryKind::Directory { contents: Some(x) } ==> (
                    b.kind matches EntryKind::Directory { contents: Some(y) } ==> (x < y
                        ==> r is Less) && (x > y ==> r is Greater))
                    &&& a.kind matches EntryKind::Directory { contents: None } ==> (
                    b.kind matches EntryKind::Directory { contents: Some(_) } ==> r is Less)
                },
            }
        }),
{
}

/// What ties by size or by time goes by name. What ties by name goes by time, and
/// what has the same name and time by size. At last the path decides.
pub proof fn ties_are_broken(a: &Entry, b: &Entry)
    requires
        a.kind matches EntryKind::File { .. },
        b.kind matches EntryKind::File { .. },
    ensures
        ({
            let up = |mode: SortMode|
                entry_order(a, b, SortSettings { mode, direction: SortDir::Ascending });
            let same_size = a.kind->size == b.kind->size;
            let same_name = a.name.spec_order(&b.name) is Equal;
            &&& same_size && !same_name ==> up(SortMode::Size) == a.name.spec_order(&b.name)
            &&& a.mtime == b.mtime && !same_name ==> up(SortMode::MTime) == a.name.spec_order(
                &b.name,
            )
            &&& same_name && before(a.mtime, b.mtime) ==> up(SortMode::Name) is Less && (same_size
                ==> up(SortMode::Size) is Less)
            &&& same_name && a.mtime == b.mtime && a.kind->size < b.kind->size ==> up(
                SortMode::Name,
            ) is Less && up(SortMode::MTime) is Less
            &&& same_name && a.mtime == b.mtime && same_size ==> forall|mode: SortMode| #[trigger]
                up(mode) == order::parts_order(a.abs_path@, b.abs_path@)
        }),
{
    assert forall|mode: SortMode|
        a.name.spec_order(&b.name) is Equal && a.mtime == b.mtime && a.kind->size
            == b.kind->size implies #[trigger] entry_order(
        a,
        b,
        SortSettings { mode, direction: SortDir::Ascending },
    ) == order::parts_order(a.abs_path@, b.abs_path@) by {
    }
}

/// A directory that reports `n` items and the two that stand for itself and for its
/// parent is shown with `n`. A file is shown with its size.
pub proof fn size_is_what_is_inside(info: &FileInfo, e: &Entry, n: u64)
    requires
        e.kind == reported_kind(info),
        n <= u64::MAX - 2,
    ensures
        !info.directory ==> e.spec_raw_size() == info.size && !(e.kind is Directory),
        info.directory ==> e.kind is Directory,
        info.directory && info.size == n + 2 && info.allocated_size != 0 && info.allocated_size
            != info.size && !info.mountpoint ==> e.kind == (EntryKind::Directory {
            contents: Some(n),
        }) && e.spec_raw_size() == n && e.spec_short_size() == text::decimal(n as nat)
            && e.spec_long_size() == e.spec_short_size() + " items"@,
        info.directory && info.allocated_size == 0 ==> e.kind == (EntryKind::Directory {
            contents: None,
        }),
        info.directory && info.allocated_size == info.size ==> e.kind == (EntryKind::Directory {
            contents: None,
        }),
{
}

/// An entry is called by the last part of its path.
pub proof fn named_by_last_part(parent: Seq<Seq<u8>>, name: Seq<u8>)
    requires
        name != seq![46u8, 46u8],
    ensures
        display_name(parent.push(name)) == name,
{
}

impl Entry {
    /// Whether the kind of this entry is known.
    pub open spec fn ready(&self) -> bool {
        !(self.kind is Uninitialized)
    }

    /// Compares two entries by the sort settings.
    pub fn compare(&self, other: &Entry, sort: SortSettings) -> (r: Order)
        requires
            self.ready(),
            other.ready(),
        ensures
            r == entry_order(self, other, sort),
    {
        let size = match (self.kind, other.kind) {
            (EntryKind::File { .. }, EntryKind::Directory { .. }) => {
                return Order::Greater;
            },
            (EntryKind::Directory { .. }, EntryKind::File { .. }) => {
                return Order::Less;
            },
            (EntryKind::File { size: a, .. }, EntryKind::File { size: b, .. }) => u64_order(a, b),
            (
                EntryKind::Directory { contents: Some(a) },
                EntryKind::Directory { contents: Some(b) },
            ) => u64_order(a, b),
            (
                EntryKind::Directory { contents: None },
                EntryKind::Directory { contents: Some(_) },
            ) => Order::Less,
            (
                EntryKind::Directory { contents: Some(_) },
                EntryKind::Directory { contents: None },
            ) => Order::Greater,
            _ => Order::Equal,
        };
        let mtime = self.mtime.compare(other.mtime);
        let name = self.name.compare(&other.name);
        let keys = match sort.mode {
            SortMode::Name => name.chain(mtime).chain(size),
            SortMode::MTime => mtime.chain(name).chain(size),
            SortMode::Size => size.chain(name).chain(mtime),
        };
        let ascending = keys.chain(self.abs_path.compare(&other.abs_path));
        match sort.direction {
            SortDir::Ascending => ascending,
            SortDir::Descending => ascending.reverse(),
        }
    }

    /// The same comparison in std's terms.
    pub fn cmp(&self, other: &Entry, settings: SortSettings) -> (r: Ordering)
        requires
            self.ready(),
            other.ready(),
        ensures
            r is Less <==> entry_order(self, other, settings) is Less,
            r is Equal <==> entry_order(self, other, settings) is Equal,
            r is Greater <==> entry_order(self, other, settings) is Greater,
    {
        match self.compare(other, settings) {
            Order::Less => Ordering::Less,
            Order::Equal => Ordering::Equal,
            Order::Greater => Ordering::Greater,
        }
    }

    /// The entry for a path, and whether its contents need to be counted.
    pub fn new(abs_path: FilePath, info: FileInfo) -> (r: (Entry, bool))
        ensures
            r.0.kind == reported_kind(&info),
            r.0.ready(),
            r.0.abs_path == abs_path,
            r.0.name.name@ == display_name(abs_path@),
            r.0.name.valid(),
            r.0.mtime == info.mtime,
            r.0.mime == info.mime,
            r.0.allocated_size == info.allocated_size,
            r.0.symlink == (if info.is_symlink {
                info.symlink_target
            } else {
                None
            }),
            r.0.icon == info.icon,
            r.0.inode == info.inode,
            r.1 == (info.directory && suspicious_size(&info)),
    {
        let name = match abs_path.file_name() {
            Some(n) => n,
            None => abs_path.to_bytes(),
        };
        let name = natsort::key(&name);
        let mut needs_full_count: bool = false;
        let kind = if info.directory {
            if info.allocated_size == 0 || info.size == info.allocated_size || (info.mountpoint
                && info.size <= 2) {
                needs_full_count = true;
                EntryKind::Directory { contents: None }
            } else {
                EntryKind::Directory { contents: Some(info.size.saturating_sub(2)) }
            }
        } else {
            EntryKind::File { size: info.size, executable: info.can_execute }
        };
        let symlink = if info.is_symlink {
            info.symlink_target
        } else {
            None
        };
        (
            Entry {
                kind,
                allocated_size: info.allocated_size,
                abs_path,
                name,
                mtime: info.mtime,
                mime: info.mime,
                symlink,
                icon: info.icon,
                inode: info.inode,
            },
            needs_full_count,
        )
    }

    /// The entry for a directory whose contents were counted; `None` if it
    /// has stopped being a directory.
    pub fn new_assume_dir_size(abs_path: FilePath, info: FileInfo, size: u64) -> (r: Option<Entry>)
        ensures
            r is Some <==> info.directory,
            r matches Some(e) ==> e.kind == (EntryKind::Directory { contents: Some(size) })
                && e.abs_path == abs_path && e.name.name@ == display_name(abs_path@)
                && e.name.valid() && e.mtime == info.mtime && e.mime == info.mime && e.icon
                == info.icon && e.inode == info.inode && e.allocated_size == info.allocated_size
                && e.symlink == (if info.is_symlink {
                info.symlink_target
            } else {
                None
            }),
    {
        let (mut entry, _) = Entry::new(abs_path, info);
        match entry.kind {
            EntryKind::Directory { .. } => {},
            _ => {
                return None;
            },
        }
        entry.kind = EntryKind::Directory { contents: Some(size) };
        Some(entry)
    }

    /// What the size column shows.
    pub open spec fn spec_short_size(&self) -> Seq<char> {
        match self.kind {
            EntryKind::File { size, .. } => windows_size(size),
            EntryKind::Directory { contents: Some(n) } => text::decimal(n as nat),
            _ => "..."@,
        }
    }

    pub fn short_size_string(&self) -> (r: String)
        requires
            self.ready(),
        ensures
            r@ == self.spec_short_size(),
    {
        match self.kind {
            EntryKind::File { size, .. } => format_windows_size(size),
            EntryKind::Directory { contents: Some(n) } => decimal_string(n),
            _ => String::from_str("..."),
        }
    }

    /// What an icon's caption shows.
    pub open spec fn spec_long_size(&self) -> Seq<char> {
        match self.kind {
            EntryKind::File { size, .. } => windows_size(size),
            EntryKind::Directory { contents: Some(n) } => text::decimal(n as nat) + " items"@,
            _ => "... items"@,
        }
    }

    pub fn long_size_string(&self) -> (r: String)
        requires
            self.ready(),
        ensures
            r@ == self.spec_long_size(),
    {
        match self.kind {
            EntryKind::File { size, .. } => format_windows_size(size),
            EntryKind::Directory { contents: Some(n) } => decimal_string(n).concat(" items"),
            _ => String::from_str("... items"),
        }
    }

    pub fn dir(&self) -> (r: bool)
        ensures
            r == (self.kind is Directory),
    {
        match self.kind {
            EntryKind::Directory { .. } => true,
            _ => false,
        }
    }

    /// The size of a file in bytes, or the number of items in a directory.
    pub open spec fn spec_raw_size(&self) -> u64 {
        match self.kind {
            EntryKind::File { size, .. } => size,
            EntryKind::Directory { contents: Some(n) } => n,
            _ => 0,
        }
    }

    pub fn raw_size(&self) -> (r: u64)
        requires
            self.ready(),
        ensures
            r == self.spec_raw_size(),
    {
        match self.kind {
            EntryKind::File { size, .. } => size,
            EntryKind::Directory { contents: Some(n) } => n,
            _ => 0,
        }
    }

    /// Whether two entries agree in everything that is known of a file.
    pub open spec fn same_as(&self, other: &Entry) -> bool {
        &&& self.kind == other.kind
        &&& self.allocated_size == other.allocated_size
        &&& self.abs_path@ == other.abs_path@
        &&& self.name.name@ == other.name.name@
        &&& self.mtime == other.mtime
        &&& self.mime@ == other.mime@
        &&& (self.symlink is Some <==> other.symlink is Some)
        &&& (self.symlink is Some ==> self.symlink->0@ == other.symlink->0@)
        &&& self.icon == other.icon
        &&& self.inode == other.inode
    }

    pub fn same(&self, other: &Entry) -> (r: bool)
        ensures
            r == self.same_as(other),
    {
        let links = match (&self.symlink, &other.symlink) {
            (Some(a), Some(b)) => text::equal_bytes(a, b),
            (None, None) => true,
            _ => false,
        };
        links && self.kind == other.kind && self.allocated_size == other.allocated_size
            && self.abs_path.same(&other.abs_path) && text::equal_bytes(
            &self.name.name,
            &other.name.name,
        ) && self.mtime == other.mtime && self.mime == other.mime && self.icon == other.icon
            && self.inode == other.inode
    }

    /// A copy that shares nothing with this entry.
    pub fn copy(&self) -> (r: Entry)
        ensures
            r.same_as(self),
            r.name.key@ == self.name.key@,
            r.name.lowercase@ == self.name.lowercase@,
    {
        let symlink = match &self.symlink {
            Some(s) => Some(copy_bytes(s)),
            None => None,
        };
        Entry {
            kind: self.kind,
            allocated_size: self.allocated_size,
            abs_path: self.abs_path.copy(),
            name: NatKey {
                name: copy_bytes(&self.name.name),
                lowercase: copy_bytes(&self.name.lowercase),
                key: copy_bytes(&self.name.key),
            },
            mtime: self.mtime,
            mime: self.mime.clone(),
            symlink,
            icon: self.icon,
            inode: self.inode,
        }
    }
}

/// Entries that agree in what is known of them compare alike.
pub proof fn same_entries_order_alike(a: &Entry, b: &Entry, c: &Entry, sort: SortSettings)
    requires
        a.same_as(b),
        a.name.valid(),
        b.name.valid(),
    ensures
        entry_order(a, c, sort) == entry_order(b, c, sort),
{
}

/// Entries count as the same only if nothing that is shown of them, or that is known of
/// their files, differs. An entry is the same as itself, whichever comes first.
pub proof fn same_in_everything(a: &Entry, b: &Entry, sort: SortSettings)
    requires
        a.same_as(b),
    ensures
        a.kind == b.kind && a.mtime == b.mtime && a.mime@ == b.mime@,
        a.abs_path@ == b.abs_path@ && a.name.name@ == b.name.name@,
        a.spec_short_size() == b.spec_short_size() && a.spec_raw_size() == b.spec_raw_size(),
        a.allocated_size == b.allocated_size && a.icon == b.icon && a.inode == b.inode,
        a.symlink is Some <==> b.symlink is Some,
        a.symlink matches Some(x) ==> (b.symlink matches Some(y) ==> x@ == y@),
        b.same_as(a) && a.same_as(a),
{
}

/// Times before 1970 are counted backwards from it.
pub proof fn seconds_before_the_epoch(t: FileTime, k: int)
    ensures
        1 <= k <= 0x8000_0000_0000_0000 && t.sec == 0x1_0000_0000_0000_0000 - k ==> t.signed_sec()
            == -k,
        t.sec < 0x8000_0000_0000_0000 ==> t.signed_sec() == t.sec,
{
}

} // verus!
