//! What is stored in the database, and in which form.
use vstd::prelude::*;
use vstd::string::*;
use vstd::utf8::*;

use crate::path::FilePath;
use crate::session::{self, row_session, session_row, RowView, SavedGroup, Session, SessionRow};
use crate::settings::{self, DirSettings, DisplayMode, SortDir, SortMode, SortSettings};
use crate::text::{self, chars_of, parse_number};

verus! {

/// The version of the tables.
pub const CURRENT_VERSION: u32 = 3;

/// The version that a text stands for.
pub fn parse_version(s: &str) -> (r: Option<u32>)
    ensures
        match text::parsed_number(s@, u32::MAX as nat) {
            Some(n) => r matches Some(v) && v == n,
            None => r is None,
        },
{
    match parse_number(&chars_of(s), u32::MAX as u64) {
        Some(n) => Some(n as u32),
        None => None,
    }
}

/// The updates that bring tables of a version to the current one.
pub open spec fn pending(initial: u32) -> Seq<u32> {
    if initial >= CURRENT_VERSION {
        Seq::empty()
    } else {
        Seq::new((CURRENT_VERSION - initial) as nat, |i: int| (initial + 1 + i) as u32)
    }
}

/// The updates that are needed, in their order.
pub fn updates_to_current(initial: u32) -> (r: Vec<u32>)
    ensures
        r@ == pending(initial),
{
    let mut r: Vec<u32> = Vec::new();
    let mut v: u32 = initial;
    while v < CURRENT_VERSION
        invariant
            initial <= v,
            initial < CURRENT_VERSION ==> v <= CURRENT_VERSION && r@ =~= pending(initial).take(
                v - initial,
            ),
            initial >= CURRENT_VERSION ==> v == initial && r@ =~= Seq::empty(),
        decreases CURRENT_VERSION - v,
    {
        v += 1;
        r.push(v);
    }
    assert(r@ =~= pending(initial));
    r
}

/// Each update is applied once, the next one after the last one that was applied
/// before.
pub proof fn updates_are_consecutive(initial: u32, i: int)
    requires
        0 <= i < pending(initial).len(),
    ensures
        pending(initial)[i] == initial + 1 + i,
        pending(initial)[i] <= CURRENT_VERSION,
{
}

/// What storing the settings of a directory does.
pub enum StoreAction {
    /// Directories with default settings are not stored.
    Delete,
    Replace { display_mode: String, sort_mode: String, sort_direction: String },
}

/// The columns of a stored row.
pub open spec fn columns(s: DirSettings) -> Option<(Seq<char>, Seq<char>, Seq<char>)> {
    if s == DirSettings::spec_default() {
        None
    } else {
        Some(
            (
                s.display_mode.spec_name(),
                s.sort.mode.spec_name(),
                s.sort.direction.spec_name(),
            ),
        )
    }
}

pub open spec fn stored(a: StoreAction) -> Option<(Seq<char>, Seq<char>, Seq<char>)> {
    match a {
        StoreAction::Delete => None,
        StoreAction::Replace { display_mode, sort_mode, sort_direction } => Some(
            (display_mode@, sort_mode@, sort_direction@),
        ),
    }
}

/// Decides what is stored for a directory.
pub fn store(s: DirSettings) -> (r: StoreAction)
    ensures
        stored(r) == columns(s),
{
    if s == DirSettings::default() {
        return StoreAction::Delete;
    }
    StoreAction::Replace {
        display_mode: s.display_mode.name().to_owned(),
        sort_mode: s.sort.mode.name().to_owned(),
        sort_direction: s.sort.direction.name().to_owned(),
    }
}

/// The settings that a row stands for. Without a row, or with one that cannot
/// be read, they are the default ones.
pub open spec fn loaded(row: Option<(Seq<char>, Seq<char>, Seq<char>)>) -> DirSettings {
    match row {
        Some((d, m, s)) => match (
            DisplayMode::parsed(d),
            SortMode::parsed(m),
            SortDir::parsed(s),
        ) {
            (Some(display_mode), Some(mode), Some(direction)) => DirSettings {
                display_mode,
                sort: SortSettings { mode, direction },
            },
            _ => DirSettings::spec_default(),
        },
        None => DirSettings::spec_default(),
    }
}

/// Reads the settings of a directory.
pub fn get(row: Option<(String, String, String)>) -> (r: DirSettings)
    ensures
        r == loaded(
            match row {
                Some((d, m, s)) => Some((d@, m@, s@)),
                None => None,
            },
        ),
{
    match row {
        Some((d, m, s)) => match (
            DisplayMode::parse(d.as_str()),
            SortMode::parse(m.as_str()),
            SortDir::parse(s.as_str()),
        ) {
            (Some(display_mode), Some(mode), Some(direction)) => DirSettings {
                display_mode,
                sort: SortSettings { mode, direction },
            },
            _ => DirSettings::default(),
        },
        None => DirSettings::default(),
    }
}

/// Nothing is stored of a directory that shows icons, by name and ascending, and what
/// is not stored, or cannot be read, is shown so.
pub proof fn defaults_are_not_stored(s: DirSettings, row: (Seq<char>, Seq<char>, Seq<char>))
    ensures
        columns(s) is None <==> s.display_mode is Icons && s.sort.mode is Name
            && s.sort.direction is Ascending,
        loaded(None).display_mode is Icons && loaded(None).sort.mode is Name && loaded(
            None,
        ).sort.direction is Ascending,
        (forall|m: DisplayMode| #[trigger] m.spec_name() != row.0) ==> loaded(Some(row)) == loaded(
            None,
        ),
        (forall|m: SortMode| #[trigger] m.spec_name() != row.1) ==> loaded(Some(row)) == loaded(
            None,
        ),
        (forall|d: SortDir| #[trigger] d.spec_name() != row.2) ==> loaded(Some(row)) == loaded(
            None,
        ),
{
    if let Some(m) = DisplayMode::parsed(row.0) {
        assert(m.spec_name() == row.0);
    }
    if let Some(m) = SortMode::parsed(row.1) {
        assert(m.spec_name() == row.1);
    }
    if let Some(d) = SortDir::parsed(row.2) {
        assert(d.spec_name() == row.2);
    }
}

/// Reading gives back the settings that were stored.
pub proof fn settings_round_trip(s: DirSettings)
    ensures
        loaded(columns(s)) == s,
{
    reveal_strlit("icons");
    reveal_strlit("columns");
    reveal_strlit("name");
    reveal_strlit("mtime");
    reveal_strlit("size");
    reveal_strlit("ascending");
    reveal_strlit("descending");
    assert("icons"@.len() != "columns"@.len());
    assert("name"@.len() != "mtime"@.len());
    assert("size"@.len() != "mtime"@.len());
    assert("name"@[0] != "size"@[0]);
    assert("ascending"@.len() != "descending"@.len());
}

/// What is to be written to the table of sessions.
pub enum SessionWrite {
    /// The row takes the place of one with the same name.
    Replace { name: String, row: SessionRow },
    Delete { name: String },
}

impl SessionWrite {
    /// The name of the session that is written.
    pub open spec fn of(self) -> Seq<char> {
        match self {
            SessionWrite::Replace { name, .. } => name@,
            SessionWrite::Delete { name } => name@,
        }
    }
}

/// The table of sessions once something has been written to it.
pub open spec fn written(table: Map<Seq<char>, RowView>, w: SessionWrite) -> Map<
    Seq<char>,
    RowView,
> {
    match w {
        SessionWrite::Replace { name, row } => table.insert(name@, row@),
        SessionWrite::Delete { name } => table.remove(name@),
    }
}

/// The table of sessions once several things have been written to it.
pub open spec fn all_written(table: Map<Seq<char>, RowView>, writes: Seq<SessionWrite>) -> Map<
    Seq<char>,
    RowView,
>
    decreases writes.len(),
{
    if writes.len() == 0 {
        table
    } else {
        written(all_written(table, writes.drop_last()), writes.last())
    }
}

/// The row that the table holds for a name.
pub open spec fn row_for(table: Map<Seq<char>, RowView>, name: Seq<char>) -> Option<RowView> {
    if table.dom().contains(name) {
        Some(table[name])
    } else {
        None
    }
}

/// Saves a session under a name, its groups as the given bytes.
pub fn save_session(name: String, session: &Session, groups: Vec<u8>) -> (r: SessionWrite)
    ensures
        r matches SessionWrite::Replace { name: n, row } && n == name && row@ == session::row_of(
            session.paths@,
            groups@,
        ),
{
    SessionWrite::Replace { name, row: session_row(session, groups) }
}

/// Deletes the session with a name.
pub fn delete_session(name: String) -> (r: SessionWrite)
    ensures
        r == (SessionWrite::Delete { name }),
{
    SessionWrite::Delete { name }
}

/// The session in a row of the table, if there is one. `groups` is what its bytes for
/// groups were read as, if there are any and they could be read.
pub fn load_session(row: Option<SessionRow>, groups: Option<Vec<SavedGroup>>, cwd: &FilePath) -> (r:
    Option<Session>)
    requires
        cwd.valid(),
    ensures
        r is Some <==> row is Some,
        r matches Some(s) ==> session::path_views(s.paths@) == session::row_paths(row->0@, cwd@)
            && s.groups@ == session::read_groups(
            match groups {
                Some(g) => Some(g@),
                None => None,
            },
        ),
{
    match row {
        Some(row) => Some(row_session(&row, groups, cwd)),
        None => None,
    }
}

/// What was written under other names changes nothing for a name.
pub proof fn other_sessions_stay(
    table: Map<Seq<char>, RowView>,
    writes: Seq<SessionWrite>,
    from: int,
    name: Seq<char>,
)
    requires
        0 <= from <= writes.len(),
        forall|k: int| from <= k < writes.len() ==> (#[trigger] writes[k]).of() != name,
    ensures
        row_for(all_written(table, writes), name) == row_for(
            all_written(table, writes.take(from)),
            name,
        ),
    decreases writes.len(),
{
    if from < writes.len() {
        let front = writes.drop_last();
        assert forall|k: int| from <= k < front.len() implies (#[trigger] front[k]).of() != name by {
            assert(front[k] == writes[k]);
        }
        other_sessions_stay(table, front, from, name);
        assert(front.take(from) =~= writes.take(from));
        assert(writes[writes.len() - 1].of() != name);
    } else {
        assert(writes.take(from) =~= writes);
    }
}

/// A session that was the last to be saved under a name is what is loaded under it,
/// whatever is written under other names, provided that the bytes of its groups are
/// read as what was written.
pub proof fn saved_session_is_loaded(
    table: Map<Seq<char>, RowView>,
    writes: Seq<SessionWrite>,
    i: int,
    s: Session,
    bytes: Seq<u8>,
    read: Seq<SavedGroup>,
    cwd: Seq<Seq<u8>>,
)
    requires
        0 <= i < writes.len(),
        writes[i] matches SessionWrite::Replace { row, .. } && row@ == session::row_of(
            s.paths@,
            bytes,
        ),
        forall|k: int| i < k < writes.len() ==> (#[trigger] writes[k]).of() != writes[i].of(),
        s.paths@.len() > 0,
        forall|k: int| 0 <= k < s.paths@.len() ==> (#[trigger] s.paths@[k]).valid(),
        forall|k: int| 0 <= k < s.paths@.len() ==> session::no_zero((#[trigger] s.paths@[k])@),
        read == s.groups@,
    ensures
        row_for(all_written(table, writes), writes[i].of()) matches Some(row)
            && session::row_paths(row, cwd) == session::path_views(s.paths@)
            && session::read_groups(Some(read)) == s.groups@,
{
    other_sessions_stay(table, writes, i + 1, writes[i].of());
    let until = writes.take(i + 1);
    assert(until.last() == writes[i]);
    assert(all_written(table, until) == written(
        all_written(table, until.drop_last()),
        writes[i],
    ));
    session::row_round_trip(s, bytes, cwd);
}

/// A session that was deleted, and not saved again, is gone.
pub proof fn deleted_session_is_gone(
    table: Map<Seq<char>, RowView>,
    writes: Seq<SessionWrite>,
    i: int,
)
    requires
        0 <= i < writes.len(),
        writes[i] is Delete,
        forall|k: int| i < k < writes.len() ==> (#[trigger] writes[k]).of() != writes[i].of(),
    ensures
        row_for(all_written(table, writes), writes[i].of()) is None,
{
    other_sessions_stay(table, writes, i + 1, writes[i].of());
    let until = writes.take(i + 1);
    assert(until.last() == writes[i]);
    assert(all_written(table, until) == written(
        all_written(table, until.drop_last()),
        writes[i],
    ));
}

/// A name that no session was ever saved under has none.
pub proof fn unsaved_session_is_none(writes: Seq<SessionWrite>, name: Seq<char>)
    requires
        forall|k: int|
            0 <= k < writes.len() && (#[trigger] writes[k]).of() == name ==> writes[k] is Delete,
    ensures
        row_for(all_written(Map::empty(), writes), name) is None,
    decreases writes.len(),
{
    if writes.len() > 0 {
        let front = writes.drop_last();
        assert forall|k: int|
            0 <= k < front.len() && (#[trigger] front[k]).of() == name implies front[k] is Delete by {
            assert(front[k] == writes[k]);
        }
        unsaved_session_is_none(front, name);
        let last = writes[writes.len() - 1];
        assert(last.of() == name ==> last is Delete);
    }
}

/// Where the database is: the configured path, or else one among the user's
/// data. There is none if neither is known.
pub fn database_path(configured: Option<FilePath>, data: Option<FilePath>) -> (r: Option<FilePath>)
    ensures
        match (configured, data) {
            (Some(p), _) => r == Some(p),
            (None, Some(d)) => r matches Some(p) && p@ == d@.push(encode_utf8("aw-fm"@)).push(
                encode_utf8("settings.db"@),
            ),
            (None, None) => r is None,
        },
{
    match configured {
        Some(p) => Some(p),
        None => match data {
            Some(d) => Some(
                d.join_name(&"aw-fm".as_bytes_vec()).join_name(&"settings.db".as_bytes_vec()),
            ),
            None => None,
        },
    }
}

} // verus!
