//! What is selected in a tab, and moving through it by typing.
use std::sync::Arc;

use vstd::prelude::*;
use vstd::string::*;
use vstd::utf8::*;

use crate::collections::{self, get_pair, no_pairs, set_pair};
use crate::contents::{self, matches_query, Contents, Item};
use crate::entry::Entry;
use crate::natsort::{self, to_lowercase};
use crate::nav::{FocusState, PaneState, ScrollPosition};
use crate::objects::{self, Objects};
use crate::operations::{self, Kind};
use crate::path::{self, FilePath};
use crate::progress::Outcome;
use crate::search;
use crate::text::{self, append_bytes, contains_bytes, decimal_string};

verus! {

/// The entries of selected rows.
pub open spec fn selected_entries(rows: Seq<Item>) -> Seq<Arc<Entry>>
    decreases rows.len(),
{
    if rows.len() == 0 {
        Seq::empty()
    } else if rows.last().selected {
        selected_entries(rows.drop_last()).push(rows.last().entry)
    } else {
        selected_entries(rows.drop_last())
    }
}

/// The selected entries, in the order of their rows.
pub fn selected(rows: &Vec<Item>) -> (r: Vec<Arc<Entry>>)
    ensures
        r@ == selected_entries(rows@),
{
    let mut r: Vec<Arc<Entry>> = Vec::new();
    let mut i: usize = 0;
    assert(rows@.take(0) =~= Seq::empty());
    while i < rows.len()
        invariant
            i <= rows@.len(),
            r@ == selected_entries(rows@.take(i as int)),
        decreases rows@.len() - i,
    {
        assert(rows@.take(i + 1).drop_last() =~= rows@.take(i as int));
        assert(rows@.take(i + 1).last() == rows@[i as int]);
        if rows[i].selected {
            r.push(rows[i].entry.clone());
        }
        i += 1;
    }
    assert(rows@.take(i as int) =~= rows@);
    r
}

/// Whether a number is that of the first selected row.
pub open spec fn first_selected_at(rows: Seq<Item>, s: int) -> bool {
    0 <= s < rows.len() && rows[s].selected && forall|i: int|
        0 <= i < s ==> !(#[trigger] rows[i]).selected
}

pub fn first_selected(rows: &Vec<Item>) -> (r: Option<usize>)
    ensures
        match r {
            Some(s) => first_selected_at(rows@, s as int),
            None => forall|i: int| 0 <= i < rows@.len() ==> !(#[trigger] rows@[i]).selected,
        },
{
    let mut i: usize = 0;
    while i < rows.len()
        invariant
            i <= rows@.len(),
            forall|k: int| 0 <= k < i ==> !(#[trigger] rows@[k]).selected,
        decreases rows@.len() - i,
    {
        if rows[i].selected {
            return Some(i);
        }
        i += 1;
    }
    None
}

/// Whether the name of an entry holds a text. Case does not matter.
pub open spec fn sought(fragment: Seq<char>, e: &Entry) -> bool {
    text::occurs(natsort::lowercase_text(fragment), e.name.lowercase@)
}

/// The first of some rows that a text leads to.
pub open spec fn first_sought(rows: Seq<Item>, fragment: Seq<char>, from: int, to: int) -> Option<
    int,
>
    decreases to - from,
{
    if from >= to {
        None
    } else if sought(fragment, &rows[from].entry) {
        Some(from)
    } else {
        first_sought(rows, fragment, from + 1, to)
    }
}

/// The last of some rows that a text leads to.
pub open spec fn last_sought(rows: Seq<Item>, fragment: Seq<char>, from: int, to: int) -> Option<
    int,
>
    decreases to - from,
{
    if from >= to {
        None
    } else if sought(fragment, &rows[to - 1].entry) {
        Some(to - 1)
    } else {
        last_sought(rows, fragment, from, to - 1)
    }
}

/// A position as a number.
pub open spec fn as_position(p: Option<usize>) -> Option<int> {
    match p {
        Some(i) => Some(i as int),
        None => None,
    }
}

fn seek_forward(rows: &Vec<Item>, fragment: &str, from: usize, to: usize) -> (r: Option<usize>)
    requires
        to <= rows@.len(),
    ensures
        as_position(r) == first_sought(rows@, fragment@, from as int, to as int),
        r matches Some(i) ==> from <= i < to,
{
    let needle = to_lowercase(fragment);
    let mut i: usize = from;
    while i < to
        invariant
            to <= rows@.len(),
            from <= i,
            needle@ == natsort::lowercase_text(fragment@),
            first_sought(rows@, fragment@, from as int, to as int) == first_sought(
                rows@,
                fragment@,
                i as int,
                to as int,
            ),
        decreases to - i,
    {
        if contains_bytes(&rows[i].entry.name.lowercase, &needle) {
            return Some(i);
        }
        i += 1;
    }
    None
}

fn seek_backward(rows: &Vec<Item>, fragment: &str, from: usize, to: usize) -> (r: Option<usize>)
    requires
        to <= rows@.len(),
    ensures
        as_position(r) == last_sought(rows@, fragment@, from as int, to as int),
        r matches Some(i) ==> from <= i < to,
{
    let needle = to_lowercase(fragment);
    let mut i: usize = to;
    while i > from
        invariant
            i <= to <= rows@.len(),
            needle@ == natsort::lowercase_text(fragment@),
            last_sought(rows@, fragment@, from as int, to as int) == last_sought(
                rows@,
                fragment@,
                from as int,
                i as int,
            ),
        decreases i,
    {
        if contains_bytes(&rows[i - 1].entry.name.lowercase, &needle) {
            return Some(i - 1);
        }
        i -= 1;
    }
    None
}

/// The first row that a text leads to.
pub fn seek(rows: &Vec<Item>, fragment: &str) -> (r: Option<usize>)
    ensures
        as_position(r) == first_sought(rows@, fragment@, 0, rows@.len() as int),
        r matches Some(i) ==> i < rows@.len(),
{
    seek_forward(rows, fragment, 0, rows.len())
}

/// The next row that a text leads to. With `wrap`, the search goes on at the
/// start.
pub fn seek_next(rows: &Vec<Item>, fragment: &str, wrap: bool) -> (r: Option<usize>)
    ensures
        r matches Some(i) ==> i < rows@.len(),
        forall|s: int| #[trigger]
            first_selected_at(rows@, s) ==> as_position(r) == (match first_sought(
                rows@,
                fragment@,
                s + 1,
                rows@.len() as int,
            ) {
                None if wrap => first_sought(rows@, fragment@, 0, s),
                found => found,
            }),
        (forall|s: int| !(#[trigger] first_selected_at(rows@, s))) ==> as_position(r)
            == first_sought(rows@, fragment@, 0, rows@.len() as int),
{
    match first_selected(rows) {
        Some(s) => {
            proof {
                assert forall|k: int| #[trigger] first_selected_at(rows@, k) implies k == s by {}
                assert(first_selected_at(rows@, s as int));
            }
            let n: usize = rows.len();
            let found = seek_forward(rows, fragment, s + 1, n);
            if found.is_none() && wrap {
                seek_forward(rows, fragment, 0, s)
            } else {
                found
            }
        },
        None => seek(rows, fragment),
    }
}

/// The row before the selected one that a text leads to. With `wrap`, the search
/// goes on at the end.
pub fn seek_prev(rows: &Vec<Item>, fragment: &str, wrap: bool) -> (r: Option<usize>)
    ensures
        r matches Some(i) ==> i < rows@.len(),
        forall|s: int| #[trigger]
            first_selected_at(rows@, s) ==> as_position(r) == (match last_sought(
                rows@,
                fragment@,
                0,
                s,
            ) {
                None if wrap => last_sought(rows@, fragment@, s + 1, rows@.len() as int),
                found => found,
            }),
        (forall|s: int| !(#[trigger] first_selected_at(rows@, s))) ==> as_position(r)
            == first_sought(rows@, fragment@, 0, rows@.len() as int),
{
    match first_selected(rows) {
        Some(s) => {
            proof {
                assert forall|k: int| #[trigger] first_selected_at(rows@, k) implies k == s by {}
                assert(first_selected_at(rows@, s as int));
            }
            let n: usize = rows.len();
            let found = seek_backward(rows, fragment, 0, s);
            if found.is_none() && wrap {
                seek_backward(rows, fragment, s + 1, n)
            } else {
                found
            }
        },
        None => seek(rows, fragment),
    }
}

/// Seeking finds a row if any of those it looks at fits.
pub proof fn seek_is_complete(rows: Seq<Item>, fragment: Seq<char>, from: int, to: int)
    requires
        0 <= from,
        to <= rows.len(),
    ensures
        match first_sought(rows, fragment, from, to) {
            Some(i) => from <= i < to && sought(fragment, &rows[i].entry) && forall|k: int|
                from <= k < i ==> !sought(fragment, &(#[trigger] rows[k]).entry),
            None => forall|k: int|
                from <= k < to ==> !sought(fragment, &(#[trigger] rows[k]).entry),
        },
        match last_sought(rows, fragment, from, to) {
            Some(i) => from <= i < to && sought(fragment, &rows[i].entry) && forall|k: int|
                i < k < to ==> !sought(fragment, &(#[trigger] rows[k]).entry),
            None => forall|k: int|
                from <= k < to ==> !sought(fragment, &(#[trigger] rows[k]).entry),
        },
        first_sought(rows, fragment, from, to) is Some <==> last_sought(rows, fragment, from, to)
            is Some,
    decreases to - from,
{
    if from < to {
        seek_is_complete(rows, fragment, from + 1, to);
        seek_is_complete(rows, fragment, from, to - 1);
    }
}

/// The selected entries are those of the selected rows, in the order of the rows.
pub proof fn selected_row_by_row(a: Seq<Item>, row: Item, b: Seq<Item>)
    ensures
        selected_entries(Seq::empty()) == Seq::<Arc<Entry>>::empty(),
        selected_entries(seq![row]) == (if row.selected {
            seq![row.entry]
        } else {
            Seq::empty()
        }),
        selected_entries(a + b) == selected_entries(a) + selected_entries(b),
    decreases b.len(),
{
    assert(seq![row].drop_last() =~= Seq::<Item>::empty());
    assert(selected_entries(seq![row].drop_last()) =~= Seq::<Arc<Entry>>::empty());
    assert(row.selected ==> selected_entries(seq![row]) =~= seq![row.entry]);
    if b.len() > 0 {
        selected_row_by_row(a, row, b.drop_last());
        assert((a + b).drop_last() =~= a + b.drop_last());
        assert(selected_entries(a + b) =~= selected_entries(a) + selected_entries(b));
    } else {
        assert(a + b =~= a);
        assert(selected_entries(a + b) =~= selected_entries(a) + selected_entries(b));
    }
}

/// A text leads exactly to the ASCII names that hold it, in upper or lower case.
pub proof fn typing_leads_to_names(fragment: Seq<char>, e: &Entry)
    requires
        is_ascii_chars(fragment),
        e.name.valid(),
        natsort::ascii(e.name.name@),
    ensures
        sought(fragment, e) <==> exists|i: int| #[trigger]
            search::held_at(fragment, e.name.name@, i),
{
    search::held_in_lower_case(fragment, e.name.name@);
}

/// The state that leads to a row.
pub fn seek_state(e: &Entry, index: u32) -> (r: PaneState)
    ensures
        r.scroll matches Some(s) && s.precise is None && s.path@ == e.abs_path@ && s.index == index,
        r.focus matches Some(f) && f.path@ == e.abs_path@ && f.select,
{
    let path = Arc::new(e.abs_path.copy());
    PaneState {
        scroll: Some(ScrollPosition { precise: None, path: path.clone(), index }),
        focus: Some(FocusState { path, select: true }),
    }
}

impl Contents {
    /// Unselects everything.
    pub fn unselect_all(&mut self)
        ensures
            final(self).list@.len() == old(self).list@.len(),
            final(self).filter == old(self).filter,
            final(self).sort == old(self).sort,
            final(self).stale == old(self).stale,
            forall|i: int|
                0 <= i < old(self).list@.len() ==> #[trigger] final(self).list@[i]
                    == contents::unselected(old(self).list@[i].entry),
    {
        let ghost list = self.list@;
        let mut i: usize = 0;
        while i < self.list.len()
            invariant
                self.list@.len() == list.len(),
                list == old(self).list@,
                self.filter == old(self).filter,
                self.sort == old(self).sort,
                self.stale == old(self).stale,
                i <= list.len(),
                forall|k: int|
                    0 <= k < i ==> #[trigger] self.list@[k] == contents::unselected(list[k].entry),
                forall|k: int| i <= k < list.len() ==> #[trigger] self.list@[k] == list[k],
            decreases list.len() - i,
        {
            assert(self.list@[i as int] == list[i as int]);
            let e = self.list[i].entry.clone();
            self.list.set(i, Item { entry: e, selected: false });
            i += 1;
        }
    }

    /// Selects the row for a path and no other.
    pub fn select_only(&mut self, p: &FilePath)
        ensures
            final(self).list@.len() == old(self).list@.len(),
            final(self).filter == old(self).filter,
            final(self).sort == old(self).sort,
            final(self).stale == old(self).stale,
            forall|i: int|
                0 <= i < old(self).list@.len() ==> #[trigger] final(self).list@[i] == (Item {
                    entry: old(self).list@[i].entry,
                    selected: old(self).list@[i].entry.abs_path@ == p@,
                }),
    {
        let ghost list = self.list@;
        let mut i: usize = 0;
        while i < self.list.len()
            invariant
                self.list@.len() == list.len(),
                list == old(self).list@,
                self.filter == old(self).filter,
                self.sort == old(self).sort,
                self.stale == old(self).stale,
                i <= list.len(),
                forall|k: int|
                    0 <= k < i ==> #[trigger] self.list@[k] == (Item {
                        entry: list[k].entry,
                        selected: list[k].entry.abs_path@ == p@,
                    }),
                forall|k: int| i <= k < list.len() ==> #[trigger] self.list@[k] == list[k],
            decreases list.len() - i,
        {
            assert(self.list@[i as int] == list[i as int]);
            let e = self.list[i].entry.clone();
            let selected = e.abs_path.same(p);
            self.list.set(i, Item { entry: e, selected });
            i += 1;
        }
    }

    /// Makes a row that was clicked the only selected one, unless it is selected
    /// already.
    pub fn select_if_not(&mut self, e: &Entry)
        requires
            !old(self).stale,
            contents::all_ready(old(self).list@),
            e.ready(),
            old(self).place_of(e) is Some,
        ensures
            ({
                let p = old(self).place_of(e)->0;
                if contents::visible_rows(old(self).list@, old(self).query())[p].selected {
                    *final(self) == *old(self)
                } else {
                    &&& final(self).list@.len() == old(self).list@.len()
                    &&& final(self).filter == old(self).filter
                    &&& final(self).sort == old(self).sort
                    &&& final(self).stale == old(self).stale
                    &&& forall|i: int|
                        0 <= i < old(self).list@.len() ==> #[trigger] final(self).list@[i] == (Item {
                            entry: old(self).list@[i].entry,
                            selected: old(self).list@[i].entry.abs_path@ == e.abs_path@,
                        })
                }
            }),
    {
        let rows = self.visible();
        if let Some(p) = self.filtered_position_by_sorted(e) {
            proof {
                contents::probe_is_a_row(rows@, e, self.sort, 0, rows@.len() as int);
            }
            if !rows[p].selected {
                self.select_only(&e.abs_path);
            }
        }
    }

    /// Where an entry stands among the rows in view.
    pub open spec fn place_of(&self, e: &Entry) -> Option<int> {
        let rows = contents::visible_rows(self.list@, self.query());
        contents::probe(rows, e, self.sort, 0, rows.len() as int)
    }
}

/// The paths of entries, one on each line.
pub open spec fn path_lines(entries: Seq<Arc<Entry>>) -> Seq<u8>
    decreases entries.len(),
{
    if entries.len() == 0 {
        Seq::empty()
    } else if entries.len() == 1 {
        path::path_bytes(entries[0].abs_path@)
    } else {
        path_lines(entries.drop_last()) + seq![10u8] + path::path_bytes(entries.last().abs_path@)
    }
}

/// Programs get the path of each selected entry on a line of its own, in their order.
pub proof fn paths_line_by_line(entries: Seq<Arc<Entry>>)
    requires
        entries.len() > 0,
        forall|i: int|
            0 <= i < entries.len() ==> !path::path_bytes(
                (#[trigger] entries[i]).abs_path@,
            ).contains(10u8),
    ensures
        text::split(path_lines(entries), 10u8) == Seq::new(
            entries.len(),
            |i: int| path::path_bytes(entries[i].abs_path@),
        ),
    decreases entries.len(),
{
    let paths = Seq::new(entries.len(), |i: int| path::path_bytes(entries[i].abs_path@));
    lines_are_joined(entries);
    assert forall|i: int| 0 <= i < paths.len() implies !(#[trigger] paths[i]).contains(10u8) by {
        assert(!path::path_bytes(entries[i].abs_path@).contains(10u8));
    }
    text::split_join(paths, 10u8);
}

proof fn lines_are_joined(entries: Seq<Arc<Entry>>)
    requires
        entries.len() > 0,
    ensures
        path_lines(entries) == text::join(
            Seq::new(entries.len(), |i: int| path::path_bytes(entries[i].abs_path@)),
            10u8,
        ),
    decreases entries.len(),
{
    let paths = Seq::new(entries.len(), |i: int| path::path_bytes(entries[i].abs_path@));
    if entries.len() > 1 {
        let front = entries.drop_last();
        lines_are_joined(front);
        assert(paths.drop_last() =~= Seq::new(
            front.len(),
            |i: int| path::path_bytes(front[i].abs_path@),
        ));
    }
}

/// The selection as programs get it.
pub fn selection_env_str(entries: &Vec<Arc<Entry>>) -> (r: Vec<u8>)
    ensures
        r@ == path_lines(entries@),
{
    let mut out: Vec<u8> = Vec::new();
    if entries.len() == 0 {
        assert(out@ =~= path_lines(entries@));
        return out;
    }
    append_bytes(&mut out, &entries[0].abs_path.to_bytes());
    let mut i: usize = 1;
    assert(entries@.take(1)[0] == entries@[0]);
    assert(out@ =~= path_lines(entries@.take(1)));
    while i < entries.len()
        invariant
            1 <= i <= entries@.len(),
            out@ == path_lines(entries@.take(i as int)),
        decreases entries@.len() - i,
    {
        let ghost before = out@;
        assert(entries@.take(i + 1).drop_last() =~= entries@.take(i as int));
        out.push(10);
        append_bytes(&mut out, &entries[i].abs_path.to_bytes());
        assert(out@ =~= before + seq![10u8] + path::path_bytes(entries@[i as int].abs_path@));
        i += 1;
    }
    assert(entries@.take(i as int) =~= entries@);
    out
}

/// What is asked before entries are deleted. `quoted` is the name of the only
/// one in quotes, and `title` that of the tab.
pub fn delete_query(count: usize, quoted: &str, title: &str) -> (r: Option<String>)
    ensures
        match r {
            None => count == 0,
            Some(t) => if count == 1 {
                t@ == "Permanently delete "@ + quoted@ + "?"@
            } else {
                count > 1 && t@ == "Permanently delete "@ + text::decimal(count as nat)
                    + " selected items in "@ + title@ + "?"@
            },
        },
{
    if count == 0 {
        return None;
    }
    let mut t = "Permanently delete ".to_owned();
    if count == 1 {
        t.append(quoted);
    } else {
        t.append(decimal_string(count as u64).as_str());
        t.append(" selected items in ");
        t.append(title);
    }
    t.append("?");
    Some(t)
}

/// The button that confirms a deletion.
pub const CONFIRM_DELETE: u32 = 1;

/// What is deleted once the question has been answered: the paths that it was
/// about, if the button that confirms it was chosen. `None` stands for no button.
pub fn delete_answered(dir: Arc<FilePath>, files: Vec<Arc<FilePath>>, button: Option<u32>) -> (r:
    Option<(Kind, Vec<Arc<FilePath>>)>)
    ensures
        r is Some <==> button == Some(CONFIRM_DELETE) && files@.len() > 0,
        r matches Some((kind, paths)) ==> kind == Kind::Delete(dir) && paths@ == files@,
{
    if files.len() == 0 {
        return None;
    }
    match button {
        Some(b) => if b == CONFIRM_DELETE {
            Some((Kind::Delete(dir), files))
        } else {
            None
        },
        None => None,
    }
}

/// The operation that was undone in the end, if it was an undo.
pub open spec fn undone(kind: Kind) -> Kind
    decreases kind,
{
    match kind {
        Kind::Undo { prev, .. } => undone(prev.kind),
        _ => kind,
    }
}

/// Whether a tab scrolls to what an operation made: that has to be directly
/// inside its directory.
pub open spec fn shows_result(dir: Seq<Seq<u8>>, kind: Kind) -> bool {
    match undone(kind) {
        Kind::Move(d) => d@ == dir,
        Kind::Copy(d) => d@ == dir,
        Kind::Rename(f) => f@.len() > 0 && f@.drop_last() == dir,
        Kind::MakeDir(f) => f@.len() > 0 && f@.drop_last() == dir,
        Kind::MakeFile(f) => f@.len() > 0 && f@.drop_last() == dir,
        _ => false,
    }
}

fn result_in(dir: &FilePath, kind: &Kind) -> (r: bool)
    ensures
        r == shows_result(dir@, *kind),
    decreases kind,
{
    match kind {
        Kind::Undo { prev, .. } => result_in(dir, &prev.kind),
        Kind::Move(d) => d.same(dir),
        Kind::Copy(d) => d.same(dir),
        Kind::Rename(f) => f.is_child_of(dir),
        Kind::MakeDir(f) => f.is_child_of(dir),
        Kind::MakeFile(f) => f.is_child_of(dir),
        Kind::Trash(_) => false,
        Kind::Delete(_) => false,
    }
}

/// Whether a tab scrolls to what an operation made.
pub fn matches_completed_op(loaded: bool, visible: bool, dir: &FilePath, kind: &Kind) -> (r: bool)
    ensures
        r == (loaded && visible && shows_result(dir@, *kind)),
{
    loaded && visible && result_in(dir, kind)
}

/// The path that a step made, if it is directly inside a directory.
pub open spec fn made_in(dir: Seq<Seq<u8>>, out: Outcome) -> Option<Seq<Seq<u8>>> {
    let made = match out {
        Outcome::Move { dest, .. } => Some(dest@),
        Outcome::Copy(dest) => Some(dest@),
        Outcome::CopyOverwrite(dest) => Some(dest@),
        Outcome::NewFile(dest) => Some(dest@),
        Outcome::CreateDestDir(dest) => Some(dest@),
        Outcome::MergeDestDir(dest) => Some(dest@),
        _ => None,
    };
    match made {
        Some(p) if p.len() > 0 && p.drop_last() == dir => Some(p),
        _ => None,
    }
}

/// What a step made is there after it and was not before, unless a directory was
/// merged into one that was there. Nothing else appears in the directory.
pub proof fn made_is_new(
    dir: Seq<Seq<u8>>,
    before: Map<Seq<Seq<u8>>, operations::Node>,
    out: Outcome,
    after: Map<Seq<Seq<u8>>, operations::Node>,
    p: Seq<Seq<u8>>,
)
    requires
        operations::did(before, out, after),
        p.len() > 0,
        p.drop_last() == dir,
    ensures
        !(out is MergeDestDir) ==> (made_in(dir, out) == Some(p) <==> after.dom().contains(p)
            && !before.dom().contains(p)),
{
}

/// Whether one of the steps made a path directly inside a directory.
pub open spec fn was_made(dir: Seq<Seq<u8>>, outcomes: Seq<Outcome>, p: Seq<Seq<u8>>) -> bool {
    exists|i: int| 0 <= i < outcomes.len() && made_in(dir, #[trigger] outcomes[i]) == Some(p)
}

/// Whether a path is listed.
pub open spec fn listed(paths: Seq<Arc<FilePath>>, p: Seq<Seq<u8>>) -> bool {
    exists|i: int| 0 <= i < paths.len() && (#[trigger] paths[i])@ == p
}

/// The paths directly inside a directory that an operation made, each once.
pub fn new_paths_for_op(dir: &FilePath, outcomes: &Vec<Outcome>) -> (r: Vec<Arc<FilePath>>)
    requires
        forall|i: int|
            0 <= i < outcomes@.len() ==> (made_in(dir@, #[trigger] outcomes@[i]) matches Some(p)
                ==> path::valid_parts(p)),
    ensures
        forall|p: Seq<Seq<u8>>| #[trigger] listed(r@, p) <==> was_made(dir@, outcomes@, p),
        forall|i: int, j: int| 0 <= i < j < r@.len() ==> (#[trigger] r@[i])@ != (#[trigger] r@[j])@,
{
    let mut r: Vec<Arc<FilePath>> = Vec::new();
    let mut seen = no_pairs();
    let mut i: usize = 0;
    while i < outcomes.len()
        invariant
            i <= outcomes@.len(),
            forall|k: int|
                0 <= k < outcomes@.len() ==> (made_in(dir@, #[trigger] outcomes@[k]) matches Some(p)
                    ==> path::valid_parts(p)),
            forall|p: Seq<Seq<u8>>| #[trigger]
                listed(r@, p) <==> was_made(dir@, outcomes@.take(i as int), p),
            forall|k: int| 0 <= k < r@.len() ==> path::valid_parts((#[trigger] r@[k])@),
            forall|p: Seq<Seq<u8>>|
                path::valid_parts(p) ==> (collections::pairs(seen).dom().contains(
                    #[trigger] objects::path_key(p),
                ) <==> listed(r@, p)),
            forall|a: int, b: int|
                0 <= a < b < r@.len() ==> (#[trigger] r@[a])@ != (#[trigger] r@[b])@,
        decreases outcomes@.len() - i,
    {
        let made = match &outcomes[i] {
            Outcome::Move { dest, .. } => Some(dest.clone()),
            Outcome::Copy(dest) => Some(dest.clone()),
            Outcome::CopyOverwrite(dest) => Some(dest.clone()),
            Outcome::NewFile(dest) => Some(dest.clone()),
            Outcome::CreateDestDir(dest) => Some(dest.clone()),
            Outcome::MergeDestDir(dest) => Some(dest.clone()),
            _ => None,
        };
        let ghost before = r@;
        let ghost seen_before = seen;
        let ghost known = outcomes@.take(i as int);
        if let Some(dest) = made {
            if dest.is_child_of(dir) {
                assert(made_in(dir@, outcomes@[i as int]) == Some(dest@));
                let nothing: Vec<u8> = Vec::new();
                assert(nothing@ =~= Seq::empty());
                if get_pair(&seen, dest.to_bytes(), nothing).is_none() {
                    let nothing: Vec<u8> = Vec::new();
                    assert(nothing@ =~= Seq::empty());
                    set_pair(&mut seen, dest.to_bytes(), nothing, 0);
                    r.push(dest);
                }
            }
        }
        proof {
            let next = outcomes@.take(i + 1);
            let new = made_in(dir@, outcomes@[i as int]);
            assert forall|p: Seq<Seq<u8>>| #[trigger] listed(r@, p) <==> was_made(dir@, next, p) by {
                made_grows(dir@, outcomes@, i as int, p);
                assert(listed(before, p) <==> was_made(dir@, known, p));
                if r@ != before {
                    listed_push(before, r@.last(), p);
                    assert(r@ =~= before.push(r@.last()));
                } else if new == Some(p) {
                    assert(collections::pairs(seen).dom().contains(objects::path_key(p)));
                }
            }
            assert forall|p: Seq<Seq<u8>>|
                path::valid_parts(p) implies (collections::pairs(seen).dom().contains(
                #[trigger] objects::path_key(p),
            ) <==> listed(r@, p)) by {
                assert(collections::pairs(seen_before).dom().contains(objects::path_key(p))
                    <==> listed(before, p));
                if r@ != before {
                    listed_push(before, r@.last(), p);
                    assert(r@ =~= before.push(r@.last()));
                    if objects::path_key(p) == objects::path_key(r@.last()@) {
                        path::path_round_trip(p);
                        path::path_round_trip(r@.last()@);
                    }
                }
            }
            assert forall|a: int, b: int| 0 <= a < b < r@.len() implies (#[trigger] r@[a])@ != (
            #[trigger] r@[b])@ by {
                if b == before.len() {
                    assert(before[a] == r@[a]);
                    assert(listed(before, r@[a]@));
                    assert(collections::pairs(seen_before).dom().contains(
                        objects::path_key(r@[a]@),
                    ));
                } else {
                    assert(before[a] == r@[a] && before[b] == r@[b]);
                }
            }
        }
        i += 1;
    }
    assert(outcomes@.take(i as int) =~= outcomes@);
    r
}

proof fn made_grows(dir: Seq<Seq<u8>>, outcomes: Seq<Outcome>, i: int, p: Seq<Seq<u8>>)
    requires
        0 <= i < outcomes.len(),
    ensures
        was_made(dir, outcomes.take(i + 1), p) <==> was_made(dir, outcomes.take(i), p) || made_in(
            dir,
            outcomes[i],
        ) == Some(p),
{
    let a = outcomes.take(i);
    let b = outcomes.take(i + 1);
    if was_made(dir, a, p) {
        let k = choose|k: int| 0 <= k < a.len() && made_in(dir, #[trigger] a[k]) == Some(p);
        assert(b[k] == a[k]);
    }
    if made_in(dir, outcomes[i]) == Some(p) {
        assert(b[i] == outcomes[i]);
    }
    if was_made(dir, b, p) {
        let k = choose|k: int| 0 <= k < b.len() && made_in(dir, #[trigger] b[k]) == Some(p);
        if k < i {
            assert(a[k] == b[k]);
        }
    }
}

proof fn listed_push(a: Seq<Arc<FilePath>>, x: Arc<FilePath>, p: Seq<Seq<u8>>)
    ensures
        listed(a.push(x), p) <==> listed(a, p) || x@ == p,
{
    let b = a.push(x);
    if listed(a, p) {
        let k = choose|k: int| 0 <= k < a.len() && (#[trigger] a[k])@ == p;
        assert(b[k] == a[k]);
    }
    if x@ == p {
        assert(b[a.len() as int] == x);
    }
    if listed(b, p) {
        let k = choose|k: int| 0 <= k < b.len() && (#[trigger] b[k])@ == p;
        if k < a.len() {
            assert(a[k] == b[k]);
        }
    }
}

fn is_listed(paths: &Vec<Arc<FilePath>>, p: &FilePath) -> (r: bool)
    ensures
        r == listed(paths@, p@),
{
    let mut i: usize = 0;
    while i < paths.len()
        invariant
            i <= paths@.len(),
            forall|k: int| 0 <= k < i ==> (#[trigger] paths@[k])@ != p@,
        decreases paths@.len() - i,
    {
        if paths[i].same(p) {
            return true;
        }
        i += 1;
    }
    false
}

impl Contents {
    /// Whether a row is in view.
    pub open spec fn shows(&self, e: &Entry) -> bool {
        self.query() matches Some(q) ==> contents::query_matches(q, e)
    }

    /// Selects what an operation made, as far as it is in view, and returns the
    /// state that scrolls to the first of it.
    pub fn scroll_to_completed_inner(&mut self, paths: &Vec<Arc<FilePath>>) -> (r: Option<PaneState>)
        requires
            old(self).list@.len() <= u32::MAX,
        ensures
            ({
                let rows = contents::visible_rows(old(self).list@, old(self).query());
                match r {
                    None => *final(self) == *old(self) && forall|i: int|
                        0 <= i < rows.len() ==> !listed(
                            paths@,
                            (#[trigger] rows[i]).entry.abs_path@,
                        ),
                    Some(state) => {
                        &&& final(self).list@.len() == old(self).list@.len()
                        &&& final(self).filter == old(self).filter
                        &&& final(self).sort == old(self).sort
                        &&& final(self).stale == old(self).stale
                        &&& forall|i: int|
                            0 <= i < old(self).list@.len() ==> #[trigger] final(self).list@[i] == (
                            Item {
                                entry: old(self).list@[i].entry,
                                selected: old(self).shows(&old(self).list@[i].entry) && listed(
                                    paths@,
                                    old(self).list@[i].entry.abs_path@,
                                ),
                            })
                        &&& state.scroll matches Some(s)
                        &&& s.precise is None
                        &&& s.index < rows.len()
                        &&& s.path@ == rows[s.index as int].entry.abs_path@
                        &&& listed(paths@, s.path@)
                        &&& forall|i: int|
                            0 <= i < s.index ==> !listed(
                                paths@,
                                (#[trigger] rows[i]).entry.abs_path@,
                            )
                        &&& state.focus matches Some(f)
                        &&& f.path == s.path
                        &&& !f.select
                    },
                }
            }),
    {
        let rows = self.visible();
        proof {
            contents::fewer_visible(self.list@, self.query());
        }
        let mut k: usize = 0;
        while k < rows.len()
            invariant
                *self == *old(self),
                k <= rows@.len(),
                rows@ == contents::visible_rows(self.list@, self.query()),
                rows@.len() <= u32::MAX,
                forall|i: int|
                    0 <= i < k ==> !listed(paths@, (#[trigger] rows@[i]).entry.abs_path@),
            decreases rows@.len() - k,
        {
            if is_listed(paths, &rows[k].entry.abs_path) {
                self.select_listed(paths);
                let path = Arc::new(rows[k].entry.abs_path.copy());
                return Some(
                    PaneState {
                        scroll: Some(
                            ScrollPosition { precise: None, path: path.clone(), index: k as u32 },
                        ),
                        focus: Some(FocusState { path, select: false }),
                    },
                );
            }
            k += 1;
        }
        None
    }

    fn select_listed(&mut self, paths: &Vec<Arc<FilePath>>)
        ensures
            final(self).list@.len() == old(self).list@.len(),
            final(self).filter == old(self).filter,
            final(self).sort == old(self).sort,
            final(self).stale == old(self).stale,
            forall|i: int|
                0 <= i < old(self).list@.len() ==> #[trigger] final(self).list@[i] == (Item {
                    entry: old(self).list@[i].entry,
                    selected: old(self).shows(&old(self).list@[i].entry) && listed(
                        paths@,
                        old(self).list@[i].entry.abs_path@,
                    ),
                }),
    {
        let ghost start = *self;
        let mut i: usize = 0;
        while i < self.list.len()
            invariant
                start == *old(self),
                self.list@.len() == start.list@.len(),
                self.filter == start.filter,
                self.sort == start.sort,
                self.stale == start.stale,
                i <= start.list@.len(),
                forall|k: int|
                    0 <= k < i ==> #[trigger] self.list@[k] == (Item {
                        entry: start.list@[k].entry,
                        selected: start.shows(&start.list@[k].entry) && listed(
                            paths@,
                            start.list@[k].entry.abs_path@,
                        ),
                    }),
                forall|k: int| i <= k < start.list@.len() ==> #[trigger] self.list@[k] == start.list@[k],
            decreases start.list@.len() - i,
        {
            assert(self.list@[i as int] == start.list@[i as int]);
            let e = self.list[i].entry.clone();
            let shown = match &self.filter {
                Some(q) => matches_query(q, &e),
                None => true,
            };
            let selected = shown && is_listed(paths, &e.abs_path);
            self.list.set(i, Item { entry: e, selected });
            i += 1;
        }
    }
}

impl Contents {
    /// The row that a state scrolls to, and whether it gets selected. Where the
    /// path is gone, the row that it had serves instead.
    pub open spec fn scroll_row(&self, all: Objects, state: PaneState) -> (int, bool) {
        match state.scroll {
            Some(s) => match all.entry_of(s.path@) {
                Some(e) => match self.place_of(&e) {
                    Some(p) => (p, state.focus matches Some(f) && f.select),
                    None => (0, false),
                },
                None => (s.index as int, false),
            },
            None => (0, false),
        }
    }

    pub fn scroll_target(&self, all: &Objects, state: &PaneState) -> (r: (u32, bool))
        requires
            all.valid(),
            !self.stale,
            contents::all_ready(self.list@),
            self.list@.len() <= u32::MAX,
            state.scroll matches Some(s) ==> path::valid_parts(s.path@),
        ensures
            (r.0 as int, r.1) == self.scroll_row(*all, *state),
    {
        match &state.scroll {
            Some(s) => match all.find_entry(&s.path) {
                Some(e) => {
                    proof {
                        let id = all.id_of(s.path@)->0;
                        assert(all.object(id) is Some);
                        assert(all.slots@[id as int] is Some);
                        let rows = contents::visible_rows(self.list@, self.query());
                        contents::fewer_visible(self.list@, self.query());
                        contents::probe_is_a_row(rows, &e, self.sort, 0, rows.len() as int);
                    }
                    match self.filtered_position_by_sorted(&e) {
                        Some(p) => {
                            let select = match &state.focus {
                                Some(f) => f.select,
                                None => false,
                            };
                            (p as u32, select)
                        },
                        None => (0, false),
                    }
                },
                None => (s.index, false),
            },
            None => (0, false),
        }
    }
}

/// Whether things can be pasted or dropped into a tab.
pub fn accepts_paste(search: bool, paste_into_search: bool) -> (r: bool)
    ensures
        r == (!search || paste_into_search),
{
    !search || paste_into_search
}

/// An operation that was undone is shown where the operation itself is. What was moved
/// or copied is shown in the directory that it went to, what was renamed or made in the
/// one that it is in, and what is gone nowhere.
pub proof fn results_are_shown_in_place(
    dir: Seq<Seq<u8>>,
    kind: Kind,
    d: Arc<FilePath>,
    name: Seq<u8>,
)
    ensures
        kind matches Kind::Undo { prev, .. } ==> shows_result(dir, kind) == shows_result(
            dir,
            prev.kind,
        ),
        kind == Kind::Move(d) || kind == Kind::Copy(d) ==> (shows_result(dir, kind) <==> d@ == dir),
        d@ == dir.push(name) && (kind == Kind::Rename(d) || kind == Kind::MakeDir(d) || kind
            == Kind::MakeFile(d)) ==> shows_result(dir, kind),
        kind == Kind::Trash(d) || kind == Kind::Delete(d) ==> !shows_result(dir, kind),
{
    assert(dir.push(name).drop_last() =~= dir);
}

/// Where the path that a state scrolls to is in use, its row is scrolled to. Where it
/// is gone, the row that it had is, and nothing is selected.
pub proof fn scrolls_to_the_path(c: &Contents, all: Objects, state: PaneState, s: ScrollPosition)
    requires
        state.scroll == Some(s),
    ensures
        all.entry_of(s.path@) matches Some(e) ==> (c.place_of(&e) matches Some(p)
            ==> c.scroll_row(all, state).0 == p && (c.scroll_row(all, state).1 <==> (
        state.focus matches Some(f) && f.select)) && contents::visible_rows(
            c.list@,
            c.query(),
        )[p].entry.abs_path@ == e.abs_path@),
        all.entry_of(s.path@) is None ==> c.scroll_row(all, state) == (s.index as int, false),
{
    if let Some(e) = all.entry_of(s.path@) {
        let rows = contents::visible_rows(c.list@, c.query());
        contents::probe_is_a_row(rows, &e, c.sort, 0, rows.len() as int);
    }
}

/// Without a path to scroll to, or where its entry is not shown, the first row is
/// scrolled to and nothing is selected.
pub proof fn scrolls_to_the_top(c: &Contents, all: Objects, state: PaneState)
    ensures
        state.scroll is None ==> c.scroll_row(all, state) == (0int, false),
        state.scroll matches Some(s) ==> (all.entry_of(s.path@) matches Some(e) ==> (
        c.place_of(&e) is None ==> c.scroll_row(all, state) == (0int, false))),
{
}

} // verus!
