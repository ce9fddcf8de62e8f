//! How the rows of tabs relate to the entries that are in use.
use std::sync::Arc;

use vstd::prelude::*;
use vstd::seq_lib::*;

use crate::contents::{self, Contents, Item, PartiallyAppliedUpdate};
use crate::entry::Entry;
use crate::objects::{self, Objects};
use crate::path;

verus! {

/// The paths of rows.
pub open spec fn path_set(list: Seq<Item>) -> Set<Seq<Seq<u8>>> {
    Set::new(|q: Seq<Seq<u8>>| contents::has_path(list, q))
}

/// The paths of the rows that are selected.
pub open spec fn chosen(list: Seq<Item>) -> Set<Seq<Seq<u8>>> {
    Set::new(
        |q: Seq<Seq<u8>>|
            exists|i: int|
                0 <= i < list.len() && (#[trigger] list[i]).entry.abs_path@ == q
                    && list[i].selected,
    )
}

/// Whether every row holds the entry that is in use for its path.
pub open spec fn synced(list: Seq<Item>, o: Objects) -> bool {
    forall|i: int|
        0 <= i < list.len() ==> o.entry_of((#[trigger] list[i]).entry.abs_path@) == Some(
            list[i].entry,
        )
}

/// Rows that are in order, each for another path, and up to date.
pub open spec fn sound(c: Contents, o: Objects) -> bool {
    !c.stale && c.valid() && contents::distinct_paths(c.list@) && synced(c.list@, o)
}

/// Whether the entries in use are the same but for one path.
pub open spec fn same_but(before: Objects, after: Objects, p: Seq<Seq<u8>>) -> bool {
    forall|q: Seq<Seq<u8>>|
        path::valid_parts(q) && q != p ==> #[trigger] after.entry_of(q) == before.entry_of(q)
}

/// Whether all entries that were in use still are what they were.
pub open spec fn kept(before: Objects, after: Objects) -> bool {
    forall|q: Seq<Seq<u8>>|
        path::valid_parts(q) && before.entry_of(q) is Some ==> #[trigger] after.entry_of(q)
            == before.entry_of(q)
}

/// Rows stay up to date while the entries they hold are kept.
pub proof fn kept_is_synced(list: Seq<Item>, before: Objects, after: Objects)
    requires
        before.valid(),
        synced(list, before),
        kept(before, after),
    ensures
        synced(list, after),
{
    assert forall|i: int| 0 <= i < list.len() implies after.entry_of(
        (#[trigger] list[i]).entry.abs_path@,
    ) == Some(list[i].entry) by {
        valid_row(list, before, i);
    }
}

pub proof fn row_in_set(list: Seq<Item>, i: int)
    requires
        0 <= i < list.len(),
    ensures
        path_set(list).contains(list[i].entry.abs_path@),
{
    assert(contents::has_path(list, list[i].entry.abs_path@));
}

pub proof fn valid_row(list: Seq<Item>, o: Objects, i: int)
    requires
        o.valid(),
        synced(list, o),
        0 <= i < list.len(),
    ensures
        path::valid_parts(list[i].entry.abs_path@),
        list[i].entry.ready(),
{
    let p = list[i].entry.abs_path@;
    assert(o.entry_of(p) == Some(list[i].entry));
    let id = o.id_of(p)->0;
    assert(o.object(id) is Some);
    assert(o.slots@[id as int] is Some);
}

/// Rows that lack a path do not notice a change to it.
pub proof fn stays_synced(list: Seq<Item>, before: Objects, after: Objects, p: Seq<Seq<u8>>)
    requires
        before.valid(),
        synced(list, before),
        same_but(before, after, p),
        !contents::has_path(list, p),
    ensures
        synced(list, after),
{
    assert forall|i: int| 0 <= i < list.len() implies after.entry_of(
        (#[trigger] list[i]).entry.abs_path@,
    ) == Some(list[i].entry) by {
        valid_row(list, before, i);
        row_in_set(list, i);
    }
}

/// Sound rows can be searched by the entry that is in use for a path.
pub proof fn sound_is_locatable(c: Contents, o: Objects, e: &Entry)
    requires
        sound(c, o),
        o.entry_of(e.abs_path@) matches Some(x) && *x == *e,
    ensures
        contents::locatable(c.list@, e, c.sort),
{
    assert forall|i: int|
        0 <= i < c.list@.len() && (#[trigger] c.list@[i]).entry.abs_path@ == e.abs_path@ implies
        *c.list@[i].entry == *e by {
        assert(o.entry_of(c.list@[i].entry.abs_path@) == Some(c.list@[i].entry));
    }
    contents::in_order_is_locatable(c.list@, e, c.sort);
}

/// Replacing the entry of a row, wherever the row then stands.
pub proof fn mutating_rows(
    list: Seq<Item>,
    p: int,
    k: int,
    new: Item,
    before: Objects,
    after: Objects,
)
    requires
        before.valid(),
        contents::distinct_paths(list),
        synced(list, before),
        0 <= p < list.len(),
        0 <= k <= list.len() - 1,
        new.entry.abs_path@ == list[p].entry.abs_path@,
        after.entry_of(new.entry.abs_path@) == Some(new.entry),
        same_but(before, after, new.entry.abs_path@),
    ensures
        contents::distinct_paths(list.remove(p).insert(k, new)),
        synced(list.remove(p).insert(k, new), after),
        path_set(list.remove(p).insert(k, new)) == path_set(list),
{
    let rest = list.remove(p);
    removing_rows(list, p, before);
    let path = new.entry.abs_path@;
    assert(!contents::has_path(rest, path)) by {
        assert(!path_set(rest).contains(path));
    }
    stays_synced(rest, before, after, path);
    inserting_rows(rest, k, new, after);
    assert(path_set(list).contains(path)) by {
        row_in_set(list, p);
    }
    assert(path_set(rest.insert(k, new)) =~= path_set(list));
}

/// Putting in a row for a path that has none.
pub proof fn inserting_rows(list: Seq<Item>, k: int, new: Item, o: Objects)
    requires
        contents::distinct_paths(list),
        synced(list, o),
        0 <= k <= list.len(),
        !contents::has_path(list, new.entry.abs_path@),
        o.entry_of(new.entry.abs_path@) == Some(new.entry),
    ensures
        contents::distinct_paths(list.insert(k, new)),
        synced(list.insert(k, new), o),
        path_set(list.insert(k, new)) == path_set(list).insert(new.entry.abs_path@),
{
    let after = list.insert(k, new);
    assert forall|i: int| 0 <= i < list.len() implies (#[trigger] list[i]).entry.abs_path@
        != new.entry.abs_path@ by {
        row_in_set(list, i);
    }
    assert forall|i: int, j: int| 0 <= i < j < after.len() implies (
    #[trigger] after[i]).entry.abs_path@ != (#[trigger] after[j]).entry.abs_path@ by {
        if i == k {
            assert(after[j] == list[j - 1]);
        } else if j == k {
            assert(after[i] == list[i]);
        } else {
            let a = if i < k { i } else { i - 1 };
            let b = if j < k { j } else { j - 1 };
            assert(after[i] == list[a] && after[j] == list[b]);
        }
    }
    assert forall|i: int| 0 <= i < after.len() implies o.entry_of(
        (#[trigger] after[i]).entry.abs_path@,
    ) == Some(after[i].entry) by {
        if i != k {
            let a = if i < k { i } else { i - 1 };
            assert(after[i] == list[a]);
        }
    }
    assert forall|q: Seq<Seq<u8>>| path_set(after).contains(q) == path_set(list).insert(
        new.entry.abs_path@,
    ).contains(q) by {
        if contents::has_path(list, q) {
            let i = choose|i: int|
                0 <= i < list.len() && (#[trigger] list[i]).entry.abs_path@ == q;
            let a = if i < k { i } else { i + 1 };
            assert(after[a].entry.abs_path@ == q);
        }
        if q == new.entry.abs_path@ {
            assert(after[k].entry.abs_path@ == q);
        }
        if contents::has_path(after, q) && q != new.entry.abs_path@ {
            let i = choose|i: int|
                0 <= i < after.len() && (#[trigger] after[i]).entry.abs_path@ == q;
            let a = if i < k { i } else { i - 1 };
            assert(list[a].entry.abs_path@ == q);
        }
    }
    assert(path_set(after) =~= path_set(list).insert(new.entry.abs_path@));
}

/// Taking out a row.
pub proof fn removing_rows(list: Seq<Item>, p: int, o: Objects)
    requires
        contents::distinct_paths(list),
        synced(list, o),
        0 <= p < list.len(),
    ensures
        contents::distinct_paths(list.remove(p)),
        synced(list.remove(p), o),
        path_set(list.remove(p)) == path_set(list).remove(list[p].entry.abs_path@),
{
    let after = list.remove(p);
    let path = list[p].entry.abs_path@;
    assert forall|i: int, j: int| 0 <= i < j < after.len() implies (
    #[trigger] after[i]).entry.abs_path@ != (#[trigger] after[j]).entry.abs_path@ by {
        let a = if i < p { i } else { i + 1 };
        let b = if j < p { j } else { j + 1 };
        assert(after[i] == list[a] && after[j] == list[b]);
    }
    assert forall|i: int| 0 <= i < after.len() implies o.entry_of(
        (#[trigger] after[i]).entry.abs_path@,
    ) == Some(after[i].entry) by {
        let a = if i < p { i } else { i + 1 };
        assert(after[i] == list[a]);
    }
    assert forall|q: Seq<Seq<u8>>| path_set(after).contains(q) == path_set(list).remove(
        path,
    ).contains(q) by {
        if contents::has_path(list, q) && q != path {
            let i = choose|i: int|
                0 <= i < list.len() && (#[trigger] list[i]).entry.abs_path@ == q;
            let a = if i < p { i } else { i - 1 };
            assert(after[a].entry.abs_path@ == q);
        }
        if contents::has_path(after, q) {
            let i = choose|i: int|
                0 <= i < after.len() && (#[trigger] after[i]).entry.abs_path@ == q;
            let a = if i < p { i } else { i + 1 };
            assert(list[a].entry.abs_path@ == q);
            if q == path {
                assert(a != p);
            }
        }
    }
    assert(path_set(after) =~= path_set(list).remove(path));
}

/// A new row is not selected, and leaves the others as they are.
pub proof fn inserting_keeps_chosen(list: Seq<Item>, k: int, new: Item)
    requires
        0 <= k <= list.len(),
        !new.selected,
    ensures
        chosen(list.insert(k, new)) == chosen(list),
{
    let after = list.insert(k, new);
    assert forall|q: Seq<Seq<u8>>| chosen(after).contains(q) == chosen(list).contains(q) by {
        if chosen(list).contains(q) {
            let i = choose|i: int|
                0 <= i < list.len() && (#[trigger] list[i]).entry.abs_path@ == q
                    && list[i].selected;
            let a = if i < k { i } else { i + 1 };
            assert(after[a] == list[i]);
        }
        if chosen(after).contains(q) {
            let i = choose|i: int|
                0 <= i < after.len() && (#[trigger] after[i]).entry.abs_path@ == q
                    && after[i].selected;
            assert(i != k);
            let a = if i < k { i } else { i - 1 };
            assert(after[i] == list[a]);
        }
    }
    assert(chosen(after) =~= chosen(list));
}

/// Taking out a row leaves the other selected ones.
pub proof fn removing_keeps_chosen(list: Seq<Item>, p: int)
    requires
        contents::distinct_paths(list),
        0 <= p < list.len(),
    ensures
        chosen(list.remove(p)) == chosen(list).remove(list[p].entry.abs_path@),
{
    let after = list.remove(p);
    let path = list[p].entry.abs_path@;
    assert forall|q: Seq<Seq<u8>>| chosen(after).contains(q) == chosen(list).remove(path).contains(
        q,
    ) by {
        if chosen(list).contains(q) && q != path {
            let i = choose|i: int|
                0 <= i < list.len() && (#[trigger] list[i]).entry.abs_path@ == q
                    && list[i].selected;
            let a = if i < p { i } else { i - 1 };
            assert(after[a] == list[i]);
        }
        if chosen(after).contains(q) {
            let i = choose|i: int|
                0 <= i < after.len() && (#[trigger] after[i]).entry.abs_path@ == q
                    && after[i].selected;
            let a = if i < p { i } else { i + 1 };
            assert(after[i] == list[a]);
            if q == path {
                assert(a != p);
            }
        }
    }
    assert(chosen(after) =~= chosen(list).remove(path));
}

/// The paths of entries.
pub open spec fn entry_paths(entries: Seq<Arc<Entry>>) -> Set<Seq<Seq<u8>>> {
    Set::new(
        |q: Seq<Seq<u8>>|
            exists|i: int| 0 <= i < entries.len() && (#[trigger] entries[i]).abs_path@ == q,
    )
}

/// Whether every one of the entries is the one that is in use for its path.
pub open spec fn in_use(entries: Seq<Arc<Entry>>, o: Objects) -> bool {
    forall|i: int|
        0 <= i < entries.len() ==> o.entry_of((#[trigger] entries[i]).abs_path@) == Some(entries[i])
}

/// Whether the entries in use are the same but for the paths of those that were
/// read.
pub open spec fn same_outside(before: Objects, after: Objects, entries: Seq<Arc<Entry>>) -> bool {
    forall|p: Seq<Seq<u8>>|
        path::valid_parts(p) && !objects::lists(entries, p) ==> #[trigger] after.entry_of(p)
            == before.entry_of(p)
}

/// Rows for other paths do not notice that entries were read.
pub proof fn outside_is_synced(
    list: Seq<Item>,
    before: Objects,
    after: Objects,
    entries: Seq<Arc<Entry>>,
)
    requires
        before.valid(),
        synced(list, before),
        same_outside(before, after, entries),
        path_set(list).disjoint(entry_paths(entries)),
    ensures
        synced(list, after),
{
    assert forall|i: int| 0 <= i < list.len() implies after.entry_of(
        (#[trigger] list[i]).entry.abs_path@,
    ) == Some(list[i].entry) by {
        valid_row(list, before, i);
        row_in_set(list, i);
        assert(!entry_paths(entries).contains(list[i].entry.abs_path@));
    }
}

/// The order of rows does not matter for what they hold.
pub proof fn permuted_rows(a: Seq<Item>, b: Seq<Item>, o: Objects)
    requires
        a.to_multiset() == b.to_multiset(),
        contents::distinct_paths(b),
        synced(b, o),
    ensures
        contents::distinct_paths(a),
        synced(a, o),
        path_set(a) == path_set(b),
        chosen(a) == chosen(b),
{
    broadcast use group_to_multiset_ensures;

    assert(b.no_duplicates()) by {
        assert forall|i: int, j: int| 0 <= i < b.len() && 0 <= j < b.len() && i != j implies b[i]
            != b[j] by {
            let x = if i < j { i } else { j };
            let y = if i < j { j } else { i };
            assert(b[x].entry.abs_path@ != b[y].entry.abs_path@);
        }
    }
    b.lemma_multiset_has_no_duplicates();
    a.lemma_multiset_has_no_duplicates_conv();
    assert forall|i: int| 0 <= i < a.len() implies b.contains(#[trigger] a[i]) by {
        assert(a.contains(a[i]));
        assert(b.to_multiset().count(a[i]) > 0);
    }
    assert forall|i: int| 0 <= i < b.len() implies a.contains(#[trigger] b[i]) by {
        assert(b.contains(b[i]));
        assert(a.to_multiset().count(b[i]) > 0);
    }
    assert forall|i: int, j: int| 0 <= i < j < a.len() implies (#[trigger] a[i]).entry.abs_path@
        != (#[trigger] a[j]).entry.abs_path@ by {
        let x = b.index_of(a[i]);
        let y = b.index_of(a[j]);
        assert(b.contains(a[i]) && b.contains(a[j]));
        assert(b[x] == a[i] && b[y] == a[j]);
        assert(x != y);
        if x < y {
            assert(b[x].entry.abs_path@ != b[y].entry.abs_path@);
        } else {
            assert(b[y].entry.abs_path@ != b[x].entry.abs_path@);
        }
    }
    assert forall|i: int| 0 <= i < a.len() implies o.entry_of((#[trigger] a[i]).entry.abs_path@)
        == Some(a[i].entry) by {
        assert(b.contains(a[i]));
        let x = b.index_of(a[i]);
        assert(b[x] == a[i]);
    }
    assert forall|q: Seq<Seq<u8>>| path_set(a).contains(q) == path_set(b).contains(q) by {
        if contents::has_path(a, q) {
            let i = choose|i: int| 0 <= i < a.len() && (#[trigger] a[i]).entry.abs_path@ == q;
            assert(b.contains(a[i]));
            let x = b.index_of(a[i]);
            assert(b[x].entry.abs_path@ == q);
        }
        if contents::has_path(b, q) {
            let i = choose|i: int| 0 <= i < b.len() && (#[trigger] b[i]).entry.abs_path@ == q;
            assert(a.contains(b[i]));
            let x = a.index_of(b[i]);
            assert(a[x].entry.abs_path@ == q);
        }
    }
    assert(path_set(a) =~= path_set(b));
    assert forall|q: Seq<Seq<u8>>| chosen(a).contains(q) == chosen(b).contains(q) by {
        if chosen(a).contains(q) {
            let i = choose|i: int|
                0 <= i < a.len() && (#[trigger] a[i]).entry.abs_path@ == q && a[i].selected;
            assert(b.contains(a[i]));
            let x = b.index_of(a[i]);
            assert(b[x] == a[i]);
        }
        if chosen(b).contains(q) {
            let i = choose|i: int|
                0 <= i < b.len() && (#[trigger] b[i]).entry.abs_path@ == q && b[i].selected;
            assert(a.contains(b[i]));
            let x = a.index_of(b[i]);
            assert(a[x] == b[i]);
        }
    }
    assert(chosen(a) =~= chosen(b));
}

/// Adding rows for entries that have none.
pub proof fn joined_rows(list: Seq<Item>, entries: Seq<Arc<Entry>>, o: Objects)
    requires
        contents::distinct_paths(list),
        synced(list, o),
        objects::apart(entries),
        in_use(entries, o),
        path_set(list).disjoint(entry_paths(entries)),
    ensures
        contents::distinct_paths(list + contents::all_unselected(entries)),
        synced(list + contents::all_unselected(entries), o),
        path_set(list + contents::all_unselected(entries)) == path_set(list).union(
            entry_paths(entries),
        ),
        chosen(list + contents::all_unselected(entries)) == chosen(list),
{
    let new = contents::all_unselected(entries);
    let both = list + new;
    let n = list.len() as int;
    assert forall|i: int| 0 <= i < new.len() implies (#[trigger] new[i]).entry == entries[i] by {}
    assert forall|i: int, j: int| 0 <= i < j < both.len() implies (
    #[trigger] both[i]).entry.abs_path@ != (#[trigger] both[j]).entry.abs_path@ by {
        if j < n {
            assert(both[i] == list[i] && both[j] == list[j]);
        } else if i < n {
            assert(both[i] == list[i] && both[j] == new[j - n]);
            row_in_set(list, i);
            assert(entry_paths(entries).contains(entries[j - n].abs_path@));
        } else {
            assert(both[i] == new[i - n] && both[j] == new[j - n]);
            assert(entries[i - n].abs_path@ != entries[j - n].abs_path@);
        }
    }
    assert forall|i: int| 0 <= i < both.len() implies o.entry_of(
        (#[trigger] both[i]).entry.abs_path@,
    ) == Some(both[i].entry) by {
        if i < n {
            assert(both[i] == list[i]);
        } else {
            assert(both[i] == new[i - n]);
            assert(o.entry_of(entries[i - n].abs_path@) == Some(entries[i - n]));
        }
    }
    assert forall|q: Seq<Seq<u8>>| path_set(both).contains(q) == path_set(list).union(
        entry_paths(entries),
    ).contains(q) by {
        if contents::has_path(list, q) {
            let i = choose|i: int| 0 <= i < list.len() && (#[trigger] list[i]).entry.abs_path@ == q;
            assert(both[i].entry.abs_path@ == q);
        }
        if entry_paths(entries).contains(q) {
            let i = choose|i: int| 0 <= i < entries.len() && (#[trigger] entries[i]).abs_path@ == q;
            assert(both[i + n].entry.abs_path@ == q);
        }
        if contents::has_path(both, q) {
            let i = choose|i: int| 0 <= i < both.len() && (#[trigger] both[i]).entry.abs_path@ == q;
            if i < n {
                assert(list[i].entry.abs_path@ == q);
            } else {
                assert(entries[i - n].abs_path@ == q);
            }
        }
    }
    assert(path_set(both) =~= path_set(list).union(entry_paths(entries)));
    assert forall|q: Seq<Seq<u8>>| chosen(both).contains(q) == chosen(list).contains(q) by {
        if chosen(list).contains(q) {
            let i = choose|i: int|
                0 <= i < list.len() && (#[trigger] list[i]).entry.abs_path@ == q
                    && list[i].selected;
            assert(both[i] == list[i]);
        }
        if chosen(both).contains(q) {
            let i = choose|i: int|
                0 <= i < both.len() && (#[trigger] both[i]).entry.abs_path@ == q
                    && both[i].selected;
            if i >= n {
                assert(both[i] == new[i - n]);
            }
            assert(both[i] == list[i]);
        }
    }
    assert(chosen(both) =~= chosen(list));
}

proof fn unselected_rows(list: Seq<Item>, entries: Seq<Arc<Entry>>)
    requires
        contents::distinct_paths(list),
        entries.len() == list.len(),
        forall|i: int| 0 <= i < list.len() ==> #[trigger] entries[i] == list[i].entry,
    ensures
        contents::all_unselected(entries).no_duplicates(),
{
    let u = contents::all_unselected(entries);
    assert forall|i: int, j: int| 0 <= i < u.len() && 0 <= j < u.len() && i != j implies u[i]
        != u[j] by {
        let x = if i < j { i } else { j };
        let y = if i < j { j } else { i };
        assert(entries[x] == list[x].entry && entries[y] == list[y].entry);
        assert(list[x].entry.abs_path@ != list[y].entry.abs_path@);
    }
}

/// Sound rows for the same paths in the same order are the same, but for which of
/// them are selected.
pub proof fn same_paths_same_rows(a: Contents, b: Contents, o: Objects)
    requires
        sound(a, o),
        sound(b, o),
        a.sort == b.sort,
        path_set(a.list@) == path_set(b.list@),
    ensures
        a.list@.len() == b.list@.len(),
        forall|i: int|
            0 <= i < a.list@.len() ==> (#[trigger] a.list@[i]).entry == b.list@[i].entry,
{
    broadcast use group_to_multiset_ensures;

    let ea = Seq::new(a.list@.len(), |i: int| a.list@[i].entry);
    let eb = Seq::new(b.list@.len(), |i: int| b.list@[i].entry);
    let ua = contents::all_unselected(ea);
    let ub = contents::all_unselected(eb);
    unselected_rows(a.list@, ea);
    unselected_rows(b.list@, eb);
    assert forall|x: Item| ua.contains(x) == ub.contains(x) by {
        if ua.contains(x) {
            let i = ua.index_of(x);
            row_in_set(a.list@, i);
            assert(contents::has_path(b.list@, a.list@[i].entry.abs_path@));
            let j = choose|j: int|
                0 <= j < b.list@.len() && (#[trigger] b.list@[j]).entry.abs_path@
                    == a.list@[i].entry.abs_path@;
            assert(o.entry_of(b.list@[j].entry.abs_path@) == Some(b.list@[j].entry));
            assert(o.entry_of(a.list@[i].entry.abs_path@) == Some(a.list@[i].entry));
            assert(ub[j] == x);
        }
        if ub.contains(x) {
            let i = ub.index_of(x);
            row_in_set(b.list@, i);
            assert(contents::has_path(a.list@, b.list@[i].entry.abs_path@));
            let j = choose|j: int|
                0 <= j < a.list@.len() && (#[trigger] a.list@[j]).entry.abs_path@
                    == b.list@[i].entry.abs_path@;
            assert(o.entry_of(a.list@[j].entry.abs_path@) == Some(a.list@[j].entry));
            assert(o.entry_of(b.list@[i].entry.abs_path@) == Some(b.list@[i].entry));
            assert(ua[j] == x);
        }
    }
    ua.lemma_multiset_has_no_duplicates();
    ub.lemma_multiset_has_no_duplicates();
    assert forall|x: Item| ua.to_multiset().count(x) == ub.to_multiset().count(x) by {
        assert(ua.contains(x) == ub.contains(x));
        if ua.contains(x) {
            assert(ua.to_multiset().contains(x) && ub.to_multiset().contains(x));
        } else {
            assert(ua.to_multiset().count(x) == 0 && ub.to_multiset().count(x) == 0);
        }
    }
    assert(ua.to_multiset() =~= ub.to_multiset());
    assert forall|i: int, j: int| 0 <= i < j < ua.len() implies !(crate::entry::entry_order(
        &#[trigger] ua[i].entry,
        &#[trigger] ua[j].entry,
        a.sort,
    ) is Greater) by {
        assert(ua[i].entry == a.list@[i].entry && ua[j].entry == a.list@[j].entry);
    }
    assert forall|i: int, j: int| 0 <= i < j < ub.len() implies !(crate::entry::entry_order(
        &#[trigger] ub[i].entry,
        &#[trigger] ub[j].entry,
        a.sort,
    ) is Greater) by {
        assert(ub[i].entry == b.list@[i].entry && ub[j].entry == b.list@[j].entry);
    }
    assert forall|i: int, j: int| 0 <= i < j < ua.len() implies (#[trigger] ua[i]).entry.abs_path@
        != (#[trigger] ua[j]).entry.abs_path@ by {
        assert(ua[i].entry == a.list@[i].entry && ua[j].entry == a.list@[j].entry);
    }
    assert forall|i: int| 0 <= i < ua.len() implies (#[trigger] ua[i]).entry.ready() by {
        assert(a.list@[i].entry.ready());
    }
    assert forall|i: int| 0 <= i < ub.len() implies (#[trigger] ub[i]).entry.ready() by {
        assert(b.list@[i].entry.ready());
    }
    contents::order_is_unique(ua, ub, a.sort);
    assert(ua.len() == ub.len());
    assert forall|i: int| 0 <= i < a.list@.len() implies (#[trigger] a.list@[i]).entry
        == b.list@[i].entry by {
        assert(ua[i] == ub[i]);
    }
}

/// What an update does to the paths of rows that it applies to.
pub open spec fn paths_after(update: PartiallyAppliedUpdate, paths: Set<Seq<Seq<u8>>>) -> Set<
    Seq<Seq<u8>>,
> {
    match update {
        PartiallyAppliedUpdate::Mutate(_, _) => paths,
        PartiallyAppliedUpdate::Insert(e) => paths.insert(e.abs_path@),
        PartiallyAppliedUpdate::Delete(e) => paths.remove(e.abs_path@),
    }
}

/// Whether an update says how the entries in use have changed.
pub open spec fn tells(update: PartiallyAppliedUpdate, before: Objects, after: Objects) -> bool {
    &&& before.valid()
    &&& after.valid()
    &&& same_but(before, after, update.spec_entry().abs_path@)
    &&& update.spec_entry().ready()
    &&& match update {
        PartiallyAppliedUpdate::Mutate(old_entry, new) => {
            &&& old_entry.ready()
            &&& old_entry.abs_path@ == new.abs_path@
            &&& before.entry_of(new.abs_path@) == Some(old_entry)
            &&& after.entry_of(new.abs_path@) == Some(new)
        },
        PartiallyAppliedUpdate::Insert(e) => after.entry_of(e.abs_path@) == Some(e),
        PartiallyAppliedUpdate::Delete(e) => before.entry_of(e.abs_path@) == Some(e)
            && after.entry_of(e.abs_path@) == Some(e),
    }
}

/// What an update does to rows that may lack what it is about.
pub open spec fn applied(update: PartiallyAppliedUpdate, before: Contents, after: Contents) -> bool {
    if update is Insert || path_set(before.list@).contains(update.spec_entry().abs_path@) {
        before.after_update(&update, after.list@)
    } else {
        after.list@ == before.list@
    }
}

/// Applies an update to rows that it fits: what it changes or deletes has a row,
/// and what it inserts has none. Afterwards they are up to date again.
pub(crate) fn apply(
    c: &mut Contents,
    update: PartiallyAppliedUpdate,
    Ghost(before): Ghost<Objects>,
    Ghost(after): Ghost<Objects>,
)
    requires
        sound(*old(c), before),
        tells(update, before, after),
        path_set(old(c).list@).contains(update.spec_entry().abs_path@) == !(update is Insert),
    ensures
        sound(*final(c), after),
        final(c).sort == old(c).sort,
        final(c).filter == old(c).filter,
        path_set(final(c).list@) == paths_after(update, path_set(old(c).list@)),
        old(c).after_update(&update, final(c).list@),
{
    let ghost list = c.list@;
    let ghost start = *c;
    let ghost u = update;
    let ghost path = update.spec_entry().abs_path@;
    proof {
        match u {
            PartiallyAppliedUpdate::Mutate(old_entry, new) => {
                sound_is_locatable(*c, before, &old_entry);
                assert forall|p: int| #[trigger] c.row_is_for(p, old_entry.abs_path@) implies
                    contents::in_order(c.list@.remove(p), c.sort) by {
                    contents::remove_keeps_order(c.list@, p, c.sort);
                }
            },
            PartiallyAppliedUpdate::Insert(_) => {},
            PartiallyAppliedUpdate::Delete(old_entry) => {
                sound_is_locatable(*c, before, &old_entry);
            },
        }
    }
    c.finish_update(update);
    proof {
        match u {
            PartiallyAppliedUpdate::Mutate(old_entry, new) => {
                let p = choose|p: int| #[trigger]
                    start.row_is_for(p, old_entry.abs_path@) && c.list@ == start.moved(
                        p,
                        new,
                        &old_entry,
                    );
                let rest = list.remove(p);
                contents::remove_keeps_order(list, p, start.sort);
                contents::rank_bounds(rest, &new, start.sort);
                let k = contents::rank(rest, &new, start.sort) as int;
                let item = c.list@[k];
                assert(c.list@ =~= rest.insert(k, item));
                mutating_rows(list, p, k, item, before, after);
            },
            PartiallyAppliedUpdate::Insert(new) => {
                let item = contents::unselected(new);
                contents::rank_bounds(list, &new, start.sort);
                stays_synced(list, before, after, path);
                inserting_rows(
                    list,
                    contents::rank(list, &new, start.sort) as int,
                    item,
                    after,
                );
            },
            PartiallyAppliedUpdate::Delete(old_entry) => {
                let p = choose|p: int| #[trigger]
                    start.row_is_for(p, old_entry.abs_path@) && c.list@ == list.remove(p);
                removing_rows(list, p, before);
                stays_synced(c.list@, before, after, path);
            },
        }
    }
}

} // verus!
