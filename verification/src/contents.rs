//! The sorted list of entries that a tab shows.
use std::sync::Arc;

use vstd::multiset::Multiset;
use vstd::prelude::*;
use vstd::seq_lib::*;

use crate::entry::{self, Entry};
use crate::order::Order;
use crate::path::FilePath;
use crate::settings::SortSettings;
use crate::text::{self, contains_bytes, copy_bytes};

verus! {

/// One row of the list.
pub struct Item {
    pub entry: Arc<Entry>,
    pub selected: bool,
}

impl Item {
    pub fn copy(&self) -> (r: Item)
        ensures
            r == *self,
    {
        Item { entry: self.entry.clone(), selected: self.selected }
    }
}

/// A row that is not selected.
pub open spec fn unselected(e: Arc<Entry>) -> Item {
    Item { entry: e, selected: false }
}

pub open spec fn all_unselected(v: Seq<Arc<Entry>>) -> Seq<Item> {
    Seq::new(v.len(), |i: int| unselected(v[i]))
}

/// Whether the kind of every entry is known.
pub open spec fn all_ready(list: Seq<Item>) -> bool {
    forall|i: int| 0 <= i < list.len() ==> (#[trigger] list[i]).entry.ready()
}

/// Whether no row sorts before a row above it.
pub open spec fn in_order(list: Seq<Item>, sort: SortSettings) -> bool {
    forall|i: int, j: int|
        0 <= i < j < list.len() ==> !(entry::entry_order(
            &#[trigger] list[i].entry,
            &#[trigger] list[j].entry,
            sort,
        ) is Greater)
}

/// Whether no two rows are for the same path.
pub open spec fn distinct_paths(list: Seq<Item>) -> bool {
    forall|i: int, j: int|
        0 <= i < j < list.len() ==> (#[trigger] list[i]).entry.abs_path@ != (
        #[trigger] list[j]).entry.abs_path@
}

/// The number of rows that do not sort after `e`: where `e` belongs in a list
/// that is in order.
pub open spec fn rank(list: Seq<Item>, e: &Entry, sort: SortSettings) -> nat
    decreases list.len(),
{
    if list.len() == 0 {
        0
    } else {
        rank(list.drop_last(), e, sort) + if entry::entry_order(
            &list.last().entry,
            e,
            sort,
        ) is Greater {
            0nat
        } else {
            1nat
        }
    }
}

/// The row at which halving the range from `start` to `end` meets the path of
/// `e`, going by the order of `e` against the rows it passes.
pub open spec fn probe(
    list: Seq<Item>,
    e: &Entry,
    sort: SortSettings,
    start: int,
    end: int,
) -> Option<int>
    decreases end - start,
{
    if start >= end {
        None
    } else {
        let mid = start + (end - start) / 2;
        if list[mid].entry.abs_path@ == e.abs_path@ {
            Some(mid)
        } else if entry::entry_order(e, &list[mid].entry, sort) is Less {
            probe(list, e, sort, start, mid)
        } else {
            probe(list, e, sort, mid + 1, end)
        }
    }
}

/// What the search finds is a row for the path.
pub proof fn probe_is_a_row(list: Seq<Item>, e: &Entry, sort: SortSettings, start: int, end: int)
    ensures
        probe(list, e, sort, start, end) matches Some(p) ==> start <= p < end
            && list[p].entry.abs_path@ == e.abs_path@,
    decreases end - start,
{
    if start < end {
        let mid = start + (end - start) / 2;
        probe_is_a_row(list, e, sort, start, mid);
        probe_is_a_row(list, e, sort, mid + 1, end);
    }
}

/// Whether every other row is on the right side of the row for `e`'s path,
/// compared with `e`. The row itself may hold a newer version of the entry.
pub open spec fn locatable(list: Seq<Item>, e: &Entry, sort: SortSettings) -> bool {
    forall|p: int, i: int|
        0 <= p < list.len() && 0 <= i < list.len() && (#[trigger] list[p]).entry.abs_path@
            == e.abs_path@ && (#[trigger] list[i]).entry.abs_path@ != e.abs_path@ ==> (i < p
            ==> entry::entry_order(&list[i].entry, e, sort) is Less) && (i > p
            ==> entry::entry_order(e, &list[i].entry, sort) is Less)
}

/// Whether some row is for the given path.
pub open spec fn has_path(list: Seq<Item>, path: Seq<Seq<u8>>) -> bool {
    exists|i: int| 0 <= i < list.len() && (#[trigger] list[i]).entry.abs_path@ == path
}

proof fn probe_finds(list: Seq<Item>, e: &Entry, sort: SortSettings, start: int, end: int)
    requires
        0 <= start <= end <= list.len(),
        locatable(list, e, sort),
        forall|p: int|
            0 <= p < list.len() && (#[trigger] list[p]).entry.abs_path@ == e.abs_path@ ==> start
                <= p < end,
    ensures
        probe(list, e, sort, start, end) matches Some(p) ==> 0 <= p < list.len()
            && list[p].entry.abs_path@ == e.abs_path@,
        probe(list, e, sort, start, end) is None ==> !has_path(list, e.abs_path@),
    decreases end - start,
{
    if start < end {
        let mid = start + (end - start) / 2;
        if list[mid].entry.abs_path@ != e.abs_path@ {
            entry::entry_order_antisymmetric(e, &list[mid].entry, sort);
            if entry::entry_order(e, &list[mid].entry, sort) is Less {
                probe_finds(list, e, sort, start, mid);
            } else {
                probe_finds(list, e, sort, mid + 1, end);
            }
        }
    }
}

/// Searching a list for an entry finds its path exactly if it is there, as long
/// as only the row for that path has changed since the list was in order.
pub proof fn search_is_exact(list: Seq<Item>, e: &Entry, sort: SortSettings)
    requires
        locatable(list, e, sort),
    ensures
        probe(list, e, sort, 0, list.len() as int) is Some <==> has_path(list, e.abs_path@),
        probe(list, e, sort, 0, list.len() as int) matches Some(p) ==> 0 <= p < list.len()
            && list[p].entry.abs_path@ == e.abs_path@,
{
    probe_finds(list, e, sort, 0, list.len() as int);
}

/// A list in order with distinct paths, in which one row is then replaced by
/// another version of its entry, can still be searched by the old version.
pub proof fn one_update_keeps_locatable(
    list: Seq<Item>,
    p: int,
    new: Item,
    sort: SortSettings,
)
    requires
        0 <= p < list.len(),
        in_order(list, sort),
        distinct_paths(list),
        new.entry.abs_path@ == list[p].entry.abs_path@,
    ensures
        locatable(list.update(p, new), &list[p].entry, sort),
{
    let e = list[p].entry;
    let after = list.update(p, new);
    assert forall|q: int, i: int|
        0 <= q < after.len() && 0 <= i < after.len() && (#[trigger] after[q]).entry.abs_path@
            == e.abs_path@ && (#[trigger] after[i]).entry.abs_path@ != e.abs_path@ implies (i < q
        ==> entry::entry_order(&after[i].entry, &e, sort) is Less) && (i > q ==> entry::entry_order(
        &e,
        &after[i].entry,
        sort,
    ) is Less) by {
        if q != p {
            assert(after[q] == list[q]);
            assert(list[q].entry.abs_path@ == list[p].entry.abs_path@);
        }
        assert(i != p);
        assert(after[i] == list[i]);
        entry::entry_order_antisymmetric(&list[i].entry, &e, sort);
        entry::entry_order_antisymmetric(&e, &list[i].entry, sort);
    }
}

/// A list in order with distinct paths can be searched by any entry it holds,
/// and by any entry whose path it lacks.
pub proof fn in_order_is_locatable(list: Seq<Item>, e: &Entry, sort: SortSettings)
    requires
        in_order(list, sort),
        distinct_paths(list),
        forall|i: int|
            0 <= i < list.len() && (#[trigger] list[i]).entry.abs_path@ == e.abs_path@
                ==> *list[i].entry == *e,
    ensures
        locatable(list, e, sort),
{
    assert forall|p: int, i: int|
        0 <= p < list.len() && 0 <= i < list.len() && (#[trigger] list[p]).entry.abs_path@
            == e.abs_path@ && (#[trigger] list[i]).entry.abs_path@ != e.abs_path@ implies (i < p
        ==> entry::entry_order(&list[i].entry, e, sort) is Less) && (i > p ==> entry::entry_order(
        e,
        &list[i].entry,
        sort,
    ) is Less) by {
        entry::entry_order_antisymmetric(&list[i].entry, e, sort);
        entry::entry_order_antisymmetric(e, &list[i].entry, sort);
    }
}

/// Searches a list for the path of `e` by its sorted position.
pub fn bsearch(list: &Vec<Item>, e: &Entry, sort: SortSettings) -> (r: Option<usize>)
    requires
        all_ready(list@),
        e.ready(),
    ensures
        match r {
            Some(p) => probe(list@, e, sort, 0, list.len() as int) == Some(p as int) && p
                < list.len() && list@[p as int].entry.abs_path@ == e.abs_path@,
            None => probe(list@, e, sort, 0, list.len() as int) is None,
        },
        locatable(list@, e, sort) ==> (r is Some <==> has_path(list@, e.abs_path@)),
{
    proof {
        if locatable(list@, e, sort) {
            search_is_exact(list@, e, sort);
        }
    }
    let mut start: usize = 0;
    let mut end: usize = list.len();
    while start < end
        invariant
            start <= end <= list.len(),
            all_ready(list@),
            e.ready(),
            probe(list@, e, sort, 0, list.len() as int) == probe(
                list@,
                e,
                sort,
                start as int,
                end as int,
            ),
        decreases end - start,
    {
        let mid: usize = start + (end - start) / 2;
        assert(list@[mid as int].entry.ready());
        let inner = &list[mid].entry;
        if inner.abs_path.same(&e.abs_path) {
            return Some(mid);
        }
        match e.compare(inner, sort) {
            Order::Less => {
                end = mid;
            },
            _ => {
                start = mid + 1;
            },
        }
    }
    None
}

pub proof fn rank_bounds(list: Seq<Item>, e: &Entry, sort: SortSettings)
    ensures
        rank(list, e, sort) <= list.len(),
    decreases list.len(),
{
    if list.len() > 0 {
        rank_bounds(list.drop_last(), e, sort);
    }
}

/// In a list in order, the rows that sort after `e` are the last ones.
proof fn rank_splits(list: Seq<Item>, e: &Entry, sort: SortSettings)
    requires
        in_order(list, sort),
        all_ready(list),
        e.ready(),
    ensures
        rank(list, e, sort) <= list.len(),
        forall|i: int|
            0 <= i < rank(list, e, sort) ==> !(entry::entry_order(
                &(#[trigger] list[i]).entry,
                e,
                sort,
            ) is Greater),
        forall|i: int|
            rank(list, e, sort) <= i < list.len() ==> entry::entry_order(
                &(#[trigger] list[i]).entry,
                e,
                sort,
            ) is Greater,
    decreases list.len(),
{
    if list.len() > 0 {
        let front = list.drop_last();
        assert forall|i: int, j: int| 0 <= i < j < front.len() implies !(entry::entry_order(
            &#[trigger] front[i].entry,
            &#[trigger] front[j].entry,
            sort,
        ) is Greater) by {
            assert(front[i] == list[i] && front[j] == list[j]);
        }
        assert forall|i: int| 0 <= i < front.len() implies (#[trigger] front[i]).entry.ready() by {
            assert(front[i] == list[i]);
        }
        rank_splits(front, e, sort);
        let k = rank(front, e, sort);
        let last = list.last();
        assert(last == list[list.len() - 1]);
        if !(entry::entry_order(&last.entry, e, sort) is Greater) && k < front.len() {
            assert(front[k as int] == list[k as int]);
            entry::entry_order_transitive(&list[k as int].entry, &last.entry, e, sort);
        }
        assert forall|i: int| 0 <= i < rank(list, e, sort) implies !(entry::entry_order(
            &(#[trigger] list[i]).entry,
            e,
            sort,
        ) is Greater) by {
            if i < front.len() {
                assert(front[i] == list[i]);
            }
        }
        assert forall|i: int|
            rank(list, e, sort) <= i < list.len() implies entry::entry_order(
            &(#[trigger] list[i]).entry,
            e,
            sort,
        ) is Greater by {
            if i < front.len() {
                assert(front[i] == list[i]);
            }
        }
    }
}

proof fn rank_unique(list: Seq<Item>, e: &Entry, sort: SortSettings, k: int)
    requires
        0 <= k <= list.len(),
        in_order(list, sort),
        all_ready(list),
        e.ready(),
        k > 0 ==> !(entry::entry_order(&list[k - 1].entry, e, sort) is Greater),
        k < list.len() ==> entry::entry_order(&list[k].entry, e, sort) is Greater,
    ensures
        rank(list, e, sort) == k,
{
    rank_splits(list, e, sort);
    let r = rank(list, e, sort) as int;
    if r < k {
        assert(entry::entry_order(&list[k - 1].entry, e, sort) is Greater);
    }
    if r > k {
        assert(!(entry::entry_order(&list[k].entry, e, sort) is Greater));
    }
}

/// Putting an entry at its rank keeps a list in order.
pub proof fn insert_keeps_order(list: Seq<Item>, new: Item, sort: SortSettings)
    requires
        in_order(list, sort),
        all_ready(list),
        new.entry.ready(),
    ensures
        rank(list, &new.entry, sort) <= list.len(),
        in_order(list.insert(rank(list, &new.entry, sort) as int, new), sort),
        all_ready(list.insert(rank(list, &new.entry, sort) as int, new)),
{
    rank_splits(list, &new.entry, sort);
    let k = rank(list, &new.entry, sort) as int;
    let after = list.insert(k, new);
    assert forall|i: int, j: int| 0 <= i < j < after.len() implies !(entry::entry_order(
        &#[trigger] after[i].entry,
        &#[trigger] after[j].entry,
        sort,
    ) is Greater) by {
        if i == k {
            assert(after[j] == list[j - 1]);
            entry::entry_order_antisymmetric(&list[j - 1].entry, &new.entry, sort);
        } else if j == k {
            assert(after[i] == list[i]);
        } else {
            let a = if i < k { i } else { i - 1 };
            let b = if j < k { j } else { j - 1 };
            assert(after[i] == list[a] && after[j] == list[b]);
        }
    }
    assert forall|i: int| 0 <= i < after.len() implies (#[trigger] after[i]).entry.ready() by {
        if i != k {
            let a = if i < k { i } else { i - 1 };
            assert(after[i] == list[a]);
        }
    }
}

/// Removing a row keeps a list in order.
pub proof fn remove_keeps_order(list: Seq<Item>, p: int, sort: SortSettings)
    requires
        in_order(list, sort),
        0 <= p < list.len(),
    ensures
        in_order(list.remove(p), sort),
        all_ready(list) ==> all_ready(list.remove(p)),
        distinct_paths(list) ==> distinct_paths(list.remove(p)),
{
    let after = list.remove(p);
    assert forall|i: int, j: int| 0 <= i < j < after.len() implies !(entry::entry_order(
        &#[trigger] after[i].entry,
        &#[trigger] after[j].entry,
        sort,
    ) is Greater) by {
        let a = if i < p { i } else { i + 1 };
        let b = if j < p { j } else { j + 1 };
        assert(after[i] == list[a] && after[j] == list[b]);
    }
    if all_ready(list) {
        assert forall|i: int| 0 <= i < after.len() implies (#[trigger] after[i]).entry.ready() by {
            let a = if i < p { i } else { i + 1 };
            assert(after[i] == list[a]);
        }
    }
    if distinct_paths(list) {
        assert forall|i: int, j: int| 0 <= i < j < after.len() implies (
        #[trigger] after[i]).entry.abs_path@ != (#[trigger] after[j]).entry.abs_path@ by {
            let a = if i < p { i } else { i + 1 };
            let b = if j < p { j } else { j + 1 };
            assert(after[i] == list[a] && after[j] == list[b]);
        }
    }
}

/// Where `e` belongs in a list that is in order.
fn upper_bound(list: &Vec<Item>, e: &Entry, sort: SortSettings) -> (k: usize)
    requires
        in_order(list@, sort),
        all_ready(list@),
        e.ready(),
    ensures
        k == rank(list@, e, sort),
        k <= list.len(),
{
    let mut start: usize = 0;
    let mut end: usize = list.len();
    while start < end
        invariant
            start <= end <= list.len(),
            all_ready(list@),
            e.ready(),
            start > 0 ==> !(entry::entry_order(&list@[start - 1].entry, e, sort) is Greater),
            end < list.len() ==> entry::entry_order(&list@[end as int].entry, e, sort) is Greater,
        decreases end - start,
    {
        let mid: usize = start + (end - start) / 2;
        assert(list@[mid as int].entry.ready());
        match list[mid].entry.compare(e, sort) {
            Order::Greater => {
                end = mid;
            },
            _ => {
                start = mid + 1;
            },
        }
    }
    proof {
        rank_unique(list@, e, sort, start as int);
    }
    start
}

pub proof fn multiset_of_concat(a: Seq<Item>, b: Seq<Item>)
    ensures
        (a + b).to_multiset() == a.to_multiset().add(b.to_multiset()),
{
    lemma_multiset_commutative(a, b);
}

proof fn multiset_of_skip(a: Seq<Item>, i: int)
    requires
        0 <= i < a.len(),
    ensures
        a.skip(i).to_multiset() == a.skip(i + 1).to_multiset().insert(a[i]),
{
    broadcast use group_to_multiset_ensures;

    assert(a.skip(i).remove(0) =~= a.skip(i + 1));
    assert(a.skip(i)[0] == a[i]);
    assert(a.skip(i).contains(a[i]));
    assert(a.skip(i).to_multiset().remove(a[i]).insert(a[i]) =~= a.skip(i).to_multiset());
}

/// Taking the first of the rows from `i` on and appending it to `done` keeps
/// what there is overall.
proof fn move_one(done: Seq<Item>, a: Seq<Item>, i: int, rest: Multiset<Item>)
    requires
        0 <= i < a.len(),
    ensures
        done.push(a[i]).to_multiset().add(a.skip(i + 1).to_multiset()).add(rest)
            == done.to_multiset().add(a.skip(i).to_multiset()).add(rest),
{
    broadcast use group_to_multiset_ensures;

    multiset_of_skip(a, i);
    assert(done.push(a[i]).to_multiset() =~= done.to_multiset().insert(a[i]));
    assert(done.push(a[i]).to_multiset().add(a.skip(i + 1).to_multiset())
        =~= done.to_multiset().add(a.skip(i).to_multiset()));
}

/// Merges two lists that are in order.
fn merge(a: &Vec<Item>, b: &Vec<Item>, sort: SortSettings) -> (r: Vec<Item>)
    requires
        in_order(a@, sort),
        in_order(b@, sort),
        all_ready(a@),
        all_ready(b@),
    ensures
        in_order(r@, sort),
        all_ready(r@),
        r@.to_multiset() == a@.to_multiset().add(b@.to_multiset()),
        r.len() == a.len() + b.len(),
{
    broadcast use group_to_multiset_ensures;

    let mut r: Vec<Item> = Vec::new();
    let mut i: usize = 0;
    let mut j: usize = 0;
    assert(a@.skip(0) =~= a@);
    assert(b@.skip(0) =~= b@);
    assert(r@.to_multiset().add(a@.to_multiset()).add(b@.to_multiset())
        =~= a@.to_multiset().add(b@.to_multiset()));
    while i < a.len() || j < b.len()
        invariant
            i <= a.len(),
            j <= b.len(),
            r.len() == i + j,
            in_order(a@, sort),
            in_order(b@, sort),
            all_ready(a@),
            all_ready(b@),
            all_ready(r@),
            in_order(r@, sort),
            r@.to_multiset().add(a@.skip(i as int).to_multiset()).add(
                b@.skip(j as int).to_multiset(),
            ) == a@.to_multiset().add(b@.to_multiset()),
            r.len() > 0 && i < a.len() ==> !(entry::entry_order(
                &r@.last().entry,
                &a@[i as int].entry,
                sort,
            ) is Greater),
            r.len() > 0 && j < b.len() ==> !(entry::entry_order(
                &r@.last().entry,
                &b@[j as int].entry,
                sort,
            ) is Greater),
        decreases a.len() - i + b.len() - j,
    {
        let mut left: bool = j == b.len();
        if i < a.len() && j < b.len() {
            assert(a@[i as int].entry.ready());
            assert(b@[j as int].entry.ready());
            left = match a[i].entry.compare(&b[j].entry, sort) {
                Order::Greater => false,
                _ => true,
            };
            proof {
                entry::entry_order_antisymmetric(&a@[i as int].entry, &b@[j as int].entry, sort);
            }
        }
        let ghost before = r@;
        if left {
            let item = a[i].copy();
            proof {
                extend_keeps_order(before, item, sort);
                move_one(before, a@, i as int, b@.skip(j as int).to_multiset());
            }
            r.push(item);
            i += 1;
        } else {
            let item = b[j].copy();
            proof {
                extend_keeps_order(before, item, sort);
                let rest = a@.skip(i as int).to_multiset();
                move_one(before, b@, j as int, rest);
                assert(before.to_multiset().add(rest).add(b@.skip(j as int).to_multiset())
                    =~= before.to_multiset().add(b@.skip(j as int).to_multiset()).add(rest));
                assert(before.push(item).to_multiset().add(rest).add(b@.skip(j + 1).to_multiset())
                    =~= before.push(item).to_multiset().add(b@.skip(j + 1).to_multiset()).add(
                    rest,
                ));
            }
            r.push(item);
            j += 1;
        }
    }
    assert(a@.skip(i as int) =~= Seq::<Item>::empty());
    assert(b@.skip(j as int) =~= Seq::<Item>::empty());
    assert(r@.to_multiset().add(Multiset::empty()).add(Multiset::empty()) =~= r@.to_multiset());
    r
}

proof fn extend_keeps_order(list: Seq<Item>, item: Item, sort: SortSettings)
    requires
        in_order(list, sort),
        all_ready(list),
        item.entry.ready(),
        list.len() > 0 ==> !(entry::entry_order(&list.last().entry, &item.entry, sort) is Greater),
    ensures
        in_order(list.push(item), sort),
        all_ready(list.push(item)),
{
    let after = list.push(item);
    assert forall|i: int, j: int| 0 <= i < j < after.len() implies !(entry::entry_order(
        &#[trigger] after[i].entry,
        &#[trigger] after[j].entry,
        sort,
    ) is Greater) by {
        assert(after[i] == list[i]);
        if j < list.len() {
            assert(after[j] == list[j]);
        } else if i < list.len() - 1 {
            entry::entry_order_transitive(
                &list[i].entry,
                &list.last().entry,
                &item.entry,
                sort,
            );
        }
    }
}

/// The rows from `from` up to `to`, in order.
fn merge_sort(list: &Vec<Item>, from: usize, to: usize, sort: SortSettings) -> (r: Vec<Item>)
    requires
        from <= to <= list.len(),
        all_ready(list@),
    ensures
        in_order(r@, sort),
        all_ready(r@),
        r@.to_multiset() == list@.subrange(from as int, to as int).to_multiset(),
    decreases to - from,
{
    if to - from == 0 {
        let r: Vec<Item> = Vec::new();
        assert(r@ =~= list@.subrange(from as int, to as int));
        r
    } else if to - from == 1 {
        let mut r: Vec<Item> = Vec::new();
        assert(list@[from as int].entry.ready());
        r.push(list[from].copy());
        assert(r@ =~= list@.subrange(from as int, to as int));
        r
    } else {
        let mid: usize = from + (to - from) / 2;
        let a = merge_sort(list, from, mid, sort);
        let b = merge_sort(list, mid, to, sort);
        proof {
            let x = list@.subrange(from as int, mid as int);
            let y = list@.subrange(mid as int, to as int);
            assert(x + y =~= list@.subrange(from as int, to as int));
            multiset_of_concat(x, y);
        }
        merge(&a, &b, sort)
    }
}

/// The same rows, in order.
pub fn sorted_items(list: &Vec<Item>, sort: SortSettings) -> (r: Vec<Item>)
    requires
        all_ready(list@),
    ensures
        in_order(r@, sort),
        all_ready(r@),
        r@.to_multiset() == list@.to_multiset(),
{
    assert(list@.subrange(0, list.len() as int) =~= list@);
    merge_sort(list, 0, list.len(), sort)
}

/// There is only one way to put rows with distinct paths in order.
pub proof fn order_is_unique(a: Seq<Item>, b: Seq<Item>, sort: SortSettings)
    requires
        in_order(a, sort),
        in_order(b, sort),
        distinct_paths(a),
        all_ready(a),
        all_ready(b),
        a.to_multiset() == b.to_multiset(),
    ensures
        a == b,
    decreases a.len(),
{
    broadcast use group_to_multiset_ensures;

    assert(a.len() == a.to_multiset().len());
    assert(b.len() == b.to_multiset().len());
    if a.len() == 0 {
        assert(a =~= b);
    } else {
        let x = a.last();
        assert(a[a.len() - 1] == x);
        assert(a.contains(x));
        assert(b.to_multiset().count(x) > 0);
        assert(b.contains(x));
        let k = choose|k: int| 0 <= k < b.len() && b[k] == x;
        let y = b.last();
        assert(b[b.len() - 1] == y);
        assert(b.contains(y));
        assert(a.to_multiset().count(y) > 0);
        assert(a.contains(y));
        let m = choose|m: int| 0 <= m < a.len() && a[m] == y;
        if x != y {
            // y stands before x in a and x stands before y in b.
            assert(m < a.len() - 1);
            assert(k < b.len() - 1);
            assert(!(entry::entry_order(&a[m].entry, &a[a.len() - 1].entry, sort) is Greater));
            assert(!(entry::entry_order(&b[k].entry, &b[b.len() - 1].entry, sort) is Greater));
            entry::entry_order_antisymmetric(&x.entry, &y.entry, sort);
            assert(a[m].entry.abs_path@ == a[a.len() - 1].entry.abs_path@);
        }
        assert(a.remove(a.len() - 1) =~= a.drop_last());
        assert(b.remove(b.len() - 1) =~= b.drop_last());
        remove_keeps_order(a, a.len() - 1, sort);
        remove_keeps_order(b, b.len() - 1, sort);
        order_is_unique(a.drop_last(), b.drop_last(), sort);
        assert(a =~= a.drop_last().push(x));
        assert(b =~= b.drop_last().push(y));
    }
}

/// An update whose effect on the shared entry has been applied already.
pub enum PartiallyAppliedUpdate {
    /// The old version, and the new one.
    Mutate(Arc<Entry>, Arc<Entry>),
    Insert(Arc<Entry>),
    Delete(Arc<Entry>),
}

impl PartiallyAppliedUpdate {
    /// The entry that the update concerns.
    pub open spec fn spec_entry(&self) -> Arc<Entry> {
        match *self {
            PartiallyAppliedUpdate::Mutate(_, e) => e,
            PartiallyAppliedUpdate::Insert(e) => e,
            PartiallyAppliedUpdate::Delete(e) => e,
        }
    }

    pub fn copy(&self) -> (r: PartiallyAppliedUpdate)
        ensures
            r == *self,
    {
        match self {
            PartiallyAppliedUpdate::Mutate(a, b) => PartiallyAppliedUpdate::Mutate(
                a.clone(),
                b.clone(),
            ),
            PartiallyAppliedUpdate::Insert(e) => PartiallyAppliedUpdate::Insert(e.clone()),
            PartiallyAppliedUpdate::Delete(e) => PartiallyAppliedUpdate::Delete(e.clone()),
        }
    }

    /// Whether the update is for something below `ancestor`, but not directly
    /// inside it.
    pub fn is_in_subdir(&self, ancestor: &FilePath) -> (r: bool)
        ensures
            r == crate::update::below_subdir(self.spec_entry().abs_path@, ancestor@),
    {
        let e = match self {
            PartiallyAppliedUpdate::Mutate(_, e) => e,
            PartiallyAppliedUpdate::Insert(e) => e,
            PartiallyAppliedUpdate::Delete(e) => e,
        };
        if e.abs_path.is_child_of(ancestor) {
            return false;
        }
        e.abs_path.starts_with(ancestor)
    }
}

/// The contents of one tab, flat or from a search.
pub struct Contents {
    pub list: Vec<Item>,
    /// For the contents of a search: what is searched for.
    pub filter: Option<Query>,
    pub sort: SortSettings,
    /// Stale rows are for the previous directory. They stay visible until the
    /// first rows of a slow directory arrive.
    pub stale: bool,
}

/// The number of characters that a search needs.
pub const MIN_SEARCH: usize = 3;

/// What is searched for.
pub struct Query {
    /// The text in lower case.
    pub text: Vec<u8>,
    /// The number of characters that were typed.
    pub chars: usize,
}

pub struct QueryView {
    pub text: Seq<u8>,
    pub chars: nat,
}

impl View for Query {
    type V = QueryView;

    open spec fn view(&self) -> QueryView {
        QueryView { text: self.text@, chars: self.chars as nat }
    }
}

impl Query {
    pub fn copy(&self) -> (r: Query)
        ensures
            r@ == self@,
    {
        Query { text: copy_bytes(&self.text), chars: self.chars }
    }
}

/// Whether a search for `query` shows an entry: at least `MIN_SEARCH` characters
/// were typed, and the name holds them.
pub open spec fn query_matches(query: QueryView, e: &Entry) -> bool {
    query.chars >= MIN_SEARCH && text::occurs(query.text, e.name.lowercase@)
}

/// Whether a search for `query` shows an entry.
pub fn matches_query(query: &Query, e: &Entry) -> (r: bool)
    ensures
        r == query_matches(query@, e),
{
    query.chars >= MIN_SEARCH && contains_bytes(&e.name.lowercase, &query.text)
}

/// The rows that a filter lets through.
pub open spec fn visible_rows(list: Seq<Item>, filter: Option<QueryView>) -> Seq<Item>
    decreases list.len(),
{
    match filter {
        None => list,
        Some(q) => if list.len() == 0 {
            Seq::empty()
        } else if query_matches(q, &list.last().entry) {
            visible_rows(list.drop_last(), filter).push(list.last())
        } else {
            visible_rows(list.drop_last(), filter)
        },
    }
}

/// A search lists exactly the rows whose names hold the text, and nothing if
/// fewer than `MIN_SEARCH` characters were typed.
pub proof fn search_lists_what_matches(list: Seq<Item>, query: QueryView, row: Item)
    ensures
        visible_rows(list, Some(query)).contains(row) <==> list.contains(row) && query_matches(
            query,
            &row.entry,
        ),
        query.chars < MIN_SEARCH ==> visible_rows(list, Some(query)).len() == 0,
    decreases list.len(),
{
    if list.len() > 0 {
        let rest = list.drop_last();
        search_lists_what_matches(rest, query, row);
        let before = visible_rows(rest, Some(query));
        assert(list =~= rest.push(list.last()));
        if list.contains(row) && row != list.last() {
            let i = list.index_of(row);
            assert(rest[i] == row);
        }
        if rest.contains(row) {
            let i = rest.index_of(row);
            assert(list[i] == row);
        }
        if query_matches(query, &list.last().entry) {
            let now = before.push(list.last());
            if before.contains(row) {
                let i = before.index_of(row);
                assert(now[i] == row);
            }
            if now.contains(row) && row != list.last() {
                let i = now.index_of(row);
                assert(before[i] == row);
            }
            assert(now[now.len() - 1] == list.last());
        }
        assert(list[list.len() - 1] == list.last());
    }
}

/// Rows are filtered one by one, in their order.
pub proof fn filtered_one_by_one(a: Seq<Item>, row: Item, b: Seq<Item>, query: QueryView)
    ensures
        visible_rows(seq![row], Some(query)) == (if query_matches(query, &row.entry) {
            seq![row]
        } else {
            Seq::empty()
        }),
        visible_rows(a + b, Some(query)) == visible_rows(a, Some(query)) + visible_rows(
            b,
            Some(query),
        ),
        visible_rows(a, None) == a,
    decreases b.len(),
{
    let q = Some(query);
    let none = Seq::<Item>::empty();
    assert(seq![row].drop_last() =~= none);
    assert(visible_rows(none, q) =~= none);
    assert(query_matches(query, &row.entry) ==> visible_rows(seq![row], q) =~= seq![row]);
    if b.len() > 0 {
        filtered_one_by_one(a, row, b.drop_last(), query);
        assert((a + b).drop_last() =~= a + b.drop_last());
        assert(visible_rows(a + b, q) =~= visible_rows(a, q) + visible_rows(b, q));
    } else {
        assert(a + b =~= a);
        assert(visible_rows(a + b, q) =~= visible_rows(a, q) + visible_rows(b, q));
    }
}

/// A filter adds no rows.
pub proof fn fewer_visible(list: Seq<Item>, filter: Option<QueryView>)
    ensures
        visible_rows(list, filter).len() <= list.len(),
    decreases list.len(),
{
    if filter is Some && list.len() > 0 {
        fewer_visible(list.drop_last(), filter);
    }
}

proof fn visible_rows_ready(list: Seq<Item>, filter: Option<QueryView>)
    requires
        all_ready(list),
    ensures
        all_ready(visible_rows(list, filter)),
    decreases list.len(),
{
    if filter is Some && list.len() > 0 {
        assert forall|i: int| 0 <= i < list.drop_last().len() implies (
        #[trigger] list.drop_last()[i]).entry.ready() by {
            assert(list.drop_last()[i] == list[i]);
        }
        visible_rows_ready(list.drop_last(), filter);
        assert(list[list.len() - 1].entry.ready());
    }
}

impl Contents {
    /// What this filters by.
    pub open spec fn query(&self) -> Option<QueryView> {
        match self.filter {
            Some(q) => Some(q@),
            None => None,
        }
    }

    /// The kinds are known, and rows that are not stale are in order.
    pub open spec fn valid(&self) -> bool {
        all_ready(self.list@) && (!self.stale ==> in_order(self.list@, self.sort))
    }

    pub fn new(sort: SortSettings) -> (r: Contents)
        ensures
            r.valid(),
            r.list@ == Seq::<Item>::empty(),
            r.sort == sort,
            !r.stale,
            r.filter is None,
    {
        Contents { list: Vec::new(), filter: None, sort, stale: false }
    }

    /// The contents for a search that starts in `flat`'s directory. Nothing is
    /// visible until there is something to search for.
    pub fn search_from(flat: &Contents) -> (r: Contents)
        requires
            flat.valid(),
        ensures
            r.valid(),
            r.sort == flat.sort,
            !r.stale,
            r.query() == Some((QueryView { text: Seq::empty(), chars: 0 })),
            r.list@ == cloned_rows(flat),
    {
        let mut s = Contents {
            list: Vec::new(),
            filter: Some(Query { text: Vec::new(), chars: 0 }),
            sort: flat.sort,
            stale: false,
        };
        s.clone_from(flat, flat.sort);
        s
    }

    /// Drops every row.
    pub fn clear(&mut self, sort: SortSettings)
        ensures
            final(self).valid(),
            final(self).list@ == Seq::<Item>::empty(),
            final(self).sort == sort,
            !final(self).stale,
            final(self).filter == old(self).filter,
    {
        self.stale = false;
        self.sort = sort;
        self.list = Vec::new();
    }

    /// Replaces the rows by those of `source`, unless they are stale.
    pub fn clone_from(&mut self, source: &Contents, sort: SortSettings)
        requires
            source.valid(),
        ensures
            final(self).valid(),
            final(self).sort == sort,
            !final(self).stale,
            final(self).filter == old(self).filter,
            final(self).list@.to_multiset() == cloned_rows(source).to_multiset(),
            sort == source.sort ==> final(self).list@ == cloned_rows(source),
    {
        self.clear(sort);
        if !source.stale {
            let mut i: usize = 0;
            while i < source.list.len()
                invariant
                    i <= source.list.len(),
                    self.sort == sort,
                    !self.stale,
                    self.filter == old(self).filter,
                    self.list@ =~= cloned_rows(source).take(i as int),
                    !source.stale,
                decreases source.list.len() - i,
            {
                let e = source.list[i].entry.clone();
                self.list.push(Item { entry: e, selected: false });
                i += 1;
            }
            assert(self.list@ =~= cloned_rows(source));
        }
        assert(self.list@ =~= cloned_rows(source));
        assert forall|i: int| 0 <= i < self.list@.len() implies (
        #[trigger] self.list@[i]).entry.ready() by {
            assert(source.list@[i].entry.ready());
        }
        assert(in_order(self.list@, source.sort)) by {
            assert forall|i: int, j: int|
                0 <= i < j < self.list@.len() implies !(entry::entry_order(
                &#[trigger] self.list@[i].entry,
                &#[trigger] self.list@[j].entry,
                source.sort,
            ) is Greater) by {
                assert(source.list@[i].entry == self.list@[i].entry);
                assert(source.list@[j].entry == self.list@[j].entry);
            }
        }
        if sort != source.sort {
            self.list = sorted_items(&self.list, sort);
        }
    }

    /// Adds the entries, which are not selected, and puts everything in order.
    fn extend_sorted(&mut self, entries: Vec<Arc<Entry>>)
        requires
            old(self).valid(),
            forall|i: int| 0 <= i < entries.len() ==> (#[trigger] entries@[i]).ready(),
        ensures
            final(self).valid(),
            final(self).sort == old(self).sort,
            final(self).stale == old(self).stale,
            final(self).filter == old(self).filter,
            in_order(final(self).list@, final(self).sort),
            final(self).list@.to_multiset() == old(self).list@.to_multiset().add(
                all_unselected(entries@).to_multiset(),
            ),
    {
        let ghost start = self.list@;
        let mut i: usize = 0;
        assert(all_unselected(entries@).take(0) =~= Seq::<Item>::empty());
        while i < entries.len()
            invariant
                i <= entries.len(),
                self.sort == old(self).sort,
                self.stale == old(self).stale,
                self.filter == old(self).filter,
                start == old(self).list@,
                all_ready(start),
                forall|i: int| 0 <= i < entries.len() ==> (#[trigger] entries@[i]).ready(),
                self.list@ =~= start + all_unselected(entries@).take(i as int),
                all_ready(self.list@),
            decreases entries.len() - i,
        {
            let e = entries[i].clone();
            assert(entries@[i as int].ready());
            self.list.push(Item { entry: e, selected: false });
            i += 1;
        }
        assert(self.list@ =~= start + all_unselected(entries@));
        proof {
            multiset_of_concat(start, all_unselected(entries@));
        }
        self.list = sorted_items(&self.list, self.sort);
    }

    /// Adds a part of a directory's entries. The first part replaces whatever
    /// was there.
    pub fn apply_snapshot(&mut self, initial: bool, entries: Vec<Arc<Entry>>)
        requires
            old(self).valid(),
            initial || !old(self).stale,
            forall|i: int| 0 <= i < entries.len() ==> (#[trigger] entries@[i]).ready(),
        ensures
            final(self).valid(),
            !final(self).stale,
            final(self).sort == old(self).sort,
            final(self).filter == old(self).filter,
            final(self).list@.to_multiset() == (if initial {
                Multiset::empty()
            } else {
                old(self).list@.to_multiset()
            }).add(all_unselected(entries@).to_multiset()),
    {
        broadcast use group_to_multiset_ensures;

        if initial {
            let sort = self.sort;
            self.clear(sort);
            assert(self.list@.to_multiset() =~= Multiset::empty());
        }
        self.extend_sorted(entries);
    }

    /// Restores the order after any number of updates to shared entries.
    pub fn re_sort_for_search(&mut self)
        requires
            all_ready(old(self).list@),
        ensures
            final(self).valid(),
            final(self).sort == old(self).sort,
            final(self).stale == old(self).stale,
            final(self).filter == old(self).filter,
            in_order(final(self).list@, final(self).sort),
            final(self).list@.to_multiset() == old(self).list@.to_multiset(),
    {
        self.list = sorted_items(&self.list, self.sort);
    }

    /// Adds the entries of the directory in which a search started.
    pub fn add_flat_elements_for_search(&mut self, entries: Vec<Arc<Entry>>)
        requires
            old(self).valid(),
            forall|i: int| 0 <= i < entries.len() ==> (#[trigger] entries@[i]).ready(),
        ensures
            final(self).valid(),
            final(self).sort == old(self).sort,
            final(self).stale == old(self).stale,
            final(self).filter == old(self).filter,
            in_order(final(self).list@, final(self).sort),
            final(self).list@.to_multiset() == old(self).list@.to_multiset().add(
                all_unselected(entries@).to_multiset(),
            ),
    {
        self.extend_sorted(entries);
    }

    /// Adds a batch of search results.
    pub fn apply_search_snapshot(&mut self, entries: Vec<Arc<Entry>>)
        requires
            old(self).valid(),
            forall|i: int| 0 <= i < entries.len() ==> (#[trigger] entries@[i]).ready(),
        ensures
            final(self).valid(),
            final(self).sort == old(self).sort,
            final(self).stale == old(self).stale,
            final(self).filter == old(self).filter,
            in_order(final(self).list@, final(self).sort),
            final(self).list@.to_multiset() == old(self).list@.to_multiset().add(
                all_unselected(entries@).to_multiset(),
            ),
    {
        self.extend_sorted(entries);
    }

    /// The row for an entry's path, going by the position of the old version
    /// of the entry.
    pub fn total_position_by_sorted(&self, e: &Entry) -> (r: Option<usize>)
        requires
            !self.stale,
            all_ready(self.list@),
            e.ready(),
        ensures
            match r {
                Some(p) => probe(self.list@, e, self.sort, 0, self.list.len() as int) == Some(
                    p as int,
                ) && p < self.list.len() && self.list@[p as int].entry.abs_path@ == e.abs_path@,
                None => probe(self.list@, e, self.sort, 0, self.list.len() as int) is None,
            },
            locatable(self.list@, e, self.sort) ==> (r is Some <==> has_path(
                self.list@,
                e.abs_path@,
            )),
    {
        bsearch(&self.list, e, self.sort)
    }

    /// The rows that are in view.
    pub fn visible(&self) -> (r: Vec<Item>)
        ensures
            r@ == visible_rows(self.list@, self.query()),
    {
        let mut r: Vec<Item> = Vec::new();
        let mut i: usize = 0;
        let ghost q = self.query();
        assert(visible_rows(self.list@.take(0), q) =~= Seq::<Item>::empty());
        while i < self.list.len()
            invariant
                i <= self.list.len(),
                q == self.query(),
                r@ == visible_rows(self.list@.take(i as int), q),
            decreases self.list.len() - i,
        {
            assert(self.list@.take(i + 1).drop_last() =~= self.list@.take(i as int));
            assert(self.list@.take(i + 1).last() == self.list@[i as int]);
            let show = match &self.filter {
                Some(query) => matches_query(query, &self.list[i].entry),
                None => true,
            };
            if show {
                r.push(self.list[i].copy());
                assert(self.filter is None ==> self.list@.take(i as int).push(
                    self.list@[i as int],
                ) =~= self.list@.take(i + 1));
            }
            i += 1;
        }
        assert(self.list@.take(i as int) =~= self.list@);
        r
    }

    /// The position of an entry's path among the visible rows.
    pub fn filtered_position_by_sorted(&self, e: &Entry) -> (r: Option<usize>)
        requires
            !self.stale,
            all_ready(self.list@),
            e.ready(),
        ensures
            match r {
                Some(p) => probe(
                    visible_rows(self.list@, self.query()),
                    e,
                    self.sort,
                    0,
                    visible_rows(self.list@, self.query()).len() as int,
                ) == Some(p as int),
                None => probe(
                    visible_rows(self.list@, self.query()),
                    e,
                    self.sort,
                    0,
                    visible_rows(self.list@, self.query()).len() as int,
                ) is None,
            },
    {
        match &self.filter {
            Some(_) => {
                let rows = self.visible();
                proof {
                    visible_rows_ready(self.list@, self.query());
                }
                bsearch(&rows, e, self.sort)
            },
            None => bsearch(&self.list, e, self.sort),
        }
    }

    /// Puts an unselected row where it belongs.
    pub fn insert(&mut self, new: Arc<Entry>)
        requires
            old(self).valid(),
            !old(self).stale,
            new.ready(),
        ensures
            final(self).valid(),
            final(self).sort == old(self).sort,
            !final(self).stale,
            final(self).filter == old(self).filter,
            final(self).list@ == old(self).list@.insert(
                rank(old(self).list@, &new, old(self).sort) as int,
                unselected(new),
            ),
    {
        let k: usize = upper_bound(&self.list, &new, self.sort);
        proof {
            insert_keeps_order(self.list@, unselected(new), self.sort);
        }
        self.list.insert(k, Item { entry: new, selected: false });
    }

    /// Drops one row.
    pub fn remove(&mut self, pos: usize)
        requires
            old(self).valid(),
            pos < old(self).list.len(),
        ensures
            final(self).valid(),
            final(self).sort == old(self).sort,
            final(self).stale == old(self).stale,
            final(self).filter == old(self).filter,
            final(self).list@ == old(self).list@.remove(pos as int),
    {
        proof {
            if !self.stale {
                remove_keeps_order(self.list@, pos as int, self.sort);
            } else {
                assert forall|i: int| 0 <= i < self.list@.remove(pos as int).len() implies (
                #[trigger] self.list@.remove(pos as int)[i]).entry.ready() by {
                    let a = if i < pos { i } else { i + 1 };
                    assert(self.list@.remove(pos as int)[i] == self.list@[a]);
                }
            }
        }
        let _row = self.list.remove(pos);
    }

    /// Whether the row at `pos` was selected, going by the old version of its
    /// entry where rows are filtered.
    pub open spec fn was_selected(&self, pos: int, old_entry: &Entry) -> bool {
        match self.filter {
            None => self.list@[pos].selected,
            Some(_) => {
                let rows = visible_rows(self.list@, self.query());
                match probe(rows, old_entry, self.sort, 0, rows.len() as int) {
                    Some(p) => rows[p].selected,
                    None => false,
                }
            },
        }
    }

    /// Whether `new` may stay where it is.
    pub open spec fn fits_at(&self, pos: int, new: &Entry) -> bool {
        &&& pos == 0 || entry::entry_order(&self.list@[pos - 1].entry, new, self.sort) is Less
        &&& pos + 1 == self.list.len() || entry::entry_order(
            &self.list@[pos + 1].entry,
            new,
            self.sort,
        ) is Greater
    }

    /// Whether the moved row is selected again: where rows are filtered, only
    /// if the old version of its entry still leads to it.
    pub open spec fn reselects(&self, pos: int, new: Arc<Entry>, old_entry: &Entry) -> bool {
        let rest = self.list@.remove(pos);
        let after = rest.insert(rank(rest, &new, self.sort) as int, unselected(new));
        self.was_selected(pos, old_entry) && match self.filter {
            None => true,
            Some(_) => {
                let rows = visible_rows(after, self.query());
                probe(rows, old_entry, self.sort, 0, rows.len() as int) is Some
            },
        }
    }

    /// The rows once the entry at `pos` has become `new` and stands where it
    /// belongs.
    pub open spec fn moved(&self, pos: int, new: Arc<Entry>, old_entry: &Entry) -> Seq<Item> {
        let rest = self.list@.remove(pos);
        let selected = if self.fits_at(pos, &new) {
            self.list@[pos].selected
        } else {
            self.reselects(pos, new, old_entry)
        };
        rest.insert(rank(rest, &new, self.sort) as int, Item { entry: new, selected })
    }

    /// Whether row `p` is for the given path.
    pub open spec fn row_is_for(&self, p: int, path: Seq<Seq<u8>>) -> bool {
        0 <= p < self.list@.len() && self.list@[p].entry.abs_path@ == path
    }

    /// Replaces the entry at `pos` by a newer version and moves it to where it
    /// now belongs. All other rows are in order.
    pub fn reinsert_updated(&mut self, pos: usize, new: Arc<Entry>, old_entry: &Entry)
        requires
            !old(self).stale,
            pos < old(self).list.len(),
            all_ready(old(self).list@),
            in_order(old(self).list@.remove(pos as int), old(self).sort),
            new.ready(),
            old_entry.ready(),
        ensures
            final(self).valid(),
            final(self).sort == old(self).sort,
            !final(self).stale,
            final(self).filter == old(self).filter,
            final(self).list@ == old(self).moved(pos as int, new, old_entry),
    {
        let sort = self.sort;
        let ghost rest = self.list@.remove(pos as int);
        assert(all_ready(rest)) by {
            assert forall|i: int| 0 <= i < rest.len() implies (
            #[trigger] rest[i]).entry.ready() by {
                let a = if i < pos { i } else { i + 1 };
                assert(rest[i] == self.list@[a]);
            }
        }
        let after_left = if pos == 0 {
            true
        } else {
            assert(self.list@[pos - 1].entry.ready());
            match self.list[pos - 1].entry.compare(&new, sort) {
                Order::Less => true,
                _ => false,
            }
        };
        let before_right = if pos + 1 == self.list.len() {
            true
        } else {
            assert(self.list@[pos + 1].entry.ready());
            match self.list[pos + 1].entry.compare(&new, sort) {
                Order::Greater => true,
                _ => false,
            }
        };
        if after_left && before_right {
            let selected = self.list[pos].selected;
            proof {
                if pos > 0 {
                    assert(rest[pos - 1] == self.list@[pos - 1]);
                }
                if pos + 1 < self.list.len() {
                    assert(rest[pos as int] == self.list@[pos + 1]);
                }
                rank_unique(rest, &new, sort, pos as int);
                let item = Item { entry: new, selected };
                insert_keeps_order(rest, item, sort);
                assert(self.list@.update(pos as int, item) =~= rest.insert(pos as int, item));
            }
            self.list.set(pos, Item { entry: new, selected });
            return;
        }
        let was_selected = match &self.filter {
            Some(_) => {
                let rows = self.visible();
                proof {
                    visible_rows_ready(self.list@, self.query());
                }
                match bsearch(&rows, old_entry, sort) {
                    Some(p) => rows[p].selected,
                    None => false,
                }
            },
            None => self.list[pos].selected,
        };
        let _row = self.list.remove(pos);
        let k: usize = upper_bound(&self.list, &new, sort);
        proof {
            insert_keeps_order(rest, unselected(new), sort);
        }
        self.list.insert(k, Item { entry: new, selected: false });
        let ghost after = self.list@;
        if was_selected {
            let found = match &self.filter {
                Some(_) => {
                    let rows = self.visible();
                    proof {
                        visible_rows_ready(self.list@, self.query());
                    }
                    bsearch(&rows, old_entry, sort).is_some()
                },
                None => true,
            };
            if found {
                let e = self.list[k].entry.clone();
                self.list.set(k, Item { entry: e, selected: true });
                proof {
                    let item = Item { entry: new, selected: true };
                    insert_keeps_order(rest, item, sort);
                    assert(after.update(k as int, item) =~= rest.insert(k as int, item));
                }
            }
        }
    }

    /// Applies an update to a list that is otherwise in order.
    pub fn finish_update(&mut self, update: PartiallyAppliedUpdate)
        requires
            !old(self).stale,
            all_ready(old(self).list@),
            old(self).accepts(&update),
        ensures
            final(self).valid(),
            final(self).sort == old(self).sort,
            !final(self).stale,
            final(self).filter == old(self).filter,
            old(self).after_update(&update, final(self).list@),
    {
        match update {
            PartiallyAppliedUpdate::Mutate(old_entry, new) => {
                match self.total_position_by_sorted(&old_entry) {
                    Some(p) => {
                        assert(self.row_is_for(p as int, old_entry.abs_path@));
                        self.reinsert_updated(p, new, &old_entry);
                    },
                    None => {},
                }
            },
            PartiallyAppliedUpdate::Insert(new) => {
                self.insert(new);
            },
            PartiallyAppliedUpdate::Delete(old_entry) => {
                match self.total_position_by_sorted(&old_entry) {
                    Some(p) => {
                        assert(self.row_is_for(p as int, old_entry.abs_path@));
                        self.remove(p);
                    },
                    None => {},
                }
            },
        }
    }

    /// Whether an update makes sense here: what is changed or deleted is
    /// present, and every other row is in order.
    pub open spec fn accepts(&self, update: &PartiallyAppliedUpdate) -> bool {
        match *update {
            PartiallyAppliedUpdate::Mutate(old_entry, new) => {
                &&& old_entry.ready()
                &&& new.ready()
                &&& locatable(self.list@, &old_entry, self.sort)
                &&& has_path(self.list@, old_entry.abs_path@)
                &&& forall|p: int| #[trigger]
                    self.row_is_for(p, old_entry.abs_path@) ==> in_order(
                        self.list@.remove(p),
                        self.sort,
                    )
            },
            PartiallyAppliedUpdate::Insert(new) => new.ready() && self.valid(),
            PartiallyAppliedUpdate::Delete(old_entry) => {
                &&& old_entry.ready()
                &&& self.valid()
                &&& locatable(self.list@, &old_entry, self.sort)
                &&& has_path(self.list@, old_entry.abs_path@)
            },
        }
    }

    /// What the rows are after an update.
    pub open spec fn after_update(
        &self,
        update: &PartiallyAppliedUpdate,
        after: Seq<Item>,
    ) -> bool {
        match *update {
            PartiallyAppliedUpdate::Mutate(old_entry, new) => {
                exists|p: int| #[trigger]
                    self.row_is_for(p, old_entry.abs_path@) && after == self.moved(
                        p,
                        new,
                        &old_entry,
                    )
            },
            PartiallyAppliedUpdate::Insert(new) => after == self.list@.insert(
                rank(self.list@, &new, self.sort) as int,
                unselected(new),
            ),
            PartiallyAppliedUpdate::Delete(old_entry) => {
                exists|p: int| #[trigger]
                    self.row_is_for(p, old_entry.abs_path@) && after == self.list@.remove(p)
            },
        }
    }

    /// Changes the order of the rows. Stale rows are dropped instead.
    pub fn sort(&mut self, sort: SortSettings)
        requires
            old(self).valid(),
        ensures
            final(self).valid(),
            final(self).sort == sort,
            !final(self).stale,
            final(self).filter == old(self).filter,
            old(self).stale ==> final(self).list@ == Seq::<Item>::empty(),
            !old(self).stale ==> final(self).list@.to_multiset() == old(self).list@.to_multiset(),
            !old(self).stale && old(self).sort == sort ==> final(self).list@ == old(self).list@,
    {
        if self.stale {
            self.clear(sort);
            return;
        }
        if self.sort == sort {
            return;
        }
        self.sort = sort;
        self.list = sorted_items(&self.list, sort);
    }

    /// The same rows again.
    pub fn copy(&self) -> (r: Contents)
        ensures
            r.list@ == self.list@,
            r.query() == self.query(),
            r.sort == self.sort,
            r.stale == self.stale,
    {
        let mut list: Vec<Item> = Vec::new();
        let mut i: usize = 0;
        while i < self.list.len()
            invariant
                i <= self.list.len(),
                list@ == self.list@.take(i as int),
            decreases self.list.len() - i,
        {
            list.push(self.list[i].copy());
            assert(list@ =~= self.list@.take(i + 1));
            i += 1;
        }
        assert(list@ =~= self.list@);
        let filter = match &self.filter {
            Some(q) => Some(q.copy()),
            None => None,
        };
        Contents { list, filter, sort: self.sort, stale: self.stale }
    }

    /// Marks the rows as those of another directory, which stay in view until
    /// the right ones come.
    pub fn mark_stale(&mut self, sort: SortSettings)
        requires
            old(self).valid(),
        ensures
            final(self).valid(),
            final(self).stale,
            final(self).list == old(self).list,
            final(self).sort == sort,
            final(self).filter == old(self).filter,
    {
        self.stale = true;
        self.sort = sort;
    }
}

/// The unselected rows that cloning `source` gives.
pub open spec fn cloned_rows(source: &Contents) -> Seq<Item> {
    if source.stale {
        Seq::empty()
    } else {
        Seq::new(source.list@.len(), |i: int| unselected(source.list@[i].entry))
    }
}

/// Whether a row needs to move after its entry has become `new`.
pub fn liststore_needs_reinsert(
    list: &Vec<Item>,
    sort: SortSettings,
    pos: usize,
    new: &Entry,
) -> (r: bool)
    requires
        pos < list.len(),
        all_ready(list@),
        new.ready(),
    ensures
        r == !((pos == 0 || entry::entry_order(&list@[pos - 1].entry, new, sort) is Less) && (pos + 1
            == list.len() || entry::entry_order(new, &list@[pos + 1].entry, sort) is Less)),
{
    if pos > 0 {
        assert(list@[pos - 1].entry.ready());
        match list[pos - 1].entry.compare(new, sort) {
            Order::Less => {},
            _ => {
                return true;
            },
        }
    }
    if pos + 1 == list.len() {
        return false;
    }
    assert(list@[pos + 1].entry.ready());
    match new.compare(&list[pos + 1].entry, sort) {
        Order::Less => false,
        _ => true,
    }
}

/// A changed entry stays selected if it was, wherever it goes, and the other rows stay
/// as they are.
pub proof fn changed_entry_stays_selected(c: &Contents, pos: int, new: Arc<Entry>, before: &Entry)
    requires
        c.filter is None,
        0 <= pos < c.list@.len(),
    ensures
        c.moved(pos, new, before).to_multiset() == c.list@.remove(pos).to_multiset().insert(
            Item { entry: new, selected: c.list@[pos].selected },
        ),
        c.moved(pos, new, before).len() == c.list@.len(),
{
    let rest = c.list@.remove(pos);
    let k = rank(rest, &new, c.sort) as int;
    rank_bounds(rest, &new, c.sort);
    let row = Item { entry: new, selected: c.list@[pos].selected };
    let (front, back) = (rest.take(k), rest.skip(k));
    assert(c.moved(pos, new, before) =~= front.push(row) + back);
    assert(rest =~= front + back);
    multiset_of_concat(front.push(row), back);
    multiset_of_concat(front, back);
    front.to_multiset_ensures();
    assert(c.moved(pos, new, before).to_multiset() =~= rest.to_multiset().insert(row));
}

/// Rows that are shown in another tab are the same entries in the same order, and none
/// of them is selected.
pub proof fn clones_are_unselected(source: &Contents, i: int)
    requires
        !source.stale,
        0 <= i < source.list@.len(),
    ensures
        cloned_rows(source).len() == source.list@.len(),
        cloned_rows(source)[i].entry == source.list@[i].entry,
        !cloned_rows(source)[i].selected,
{
}

} // verus!
