//! Saving the list of tabs as a session and restoring it.
use ahash::AHashMap;
use vstd::prelude::*;

use crate::blocks::{self, find_block, Block, BlockView};
use crate::collections::{self, get_number, no_numbers, set_number};
use crate::list::{self, TabPosition, TabsList};
use crate::listing;
use crate::nav::{NavTarget, PaneState};
use crate::pane::{self, Pane, TabId};
use crate::path::FilePath;
use crate::regroup::{
    self, block_with, group_errors, restore_group, restored, session_errors, with_group,
    SessionError,
};
use crate::session::{self, save_tree, SavedGroup, SavedSplit, Session, SplitChild};
use std::sync::Arc;

verus! {

/// The numbers of tabs: their positions in the list.
pub open spec fn numbering(ids: Seq<TabId>) -> Map<u64, u32>
    decreases ids.len(),
{
    if ids.len() == 0 {
        Map::empty()
    } else {
        numbering(ids.drop_last()).insert(ids.last().0, (ids.len() - 1) as u32)
    }
}

/// Different tabs have their positions as numbers.
pub proof fn numbering_is_position(ids: Seq<TabId>, i: int)
    requires
        ids.no_duplicates(),
        0 <= i < ids.len(),
        ids.len() <= u32::MAX,
    ensures
        numbering(ids).dom().contains(ids[i].0),
        numbering(ids)[ids[i].0] == i,
    decreases ids.len(),
{
    let front = ids.drop_last();
    if i < ids.len() - 1 {
        assert forall|a: int, b: int| 0 <= a < front.len() && 0 <= b < front.len() && a != b implies front[a]
            != front[b] by {
            assert(front[a] == ids[a] && front[b] == ids[b]);
        }
        numbering_is_position(front, i);
        assert(ids[i] != ids.last());
        assert(front[i] == ids[i]);
    }
}

fn number_tabs(ids: &Vec<TabId>) -> (r: AHashMap<u64, u32>)
    requires
        ids.len() <= u32::MAX,
    ensures
        collections::numbers(r) == numbering(ids@),
{
    let mut r = no_numbers();
    let mut i: usize = 0;
    assert(collections::numbers(r) =~= Map::<u64, u32>::empty());
    assert(ids@.take(0) =~= Seq::<TabId>::empty());
    while i < ids.len()
        invariant
            i <= ids.len() <= u32::MAX,
            collections::numbers(r) == numbering(ids@.take(i as int)),
        decreases ids.len() - i,
    {
        set_number(&mut r, ids[i].0, i as u32);
        assert(ids@.take(i + 1).drop_last() =~= ids@.take(i as int));
        assert(ids@.take(i + 1).last() == ids@[i as int]);
        i += 1;
    }
    assert(ids@.take(i as int) =~= ids@);
    r
}

/// Whether a tab is the parent of a group.
pub open spec fn is_parent(bv: Seq<BlockView>, id: TabId) -> bool {
    let b = bv[blocks::block_of(bv, id)];
    b.members.len() > 1 && b.members[0] == id
}

/// How the group of a parent is saved.
pub open spec fn saved_group(bv: Seq<BlockView>, id: TabId, numbers: Map<u64, u32>) -> SavedGroup {
    SavedGroup {
        parent: numbers[id.0],
        split: match session::saved(bv[blocks::block_of(bv, id)].layout, numbers) {
            SplitChild::Split(s) => *s,
            SplitChild::Tab(n) => SavedSplit {
                horizontal: false,
                start: SplitChild::Tab(n),
                end: SplitChild::Tab(n),
            },
        },
    }
}

/// The saved groups of the first `n` tabs.
pub open spec fn saved_groups(
    ids: Seq<TabId>,
    bv: Seq<BlockView>,
    numbers: Map<u64, u32>,
) -> Seq<SavedGroup>
    decreases ids.len(),
{
    if ids.len() == 0 {
        Seq::empty()
    } else {
        let before = saved_groups(ids.drop_last(), bv, numbers);
        if is_parent(bv, ids.last()) {
            before.push(saved_group(bv, ids.last(), numbers))
        } else {
            before
        }
    }
}

/// The ids of tabs.
pub open spec fn tab_ids(tabs: Seq<crate::tab::Tab>) -> Seq<TabId> {
    Seq::new(tabs.len(), |i: int| tabs[i].id)
}

/// Whether the tab with the given id is in the given directory.
pub open spec fn dir_is(tabs: Seq<crate::tab::Tab>, id: TabId, dir: Seq<Seq<u8>>) -> bool {
    exists|k: int| #[trigger] list::tab_at(tabs, k, id) && tabs[k].dir@ == dir
}

/// Whether a tab is a new one that has yet to show a directory.
pub open spec fn new_in(tabs: Seq<crate::tab::Tab>, id: TabId, dir: Seq<Seq<u8>>) -> bool {
    exists|k: int| #[trigger]
        list::tab_at(tabs, k, id) && tabs[k].dir@ == dir && tabs[k].opened_at(
            NavTarget { dir: tabs[k].dir, scroll: None },
        )
}

/// What a session saves of a list of tabs.
pub open spec fn session_of(list: &TabsList, s: &Session) -> bool {
    let ids = list.order@;
    &&& s.paths@.len() == ids.len()
    &&& forall|i: int|
        0 <= i < ids.len() ==> dir_is(list.tabs@, ids[i], (#[trigger] s.paths@[i])@)
    &&& s.groups@ == saved_groups(tab_ids(list.tabs@), list.bv(), numbering(ids))
}

impl TabsList {
    /// The session to save: the directories in the order they are listed, and
    /// the layout of each group. `None` if there are no tabs.
    pub fn get_session(&self) -> (r: Option<Session>)
        requires
            self.valid(),
            self.order@.len() <= u32::MAX,
        ensures
            r is None <==> self.tabs@.len() == 0,
            r matches Some(s) ==> session_of(self, &s),
    {
        if self.tabs.len() == 0 {
            return None;
        }
        let ghost v = self.bv();
        let ids = &self.order;
        let numbers = number_tabs(ids);
        let mut paths: Vec<FilePath> = Vec::new();
        let mut i: usize = 0;
        while i < ids.len()
            invariant
                i <= ids.len(),
                self.valid(),
                ids@ == self.order@,
                paths.len() == i,
                forall|j: int|
                    0 <= j < i ==> dir_is(self.tabs@, ids@[j], (#[trigger] paths@[j])@),
            decreases ids.len() - i,
        {
            proof {
                assert(ids@.contains(ids@[i as int]));
            }
            match self.position(ids[i]) {
                Some(k) => {
                    let ghost before = paths@;
                    paths.push(self.tabs[k].dir.copy());
                    assert(list::tab_at(self.tabs@, k as int, ids@[i as int]));
                    assert(dir_is(self.tabs@, ids@[i as int], paths@[i as int]@));
                    assert forall|j: int| 0 <= j < i implies dir_is(
                        self.tabs@,
                        ids@[j],
                        (#[trigger] paths@[j])@,
                    ) by {
                        assert(paths@[j] == before[j]);
                    }
                },
                None => {
                    return None;
                },
            }
            i += 1;
        }
        let ghost all = tab_ids(self.tabs@);
        let mut groups: Vec<SavedGroup> = Vec::new();
        let mut i: usize = 0;
        assert(all.take(0) =~= Seq::<TabId>::empty());
        while i < self.tabs.len()
            invariant
                i <= self.tabs.len(),
                self.valid(),
                v == self.bv(),
                all == tab_ids(self.tabs@),
                ids@ == self.order@,
                ids@.len() <= u32::MAX,
                paths@.len() == ids@.len(),
                forall|j: int|
                    0 <= j < ids@.len() ==> dir_is(self.tabs@, ids@[j], (#[trigger] paths@[j])@),
                collections::numbers(numbers) == numbering(ids@),
                groups@ == saved_groups(all.take(i as int), v, numbering(ids@)),
            decreases self.tabs.len() - i,
        {
            let id = self.tabs[i].id;
            proof {
                assert(all.take(i + 1).drop_last() =~= all.take(i as int));
                assert(all.take(i + 1).last() == id);
                assert(list::tab_at(self.tabs@, i as int, id));
            }
            match find_block(&self.blocks, id) {
                Some(b) => {
                    assert(blocks::block_ok(v[b as int]));
                    if self.blocks[b].members.len() > 1 && self.blocks[b].members[0] == id {
                        proof {
                            members_numbered(v, ids@, b as int);
                            assert(ids@.contains(id));
                            numbering_is_position(ids@, ids@.index_of(id));
                        }
                        let parent = match get_number(&numbers, id.0) {
                            Some(n) => n,
                            None => 0,
                        };
                        let tree = save_tree(&self.blocks[b].layout, &numbers);
                        match tree {
                            SplitChild::Split(split) => {
                                groups.push(SavedGroup { parent, split: *split });
                            },
                            SplitChild::Tab(n) => {
                                proof {
                                    assert(self.blocks@[b as int].layout.leaves().len() > 1);
                                }
                            },
                        }
                    }
                },
                None => {},
            }
            i += 1;
        }
        assert(all.take(i as int) =~= all);
        Some(Session { paths, groups })
    }
}

/// Every tab in the layout of a block has a number.
proof fn members_numbered(bv: Seq<BlockView>, order: Seq<TabId>, b: int)
    requires
        blocks::blocks_ok(bv),
        listing::order_ok(order, bv),
        0 <= b < bv.len(),
        order.len() <= u32::MAX,
    ensures
        session::all_numbered(bv[b].layout, numbering(order)),
{
    assert(blocks::block_ok(bv[b]));
    assert forall|t: TabId| #[trigger] bv[b].layout.leaves().contains(t) implies numbering(
        order,
    ).dom().contains(t.0) by {
        assert(bv[b].members.contains(t));
        assert(blocks::holds(bv, b, t));
        assert(blocks::lists(bv, t));
        assert(order.contains(t));
        numbering_is_position(order, order.index_of(t));
    }
}

/// Blocks of one tab each.
pub open spec fn singles(ids: Seq<TabId>) -> Seq<BlockView> {
    Seq::new(ids.len(), |i: int| blocks::single(ids[i]))
}

/// The ids that the tabs of a loaded session get.
pub open spec fn fresh_ids(from: u64, n: nat) -> Seq<TabId> {
    Seq::new(n, |i: int| TabId((from + i) as u64))
}

proof fn fresh_ids_distinct(from: u64, n: nat)
    requires
        from + n <= u64::MAX,
    ensures
        fresh_ids(from, n).no_duplicates(),
{
}

/// Closing a tab in front of other blocks leaves those as they are.
proof fn closed_in_front(cur: Seq<BlockView>, rest: Seq<BlockView>, id: TabId)
    requires
        blocks::blocks_ok(cur + rest),
        blocks::lists(cur, id),
    ensures
        blocks::closed(cur + rest, id) == blocks::closed(cur, id) + rest,
        blocks::lists(cur + rest, id),
{
    let i = choose|i: int| #[trigger] blocks::holds(cur, i, id);
    assert((cur + rest)[i] == cur[i]);
    assert(blocks::holds(cur + rest, i, id));
    blocks::block_of_unique(cur + rest, i, id);
    assert forall|j: int| #[trigger] blocks::holds(cur, j, id) implies j == i by {
        assert((cur + rest)[j] == cur[j]);
        assert(blocks::holds(cur + rest, j, id));
    }
    assert(blocks::block_of(cur, id) == i);
    if cur[i].members.len() == 1 {
        assert((cur + rest).remove(i) =~= cur.remove(i) + rest);
    } else {
        assert((cur + rest).update(i, blocks::shrunk(cur[i], id)) =~= cur.update(
            i,
            blocks::shrunk(cur[i], id),
        ) + rest);
    }
}

proof fn front_ok(cur: Seq<BlockView>, rest: Seq<BlockView>)
    requires
        blocks::blocks_ok(cur + rest),
    ensures
        blocks::blocks_ok(cur),
        blocks::blocks_ok(rest),
        forall|t: TabId| #[trigger]
            blocks::lists(cur + rest, t) <==> blocks::lists(cur, t) || blocks::lists(rest, t),
        forall|t: TabId| #[trigger] blocks::lists(cur, t) ==> !blocks::lists(rest, t),
{
    let all = cur + rest;
    assert forall|i: int| 0 <= i < cur.len() implies blocks::block_ok(#[trigger] cur[i]) by {
        assert(all[i] == cur[i]);
    }
    assert forall|i: int| 0 <= i < rest.len() implies blocks::block_ok(#[trigger] rest[i]) by {
        assert(all[cur.len() + i] == rest[i]);
    }
    assert forall|i: int, t: TabId| #[trigger] blocks::holds(cur, i, t) implies blocks::holds(
        all,
        i,
        t,
    ) by {
        assert(all[i] == cur[i]);
    }
    assert forall|i: int, t: TabId| #[trigger] blocks::holds(rest, i, t) implies blocks::holds(
        all,
        cur.len() + i,
        t,
    ) by {
        assert(all[cur.len() + i] == rest[i]);
    }
    assert forall|t: TabId| #[trigger]
        blocks::lists(all, t) <==> blocks::lists(cur, t) || blocks::lists(rest, t) by {
        if blocks::lists(all, t) {
            let i = choose|i: int| #[trigger] blocks::holds(all, i, t);
            assert(blocks::holds(all, i, t));
            if i < cur.len() {
                assert(all[i] == cur[i]);
                assert(blocks::holds(cur, i, t));
            } else {
                assert(all[i] == rest[i - cur.len()]);
                assert(blocks::holds(rest, i - cur.len(), t));
            }
        }
    }
    assert forall|i: int, j: int, t: TabId| #[trigger]
        blocks::holds(cur, i, t) && #[trigger] blocks::holds(cur, j, t) implies i == j by {}
    assert forall|i: int, j: int, t: TabId| #[trigger]
        blocks::holds(rest, i, t) && #[trigger] blocks::holds(rest, j, t) implies i == j by {
        assert(blocks::holds(all, cur.len() + i, t));
        assert(blocks::holds(all, cur.len() + j, t));
    }
    assert forall|t: TabId| #[trigger] blocks::lists(cur, t) implies !blocks::lists(rest, t) by {
        if blocks::lists(rest, t) {
            let i = choose|i: int| #[trigger] blocks::holds(cur, i, t);
            let j = choose|j: int| #[trigger] blocks::holds(rest, j, t);
            assert(blocks::holds(all, i, t));
            assert(blocks::holds(all, cur.len() + j, t));
        }
    }
}

proof fn singles_list(ids: Seq<TabId>, t: TabId)
    ensures
        blocks::lists(singles(ids), t) <==> ids.contains(t),
{
    if blocks::lists(singles(ids), t) {
        let i = choose|i: int| #[trigger] blocks::holds(singles(ids), i, t);
        assert(blocks::holds(singles(ids), i, t));
        blocks::single_ok(ids[i]);
        assert(singles(ids)[i] == blocks::single(ids[i]));
        assert(ids[i] == t);
    }
    if ids.contains(t) {
        let i = ids.index_of(t);
        blocks::single_ok(ids[i]);
        assert(singles(ids)[i] == blocks::single(ids[i]));
        assert(blocks::holds(singles(ids), i, t));
    }
}

/// A tab stays when another one is removed.
proof fn tab_survives(tabs: Seq<crate::tab::Tab>, k: int, tab: crate::tab::Tab)
    requires
        0 <= k < tabs.len(),
        tabs.contains(tab),
        tabs[k].id != tab.id,
    ensures
        list::swap_removed(tabs, k).contains(tab),
{
    let j = tabs.index_of(tab);
    let now = list::swap_removed(tabs, k);
    if j == tabs.len() - 1 {
        assert(now[k] == tab);
    } else {
        assert(now[j] == tab);
    }
}

proof fn new_survives(tabs: Seq<crate::tab::Tab>, k: int, id: TabId, dir: Seq<Seq<u8>>)
    requires
        0 <= k < tabs.len(),
        new_in(tabs, id, dir),
        tabs[k].id != id,
    ensures
        new_in(list::swap_removed(tabs, k), id, dir),
{
    let j = choose|j: int| #[trigger]
        list::tab_at(tabs, j, id) && tabs[j].dir@ == dir && tabs[j].opened_at(
            NavTarget { dir: tabs[j].dir, scroll: None },
        );
    assert(tabs.contains(tabs[j]));
    tab_survives(tabs, k, tabs[j]);
    let now = list::swap_removed(tabs, k);
    assert(list::tab_at(now, now.index_of(tabs[j]), id));
}

/// The tabs that are still listed when the last `m` of some tabs are closed, from the
/// last one on.
pub open spec fn without_last(order: Seq<TabId>, ids: Seq<TabId>, m: nat) -> Seq<TabId>
    decreases m,
{
    if m == 0 {
        order
    } else {
        listing::unlisted(without_last(order, ids, (m - 1) as nat), ids[ids.len() - m])
    }
}

/// Whether tabs can all be closed, from the last one on.
pub open spec fn clears(order: Seq<TabId>, bv: Seq<BlockView>, ids: Seq<TabId>) -> bool
    decreases ids.len(),
{
    ids.len() == 0 || {
        let id = ids.last();
        &&& listing::can_leave(order, bv, id)
        &&& clears(listing::unlisted(order, id), blocks::closed(bv, id), ids.drop_last())
    }
}

/// What is in front of the last tabs of a list does not depend on those.
proof fn front_of_list(front: Seq<TabId>, rest: Seq<TabId>, id: TabId)
    requires
        (front + rest).no_duplicates(),
        front.contains(id),
    ensures
        listing::before(front + rest, id) == listing::before(front, id),
        listing::unlisted(front + rest, id) == listing::unlisted(front, id) + rest,
        front.no_duplicates(),
{
    let all = front + rest;
    pane::halves_disjoint(front, rest);
    let p = front.index_of(id);
    assert(all[p] == id);
    assert(all.contains(id));
    assert(all.index_of(id) == p);
    assert(listing::unlisted(all, id) =~= listing::unlisted(front, id) + rest);
}

/// Whether `closed` is what becomes of the tabs when they are all closed, from
/// the last one on.
pub open spec fn closed_backwards(
    tabs: Seq<crate::tab::Tab>,
    order: Seq<TabId>,
    states: Seq<PaneState>,
    closed: Seq<crate::tab::ClosedTab>,
) -> bool {
    forall|m: int|
        0 <= m < closed.len() ==> tabs[tabs.len() - 1 - m].closed_as(
            listing::before(
                without_last(order, tab_ids(tabs), m as nat),
                tabs[tabs.len() - 1 - m].id,
            ),
            states[tabs.len() - 1 - m],
            #[trigger] &closed[m],
        )
}

impl TabsList {
    /// Closes every one of the first `old_ids.len()` tabs, from the last one
    /// on.
    fn close_all(
        &mut self,
        old_ids: &Vec<TabId>,
        states: &Vec<PaneState>,
        ids: Ghost<Seq<TabId>>,
        dirs: Ghost<Seq<Seq<Seq<u8>>>>,
        tabs: Ghost<Seq<crate::tab::Tab>>,
        start: Ghost<Seq<BlockView>>,
        front: Ghost<Seq<TabId>>,
    )
        requires
            old(self).arranged(),
            old(self).tidy() || clears(old(self).order@, old(self).bv(), old_ids@),
            old(self).order@ == front@ + ids@,
            old(self).active is None,
            states.len() == old_ids.len(),
            old_ids@ == tab_ids(tabs@),
            forall|m: int| 0 <= m < tabs@.len() ==> old(self).tabs@.contains(#[trigger] tabs@[m]),
            old(self).bv() == start@ + singles(ids@),
            forall|t: TabId| #[trigger] blocks::lists(start@, t) <==> old_ids@.contains(t),
            forall|t: TabId| #[trigger] front@.contains(t) <==> old_ids@.contains(t),
            old_ids@.no_duplicates(),
            dirs@.len() == ids@.len(),
            forall|i: int|
                0 <= i < ids@.len() ==> new_in(old(self).tabs@, #[trigger] ids@[i], dirs@[i]),
        ensures
            final(self).arranged(),
            final(self).active is None,
            final(self).next_id == old(self).next_id,
            final(self).bv() == singles(ids@),
            final(self).order@ == ids@,
            final(self).closed@.len() == old(self).closed@.len() + old_ids.len(),
            final(self).closed@.take(old(self).closed@.len() as int) == old(self).closed@,
            closed_backwards(
                tabs@,
                front@,
                states@,
                final(self).closed@.skip(old(self).closed@.len() as int),
            ),
            forall|i: int|
                0 <= i < ids@.len() ==> new_in(final(self).tabs@, #[trigger] ids@[i], dirs@[i]),
    {
        let ghost new = singles(ids@);
        let ghost mut cur = start@;
        let ghost mut listed = front@;
        let ghost c0 = self.closed@.len() as int;
        let mut j: usize = old_ids.len();
        assert(old_ids@.take(j as int) =~= old_ids@);
        assert(self.closed@.take(old(self).closed@.len() as int) =~= old(self).closed@);
        while j > 0
            invariant
                j <= old_ids.len(),
                self.arranged(),
                self.active is None,
                self.next_id == old(self).next_id,
                states.len() == old_ids.len(),
                new == singles(ids@),
                self.bv() == cur + new,
                self.order@ == listed + ids@,
                self.tidy() || clears(self.order@, self.bv(), old_ids@.take(j as int)),
                forall|t: TabId| #[trigger]
                    listed.contains(t) <==> old_ids@.take(j as int).contains(t),
                old_ids@.no_duplicates(),
                forall|t: TabId| #[trigger]
                    blocks::lists(cur, t) <==> old_ids@.take(j as int).contains(t),
                self.closed@.len() == old(self).closed@.len() + (old_ids.len() - j),
                self.closed@.take(old(self).closed@.len() as int) == old(self).closed@,
                c0 == old(self).closed@.len(),
                old_ids@ == tab_ids(tabs@),
                listed == without_last(front@, old_ids@, (old_ids.len() - j) as nat),
                forall|m: int| 0 <= m < j ==> self.tabs@.contains(#[trigger] tabs@[m]),
                closed_backwards(tabs@, front@, states@, self.closed@.skip(c0)),
                dirs@.len() == ids@.len(),
                forall|i: int|
                    0 <= i < ids@.len() ==> new_in(self.tabs@, #[trigger] ids@[i], dirs@[i]),
            decreases j,
        {
            let id = old_ids[j - 1];
            let ghost before = *self;
            proof {
                assert(old_ids@.take(j as int)[j - 1] == id);
                assert(old_ids@.take(j as int).contains(id));
                assert(blocks::lists(cur, id));
                closed_in_front(cur, new, id);
                front_ok(cur, new);
                front_of_list(listed, ids@, id);
                assert(old_ids@.take(j as int).last() == id);
                assert(old_ids@.take(j as int).drop_last() =~= old_ids@.take(j - 1));
            }
            self.close_one(id, &states[j - 1], true);
            proof {
                let k = choose|k: int| #[trigger]
                    list::tab_at(before.tabs@, k, id) && self.tabs@ == list::swap_removed(
                        before.tabs@,
                        k,
                    ) && before.tabs@[k].closed_as(
                        listing::before(before.order@, id),
                        states@[j - 1],
                        &self.closed@.last(),
                    );
                assert(list::tab_at(before.tabs@, k, id));
                assert(before.tabs@[k] == tabs@[j - 1]) by {
                    let m = before.tabs@.index_of(tabs@[j - 1]);
                    assert(list::tab_at(before.tabs@, m, id));
                }
                assert forall|m: int| 0 <= m < j - 1 implies self.tabs@.contains(
                    #[trigger] tabs@[m],
                ) by {
                    assert(old_ids@[m] != old_ids@[j - 1]);
                    tab_survives(before.tabs@, k, tabs@[m]);
                }
                assert forall|m: int| 0 <= m < self.closed@.skip(c0).len() implies tabs@[tabs@.len()
                    - 1 - m].closed_as(
                    listing::before(
                        without_last(front@, tab_ids(tabs@), m as nat),
                        tabs@[tabs@.len() - 1 - m].id,
                    ),
                    states@[tabs@.len() - 1 - m],
                    #[trigger] &self.closed@.skip(c0)[m],
                ) by {
                    if m < before.closed@.len() - c0 {
                        assert(self.closed@.drop_last()[c0 + m] == before.closed@[c0 + m]);
                        assert(before.closed@.skip(c0)[m] == before.closed@[c0 + m]);
                        assert(self.closed@.skip(c0)[m] == before.closed@.skip(c0)[m]);
                    }
                }
                assert forall|i: int| 0 <= i < ids@.len() implies new_in(
                    self.tabs@,
                    #[trigger] ids@[i],
                    dirs@[i],
                ) by {
                    assert(new_in(before.tabs@, ids@[i], dirs@[i]));
                    assert(ids@.contains(ids@[i]));
                    singles_list(ids@, ids@[i]);
                    singles_list(ids@, id);
                    assert(!blocks::lists(new, id));
                    new_survives(before.tabs@, k, ids@[i], dirs@[i]);
                }
                assert(before.active_after_close(id) is None);
                blocks::closed_ok(cur, id);
                let shorter = old_ids@.take(j - 1);
                let longer = old_ids@.take(j as int);
                assert forall|t: TabId| #[trigger]
                    blocks::lists(blocks::closed(cur, id), t) <==> shorter.contains(t) by {
                    assert(blocks::lists(cur, t) <==> longer.contains(t));
                    if longer.contains(t) && t != id {
                        let m = longer.index_of(t);
                        assert(shorter[m] == t);
                    }
                    if shorter.contains(t) {
                        let m = shorter.index_of(t);
                        assert(longer[m] == t);
                        assert(old_ids@[m] != old_ids@[j - 1]);
                    }
                }
                assert forall|t: TabId| #[trigger]
                    listing::unlisted(listed, id).contains(t) <==> shorter.contains(t) by {
                    blocks::removed_contains(listed, id);
                    assert(listed.contains(t) <==> longer.contains(t));
                    assert(blocks::lists(cur, t) <==> longer.contains(t));
                    assert(blocks::lists(blocks::closed(cur, id), t) <==> shorter.contains(t));
                }
                cur = blocks::closed(cur, id);
                listed = listing::unlisted(listed, id);
                assert(self.closed@.take(old(self).closed@.len() as int) =~= old(self).closed@)
                    by {
                    assert forall|m: int| 0 <= m < old(self).closed@.len() implies self.closed@[m]
                        == old(self).closed@[m] by {
                        assert(self.closed@.drop_last()[m] == before.closed@[m]);
                        assert(before.closed@.take(old(self).closed@.len() as int)[m] == old(
                            self,
                        ).closed@[m]);
                    }
                }
            }
            j = j - 1;
        }
        proof {
            front_ok(cur, new);
            if cur.len() > 0 {
                assert(blocks::block_ok(cur[0]));
                let t = cur[0].members[0];
                assert(cur[0].members.contains(t));
                assert(blocks::holds(cur, 0, t));
                assert(blocks::lists(cur, t));
            }
            assert(cur + new =~= new);
            if listed.len() > 0 {
                assert(listed.contains(listed[0]));
                assert(blocks::lists(cur, listed[0]));
            }
            assert(listed + ids@ =~= ids@);
        }
    }

    /// Whether all tabs can be closed once `count` new ones stand behind them.
    pub open spec fn may_clear(&self, count: nat) -> bool {
        let ids = fresh_ids(self.next_id, count);
        self.tidy() || clears(self.order@ + ids, self.bv() + singles(ids), tab_ids(self.tabs@))
    }

    /// Whether the tabs of each group are listed one after the other.
    pub fn is_tidy(&self) -> (r: bool)
        ensures
            r == self.tidy(),
    {
        let ids = blocks::list_tabs(&self.blocks);
        if ids.len() != self.order.len() {
            return false;
        }
        let mut i: usize = 0;
        while i < ids.len()
            invariant
                i <= ids.len() == self.order.len(),
                ids@ == blocks::listed(self.bv()),
                forall|k: int| 0 <= k < i ==> ids@[k] == self.order@[k],
            decreases ids.len() - i,
        {
            if ids[i] != self.order[i] {
                return false;
            }
            i += 1;
        }
        assert(self.order@ =~= ids@);
        true
    }

    /// Whether all tabs can be closed once `count` new ones stand behind them.
    pub fn can_clear(&self, count: usize) -> (r: bool)
        requires
            self.valid(),
            self.next_id + count <= u64::MAX,
        ensures
            r == self.may_clear(count as nat),
    {
        if self.is_tidy() {
            return true;
        }
        let ghost new = fresh_ids(self.next_id, count as nat);
        let ghost ids = tab_ids(self.tabs@);
        let ghost v = self.bv() + singles(new);
        let ghost o = self.order@ + new;
        let mut now: Vec<Block> = Vec::new();
        let mut order: Vec<TabId> = Vec::new();
        let mut i: usize = 0;
        while i < self.blocks.len()
            invariant
                i <= self.blocks.len(),
                blocks::views(now@) =~= self.bv().take(i as int),
            decreases self.blocks.len() - i,
        {
            let ghost before = blocks::views(now@);
            let b = self.blocks[i].copy();
            let ghost view = b@;
            now.push(b);
            assert(blocks::views(now@) =~= before.push(view));
            i += 1;
        }
        let mut i: usize = 0;
        while i < self.order.len()
            invariant
                i <= self.order.len(),
                order@ =~= self.order@.take(i as int),
            decreases self.order.len() - i,
        {
            order.push(self.order[i]);
            i += 1;
        }
        let mut i: usize = 0;
        while i < count
            invariant
                i <= count,
                self.next_id + count <= u64::MAX,
                new == fresh_ids(self.next_id, count as nat),
                blocks::views(now@) =~= self.bv() + singles(new.take(i as int)),
                order@ =~= self.order@ + new.take(i as int),
            decreases count - i,
        {
            let id = TabId(self.next_id + i as u64);
            let ghost before = blocks::views(now@);
            now.push(Block::single(id));
            assert(blocks::views(now@) =~= before.push(blocks::single(id)));
            order.push(id);
            assert(new[i as int] == id);
            i += 1;
        }
        assert(new.take(i as int) =~= new);
        proof {
            self.enlarged(new);
        }
        let mut j: usize = self.tabs.len();
        assert(ids.take(j as int) =~= ids);
        while j > 0
            invariant
                j <= self.tabs.len(),
                !self.tidy(),
                new == fresh_ids(self.next_id, count as nat),
                v == self.bv() + singles(new),
                o == self.order@ + new,
                ids == tab_ids(self.tabs@),
                ids.no_duplicates(),
                blocks::blocks_ok(blocks::views(now@)),
                listing::order_ok(order@, blocks::views(now@)),
                forall|m: int| 0 <= m < j ==> blocks::lists(blocks::views(now@), #[trigger] ids[m]),
                clears(o, v, ids) == clears(order@, blocks::views(now@), ids.take(j as int)),
            decreases j,
        {
            let id = self.tabs[j - 1].id;
            let ghost w = blocks::views(now@);
            proof {
                assert(ids[j - 1] == id);
                assert(ids.take(j as int).last() == id);
                assert(ids.take(j as int).drop_last() =~= ids.take(j - 1));
                blocks::closed_ok(w, id);
                listing::remove_order_ok(order@, w, id, blocks::closed(w, id));
                assert(order@.contains(id));
            }
            if !listing::is_free_to_leave(&order, &now, id) {
                return false;
            }
            listing::unlist(&mut order, id);
            blocks::close(&mut now, id);
            j -= 1;
        }
        true
    }

    /// New tabs behind the present ones are as well arranged as those.
    proof fn enlarged(&self, new: Seq<TabId>)
        requires
            self.valid(),
            new == fresh_ids(self.next_id, new.len()),
            self.next_id + new.len() <= u64::MAX,
        ensures
            blocks::blocks_ok(self.bv() + singles(new)),
            listing::order_ok(self.order@ + new, self.bv() + singles(new)),
            tab_ids(self.tabs@).no_duplicates(),
            forall|m: int|
                0 <= m < self.tabs@.len() ==> blocks::lists(
                    self.bv() + singles(new),
                    #[trigger] tab_ids(self.tabs@)[m],
                ),
        decreases new.len(),
    {
        let ids = tab_ids(self.tabs@);
        assert forall|a: int, b: int| 0 <= a < ids.len() && 0 <= b < ids.len() && a != b implies ids[a]
            != ids[b] by {
            assert(list::tab_at(self.tabs@, a, ids[a]));
            assert(list::tab_at(self.tabs@, b, ids[b]));
        }
        if new.len() == 0 {
            assert(self.bv() + singles(new) =~= self.bv());
            assert(self.order@ + new =~= self.order@);
            assert forall|m: int| 0 <= m < self.tabs@.len() implies blocks::lists(
                self.bv() + singles(new),
                #[trigger] ids[m],
            ) by {
                assert(list::tab_at(self.tabs@, m, ids[m]));
            }
        } else {
            let front = new.drop_last();
            let id = new.last();
            assert(front =~= fresh_ids(self.next_id, front.len()));
            self.enlarged(front);
            let v = self.bv() + singles(front);
            let o = self.order@ + front;
            assert(!blocks::lists(v, id)) by {
                if blocks::lists(v, id) {
                    assert(o.contains(id));
                    let k = o.index_of(id);
                    if k < self.order@.len() {
                        assert(self.order@.contains(id));
                        assert(self.lists(id));
                    } else {
                        assert(front[k - self.order@.len()] == id);
                    }
                }
            }
            let k = v.len() as int;
            blocks::insert_ok(v, k, id);
            assert(v.insert(k, blocks::single(id)) =~= self.bv() + singles(new));
            listing::insert_order_ok(o, v, o.len() as int, id, self.bv() + singles(new));
            assert(o.insert(o.len() as int, id) =~= self.order@ + new);
            assert forall|m: int| 0 <= m < self.tabs@.len() implies blocks::lists(
                self.bv() + singles(new),
                #[trigger] ids[m],
            ) by {
                assert(blocks::lists(v, ids[m]));
            }
        }
    }

    /// Replaces all tabs by those of a session, none of which is active. The
    /// result says what is wrong with the saved groups, one mistake after the other.
    /// `states` are what the panes of the present tabs show.
    pub fn load_session(&mut self, session: &Session, states: &Vec<PaneState>) -> (r: Vec<
        SessionError,
    >)
        requires
            old(self).valid(),
            old(self).may_clear(session.paths@.len()),
            states.len() == old(self).tabs.len(),
            session.paths.len() <= u32::MAX,
            old(self).next_id + session.paths.len() <= u64::MAX,
        ensures
            final(self).valid(),
            final(self).active is None,
            ({
                let ids = fresh_ids(old(self).next_id, session.paths@.len());
                &&& final(self).bv() == restored(singles(ids), ids, session.groups@)
                &&& forall|i: int|
                    0 <= i < ids.len() ==> new_in(
                        final(self).tabs@,
                        #[trigger] ids[i],
                        session.paths@[i]@,
                    )
                &&& final(self).order@ == ids
            }),
            r@ == session_errors(session.groups@, session.paths@.len()),
            final(self).next_id == old(self).next_id + session.paths@.len(),
            final(self).closed@.len() == old(self).closed@.len() + old(self).tabs@.len(),
            final(self).closed@.take(old(self).closed@.len() as int) == old(self).closed@,
            closed_backwards(
                old(self).tabs@,
                old(self).order@,
                states@,
                final(self).closed@.skip(old(self).closed@.len() as int),
            ),
    {
        let ghost first = self.next_id;
        let ghost n = session.paths@.len();
        let ghost all = fresh_ids(first, n);
        let ghost start = self.bv();
        self.active = None;
        let mut old_ids: Vec<TabId> = Vec::new();
        let mut i: usize = 0;
        while i < self.tabs.len()
            invariant
                i <= self.tabs.len(),
                self.tabs == old(self).tabs,
                old_ids@ =~= tab_ids(self.tabs@).take(i as int),
            decreases self.tabs.len() - i,
        {
            old_ids.push(self.tabs[i].id);
            i += 1;
        }
        assert(old_ids@ =~= tab_ids(old(self).tabs@));
        let mut ids: Vec<TabId> = Vec::new();
        let mut i: usize = 0;
        assert(start + singles(all.take(0)) =~= start);
        assert(old(self).order@ + all.take(0) =~= old(self).order@);
        while i < session.paths.len()
            invariant
                i <= session.paths.len(),
                session.paths.len() <= u32::MAX,
                first + session.paths.len() <= u64::MAX,
                n == session.paths@.len(),
                all == fresh_ids(first, n),
                self.arranged(),
                self.active is None,
                self.next_id == first + i,
                self.closed == old(self).closed,
                ids@ =~= all.take(i as int),
                self.bv() == start + singles(all.take(i as int)),
                self.order@ == old(self).order@ + all.take(i as int),
                old(self).tidy() ==> self.tidy(),
                self.tabs@.len() == old(self).tabs@.len() + i,
                forall|k: int|
                    0 <= k < old(self).tabs@.len() ==> #[trigger] self.tabs@[k]
                        == old(self).tabs@[k],
                forall|k: int|
                    0 <= k < i ==> new_in(self.tabs@, #[trigger] all[k], session.paths@[k]@),
            decreases session.paths.len() - i,
        {
            let ghost before = *self;
            let target = NavTarget::assume_dir(Arc::new(session.paths[i].copy()));
            let id = self.add_tab(TabPosition::End, target, false);
            ids.push(id);
            proof {
                assert(id == all[i as int]);
                assert(self.bv() =~= start + singles(all.take(i + 1)));
                assert(self.order@ =~= old(self).order@ + all.take(i + 1));
                assert forall|k: int| 0 <= k < before.tabs@.len() implies #[trigger] self.tabs@[k]
                    == before.tabs@[k] by {
                    assert(self.tabs@.drop_last()[k] == before.tabs@[k]);
                }
                assert forall|k: int| 0 <= k < i + 1 implies new_in(
                    self.tabs@,
                    #[trigger] all[k],
                    session.paths@[k]@,
                ) by {
                    if k < i {
                        assert(new_in(before.tabs@, all[k], session.paths@[k]@));
                        let m = choose|m: int| #[trigger]
                            list::tab_at(before.tabs@, m, all[k]) && before.tabs@[m].dir@
                                == session.paths@[k]@ && before.tabs@[m].opened_at(
                                NavTarget { dir: before.tabs@[m].dir, scroll: None },
                            );
                        assert(self.tabs@[m] == before.tabs@[m]);
                        assert(list::tab_at(self.tabs@, m, all[k]));
                    } else {
                        assert(list::tab_at(self.tabs@, before.tabs@.len() as int, all[k]));
                    }
                }
            }
            i += 1;
        }
        let ghost dirs = Seq::new(n, |k: int| session.paths@[k]@);
        proof {
            assert(all.take(n as int) =~= all);
            assert forall|t: TabId| #[trigger] blocks::lists(start, t) <==> old_ids@.contains(
                t,
            ) by {
                if blocks::lists(start, t) {
                    let k = choose|k: int| #[trigger] list::tab_at(old(self).tabs@, k, t);
                    assert(list::tab_at(old(self).tabs@, k, t));
                    assert(old_ids@[k] == t);
                }
                if old_ids@.contains(t) {
                    let k = old_ids@.index_of(t);
                    assert(list::tab_at(old(self).tabs@, k, t));
                }
            }
            assert forall|a: int, b: int|
                0 <= a < old_ids@.len() && 0 <= b < old_ids@.len() && a != b implies old_ids@[a]
                != old_ids@[b] by {
                assert(list::tab_at(old(self).tabs@, a, old_ids@[a]));
                assert(list::tab_at(old(self).tabs@, b, old_ids@[b]));
            }
            assert forall|k: int| 0 <= k < all.len() implies new_in(
                self.tabs@,
                #[trigger] all[k],
                dirs[k],
            ) by {
                assert(new_in(self.tabs@, all[k], session.paths@[k]@));
            }
            fresh_ids_distinct(first, n);
            assert forall|t: TabId| #[trigger] old(self).order@.contains(t)
                <==> old_ids@.contains(t) by {
                assert(blocks::lists(start, t) <==> old_ids@.contains(t));
            }
            assert forall|m: int| 0 <= m < old(self).tabs@.len() implies self.tabs@.contains(
                #[trigger] old(self).tabs@[m],
            ) by {
                assert(self.tabs@[m] == old(self).tabs@[m]);
            }
        }
        self.close_all(
            &old_ids,
            states,
            Ghost(all),
            Ghost(dirs),
            Ghost(old(self).tabs@),
            Ghost(start),
            Ghost(old(self).order@),
        );
        let mut errors: Vec<SessionError> = Vec::new();
        let mut i: usize = 0;
        assert(session.groups@.take(0) =~= Seq::<SavedGroup>::empty());
        assert(ids@ =~= all);
        while i < session.groups.len()
            invariant
                i <= session.groups.len(),
                n <= u32::MAX,
                all.len() == n,
                all.no_duplicates(),
                ids@ == all,
                self.arranged(),
                self.active is None,
                self.bv() == restored(singles(all), all, session.groups@.take(i as int)),
                self.order@ == all,
                forall|k: int| 0 <= k < all.len() ==> new_in(self.tabs@, #[trigger] all[k], dirs[k]),
                errors@ == session_errors(session.groups@.take(i as int), n),
                self.closed@.len() == old(self).closed@.len() + old_ids.len(),
                self.closed@.take(old(self).closed@.len() as int) == old(self).closed@,
                closed_backwards(
                    old(self).tabs@,
                    old(self).order@,
                    states@,
                    self.closed@.skip(old(self).closed@.len() as int),
                ),
                self.next_id == first + n,
            decreases session.groups.len() - i,
        {
            let ghost before = *self;
            proof {
                assert(session.groups@.take(i + 1).drop_last() =~= session.groups@.take(i as int));
                assert(session.groups@.take(i + 1).last() == session.groups@[i as int]);
                regroup::with_group_ok(self.bv(), all, session.groups@[i as int]);
            }
            restore_group(&mut self.blocks, &ids, &session.groups[i], &mut errors);
            proof {
                assert forall|t: TabId| #[trigger] blocks::lists(self.bv(), t)
                    <==> blocks::lists(before.bv(), t) by {
                    assert(all.contains(t) <==> blocks::lists(before.bv(), t));
                    assert(all.contains(t) <==> blocks::lists(self.bv(), t));
                }
                assert forall|m: int| 0 <= m < self.closed@.len() implies !self.lists(
                    (#[trigger] self.closed@[m]).id,
                ) && self.closed@[m].id.0 < self.next_id by {
                    assert(!before.lists(before.closed@[m].id));
                }
            }
            i += 1;
        }
        assert(session.groups@.take(i as int) =~= session.groups@);
        proof {
            assert forall|k: int| 0 <= k < all.len() implies new_in(
                self.tabs@,
                #[trigger] all[k],
                session.paths@[k]@,
            ) by {
                assert(new_in(self.tabs@, all[k], dirs[k]));
            }
            assert forall|k: int| 0 <= k < self.tabs@.len() implies ((
            #[trigger] self.tabs@[k]).pane.spec_visible() <==> self.visible(self.tabs@[k].id)) by {
                let id = self.tabs@[k].id;
                assert(list::tab_at(self.tabs@, k, id));
                assert(blocks::lists(self.bv(), id));
                assert(all.contains(id));
                let i = all.index_of(id);
                assert(new_in(self.tabs@, all[i], dirs[i]));
            }
        }
        errors
    }
}


/// A saved layout names the numbers of its tabs, in order.
proof fn saved_tabs(p: Pane, numbers: Map<u64, u32>)
    ensures
        session::saved(p, numbers).tabs().len() == p.leaves().len(),
        forall|i: int|
            0 <= i < p.leaves().len() ==> #[trigger] session::saved(p, numbers).tabs()[i]
                == numbers[p.leaves()[i].0],
    decreases p,
{
    match p {
        Pane::Leaf(t) => {},
        Pane::Split { start, end, .. } => {
            saved_tabs(*start, numbers);
            saved_tabs(*end, numbers);
            let c = session::saved(p, numbers);
            let a = session::saved(*start, numbers).tabs();
            let b = session::saved(*end, numbers).tabs();
            assert(c.tabs() == a + b);
            assert forall|i: int| 0 <= i < p.leaves().len() implies #[trigger] c.tabs()[i]
                == numbers[p.leaves()[i].0] by {
                if i < a.len() {
                    assert(c.tabs()[i] == a[i]);
                } else {
                    assert(c.tabs()[i] == b[i - a.len()]);
                }
            }
        },
    }
}

/// A split of different tabs that exist holds no mistake.
proof fn restorable_has_no_error(split: SavedSplit, count: nat)
    requires
        session::restorable(split.tabs(), count),
    ensures
        regroup::split_errors(split, count) == Seq::<SessionError>::empty(),
    decreases split,
{
    let a = split.start.tabs();
    let b = split.end.tabs();
    let all = split.tabs();
    session::layout_leaves(split.start, Seq::empty());
    session::layout_leaves(split.end, Seq::empty());
    assert(all[0] == a[0]);
    assert(all[a.len() as int] == b[0]);
    if let SplitChild::Split(s) = split.start {
        assert(s.tabs() == a);
        assert forall|i: int, j: int| 0 <= i < a.len() && 0 <= j < a.len() && i != j implies a[i]
            != a[j] by {
            assert(all[i] == a[i] && all[j] == a[j]);
        }
        assert forall|i: int| 0 <= i < a.len() implies (#[trigger] a[i]) < count by {
            assert(all[i] == a[i]);
        }
        restorable_has_no_error(*s, count);
    }
    if let SplitChild::Split(s) = split.end {
        assert(s.tabs() == b);
        assert forall|i: int, j: int| 0 <= i < b.len() && 0 <= j < b.len() && i != j implies b[i]
            != b[j] by {
            assert(all[a.len() + i] == b[i] && all[a.len() + j] == b[j]);
        }
        assert forall|i: int| 0 <= i < b.len() implies (#[trigger] b[i]) < count by {
            assert(all[a.len() + i] == b[i]);
        }
        restorable_has_no_error(*s, count);
    }    assert(regroup::split_errors(split, count) =~= Seq::<SessionError>::empty());
}

/// A block that is all right and has one member is that tab's own.
proof fn lone_block(b: BlockView, id: TabId)
    requires
        blocks::block_ok(b),
        b.members.len() == 1,
        b.members[0] == id,
    ensures
        b == blocks::single(id),
{
    assert(b.members.contains(id));
    assert(b.layout.leaves().contains(id));
    match b.layout {
        Pane::Leaf(t) => {
            assert(b.layout.leaves()[0] == t);
        },
        Pane::Split { start, end, .. } => {
            pane::has_leaves(*start);
            pane::has_leaves(*end);
        },
    }
    assert(b =~= blocks::single(id));
}

proof fn singles_ok(ids: Seq<TabId>)
    requires
        ids.no_duplicates(),
    ensures
        blocks::blocks_ok(singles(ids)),
        forall|t: TabId| #[trigger] blocks::lists(singles(ids), t) <==> ids.contains(t),
{
    let s = singles(ids);
    assert forall|i: int| 0 <= i < s.len() implies blocks::block_ok(#[trigger] s[i]) by {
        blocks::single_ok(ids[i]);
    }
    assert forall|i: int, t: TabId| #[trigger] blocks::holds(s, i, t) implies t == ids[i] by {
        blocks::single_ok(ids[i]);
    }
    assert forall|t: TabId| #[trigger] blocks::lists(s, t) <==> ids.contains(t) by {
        singles_list(ids, t);
    }
}

/// Where a tab is listed is its number.
proof fn number_of(order: Seq<TabId>, t: TabId)
    requires
        order.no_duplicates(),
        order.contains(t),
        order.len() <= u32::MAX,
    ensures
        numbering(order).dom().contains(t.0),
        numbering(order)[t.0] == order.index_of(t),
        0 <= order.index_of(t) < order.len(),
{
    numbering_is_position(order, order.index_of(t));
}

/// What is saved of a group: the places of its tabs in the list, each once.
proof fn saved_numbers(bv: Seq<BlockView>, order: Seq<TabId>, id: TabId)
    requires
        blocks::blocks_ok(bv),
        listing::order_ok(order, bv),
        order.len() <= u32::MAX,
        blocks::lists(bv, id),
        is_parent(bv, id),
    ensures
        ({
            let b = block_with(bv, id);
            let g = saved_group(bv, id, numbering(order));
            let tabs = g.split.tabs();
            &&& g.parent == order.index_of(id)
            &&& g.parent < order.len()
            &&& session::saved(b.layout, numbering(order)) == SplitChild::Split(Box::new(g.split))
            &&& session::restorable(tabs, order.len())
            &&& tabs.len() == b.members.len()
            &&& forall|k: int|
                0 <= k < tabs.len() ==> b.members.contains(order[(#[trigger] tabs[k]) as int])
            &&& forall|k: int|
                0 <= k < order.len() && b.members.contains(#[trigger] order[k]) ==> tabs.contains(
                    k as u32,
                )
        }),
{
    let b = block_with(bv, id);
    let numbers = numbering(order);
    regroup::in_own_block(bv, id);
    assert(order.contains(id));
    number_of(order, id);
    let l = b.layout.leaves();
    assert forall|i: int| 0 <= i < l.len() implies {
        &&& b.members.contains(#[trigger] l[i])
        &&& order.contains(l[i])
        &&& numbers[l[i].0] == order.index_of(l[i])
    } by {
        assert(l.contains(l[i]));
        regroup::same_block(bv, id, l[i]);
        number_of(order, l[i]);
    }
    saved_tabs(b.layout, numbers);
    assert(b.layout is Split) by {
        if let Pane::Leaf(t) = b.layout {
            assert(l =~= seq![t]);
        }
    }
    let c = session::saved(b.layout, numbers);
    let g = saved_group(bv, id, numbers);
    assert(c == SplitChild::Split(Box::new(g.split)));
    let tabs = g.split.tabs();
    assert(tabs == c.tabs());
    assert forall|i: int| 0 <= i < tabs.len() implies (#[trigger] tabs[i]) < order.len()
        && order[tabs[i] as int] == l[i] by {
        assert(tabs[i] == numbers[l[i].0]);
        assert(order.contains(l[i]));
    }
    assert forall|i: int, k: int| 0 <= i < tabs.len() && 0 <= k < tabs.len() && i != k implies tabs[i]
        != tabs[k] by {
        assert(order[tabs[i] as int] == l[i] && order[tabs[k] as int] == l[k]);
    }
    assert forall|k: int| 0 <= k < order.len() && b.members.contains(#[trigger] order[k]) implies tabs.contains(
        k as u32,
    ) by {
        assert(l.contains(order[k]));
        let i = l.index_of(order[k]);
        assert(order[tabs[i] as int] == order[k]);
        assert(tabs[i] == k);
    }
}

/// What has become of the tab at a place in the list, once the groups of the given
/// parents have been restored for new tabs.
pub open spec fn came_back(
    bv: Seq<BlockView>,
    order: Seq<TabId>,
    parents: Seq<TabId>,
    now: Seq<BlockView>,
    new: Seq<TabId>,
    k: int,
) -> bool {
    let b = block_with(bv, order[k]);
    if b.members.len() > 1 && parents.contains(b.members[0]) {
        &&& block_with(now, new[k]).layout == session::saved(b.layout, numbering(order)).layout(new)
        &&& block_with(now, new[k]).members[0] == new[order.index_of(b.members[0])]
    } else {
        block_with(now, new[k]) == blocks::single(new[k])
    }
}

/// The group of one more parent is restored, with its layout and for its own tabs
/// only.
#[verifier::spinoff_prover]
#[verifier::rlimit(60)]
proof fn group_comes_back(
    bv: Seq<BlockView>,
    order: Seq<TabId>,
    now: Seq<BlockView>,
    new: Seq<TabId>,
    id: TabId,
)
    requires
        blocks::blocks_ok(bv),
        listing::order_ok(order, bv),
        order.len() <= u32::MAX,
        blocks::lists(bv, id),
        is_parent(bv, id),
        new.len() == order.len(),
        blocks::blocks_ok(now),
        listing::order_ok(new, now),
        forall|k: int|
            0 <= k < order.len() && block_with(bv, id).members.contains(#[trigger] order[k])
                ==> block_with(now, new[k]) == blocks::single(new[k]),
    ensures
        ({
            let b = block_with(bv, id);
            let g = saved_group(bv, id, numbering(order));
            let next = with_group(now, new, g);
            &&& forall|k: int|
                0 <= k < order.len() ==> if b.members.contains(#[trigger] order[k]) {
                    &&& block_with(next, new[k]).layout == session::saved(
                        b.layout,
                        numbering(order),
                    ).layout(new)
                    &&& block_with(next, new[k]).members[0] == new[order.index_of(id)]
                } else {
                    block_with(next, new[k]) == block_with(now, new[k])
                }
            &&& group_errors(g, new.len()) == Seq::<SessionError>::empty()
        }),
{
    let b = block_with(bv, id);
    let g = saved_group(bv, id, numbering(order));
    let split = g.split;
    let tabs = split.tabs();
    saved_numbers(bv, order, id);
    session::layout_leaves(split.start, new);
    session::layout_leaves(split.end, new);
    let whole = SplitChild::Split(Box::new(split));
    session::layout_leaves(whole, new);
    assert(whole.tabs() == tabs && whole.layout(new) == split.layout(new));
    assert(tabs[0] == split.start.spec_first());
    let f = split.start.spec_first() as int;
    let first = new[f];
    assert(b.members.contains(order[tabs[0] as int]));
    assert(block_with(now, first) == blocks::single(first));
    blocks::single_ok(first);
    assert(new.contains(first));
    regroup::all_named(now, new, split);
    let start = blocks::single(first).layout;
    assert(start.leaves() =~= seq![first]);
    assert(start.leaves()[0] == first);
    assert(session::ready_for(start, tabs, new)) by {
        assert forall|i: int| 0 < i < tabs.len() implies !start.leaves().contains(
            new[(#[trigger] tabs[i]) as int],
        ) by {
            assert(tabs[i] != tabs[0]);
            assert(tabs[i] < new.len());
        }
    }
    restorable_has_no_error(split, new.len());
    regroup::rejoined_layout(now, new, split);
    regroup::rejoined_ok(now, new, split);
    let mid = regroup::rejoined(now, new, split);
    let layout = split.layout(new);
    assert(start.replaced(first, layout) == layout);
    assert(block_with(mid, first).layout == layout);
    regroup::in_own_block(mid, first);
    let q = g.parent as int;
    let lead = new[q];
    assert(order[q] == id) by {
        assert(order.contains(id));
    }
    regroup::in_own_block(bv, id);
    assert(block_with(now, new[q]) == blocks::single(new[q]));
    assert(listing::parent_of(now, new[q]) == lead);
    // The tabs of the group are together.
    assert forall|k: int| 0 <= k < order.len() && b.members.contains(#[trigger] order[k]) implies block_with(
        mid,
        first,
    ).members.contains(new[k]) by {
        assert(tabs.contains(k as u32));
        let i = tabs.index_of(k as u32);
        assert(layout.leaves()[i] == new[tabs[i] as int]);
        assert(layout.leaves().contains(new[k]));
    }
    assert(block_with(mid, first).members.contains(new[q]));
    let next = with_group(now, new, g);
    assert(next == regroup::headed(mid, new, first, lead));
    regroup::headed_ok(mid, new, first, lead);
    regroup::headed_block(mid, new, first, lead);
    assert forall|k: int| 0 <= k < order.len() implies if b.members.contains(#[trigger] order[k]) {
        &&& block_with(next, new[k]).layout == session::saved(b.layout, numbering(order)).layout(new)
        &&& block_with(next, new[k]).members[0] == new[order.index_of(id)]
    } else {
        block_with(next, new[k]) == block_with(now, new[k])
    } by {
        assert(new.contains(new[k]));
        if b.members.contains(order[k]) {
            assert(block_with(mid, first).members.contains(new[k]));
        } else {
            regroup::in_own_block(now, new[k]);
            assert forall|i: int| 0 <= i < tabs.len() && tabs[i] < new.len() implies !block_with(
                now,
                new[k],
            ).members.contains(new[(#[trigger] tabs[i]) as int]) by {
                let t = new[tabs[i] as int];
                assert(b.members.contains(order[tabs[i] as int]));
                if block_with(now, new[k]).members.contains(t) {
                    regroup::same_block(now, new[k], t);
                    assert(block_with(now, t) == blocks::single(t));
                    blocks::single_ok(t);
                    assert(new[k] == t);
                }
            }
            regroup::rejoined_elsewhere(now, new, split, new[k]);
            assert(!block_with(mid, first).members.contains(new[k])) by {
                if block_with(mid, first).members.contains(new[k]) {
                    regroup::same_block(mid, first, new[k]);
                    assert(block_with(now, new[k]).members.contains(new[tabs[0] as int]));
                }
            }
        }
    }
}

/// Blocks of one tab each list those tabs.
pub proof fn singles_listed(ids: Seq<TabId>)
    ensures
        blocks::listed(singles(ids)) == ids,
    decreases ids.len(),
{
    if ids.len() > 0 {
        singles_listed(ids.drop_last());
        assert(singles(ids).drop_last() =~= singles(ids.drop_last()));
        assert(singles(ids).last() == blocks::single(ids.last()));
        assert(blocks::listed(singles(ids)) =~= ids);
    } else {
        assert(blocks::listed(singles(ids)) =~= ids);
    }
}

/// Lone tabs that are listed one after the other are blocks one after the other.
proof fn lone_run(now: Seq<BlockView>, new: Seq<TabId>, i: int, o: int, n: int, k: int)
    requires
        blocks::blocks_ok(now),
        blocks::listed(now) == new,
        new.no_duplicates(),
        0 <= i <= now.len(),
        listing::offset(now, i) == o,
        0 <= k <= n,
        o + n <= new.len(),
        forall|p: int|
            o <= p < o + n ==> block_with(now, #[trigger] new[p]) == blocks::single(new[p]),
    ensures
        i + k <= now.len(),
        listing::offset(now, i + k) == o + k,
        forall|m: int| 0 <= m < k ==> #[trigger] now[i + m] == blocks::single(new[o + m]),
    decreases k,
{
    if k > 0 {
        lone_run(now, new, i, o, n, k - 1);
        let x = i + k - 1;
        let p = o + k - 1;
        assert(x < now.len()) by {
            if x == now.len() {
                assert(now.take(x) =~= now);
            }
        }
        assert(blocks::block_ok(now[x]));
        listing::listed_position(now, x, 0);
        let t = now[x].members[0];
        assert(new.contains(t)) by {
            blocks::listed_contains(now, t);
            assert(now[x].members.contains(t));
            assert(blocks::holds(now, x, t));
        }
        assert(new[p] == t);
        assert(now[x] == blocks::single(new[p]));
        listing::offset_step(now, x);
        assert forall|m: int| 0 <= m < k implies #[trigger] now[i + m] == blocks::single(
            new[o + m],
        ) by {
            if m == k - 1 {
                assert(i + m == x);
            }
        }
    }
}

/// Where lone tabs stand alone in blocks, a split of all of them makes one block.
#[verifier::spinoff_prover]
#[verifier::rlimit(60)]
proof fn run_joined(new: Seq<TabId>, o: int, n: int, split: SavedSplit)
    requires
        new.no_duplicates(),
        0 <= o,
        0 < n,
        o + n <= new.len() <= u32::MAX,
        session::restorable(split.tabs(), new.len()),
        forall|k: int| 0 <= k < split.tabs().len() ==> o <= (#[trigger] split.tabs()[k]) < o + n,
        forall|m: int| o <= m < o + n ==> #[trigger] split.tabs().contains(m as u32),
    ensures
        ({
            let run = new.subrange(o, o + n);
            let joined = regroup::rejoined(singles(run), new, split);
            &&& blocks::blocks_ok(singles(run))
            &&& regroup::names_listed(singles(run), new, split)
            &&& joined.len() == 1
            &&& blocks::block_ok(joined[0])
            &&& forall|t: TabId| #[trigger] joined[0].members.contains(t) <==> run.contains(t)
        }),
{
    let run = new.subrange(o, o + n);
    let x = singles(run);
    let tabs = split.tabs();
    assert forall|a: int, b: int| 0 <= a < run.len() && 0 <= b < run.len() && a != b implies run[a]
        != run[b] by {
        assert(run[a] == new[o + a] && run[b] == new[o + b]);
    }
    singles_ok(run);
    assert forall|k: int| 0 <= k < tabs.len() && tabs[k] < new.len() implies blocks::lists(
        x,
        new[(#[trigger] tabs[k]) as int],
    ) by {
        assert(run[tabs[k] - o] == new[tabs[k] as int]);
        assert(run.contains(new[tabs[k] as int]));
    }
    session::layout_leaves(split.start, new);
    session::layout_leaves(split.end, new);
    let whole = SplitChild::Split(Box::new(split));
    session::layout_leaves(whole, new);
    assert(whole.tabs() == tabs && whole.layout(new) == split.layout(new));
    assert(tabs[0] == split.start.spec_first());
    let first = new[split.start.spec_first() as int];
    let at = split.start.spec_first() - o;
    assert(run[at] == first);
    assert(x[at] == blocks::single(first));
    blocks::single_ok(first);
    assert(blocks::holds(x, at, first));
    blocks::block_of_unique(x, at, first);
    let start = blocks::single(first).layout;
    assert(start.leaves() =~= seq![first]);
    assert(start.leaves()[0] == first);
    assert forall|i: int| 0 < i < tabs.len() implies !start.leaves().contains(
        new[(#[trigger] tabs[i]) as int],
    ) by {
        assert(tabs[i] != tabs[0]);
    }
    regroup::rejoined_layout(x, new, split);
    regroup::rejoined_ok(x, new, split);
    let joined = regroup::rejoined(x, new, split);
    let layout = split.layout(new);
    assert(start.replaced(first, layout) == layout);
    regroup::in_own_block(joined, first);
    assert forall|t: TabId| run.contains(t) implies #[trigger] block_with(
        joined,
        first,
    ).members.contains(t) by {
        let m = run.index_of(t);
        assert(tabs.contains((o + m) as u32));
        let i = tabs.index_of((o + m) as u32);
        assert(layout.leaves()[i] == new[tabs[i] as int]);
        assert(layout.leaves().contains(t));
    }
    let j = blocks::block_of(joined, first);
    let y: int = if j == 0 {
        1
    } else {
        0
    };
    assert(joined.len() == 1) by {
        if joined.len() > 1 {
            assert(blocks::block_ok(joined[y]));
            let t = joined[y].members[0];
            assert(joined[y].members.contains(t));
            assert(blocks::holds(joined, y, t));
            assert(blocks::lists(joined, t));
            assert(run.contains(t));
            assert(block_with(joined, first).members.contains(t));
            assert(blocks::holds(joined, j, t));
        }
    }
    assert forall|t: TabId| #[trigger] joined[0].members.contains(t) <==> run.contains(t) by {
        if joined[0].members.contains(t) {
            assert(blocks::holds(joined, 0, t));
            assert(blocks::lists(joined, t));
        }
        if run.contains(t) {
            assert(block_with(joined, first).members.contains(t));
        }
    }
}

/// A group whose tabs are listed together is restored to one whose tabs are.
#[verifier::spinoff_prover]
#[verifier::rlimit(60)]
proof fn group_stays_tidy(
    bv: Seq<BlockView>,
    now: Seq<BlockView>,
    new: Seq<TabId>,
    id: TabId,
)
    requires
        blocks::blocks_ok(bv),
        blocks::listed(bv).len() <= u32::MAX,
        blocks::lists(bv, id),
        is_parent(bv, id),
        new.len() == blocks::listed(bv).len(),
        blocks::blocks_ok(now),
        new.no_duplicates(),
        blocks::listed(now) == new,
        forall|k: int|
            0 <= k < new.len() && block_with(bv, id).members.contains(
                #[trigger] blocks::listed(bv)[k],
            ) ==> block_with(now, new[k]) == blocks::single(new[k]),
    ensures
        blocks::listed(
            with_group(now, new, saved_group(bv, id, numbering(blocks::listed(bv)))),
        ) == new,
{
    let order = blocks::listed(bv);
    listing::listed_order_ok(bv);
    listing::listed_order_ok(now);
    saved_numbers(bv, order, id);
    let g = saved_group(bv, id, numbering(order));
    let split = g.split;
    let tabs = split.tabs();
    let j = blocks::block_of(bv, id);
    regroup::in_own_block(bv, id);
    let b = bv[j];
    let n = b.members.len() as int;
    let o = listing::offset(bv, j);
    assert forall|m: int| 0 <= m < n implies order[o + m] == #[trigger] b.members[m] by {
        listing::listed_position(bv, j, m);
        assert(order.contains(b.members[m])) by {
            blocks::listed_contains(bv, b.members[m]);
            assert(b.members.contains(b.members[m]));
            assert(blocks::holds(bv, j, b.members[m]));
        }
    }
    listing::listed_position(bv, j, 0);
    assert(g.parent == o);
    assert forall|p: int| o <= p < o + n implies block_with(now, #[trigger] new[p])
        == blocks::single(new[p]) by {
        assert(order[p] == b.members[p - o]);
        assert(b.members.contains(order[p]));
    }
    assert forall|k: int| 0 <= k < tabs.len() implies o <= (#[trigger] tabs[k]) < o + n by {
        let t = order[tabs[k] as int];
        assert(b.members.contains(t));
        let m = b.members.index_of(t);
        assert(order[o + m] == b.members[m]);
    }
    assert forall|m: int| o <= m < o + n implies #[trigger] tabs.contains(m as u32) by {
        assert(order[m] == b.members[m - o]);
        assert(b.members.contains(order[m]));
    }
    let run = new.subrange(o, o + n);
    run_joined(new, o, n, split);
    // The blocks of the group's tabs stand one after the other.
    let i = blocks::block_of(now, new[o]);
    assert(new.contains(new[o]));
    regroup::in_own_block(now, new[o]);
    listing::listed_position(now, i, 0);
    assert(now[i].members[0] == new[o]);
    assert(new.index_of(new[o]) == o);
    lone_run(now, new, i, o, n, n);
    let pre = now.take(i);
    let mid = singles(run);
    let post = now.skip(i + n);
    assert(now =~= pre + mid + post) by {
        assert forall|x: int| i <= x < i + n implies now[x] == mid[x - i] by {
            let m = x - i;
            assert(now[i + m] == blocks::single(new[o + m]));
        }
    }
    regroup::all_named(now, new, split);
    regroup::rejoined_between(pre, mid, post, new, split);
    let joined = regroup::rejoined(mid, new, split);
    let all = regroup::rejoined(now, new, split);
    assert(all == pre + joined + post);
    restorable_has_no_error(split, new.len());
    assert(regroup::own_error(split, new.len()) is None);
    session::layout_leaves(split.start, new);
    assert(tabs[0] == split.start.spec_first());
    let first = new[tabs[0] as int];
    assert(run[tabs[0] - o] == first);
    assert(run.contains(first));
    assert(joined[0].members.contains(first));
    regroup::rejoined_ok(now, new, split);
    assert(all[i] == joined[0]);
    assert(blocks::holds(all, i, first));
    blocks::block_of_unique(all, i, first);
    let lead = new[o];
    assert(run[0] == lead);
    assert(run.contains(lead));
    assert(joined[0].members.contains(lead));
    assert(listing::parent_of(now, new[o]) == lead);
    regroup::ring_of_range(new, o, n, joined[0].members);
    let block = BlockView { members: run, layout: joined[0].layout };
    let next = with_group(now, new, g);
    assert(next =~= pre.push(block) + post);
    listing::listed_around(pre, block, post);
    listing::listed_concat(pre + mid, post);
    listing::listed_concat(pre, mid);
    singles_listed(run);
}

/// Saving groups and restoring them for new tabs, parent by parent.
#[verifier::spinoff_prover]
#[verifier::rlimit(60)]
proof fn groups_come_back(
    bv: Seq<BlockView>,
    order: Seq<TabId>,
    tabs: Seq<TabId>,
    new: Seq<TabId>,
)
    requires
        blocks::blocks_ok(bv),
        listing::order_ok(order, bv),
        order.len() <= u32::MAX,
        new.len() == order.len(),
        new.no_duplicates(),
        tabs.no_duplicates(),
        forall|i: int| 0 <= i < tabs.len() ==> blocks::lists(bv, #[trigger] tabs[i]),
    ensures
        ({
            let groups = saved_groups(tabs, bv, numbering(order));
            let now = restored(singles(new), new, groups);
            &&& blocks::blocks_ok(now)
            &&& listing::order_ok(new, now)
            &&& forall|k: int|
                0 <= k < order.len() ==> #[trigger] came_back(bv, order, tabs, now, new, k)
            &&& session_errors(groups, new.len()) == Seq::<SessionError>::empty()
            &&& order == blocks::listed(bv) ==> blocks::listed(now) == new
        }),
    decreases tabs.len(),
{
    let numbers = numbering(order);
    if tabs.len() == 0 {
        let now = singles(new);
        singles_ok(new);
        singles_listed(new);
        assert forall|k: int| 0 <= k < order.len() implies #[trigger] came_back(
            bv,
            order,
            tabs,
            now,
            new,
            k,
        ) by {
            blocks::single_ok(new[k]);
            assert(now[k] == blocks::single(new[k]));
            assert(blocks::holds(now, k, new[k]));
            blocks::block_of_unique(now, k, new[k]);
        }
    } else {
        let front = tabs.drop_last();
        let id = tabs.last();
        assert forall|i: int| 0 <= i < front.len() implies blocks::lists(
            bv,
            #[trigger] front[i],
        ) by {
            assert(front[i] == tabs[i]);
        }
        assert forall|a: int, b: int|
            0 <= a < front.len() && 0 <= b < front.len() && a != b implies front[a] != front[b] by {
            assert(front[a] == tabs[a] && front[b] == tabs[b]);
        }
        groups_come_back(bv, order, front, new);
        assert(tabs[tabs.len() - 1] == id);
        assert(blocks::lists(bv, id));
        assert forall|t: TabId| #[trigger] tabs.contains(t) <==> front.contains(t) || t == id by {
            if tabs.contains(t) {
                let m = tabs.index_of(t);
                if m < front.len() {
                    assert(front[m] == t);
                }
            }
            if front.contains(t) {
                let m = front.index_of(t);
                assert(tabs[m] == t);
            }
        }
        let groups = saved_groups(front, bv, numbers);
        let now = restored(singles(new), new, groups);
        let b = block_with(bv, id);
        regroup::in_own_block(bv, id);
        // The parent of a tab in another group is another tab.
        assert forall|k: int|
            0 <= k < order.len() && block_with(bv, #[trigger] order[k]).members[0]
                == id implies b.members.contains(order[k]) by {
            let c = block_with(bv, order[k]);
            assert(order.contains(order[k]));
            regroup::in_own_block(bv, order[k]);
            assert(c.members.contains(c.members[0]));
            regroup::same_block(bv, order[k], id);
        }
        assert forall|k: int| 0 <= k < order.len() && b.members.contains(#[trigger] order[k]) implies block_with(
            bv,
            order[k],
        ) == b by {
            regroup::same_block(bv, id, order[k]);
        }
        if is_parent(bv, id) {
            let g = saved_group(bv, id, numbers);
            assert(!front.contains(id)) by {
                if front.contains(id) {
                    let m = front.index_of(id);
                    assert(tabs[m] == tabs[tabs.len() - 1]);
                }
            }
            assert forall|k: int|
                0 <= k < order.len() && b.members.contains(#[trigger] order[k]) implies block_with(
                now,
                new[k],
            ) == blocks::single(new[k]) by {
                assert(came_back(bv, order, front, now, new, k));
            }
            group_comes_back(bv, order, now, new, id);
            regroup::with_group_ok(now, new, g);
            assert(saved_groups(tabs, bv, numbers) == groups.push(g));
            assert(groups.push(g).drop_last() =~= groups);
            let next = with_group(now, new, g);
            assert(restored(singles(new), new, groups.push(g)) == next);
            assert(session_errors(groups.push(g), new.len()) =~= Seq::<SessionError>::empty());
            assert forall|k: int| 0 <= k < order.len() implies #[trigger] came_back(
                bv,
                order,
                tabs,
                next,
                new,
                k,
            ) by {
                assert(came_back(bv, order, front, now, new, k));
                assert(b.members.contains(order[k]) || !b.members.contains(order[k]));
            }
            if order == blocks::listed(bv) {
                group_stays_tidy(bv, now, new, id);
            }
        } else {
            assert forall|k: int| 0 <= k < order.len() implies #[trigger] came_back(
                bv,
                order,
                tabs,
                now,
                new,
                k,
            ) by {
                assert(came_back(bv, order, front, now, new, k));
                let c = block_with(bv, order[k]);
                if c.members[0] == id {
                    assert(c == b);
                }
            }
        }
    }
}

/// Whether the group of the tab at a place in the list has the same layout, for the
/// tabs at the same places, and the tab at the same place for its parent.
pub open spec fn same_group(
    bv: Seq<BlockView>,
    order: Seq<TabId>,
    back: Seq<BlockView>,
    new: Seq<TabId>,
    k: int,
) -> bool {
    &&& session::saved(block_with(back, new[k]).layout, numbering(new)) == session::saved(
        block_with(bv, order[k]).layout,
        numbering(order),
    )
    &&& numbering(new)[listing::parent_of(back, new[k]).0] == numbering(order)[listing::parent_of(
        bv,
        order[k],
    ).0]
}

/// Saving the list of tabs as a session and loading that session restores the same
/// groups with the same layouts and parents, for the new tabs. Nothing is wrong with
/// such a session, and tabs of a group that were listed together are again.
pub proof fn session_round_trip(list: &TabsList, s: &Session, from: u64)
    requires
        list.valid(),
        session_of(list, s),
        list.order@.len() <= u32::MAX,
        from + s.paths@.len() <= u64::MAX,
    ensures
        ({
            let new = fresh_ids(from, s.paths@.len());
            let back = restored(singles(new), new, s.groups@);
            &&& listing::order_ok(new, back)
            &&& forall|k: int|
                0 <= k < new.len() ==> #[trigger] same_group(list.bv(), list.order@, back, new, k)
            &&& list.tidy() ==> blocks::listed(back) == new
            &&& session_errors(s.groups@, s.paths@.len()) == Seq::<SessionError>::empty()
        }),
{
    let bv = list.bv();
    let order = list.order@;
    let new = fresh_ids(from, s.paths@.len());
    let tabs = tab_ids(list.tabs@);
    let numbers = numbering(order);
    fresh_ids_distinct(from, s.paths@.len());
    assert forall|i: int| 0 <= i < tabs.len() implies blocks::lists(bv, #[trigger] tabs[i]) by {
        assert(list::tab_at(list.tabs@, i, tabs[i]));
    }
    assert forall|a: int, b: int| 0 <= a < tabs.len() && 0 <= b < tabs.len() && a != b implies tabs[a]
        != tabs[b] by {
        assert(list::tab_at(list.tabs@, a, tabs[a]));
        assert(list::tab_at(list.tabs@, b, tabs[b]));
    }
    groups_come_back(bv, order, tabs, new);
    let back = restored(singles(new), new, s.groups@);
    assert forall|i: int| 0 <= i < new.len() implies numbering(new).dom().contains(
        (#[trigger] new[i]).0,
    ) && numbering(new)[new[i].0] == i by {
        numbering_is_position(new, i);
    }
    assert forall|k: int| 0 <= k < new.len() implies #[trigger] same_group(
        bv,
        order,
        back,
        new,
        k,
    ) by {
        assert(came_back(bv, order, tabs, back, new, k));
        assert(order.contains(order[k]));
        let b = block_with(bv, order[k]);
        regroup::in_own_block(bv, order[k]);
        let parent = b.members[0];
        assert(b.members.contains(parent));
        regroup::same_block(bv, order[k], parent);
        let m = choose|m: int| #[trigger] list::tab_at(list.tabs@, m, parent);
        assert(list::tab_at(list.tabs@, m, parent));
        assert(tabs[m] == parent);
        assert(order.contains(parent));
        number_of(order, parent);
        number_of(order, order[k]);
        if b.members.len() > 1 {
            let c = session::saved(b.layout, numbers);
            saved_tabs(b.layout, numbers);
            assert forall|i: int| 0 <= i < c.tabs().len() implies (#[trigger] c.tabs()[i])
                < new.len() by {
                let t = b.layout.leaves()[i];
                assert(b.layout.leaves().contains(t));
                regroup::same_block(bv, order[k], t);
                assert(order.contains(t));
                number_of(order, t);
            }
            session::layout_then_save(c, numbering(new), new);
        } else {
            assert(b.members[0] == order[k]);
            lone_block(b, order[k]);
            assert(order.index_of(order[k]) == k);
        }
    }
}

} // verus!
