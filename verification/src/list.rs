//! The list of tabs: their order, their groups, and which of them is active.
use std::sync::Arc;

use vstd::prelude::*;
use vstd::string::*;
use vstd::utf8::*;

use crate::blocks::{self, find_block, Block, BlockView};
use crate::collections::{self, empty_set, set_contains, set_insert, set_remove};
use crate::contents::Contents;
use crate::listing;
use crate::nav::{NavTarget, PaneState};
use crate::pane::{self, TabId};
use crate::path::{self, FilePath};
use crate::tab::{ClosedTab, Tab, TabPane};

verus! {

/// Where a new tab goes in the list. Tabs never go inside a group.
#[derive(Clone, Copy, Debug, PartialEq, Eq, Structural)]
pub enum TabPosition {
    AfterActive,
    After(TabId),
    End,
}

/// All tabs. The members of the active tab's group are visible and no others
/// are, so there is always one active tab or no visible tabs.
pub struct TabsList {
    pub tabs: Vec<Tab>,
    pub closed: Vec<ClosedTab>,
    pub active: Option<TabId>,
    pub blocks: Vec<Block>,
    /// The tabs in the order they are listed.
    pub order: Vec<TabId>,
    pub next_id: u64,
}

/// What the displayed panes show.
pub struct Shown {
    pub panes: Vec<(TabId, PaneState)>,
}

/// What the pane of a tab shows. A pane that is not listed shows the start of its
/// directory.
pub open spec fn shown_in(panes: Seq<(TabId, PaneState)>, id: TabId) -> PaneState
    decreases panes.len(),
{
    if panes.len() == 0 {
        PaneState::jumping_to(None)
    } else if panes[0].0 == id {
        panes[0].1
    } else {
        shown_in(panes.skip(1), id)
    }
}

impl Shown {
    pub open spec fn of(self, id: TabId) -> PaneState {
        shown_in(self.panes@, id)
    }

    /// What the pane of a tab shows.
    pub fn get(&self, id: TabId) -> (r: PaneState)
        ensures
            r == self.of(id),
    {
        let mut i: usize = 0;
        assert(self.panes@.skip(0) =~= self.panes@);
        while i < self.panes.len()
            invariant
                i <= self.panes.len(),
                self.of(id) == shown_in(self.panes@.skip(i as int), id),
            decreases self.panes.len() - i,
        {
            if self.panes[i].0 == id {
                return self.panes[i].1.copy();
            }
            assert(self.panes@.skip(i as int).skip(1) =~= self.panes@.skip(i + 1));
            i += 1;
        }
        PaneState::for_jump(None)
    }
}

/// A tab that is alone in its block has no kin.
proof fn lone_has_no_kin(b: BlockView, id: TabId)
    requires
        blocks::block_ok(b),
        b.members.len() == 1,
        b.members.contains(id),
    ensures
        b.layout.kin(id) is None,
{
    pane::kin_is_other(b.layout, id);
    if let Some(k) = b.layout.kin(id) {
        assert(b.layout.leaves().contains(k));
        assert(b.members.contains(k));
    }
}

/// Whether the tab at `k` is the one with the given id.
pub open spec fn tab_at(tabs: Seq<Tab>, k: int, id: TabId) -> bool {
    0 <= k < tabs.len() && tabs[k].id == id
}

/// Whether the tabs are exactly those that the blocks list.
pub open spec fn tabs_match(tabs: Seq<Tab>, bv: Seq<BlockView>) -> bool {
    &&& forall|i: int, j: int, t: TabId| #[trigger]
        tab_at(tabs, i, t) && #[trigger] tab_at(tabs, j, t) ==> i == j
    &&& forall|k: int, t: TabId| #[trigger] tab_at(tabs, k, t) ==> blocks::lists(bv, t)
    &&& forall|t: TabId| #[trigger]
        blocks::lists(bv, t) ==> exists|k: int| #[trigger] tab_at(tabs, k, t)
}

/// A sequence whose element at `k` was replaced by the last one.
pub open spec fn swap_removed<T>(s: Seq<T>, k: int) -> Seq<T> {
    if k == s.len() - 1 {
        s.drop_last()
    } else {
        s.update(k, s.last()).drop_last()
    }
}

proof fn push_tab_matches(tabs: Seq<Tab>, bv: Seq<BlockView>, tab: Tab, after: Seq<BlockView>)
    requires
        tabs_match(tabs, bv),
        !blocks::lists(bv, tab.id),
        forall|t: TabId| #[trigger]
            blocks::lists(after, t) <==> blocks::lists(bv, t) || t == tab.id,
    ensures
        tabs_match(tabs.push(tab), after),
{
    let now = tabs.push(tab);
    assert forall|k: int, t: TabId| #[trigger] tab_at(now, k, t) implies if k < tabs.len() {
        tab_at(tabs, k, t)
    } else {
        t == tab.id
    } by {
        if k < tabs.len() {
            assert(now[k] == tabs[k]);
        }
    }
    assert forall|i: int, j: int, t: TabId| #[trigger]
        tab_at(now, i, t) && #[trigger] tab_at(now, j, t) implies i == j by {
        if i < tabs.len() && j >= tabs.len() {
            assert(tab_at(tabs, i, t));
            assert(blocks::lists(bv, t));
        }
        if j < tabs.len() && i >= tabs.len() {
            assert(tab_at(tabs, j, t));
            assert(blocks::lists(bv, t));
        }
    }
    assert forall|k: int, t: TabId| #[trigger] tab_at(now, k, t) implies blocks::lists(
        after,
        t,
    ) by {
        if k < tabs.len() {
            assert(blocks::lists(bv, t));
        }
    }
    assert forall|t: TabId| #[trigger] blocks::lists(after, t) implies exists|k: int| #[trigger]
        tab_at(now, k, t) by {
        if blocks::lists(bv, t) {
            let k = choose|k: int| #[trigger] tab_at(tabs, k, t);
            assert(now[k] == tabs[k]);
            assert(tab_at(now, k, t));
        } else {
            assert(tab_at(now, tabs.len() as int, t));
        }
    }
}

proof fn remove_tab_matches(tabs: Seq<Tab>, bv: Seq<BlockView>, k: int, after: Seq<BlockView>)
    requires
        tabs_match(tabs, bv),
        0 <= k < tabs.len(),
        forall|t: TabId| #[trigger]
            blocks::lists(after, t) <==> blocks::lists(bv, t) && t != tabs[k].id,
    ensures
        tabs_match(swap_removed(tabs, k), after),
{
    let now = swap_removed(tabs, k);
    let last = tabs.len() - 1;
    let id = tabs[k].id;
    assert(tab_at(tabs, k, id));
    assert forall|i: int, t: TabId| #[trigger] tab_at(now, i, t) implies tab_at(
        tabs,
        if i == k {
            last
        } else {
            i
        },
        t,
    ) && t != id by {
        let o = if i == k { last } else { i };
        assert(now[i] == tabs[o]);
        assert(tab_at(tabs, o, t));
    }
    assert forall|i: int, j: int, t: TabId| #[trigger]
        tab_at(now, i, t) && #[trigger] tab_at(now, j, t) implies i == j by {
        let a = if i == k { last } else { i };
        let b = if j == k { last } else { j };
        assert(tab_at(tabs, a, t) && tab_at(tabs, b, t));
    }
    assert forall|i: int, t: TabId| #[trigger] tab_at(now, i, t) implies blocks::lists(
        after,
        t,
    ) by {
        let o = if i == k { last } else { i };
        assert(tab_at(tabs, o, t));
        assert(blocks::lists(bv, t));
    }
    assert forall|t: TabId| #[trigger] blocks::lists(after, t) implies exists|i: int| #[trigger]
        tab_at(now, i, t) by {
        assert(blocks::lists(bv, t));
        let i = choose|i: int| #[trigger] tab_at(tabs, i, t);
        assert(tab_at(tabs, i, t));
        if i == last {
            assert(k != last);
            assert(now[k] == tabs[last]);
            assert(tab_at(now, k, t));
        } else {
            assert(now[i] == tabs[i]);
            assert(tab_at(now, i, t));
        }
    }
}

impl TabsList {
    /// The blocks in mathematical form.
    #[verifier::inline]
    pub open spec fn bv(&self) -> Seq<BlockView> {
        blocks::views(self.blocks@)
    }

    /// Whether there is a tab with the given id.
    #[verifier::inline]
    pub open spec fn lists(&self, id: TabId) -> bool {
        blocks::lists(self.bv(), id)
    }

    /// Whether closed tabs are neither open nor closed twice.
    pub open spec fn closed_ok(&self) -> bool {
        &&& forall|i: int|
            0 <= i < self.closed@.len() ==> !self.lists((#[trigger] self.closed@[i]).id)
                && self.closed@[i].id.0 < self.next_id
        &&& forall|i: int, j: int|
            0 <= i < j < self.closed@.len() ==> (#[trigger] self.closed@[i]).id != (
            #[trigger] self.closed@[j]).id
    }

    /// Every tab is in exactly one place of the list, the active tab is one of
    /// them, and ids are not used twice.
    pub open spec fn arranged(&self) -> bool {
        &&& blocks::blocks_ok(self.bv())
        &&& listing::order_ok(self.order@, self.bv())
        &&& tabs_match(self.tabs@, self.bv())
        &&& self.active matches Some(a) ==> self.lists(a)
        &&& forall|t: TabId| #[trigger] self.lists(t) ==> t.0 < self.next_id
        &&& self.closed_ok()
    }

    /// The tabs are arranged, and exactly those panes are displayed that are
    /// visible.
    pub open spec fn valid(&self) -> bool {
        self.arranged() && self.panes_follow()
    }

    /// Whether exactly those panes are displayed that are visible.
    pub open spec fn panes_follow(&self) -> bool {
        forall|k: int|
            0 <= k < self.tabs@.len() ==> ((#[trigger] self.tabs@[k]).pane.spec_visible()
                <==> self.visible(self.tabs@[k].id))
    }

    /// Whether the tabs are the given ones with their panes displayed or hidden
    /// as they are visible now. `shown` is what panes showed before.
    pub open spec fn shows(&self, tabs: Seq<Tab>, shown: Shown) -> bool {
        self.tabs@ == Seq::new(
            tabs.len(),
            |k: int| tabs[k].displayed(self.visible(tabs[k].id), shown.of(tabs[k].id)),
        )
    }

    /// Whether a tab's pane is visible: it is active, or in the active tab's
    /// group.
    pub open spec fn visible(&self, id: TabId) -> bool {
        self.active matches Some(a) && exists|i: int| #[trigger]
            blocks::holds(self.bv(), i, id) && blocks::holds(self.bv(), i, a)
    }

    /// Whether the tabs of each group are listed one after the other, the parent
    /// first. Groups that are split stay like that; a session can hold others.
    pub open spec fn tidy(&self) -> bool {
        self.order@ == blocks::listed(self.bv())
    }

    /// Whether a tab can leave its group.
    pub open spec fn may_leave(&self, id: TabId) -> bool {
        self.tidy() || listing::can_leave(self.order@, self.bv(), id)
    }

    /// Whether a tab can leave its group.
    pub fn can_leave(&self, id: TabId) -> (r: bool)
        requires
            self.arranged(),
            self.lists(id),
        ensures
            r == self.may_leave(id),
    {
        proof {
            if self.tidy() {
                listing::tidy_leave(self.bv(), id);
            }
        }
        listing::is_free_to_leave(&self.order, &self.blocks, id)
    }

    /// The number of tabs in the group of a tab.
    pub open spec fn group_size(&self, id: TabId) -> nat {
        self.bv()[blocks::block_of(self.bv(), id)].members.len()
    }

    pub fn new() -> (r: TabsList)
        ensures
            r.valid(),
            r.tabs@ == Seq::<Tab>::empty(),
            r.closed@ == Seq::<ClosedTab>::empty(),
            r.active is None,
            r.bv() == Seq::<BlockView>::empty(),
            r.order@ == Seq::<TabId>::empty(),
            r.tidy(),
            r.next_id == 0,
    {
        let r = TabsList {
            tabs: Vec::new(),
            closed: Vec::new(),
            active: None,
            blocks: Vec::new(),
            order: Vec::new(),
            next_id: 0,
        };
        assert(r.bv() =~= Seq::<BlockView>::empty());
        assert(r.order@ =~= blocks::listed(r.bv()));
        assert forall|t: TabId| !(#[trigger] blocks::lists(r.bv(), t)) by {
            if blocks::lists(r.bv(), t) {
                let i = choose|i: int| #[trigger] blocks::holds(r.bv(), i, t);
                assert(blocks::holds(r.bv(), i, t));
            }
        }
        r
    }

    /// Where a tab is kept.
    pub fn position(&self, id: TabId) -> (r: Option<usize>)
        requires
            self.arranged(),
        ensures
            r is Some <==> self.lists(id),
            r matches Some(k) ==> tab_at(self.tabs@, k as int, id),
    {
        let mut i: usize = 0;
        while i < self.tabs.len()
            invariant
                i <= self.tabs.len(),
                self.arranged(),
                forall|k: int| 0 <= k < i ==> !(#[trigger] tab_at(self.tabs@, k, id)),
            decreases self.tabs.len() - i,
        {
            if self.tabs[i].id == id {
                assert(tab_at(self.tabs@, i as int, id));
                return Some(i);
            }
            i += 1;
        }
        None
    }

    /// Displays the panes that are visible and hides the others.
    fn show_panes(&mut self, shown: &Shown)
        requires
            old(self).arranged(),
        ensures
            final(self).valid(),
            final(self).bv() == old(self).bv(),
            final(self).order == old(self).order,
            final(self).active == old(self).active,
            final(self).closed == old(self).closed,
            final(self).next_id == old(self).next_id,
            final(self).shows(old(self).tabs@, *shown),
    {
        let ghost before = *self;
        let mut i: usize = 0;
        while i < self.tabs.len()
            invariant
                i <= self.tabs.len(),
                before.arranged(),
                self.arranged(),
                self.blocks == before.blocks,
                self.order == before.order,
                self.active == before.active,
                self.closed == before.closed,
                self.next_id == before.next_id,
                self.tabs@.len() == before.tabs@.len(),
                forall|k: int| i <= k < self.tabs@.len() ==> self.tabs@[k] == before.tabs@[k],
                forall|k: int|
                    0 <= k < i ==> #[trigger] self.tabs@[k] == before.tabs@[k].displayed(
                        before.visible(before.tabs@[k].id),
                        shown.of(before.tabs@[k].id),
                    ),
            decreases self.tabs.len() - i,
        {
            let id = self.tabs[i].id;
            let visible = self.is_visible(id);
            assert(self.tabs@[i as int] == before.tabs@[i as int]);
            if visible != self.tabs[i].pane.visible() {
                if visible {
                    self.tabs[i].pane.make_visible();
                } else {
                    self.tabs[i].pane.mark_detached(shown.get(id));
                }
                proof {
                    same_ids_match(before.tabs@, self.tabs@, before.bv());
                }
            }
            assert(self.tabs@[i as int] == before.tabs@[i as int].displayed(
                before.visible(id),
                shown.of(id),
            ));
            i += 1;
        }
        assert(self.tabs@ =~= Seq::new(
            before.tabs@.len(),
            |k: int|
                before.tabs@[k].displayed(
                    self.visible(before.tabs@[k].id),
                    shown.of(before.tabs@[k].id),
                ),
        ));
    }

    /// Makes a listed tab the active one.
    pub fn set_active(&mut self, id: TabId, shown: &Shown)
        requires
            old(self).valid(),
            old(self).lists(id),
        ensures
            final(self).valid(),
            final(self).active == Some(id),
            final(self).bv() == old(self).bv(),
            final(self).order == old(self).order,
            final(self).shows(old(self).tabs@, *shown),
            final(self).closed == old(self).closed,
            final(self).next_id == old(self).next_id,
    {
        self.activate(id);
        self.show_panes(shown);
    }

    fn activate(&mut self, id: TabId)
        requires
            old(self).arranged(),
            old(self).lists(id),
        ensures
            final(self).arranged(),
            final(self).active == Some(id),
            final(self).bv() == old(self).bv(),
            final(self).order == old(self).order,
            final(self).tabs == old(self).tabs,
            final(self).closed == old(self).closed,
            final(self).next_id == old(self).next_id,
    {
        self.active = Some(id);
    }

    /// Whether a tab's pane is visible.
    pub fn is_visible(&self, id: TabId) -> (r: bool)
        requires
            self.arranged(),
        ensures
            r == self.visible(id),
    {
        match self.active {
            Some(a) => {
                match (find_block(&self.blocks, id), find_block(&self.blocks, a)) {
                    (Some(i), Some(j)) => {
                        assert(i == j ==> blocks::holds(self.bv(), i as int, id) && blocks::holds(
                            self.bv(),
                            i as int,
                            a,
                        ));
                        i == j
                    },
                    _ => false,
                }
            },
            None => false,
        }
    }

    /// Where a tab goes that is to stand behind another one: behind the whole
    /// group. `None` if that tab is gone.
    pub open spec fn spec_insertion_index(&self, after: TabId) -> Option<int> {
        if self.lists(after) {
            Some(blocks::block_of(self.bv(), after) + 1)
        } else {
            None
        }
    }

    fn element_insertion_index(&self, after: TabId) -> (r: Option<usize>)
        requires
            self.arranged(),
        ensures
            r is Some <==> self.lists(after),
            r matches Some(k) ==> Some(k as int) == self.spec_insertion_index(after) && k
                <= self.blocks.len(),
    {
        match find_block(&self.blocks, after) {
            Some(i) => Some(i + 1),
            None => None,
        }
    }

    /// Where a new tab goes.
    pub open spec fn new_index(&self, position: TabPosition) -> int {
        let after = match position {
            TabPosition::AfterActive => self.active,
            TabPosition::After(id) => Some(id),
            TabPosition::End => None,
        };
        match after {
            Some(a) => match self.spec_insertion_index(a) {
                Some(k) => k,
                None => self.bv().len() as int,
            },
            None => self.bv().len() as int,
        }
    }

    /// The tab that a new one goes behind.
    pub open spec fn neighbour(&self, position: TabPosition) -> Option<TabId> {
        let after = match position {
            TabPosition::AfterActive => self.active,
            TabPosition::After(id) => Some(id),
            TabPosition::End => None,
        };
        match after {
            Some(a) => if self.lists(a) {
                Some(a)
            } else {
                None
            },
            None => None,
        }
    }

    /// Where a new tab is listed.
    pub open spec fn new_place(&self, position: TabPosition) -> int {
        match self.neighbour(position) {
            Some(a) => listing::place_behind(self.order@, self.bv(), a),
            None => self.order@.len() as int,
        }
    }

    /// Whether a new tab can go there: the list reaches as far as a group would if
    /// its tabs stood together.
    pub open spec fn may_open(&self, position: TabPosition) -> bool {
        self.tidy() || self.new_place(position) <= self.order@.len()
    }

    /// Whether a new tab can go there.
    pub fn can_open(&self, position: TabPosition) -> (r: bool)
        requires
            self.arranged(),
        ensures
            r == self.may_open(position),
    {
        let after = match position {
            TabPosition::AfterActive => self.active,
            TabPosition::After(id) => Some(id),
            TabPosition::End => None,
        };
        match after {
            Some(a) => self.reaches_behind(a),
            None => true,
        }
    }

    /// Whether the list reaches as far as the group of a tab would if its tabs
    /// stood together.
    fn reaches_behind(&self, id: TabId) -> (r: bool)
        requires
            self.arranged(),
        ensures
            r == (!self.lists(id) || self.tidy() || listing::place_behind(
                self.order@,
                self.bv(),
                id,
            ) <= self.order@.len()),
    {
        match find_block(&self.blocks, id) {
            Some(i) => {
                proof {
                    listing::parent_is_listed(self.order@, self.bv(), id);
                    if self.tidy() {
                        listing::tidy_insert(self.bv(), id, id);
                    }
                }
                let p = listing::place_of(&self.order, self.blocks[i].members[0]);
                self.blocks[i].members.len() <= self.order.len() - p
            },
            None => true,
        }
    }

    /// Puts a tab that is not listed into the list.
    fn insert_tab(&mut self, k: usize, place: usize, tab: Tab)
        requires
            old(self).arranged(),
            k <= old(self).blocks.len(),
            place <= old(self).order.len(),
            !old(self).lists(tab.id),
            tab.id.0 < old(self).next_id,
            forall|i: int|
                0 <= i < old(self).closed@.len() ==> (#[trigger] old(self).closed@[i]).id != tab.id,
        ensures
            final(self).arranged(),
            final(self).bv() == old(self).bv().insert(k as int, blocks::single(tab.id)),
            final(self).order@ == old(self).order@.insert(place as int, tab.id),
            final(self).lists(tab.id),
            final(self).tabs@ == old(self).tabs@.push(tab),
            final(self).active == old(self).active,
            final(self).closed == old(self).closed,
            final(self).next_id == old(self).next_id,
    {
        let ghost v = self.bv();
        let id = tab.id;
        proof {
            blocks::insert_ok(v, k as int, id);
            push_tab_matches(self.tabs@, v, tab, v.insert(k as int, blocks::single(id)));
            listing::insert_order_ok(
                self.order@,
                v,
                place as int,
                id,
                v.insert(k as int, blocks::single(id)),
            );
        }
        self.order.insert(place, id);
        blocks::insert_single(&mut self.blocks, k, id);
        self.tabs.push(tab);
        assert forall|t: TabId| #[trigger] self.lists(t) implies t.0 < self.next_id by {
            if t != id {
                assert(old(self).lists(t));
            }
        }
        assert forall|i: int| 0 <= i < self.closed@.len() implies !self.lists(
            (#[trigger] self.closed@[i]).id,
        ) && self.closed@[i].id.0 < self.next_id by {
            assert(!old(self).lists(old(self).closed@[i].id));
        }
    }

    /// Where groups are listed together, a new tab fits, and they still are.
    proof fn tidy_opening(&self, position: TabPosition, id: TabId)
        requires
            self.arranged(),
            self.may_open(position),
        ensures
            0 <= self.new_place(position) <= self.order@.len(),
            self.tidy() ==> self.order@.insert(self.new_place(position), id) == blocks::listed(
                self.bv().insert(self.new_index(position), blocks::single(id)),
            ),
    {
        listing::tidy_insert_at_ends(self.bv(), id);
        match self.neighbour(position) {
            Some(a) => {
                listing::parent_is_listed(self.order@, self.bv(), a);
                listing::tidy_insert(self.bv(), a, id);
            },
            None => {
                assert(self.order@.insert(self.order@.len() as int, id) =~= self.order@.push(id));
            },
        }
    }

    /// Opens a new tab.
    pub fn create_tab(
        &mut self,
        position: TabPosition,
        target: NavTarget,
        activate: bool,
        shown: &Shown,
    ) -> (r: TabId)
        requires
            old(self).valid(),
            old(self).next_id < u64::MAX,
            old(self).may_open(position),
        ensures
            final(self).valid(),
            r == TabId(old(self).next_id),
            final(self).next_id == old(self).next_id + 1,
            final(self).bv() == old(self).bv().insert(
                old(self).new_index(position),
                blocks::single(r),
            ),
            final(self).order@ == old(self).order@.insert(old(self).new_place(position), r),
            old(self).tidy() ==> final(self).tidy(),
            exists|new: Tab|
                new.id == r && #[trigger] new.opened_at(target) && final(self).shows(
                    old(self).tabs@.push(new),
                    *shown,
                ),
            final(self).active == (if activate {
                Some(r)
            } else {
                old(self).active
            }),
            final(self).closed == old(self).closed,
    {
        let r = self.add_tab(position, target, activate);
        proof {
            let new = self.tabs@.last();
            assert(self.tabs@ =~= old(self).tabs@.push(new));
            assert(new.opened_at(target));
        }
        self.show_panes(shown);
        r
    }

    /// Opens a new tab, whose pane is not displayed yet.
    pub(crate) fn add_tab(&mut self, position: TabPosition, target: NavTarget, activate: bool) -> (r:
        TabId)
        requires
            old(self).arranged(),
            old(self).next_id < u64::MAX,
            old(self).may_open(position),
        ensures
            final(self).arranged(),
            r == TabId(old(self).next_id),
            final(self).next_id == old(self).next_id + 1,
            final(self).bv() == old(self).bv().insert(
                old(self).new_index(position),
                blocks::single(r),
            ),
            final(self).order@ == old(self).order@.insert(old(self).new_place(position), r),
            old(self).tidy() ==> final(self).tidy(),
            final(self).tabs@.len() == old(self).tabs@.len() + 1,
            final(self).tabs@.drop_last() == old(self).tabs@,
            final(self).tabs@.last().id == r,
            final(self).tabs@.last().opened_at(target),
            final(self).active == (if activate {
                Some(r)
            } else {
                old(self).active
            }),
            final(self).closed == old(self).closed,
    {
        let id = TabId(self.next_id);
        let after = match position {
            TabPosition::AfterActive => self.active,
            TabPosition::After(id) => Some(id),
            TabPosition::End => None,
        };
        proof {
            self.tidy_opening(position, id);
        }
        let (k, place): (usize, usize) = match after {
            Some(a) => match self.element_insertion_index(a) {
                Some(k) => (k, listing::find_place_behind(&self.order, &self.blocks, a)),
                None => (self.blocks.len(), self.order.len()),
            },
            None => (self.blocks.len(), self.order.len()),
        };
        self.next_id = self.next_id + 1;
        assert(self.arranged());
        let tab = Tab::new(id, target);
        self.insert_tab(k, place, tab);
        assert(self.tabs@.drop_last() =~= old(self).tabs@);
        if activate {
            self.activate(id);
        }
        id
    }

    /// Where the tab goes that was closed last: behind the tab that it stood
    /// behind.
    pub open spec fn reopen_index(&self) -> int {
        match self.closed@.last().after {
            Some(a) => match self.spec_insertion_index(a) {
                Some(k) => k,
                None => 0,
            },
            None => 0,
        }
    }

    /// Where that tab is listed.
    pub open spec fn reopen_place(&self) -> int {
        match self.closed@.last().after {
            Some(a) => if self.lists(a) {
                listing::place_behind(self.order@, self.bv(), a)
            } else {
                0
            },
            None => 0,
        }
    }

    /// Whether the tab that was closed last can be opened again there.
    pub open spec fn may_reopen(&self) -> bool {
        self.closed@.len() == 0 || self.tidy() || self.reopen_place() <= self.order@.len()
    }

    /// Whether the tab that was closed last can be opened again.
    pub fn can_reopen(&self) -> (r: bool)
        requires
            self.arranged(),
        ensures
            r == self.may_reopen(),
    {
        if self.closed.len() == 0 {
            return true;
        }
        match self.closed[self.closed.len() - 1].after {
            Some(a) => self.reaches_behind(a),
            None => true,
        }
    }

    /// Opens the tab again that was closed last, behind the tab that it stood
    /// behind. `None` if there is none.
    pub fn reopen(&mut self, shown: &Shown) -> (r: Option<TabId>)
        requires
            old(self).valid(),
            old(self).may_reopen(),
        ensures
            final(self).valid(),
            final(self).next_id == old(self).next_id,
            r is None <==> old(self).closed@.len() == 0,
            r is None ==> *final(self) == *old(self),
            r matches Some(id) ==> {
                let c = old(self).closed@.last();
                &&& id == c.id
                &&& final(self).closed@ == old(self).closed@.drop_last()
                &&& final(self).bv() == old(self).bv().insert(
                    old(self).reopen_index(),
                    blocks::single(id),
                )
                &&& final(self).order@ == old(self).order@.insert(old(self).reopen_place(), id)
                &&& old(self).tidy() ==> final(self).tidy()
                &&& final(self).active == Some(id)
                &&& exists|tab: Tab| #[trigger]
                    c.reopened_as(&tab) && final(self).shows(old(self).tabs@.push(tab), *shown)
            },
    {
        let r = self.put_back();
        if r.is_some() {
            proof {
                let tab = self.tabs@.last();
                assert(self.tabs@ =~= old(self).tabs@.push(tab));
                assert(old(self).closed@.last().reopened_as(&tab));
            }
            self.show_panes(shown);
        }
        r
    }

    fn put_back(&mut self) -> (r: Option<TabId>)
        requires
            old(self).arranged(),
            old(self).may_reopen(),
        ensures
            final(self).arranged(),
            final(self).next_id == old(self).next_id,
            r is None <==> old(self).closed@.len() == 0,
            r is None ==> *final(self) == *old(self),
            r matches Some(id) ==> {
                let c = old(self).closed@.last();
                let k = match c.after {
                    Some(a) => match old(self).spec_insertion_index(a) {
                        Some(k) => k,
                        None => 0,
                    },
                    None => 0,
                };
                &&& id == c.id
                &&& final(self).closed@ == old(self).closed@.drop_last()
                &&& final(self).bv() == old(self).bv().insert(k, blocks::single(id))
                &&& final(self).order@ == old(self).order@.insert(old(self).reopen_place(), id)
                &&& old(self).tidy() ==> final(self).tidy()
                &&& final(self).active == Some(id)
                &&& final(self).tabs@.len() == old(self).tabs@.len() + 1
                &&& final(self).tabs@.drop_last() == old(self).tabs@
                &&& c.reopened_as(&final(self).tabs@.last())
            },
    {
        if self.closed.len() == 0 {
            return None;
        }
        let ghost last = self.closed@.len() - 1;
        match self.closed.pop() {
            Some(c) => {
                assert(c == old(self).closed@[last]);
                assert(self.closed@ == old(self).closed@.drop_last());
                assert forall|i: int| 0 <= i < self.closed@.len() implies self.closed@[i]
                    == old(self).closed@[i] by {}
                assert(self.arranged()) by {
                    assert forall|i: int| 0 <= i < self.closed@.len() implies !self.lists(
                        (#[trigger] self.closed@[i]).id,
                    ) && self.closed@[i].id.0 < self.next_id by {
                        assert(old(self).closed@[i] == self.closed@[i]);
                        assert(!old(self).lists(old(self).closed@[i].id));
                    }
                    assert forall|i: int, j: int| 0 <= i < j < self.closed@.len() implies (
                    #[trigger] self.closed@[i]).id != (#[trigger] self.closed@[j]).id by {
                        assert(old(self).closed@[i].id != old(self).closed@[j].id);
                    }
                }
                let id = c.id;
                proof {
                    listing::tidy_insert_at_ends(self.bv(), id);
                    if let Some(a) = c.after {
                        if self.lists(a) {
                            listing::parent_is_listed(self.order@, self.bv(), a);
                            listing::tidy_insert(self.bv(), a, id);
                        }
                    }
                }
                let (k, place): (usize, usize) = match c.after {
                    Some(a) => match self.element_insertion_index(a) {
                        Some(k) => (k, listing::find_place_behind(&self.order, &self.blocks, a)),
                        None => (0, 0),
                    },
                    None => (0, 0),
                };
                let tab = Tab::reopen(c);
                assert(!self.lists(id)) by {
                    assert(!old(self).lists(old(self).closed@[last].id));
                }
                assert forall|i: int| 0 <= i < self.closed@.len() implies (
                #[trigger] self.closed@[i]).id != id by {
                    assert(old(self).closed@[i].id != old(self).closed@[last].id);
                }
                self.insert_tab(k, place, tab);
                assert(self.tabs@.drop_last() =~= old(self).tabs@);
                self.activate(id);
                Some(id)
            },
            None => None,
        }
    }

    /// A clone of a tab, with a new id.
    fn clone_tab(&mut self, id: TabId, shown: &PaneState) -> (r: Option<Tab>)
        requires
            old(self).arranged(),
            old(self).lists(id),
            old(self).next_id < u64::MAX,
        ensures
            final(self).arranged(),
            final(self).bv() == old(self).bv(),
            final(self).order == old(self).order,
            final(self).tabs == old(self).tabs,
            final(self).active == old(self).active,
            final(self).closed == old(self).closed,
            final(self).next_id == old(self).next_id + 1,
            r matches Some(tab) && tab.id == TabId(old(self).next_id) && old(self).clones(
                id,
                *shown,
                &tab,
            ),
    {
        match self.position(id) {
            Some(k) => {
                let new = TabId(self.next_id);
                self.next_id = self.next_id + 1;
                assert(tab_at(old(self).tabs@, k as int, id));
                Some(Tab::cloned(new, &self.tabs[k], shown))
            },
            None => None,
        }
    }

    /// Whether `tab` has the place and the history of the tab with an id.
    pub open spec fn clones(&self, id: TabId, shown: PaneState, tab: &Tab) -> bool {
        exists|k: int| #[trigger]
            tab_at(self.tabs@, k, id) && tab.dir == self.tabs@[k].dir && tab.search
                == self.tabs@[k].search && tab.past@ == self.tabs@[k].past@ && tab.future@
                == self.tabs@[k].future@ && tab.pane == (TabPane::Detached {
                state: self.tabs@[k].pane.state_now(shown),
                pending: true,
            })
    }

    /// Whether `tab` has the place and the history of the active tab.
    pub open spec fn clones_active(&self, shown: PaneState, tab: &Tab) -> bool {
        self.active matches Some(a) && self.clones(a, shown, tab)
    }

    /// Opens a clone of a tab behind its group.
    pub fn new_tab_from(&mut self, source: TabId, activate: bool, shown: &Shown) -> (r: TabId)
        requires
            old(self).valid(),
            old(self).lists(source),
            old(self).may_open(TabPosition::After(source)),
            old(self).next_id < u64::MAX,
        ensures
            final(self).valid(),
            r == TabId(old(self).next_id),
            final(self).next_id == old(self).next_id + 1,
            final(self).bv() == old(self).bv().insert(
                old(self).new_index(TabPosition::After(source)),
                blocks::single(r),
            ),
            final(self).order@ == old(self).order@.insert(
                old(self).new_place(TabPosition::After(source)),
                r,
            ),
            old(self).tidy() ==> final(self).tidy(),
            final(self).active == (if activate {
                Some(r)
            } else {
                old(self).active
            }),
            final(self).closed == old(self).closed,
            exists|new: Tab|
                new.id == r && #[trigger] old(self).clones(source, shown.of(source), &new)
                    && final(self).shows(old(self).tabs@.push(new), *shown),
    {
        let r = TabId(self.next_id);
        self.add_clone(source, activate, &shown.get(source));
        proof {
            let new = self.tabs@.last();
            assert(self.tabs@ =~= old(self).tabs@.push(new));
            assert(old(self).clones(source, shown.of(source), &new));
        }
        self.show_panes(shown);
        r
    }

    fn add_clone(&mut self, source: TabId, activate: bool, shown: &PaneState)
        requires
            old(self).arranged(),
            old(self).lists(source),
            old(self).may_open(TabPosition::After(source)),
            old(self).next_id < u64::MAX,
        ensures
            final(self).arranged(),
            final(self).next_id == old(self).next_id + 1,
            old(self).tidy() ==> final(self).tidy(),
            ({
                let id = TabId(old(self).next_id);
                &&& final(self).bv() == old(self).bv().insert(
                    old(self).new_index(TabPosition::After(source)),
                    blocks::single(id),
                )
                &&& final(self).order@ == old(self).order@.insert(
                    old(self).new_place(TabPosition::After(source)),
                    id,
                )
                &&& final(self).tabs@.len() == old(self).tabs@.len() + 1
                &&& final(self).tabs@.drop_last() == old(self).tabs@
                &&& final(self).tabs@.last().id == id
                &&& final(self).active == (if activate {
                    Some(id)
                } else {
                    old(self).active
                })
                &&& final(self).closed == old(self).closed
                &&& old(self).clones(source, *shown, &final(self).tabs@.last())
            }),
    {
        proof {
            self.tidy_opening(TabPosition::After(source), TabId(self.next_id));
        }
        let place = listing::find_place_behind(&self.order, &self.blocks, source);
        match (self.element_insertion_index(source), self.clone_tab(source, shown)) {
            (Some(k), Some(tab)) => {
                let id = tab.id;
                self.insert_tab(k, place, tab);
                assert(self.tabs@.drop_last() =~= old(self).tabs@);
                if activate {
                    self.activate(id);
                }
            },
            _ => {},
        }
    }

    /// What the pane of the active tab shows.
    pub open spec fn shown_now(&self, shown: Shown) -> PaneState {
        match self.active {
            Some(a) => shown.of(a),
            None => PaneState::jumping_to(None),
        }
    }

    fn active_state(&self, shown: &Shown) -> (r: PaneState)
        ensures
            r == self.shown_now(*shown),
    {
        match self.active {
            Some(a) => shown.get(a),
            None => PaneState::for_jump(None),
        }
    }

    /// Opens a clone of the active tab behind its group, or the home directory
    /// if no tab is active. `None` if there is no home directory either.
    pub fn new_tab(&mut self, activate: bool, home: Option<NavTarget>, shown: &Shown) -> (r: Option<
        TabId,
    >)
        requires
            old(self).valid(),
            old(self).may_open(TabPosition::AfterActive),
            old(self).next_id < u64::MAX,
        ensures
            final(self).valid(),
            r is None <==> old(self).active is None && home is None,
            r is None ==> *final(self) == *old(self),
            r matches Some(id) ==> {
                &&& id == TabId(old(self).next_id)
                &&& final(self).next_id == old(self).next_id + 1
                &&& final(self).bv() == old(self).bv().insert(
                    old(self).new_index(TabPosition::AfterActive),
                    blocks::single(id),
                )
                &&& final(self).order@ == old(self).order@.insert(
                    old(self).new_place(TabPosition::AfterActive),
                    id,
                )
                &&& old(self).tidy() ==> final(self).tidy()
                &&& final(self).active == (if activate {
                    Some(id)
                } else {
                    old(self).active
                })
                &&& final(self).closed == old(self).closed
                &&& exists|new: Tab|
                    new.id == id && #[trigger] old(self).starts_as(home, *shown, &new)
                        && final(self).shows(old(self).tabs@.push(new), *shown)
            },
    {
        let state = self.active_state(shown);
        let r = self.add_new(activate, home, &state);
        if r.is_some() {
            proof {
                let new = self.tabs@.last();
                assert(self.tabs@ =~= old(self).tabs@.push(new));
                assert(old(self).starts_as(home, *shown, &new));
            }
            self.show_panes(shown);
        }
        r
    }

    /// Whether `tab` is what a new tab starts as: a clone of the active one, or
    /// else one in the home directory.
    pub open spec fn starts_as(&self, home: Option<NavTarget>, shown: Shown, tab: &Tab) -> bool {
        match self.active {
            Some(_) => self.clones_active(self.shown_now(shown), tab),
            None => home matches Some(target) && tab.opened_at(target),
        }
    }

    fn add_new(&mut self, activate: bool, home: Option<NavTarget>, shown: &PaneState) -> (r: Option<
        TabId,
    >)
        requires
            old(self).arranged(),
            old(self).may_open(TabPosition::AfterActive),
            old(self).next_id < u64::MAX,
        ensures
            final(self).arranged(),
            r is None <==> old(self).active is None && home is None,
            r is None ==> *final(self) == *old(self),
            r matches Some(id) ==> {
                &&& id == TabId(old(self).next_id)
                &&& final(self).next_id == old(self).next_id + 1
                &&& final(self).bv() == old(self).bv().insert(
                    old(self).new_index(TabPosition::AfterActive),
                    blocks::single(id),
                )
                &&& final(self).order@ == old(self).order@.insert(
                    old(self).new_place(TabPosition::AfterActive),
                    id,
                )
                &&& old(self).tidy() ==> final(self).tidy()
                &&& final(self).tabs@.len() == old(self).tabs@.len() + 1
                &&& final(self).tabs@.drop_last() == old(self).tabs@
                &&& final(self).tabs@.last().id == id
                &&& final(self).active == (if activate {
                    Some(id)
                } else {
                    old(self).active
                })
                &&& final(self).closed == old(self).closed
                &&& match old(self).active {
                    Some(_) => old(self).clones_active(*shown, &final(self).tabs@.last()),
                    None => final(self).tabs@.last().opened_at(home->0),
                }
            },
    {
        match self.active {
            Some(a) => {
                let id = TabId(self.next_id);
                self.add_clone(a, activate, shown);
                Some(id)
            },
            None => match home {
                Some(target) => Some(self.add_tab(TabPosition::AfterActive, target, activate)),
                None => None,
            },
        }
    }

    proof fn left_keeps_valid(&self, next: &TabsList, id: TabId)
        requires
            self.arranged(),
            self.lists(id),
            self.may_leave(id),
            next.bv() == blocks::left(self.bv(), id),
            next.order@ == listing::left_order(self.order@, self.bv(), id),
            next.tabs == self.tabs,
            next.closed == self.closed,
            next.next_id == self.next_id,
            next.active matches Some(a) ==> self.lists(a),
        ensures
            next.arranged(),
            self.tidy() ==> next.tidy(),
            forall|t: TabId| #[trigger] next.lists(t) <==> self.lists(t),
    {
        blocks::left_ok(self.bv(), id);
        if self.tidy() {
            listing::tidy_leave(self.bv(), id);
        }
        listing::left_order_ok(self.order@, self.bv(), id, next.bv());
        assert forall|t: TabId| #[trigger] next.lists(t) <==> self.lists(t) by {}
        assert forall|i: int| 0 <= i < next.closed@.len() implies !next.lists(
            (#[trigger] next.closed@[i]).id,
        ) && next.closed@[i].id.0 < next.next_id by {
            assert(!self.lists(self.closed@[i].id));
        }
    }

    /// Takes a tab out of its group. Does not change the active tab.
    pub fn remove_tab_from_group(&mut self, id: TabId, shown: &Shown)
        requires
            old(self).valid(),
            old(self).lists(id),
            old(self).group_size(id) > 1 ==> old(self).active != Some(id),
            old(self).may_leave(id),
        ensures
            final(self).valid(),
            final(self).bv() == blocks::left(old(self).bv(), id),
            final(self).order@ == listing::left_order(old(self).order@, old(self).bv(), id),
            old(self).tidy() ==> final(self).tidy(),
            final(self).shows(old(self).tabs@, *shown),
            final(self).closed == old(self).closed,
            final(self).active == old(self).active,
            final(self).next_id == old(self).next_id,
    {
        proof {
            if self.tidy() {
                listing::tidy_leave(self.bv(), id);
            }
        }
        listing::leave(&mut self.order, &self.blocks, id);
        blocks::leave_group(&mut self.blocks, id);
        proof {
            old(self).left_keeps_valid(self, id);
        }
        self.show_panes(shown);
    }

    /// Which tab is active once the pane of `id` is gone: its closest kin, if
    /// it was active itself.
    pub open spec fn active_without(&self, id: TabId) -> Option<TabId> {
        if self.active == Some(id) {
            self.bv()[blocks::block_of(self.bv(), id)].layout.kin(id)
        } else {
            self.active
        }
    }

    /// Hides the pane of a tab. In a group, the tab leaves the group; if it was
    /// active its closest kin becomes active.
    pub fn hide_single_pane(&mut self, id: TabId, shown: &Shown)
        requires
            old(self).valid(),
            old(self).lists(id),
            old(self).may_leave(id),
        ensures
            final(self).valid(),
            final(self).bv() == blocks::left(old(self).bv(), id),
            final(self).order@ == listing::left_order(old(self).order@, old(self).bv(), id),
            old(self).tidy() ==> final(self).tidy(),
            final(self).shows(old(self).tabs@, *shown),
            final(self).closed == old(self).closed,
            final(self).active == old(self).active_without(id),
            final(self).next_id == old(self).next_id,
            !final(self).visible(id) || old(self).active != Some(id),
    {
        self.hide_one(id);
        self.show_panes(shown);
    }

    fn hide_one(&mut self, id: TabId)
        requires
            old(self).arranged(),
            old(self).lists(id),
            old(self).may_leave(id),
        ensures
            final(self).arranged(),
            final(self).bv() == blocks::left(old(self).bv(), id),
            final(self).order@ == listing::left_order(old(self).order@, old(self).bv(), id),
            old(self).tidy() ==> final(self).tidy(),
            final(self).tabs == old(self).tabs,
            final(self).closed == old(self).closed,
            final(self).active == old(self).active_without(id),
            final(self).next_id == old(self).next_id,
            !final(self).visible(id) || old(self).active != Some(id),
    {
        let ghost v = self.bv();
        match find_block(&self.blocks, id) {
            Some(i) => {
                assert(blocks::block_ok(v[i as int]));
                proof {
                    assert(v[i as int].layout.leaves().contains(id));
                    pane::kin_is_other(v[i as int].layout, id);
                }
                let is_active = match self.active {
                    Some(a) => a == id,
                    None => false,
                };
                if is_active {
                    let kin = self.blocks[i].layout.next_of_kin(id);
                    proof {
                        if let Some(k) = kin {
                            assert(v[i as int].members.contains(k));
                            assert(blocks::holds(v, i as int, k));
                        }
                    }
                    self.active = kin;
                }
                proof {
                    if self.tidy() {
                        listing::tidy_leave(v, id);
                    }
                }
                listing::leave(&mut self.order, &self.blocks, id);
                blocks::leave_group(&mut self.blocks, id);
                proof {
                    old(self).left_keeps_valid(self, id);
                    blocks::left_ok(v, id);
                    if is_active {
                        let w = self.bv();
                        if self.visible(id) {
                            let j = choose|j: int| #[trigger]
                                blocks::holds(w, j, id) && blocks::holds(w, j, self.active->0);
                            let m = w[j].members;
                            assert(blocks::block_of(w, id) == j) by {
                                blocks::block_of_unique(w, j, id);
                            }
                            assert(m.len() == 1);
                            assert(m[0] == id);
                            assert(m[0] == self.active->0);
                        }
                    }
                }
            },
            None => {},
        }
    }

    /// The tab that takes over when a lone tab that is active closes: the parent
    /// of the tab listed before it, or else of the one after it.
    pub open spec fn replacement(&self, id: TabId) -> Option<TabId> {
        if self.active != Some(id) {
            self.active
        } else {
            match (listing::before(self.order@, id), listing::after(self.order@, id)) {
                (Some(t), _) => Some(listing::parent_of(self.bv(), t)),
                (None, Some(t)) => Some(listing::parent_of(self.bv(), t)),
                (None, None) => None,
            }
        }
    }

    /// The parent of a tab's group.
    fn parent(&self, id: TabId) -> (r: TabId)
        requires
            self.arranged(),
            self.lists(id),
        ensures
            r == listing::parent_of(self.bv(), id),
    {
        proof {
            listing::parent_is_listed(self.order@, self.bv(), id);
        }
        match find_block(&self.blocks, id) {
            Some(i) => self.blocks[i].members[0],
            None => id,
        }
    }

    /// Takes a tab out of everything. The active tab must not be that one.
    fn drop_tab(&mut self, id: TabId) -> (r: Option<Tab>)
        requires
            old(self).arranged(),
            old(self).lists(id),
            old(self).active != Some(id),
        ensures
            final(self).arranged(),
            final(self).bv() == blocks::closed(old(self).bv(), id),
            final(self).order@ == listing::unlisted(old(self).order@, id),
            old(self).tidy() ==> final(self).tidy(),
            !final(self).lists(id),
            final(self).closed == old(self).closed,
            final(self).active == old(self).active,
            final(self).next_id == old(self).next_id,
            exists|k: int| #[trigger]
                tab_at(old(self).tabs@, k, id) && r == Some(old(self).tabs@[k]) && final(self).tabs@
                    == swap_removed(old(self).tabs@, k),
    {
        let ghost v = self.bv();
        match self.position(id) {
            Some(k) => {
                proof {
                    blocks::closed_ok(v, id);
                    remove_tab_matches(self.tabs@, v, k as int, blocks::closed(v, id));
                    listing::tidy_close(v, id);
                    listing::remove_order_ok(self.order@, v, id, blocks::closed(v, id));
                }
                listing::unlist(&mut self.order, id);
                assert(tab_at(old(self).tabs@, k as int, id));
                let tab = self.tabs.swap_remove(k);
                assert(self.tabs@ =~= swap_removed(old(self).tabs@, k as int));
                blocks::close(&mut self.blocks, id);
                assert forall|t: TabId| #[trigger] self.lists(t) implies t.0 < self.next_id by {
                    assert(old(self).lists(t));
                }
                assert forall|i: int| 0 <= i < self.closed@.len() implies !self.lists(
                    (#[trigger] self.closed@[i]).id,
                ) && self.closed@[i].id.0 < self.next_id by {
                    assert(!old(self).lists(old(self).closed@[i].id));
                }
                Some(tab)
            },
            None => None,
        }
    }

    /// Which tab is active after a tab was closed with a replacement.
    pub open spec fn active_after_close(&self, id: TabId) -> Option<TabId> {
        if self.group_size(id) > 1 {
            self.active_without(id)
        } else {
            self.replacement(id)
        }
    }

    /// Whether a tab was closed and is remembered, so that it can be opened again.
    pub open spec fn closed_to(&self, id: TabId, shown: Shown, next: &TabsList) -> bool {
        &&& next.bv() == blocks::closed(self.bv(), id)
        &&& next.order@ == listing::unlisted(self.order@, id)
        &&& self.tidy() ==> next.tidy()
        &&& next.next_id == self.next_id
        &&& next.closed@.len() == self.closed@.len() + 1
        &&& next.closed@.drop_last() == self.closed@
        &&& exists|k: int| #[trigger]
            tab_at(self.tabs@, k, id) && next.shows(swap_removed(self.tabs@, k), shown)
                && self.tabs@[k].closed_as(
                listing::before(self.order@, id),
                shown.of(id),
                &next.closed@.last(),
            )
    }

    /// Closes a tab. In a group, its closest kin takes over; otherwise another
    /// tab is opened in its place, if there is one.
    pub fn close_tab(&mut self, id: TabId, shown: &Shown)
        requires
            old(self).valid(),
            old(self).lists(id),
            old(self).may_leave(id),
        ensures
            final(self).valid(),
            old(self).closed_to(id, *shown, final(self)),
            final(self).active == old(self).active_after_close(id),
    {
        self.close_one(id, &shown.get(id), true);
        self.show_panes(shown);
    }

    /// Which tab is active once a tab is closed, with or without a replacement.
    pub open spec fn active_once_closed(&self, id: TabId, replace: bool) -> Option<TabId> {
        if replace {
            self.active_after_close(id)
        } else {
            self.active_without(id)
        }
    }

    /// Closes a tab. Which panes are displayed stays as it is.
    pub(crate) fn close_one(&mut self, id: TabId, shown: &PaneState, replace: bool)
        requires
            old(self).arranged(),
            old(self).lists(id),
        ensures
            final(self).arranged(),
            final(self).bv() == blocks::closed(old(self).bv(), id),
            final(self).order@ == listing::unlisted(old(self).order@, id),
            old(self).tidy() ==> final(self).tidy(),
            final(self).active == old(self).active_once_closed(id, replace),
            final(self).next_id == old(self).next_id,
            final(self).closed@.len() == old(self).closed@.len() + 1,
            final(self).closed@.drop_last() == old(self).closed@,
            exists|k: int| #[trigger]
                tab_at(old(self).tabs@, k, id) && final(self).tabs@ == swap_removed(
                    old(self).tabs@,
                    k,
                ) && old(self).tabs@[k].closed_as(
                    listing::before(old(self).order@, id),
                    *shown,
                    &final(self).closed@.last(),
                ),
    {
        let ghost v = self.bv();
        let after = listing::tab_before(&self.order, id);
        let mut next: Option<TabId> = self.active;
        let is_active = match self.active {
            Some(a) => a == id,
            None => false,
        };
        if is_active {
            match find_block(&self.blocks, id) {
                Some(i) => {
                    assert(blocks::block_ok(v[i as int]));
                    if self.blocks[i].members.len() > 1 {
                        next = self.blocks[i].layout.next_of_kin(id);
                        proof {
                            assert(v[i as int].layout.leaves().contains(id));
                            pane::kin_is_other(v[i as int].layout, id);
                            if let Some(k) = next {
                                assert(v[i as int].members.contains(k));
                                assert(blocks::holds(v, i as int, k));
                            }
                        }
                    } else if !replace {
                        next = None;
                        assert(v[i as int].layout.kin(id) is None) by {
                            lone_has_no_kin(v[i as int], id);
                        }
                    } else {
                        let other = match after {
                            Some(t) => Some(t),
                            None => listing::tab_after(&self.order, id),
                        };
                        next = match other {
                            Some(t) => Some(self.parent(t)),
                            None => None,
                        };
                        proof {
                            if let Some(t) = other {
                                listing::parent_is_listed(self.order@, v, t);
                                let j = blocks::block_of(v, t);
                                assert(blocks::holds(v, j, t));
                                let m = v[i as int].members;
                                assert(m[0] == id);
                                if next == Some(id) {
                                    assert(v[j].members.contains(id));
                                    assert(blocks::holds(v, j, id));
                                }
                            }
                        }
                    }
                },
                None => {},
            }
        }
        proof {
            assert(next == old(self).active_once_closed(id, replace));
            assert(next != Some(id)) by {
                let i = blocks::block_of(v, id);
                assert(blocks::holds(v, i, id));
                if next == Some(id) {
                    assert(is_active);
                    assert(v[i].layout.leaves().contains(id));
                    pane::kin_is_other(v[i].layout, id);
                }
            }
        }
        self.active = next;
        assert(self.arranged());
        match self.drop_tab(id) {
            Some(tab) => {
                let c = tab.close(after, shown);
                self.closed.push(c);
                assert(self.closed@.drop_last() =~= old(self).closed@);
                assert forall|i: int| 0 <= i < self.closed@.len() implies !self.lists(
                    (#[trigger] self.closed@[i]).id,
                ) && self.closed@[i].id.0 < self.next_id by {
                    if i < old(self).closed@.len() {
                        assert(self.closed@[i] == old(self).closed@[i]);
                        assert(!old(self).lists(old(self).closed@[i].id));
                        assert(self.closed@[i].id.0 < self.next_id);
                        assert(!self.lists(self.closed@[i].id)) by {
                            blocks::closed_ok(v, id);
                        }
                    } else {
                        assert(self.closed@[i].id == id);
                    }
                }
                assert forall|i: int, j: int| 0 <= i < j < self.closed@.len() implies (
                #[trigger] self.closed@[i]).id != (#[trigger] self.closed@[j]).id by {
                    assert(self.closed@[i] == old(self).closed@[i]);
                    if j < old(self).closed@.len() {
                        assert(self.closed@[j] == old(self).closed@[j]);
                    } else {
                        assert(!old(self).lists(old(self).closed@[i].id));
                    }
                }
            },
            None => {},
        }
    }

    /// Hides all panes. No tab leaves its group.
    pub fn active_hide(&mut self, shown: &Shown)
        requires
            old(self).valid(),
        ensures
            final(self).valid(),
            final(self).active is None,
            final(self).bv() == old(self).bv(),
            final(self).order == old(self).order,
            final(self).shows(old(self).tabs@, *shown),
            final(self).closed == old(self).closed,
            final(self).next_id == old(self).next_id,
    {
        self.active = None;
        self.show_panes(shown);
    }

    /// Hides the active pane without a replacement for it.
    pub fn active_close_pane(&mut self, shown: &Shown)
        requires
            old(self).valid(),
            old(self).active matches Some(a) ==> old(self).may_leave(a),
        ensures
            final(self).valid(),
            final(self).closed == old(self).closed,
            final(self).next_id == old(self).next_id,
            match old(self).active {
                None => *final(self) == *old(self),
                Some(a) => final(self).bv() == blocks::left(old(self).bv(), a)
                    && final(self).order@ == listing::left_order(
                    old(self).order@,
                    old(self).bv(),
                    a,
                ) && (old(self).tidy() ==> final(self).tidy()) && final(self).active == old(self).active_without(a) && final(self).shows(
                    old(self).tabs@,
                    *shown,
                ),
            },
    {
        match self.active {
            Some(a) => {
                self.hide_single_pane(a, shown);
            },
            None => {},
        }
    }

    /// Closes the active tab, with a replacement.
    pub fn active_close_tab(&mut self, shown: &Shown)
        requires
            old(self).valid(),
            old(self).active matches Some(a) ==> old(self).may_leave(a),
        ensures
            final(self).valid(),
            match old(self).active {
                None => *final(self) == *old(self),
                Some(a) => old(self).closed_to(a, *shown, final(self)) && final(self).active
                    == old(self).active_after_close(a),
            },
    {
        match self.active {
            Some(a) => {
                self.close_tab(a, shown);
            },
            None => {},
        }
    }

    /// Closes a tab without a replacement for its pane. It can be opened again.
    pub fn close_no_replacement(&mut self, id: TabId, shown: &Shown)
        requires
            old(self).valid(),
            old(self).lists(id),
            old(self).may_leave(id),
        ensures
            final(self).valid(),
            old(self).closed_to(id, *shown, final(self)),
            final(self).active == old(self).active_without(id),
    {
        self.close_one(id, &shown.get(id), false);
        self.show_panes(shown);
    }

    /// Closes the active tab without a replacement for its pane. It can be opened
    /// again.
    pub fn active_close_no_replacement(&mut self, shown: &Shown)
        requires
            old(self).valid(),
            old(self).active matches Some(a) ==> old(self).may_leave(a),
        ensures
            final(self).valid(),
            match old(self).active {
                None => *final(self) == *old(self),
                Some(a) => old(self).closed_to(a, *shown, final(self)) && final(self).active
                    == old(self).active_without(a),
            },
    {
        match self.active {
            Some(a) => {
                self.close_no_replacement(a, shown);
            },
            None => {},
        }
    }

    /// Closes the active tab for good, without a replacement for its pane.
    pub fn active_close_both(&mut self, shown: &Shown)
        requires
            old(self).valid(),
            old(self).active matches Some(a) ==> old(self).may_leave(a),
        ensures
            final(self).valid(),
            final(self).next_id == old(self).next_id,
            final(self).closed == old(self).closed,
            match old(self).active {
                None => *final(self) == *old(self),
                Some(a) => {
                    &&& final(self).bv() == blocks::closed(old(self).bv(), a)
                    &&& final(self).order@ == listing::unlisted(old(self).order@, a)
                    &&& old(self).tidy() ==> final(self).tidy()
                    &&& final(self).active == old(self).active_without(a)
                    &&& exists|k: int| #[trigger]
                        tab_at(old(self).tabs@, k, a) && final(self).shows(
                            swap_removed(old(self).tabs@, k),
                            *shown,
                        )
                },
            },
    {
        match self.active {
            Some(a) => {
                let ghost v = self.bv();
                match find_block(&self.blocks, a) {
                    Some(i) => {
                        assert(blocks::block_ok(v[i as int]));
                        let kin = self.blocks[i].layout.next_of_kin(a);
                        proof {
                            assert(v[i as int].layout.leaves().contains(a));
                            pane::kin_is_other(v[i as int].layout, a);
                            if let Some(k) = kin {
                                assert(v[i as int].members.contains(k));
                                assert(blocks::holds(v, i as int, k));
                            }
                        }
                        self.active = kin;
                        let _tab = self.drop_tab(a);
                        self.show_panes(shown);
                    },
                    None => {},
                }
            },
            None => {},
        }
    }
}

/// What came of a request to split the active pane.
#[derive(Clone, Copy, Debug, PartialEq, Eq, Structural)]
pub enum SplitOutcome {
    /// Nothing was visible, so a tab was opened instead, if possible.
    Opened(Option<TabId>),
    /// The tab was visible already and is active now.
    Activated,
    TooSmall,
    Split(TabId),
}

/// The blocks once block `s` has been moved right before or after block `d`.
pub open spec fn block_moved(
    bv: Seq<BlockView>,
    s: int,
    d: int,
    after: bool,
) -> Seq<BlockView> {
    let rest = bv.remove(s);
    let at = if s < d { d - 1 } else { d };
    rest.insert(
        if after {
            at + 1
        } else {
            at
        },
        bv[s],
    )
}

proof fn block_moved_ok(bv: Seq<BlockView>, s: int, d: int, after: bool)
    requires
        blocks::blocks_ok(bv),
        0 <= s < bv.len(),
        0 <= d < bv.len(),
        s != d,
    ensures
        blocks::blocks_ok(block_moved(bv, s, d, after)),
        forall|t: TabId| #[trigger]
            blocks::lists(block_moved(bv, s, d, after), t) <==> blocks::lists(bv, t),
{
    let rest = bv.remove(s);
    let at = if s < d { d - 1 } else { d };
    let k = if after { at + 1 } else { at };
    blocks::remove_block_ok(bv, s);
    assert(blocks::block_ok(bv[s]));
    blocks::insert_block_ok(rest, k, bv[s]);
    assert forall|t: TabId| #[trigger]
        blocks::lists(block_moved(bv, s, d, after), t) <==> blocks::lists(bv, t) by {
        if bv[s].members.contains(t) {
            assert(blocks::holds(bv, s, t));
        }
    }
}

/// Whether a tab is in a group without being its parent.
pub open spec fn is_child(bv: Seq<BlockView>, id: TabId) -> bool {
    let b = bv[blocks::block_of(bv, id)];
    b.members.len() > 1 && b.members[0] != id
}

/// A tab that is alone is its own parent.
proof fn lone_is_parent(bv: Seq<BlockView>, id: TabId)
    requires
        blocks::blocks_ok(bv),
        blocks::lists(bv, id),
    ensures
        is_child(bv, id) == (listing::parent_of(bv, id) != id),
{
    let i = blocks::block_of(bv, id);
    assert(blocks::holds(bv, i, id));
    assert(blocks::block_ok(bv[i]));
    if bv[i].members.len() == 1 {
        assert(bv[i].members[0] == id);
    }
}

/// Whether dragging `source` to `dest` does anything.
pub open spec fn reorder_applies(bv: Seq<BlockView>, source: TabId, dest: TabId) -> bool {
    blocks::lists(bv, source) && blocks::lists(bv, dest) && blocks::block_of(bv, source)
        != blocks::block_of(bv, dest)
}

/// The blocks once `source` has been dragged to before or after `dest`. A
/// parent takes its group along and a child leaves it. Nothing moves inside a
/// group, and nothing goes right before the child of one.
pub open spec fn reordered(
    bv: Seq<BlockView>,
    source: TabId,
    dest: TabId,
    after: bool,
) -> Seq<BlockView> {
    if !reorder_applies(bv, source, dest) {
        bv
    } else {
        let v = if is_child(bv, source) {
            blocks::left(bv, source)
        } else {
            bv
        };
        block_moved(
            v,
            blocks::block_of(v, source),
            blocks::block_of(v, dest),
            after || is_child(bv, dest),
        )
    }
}

/// The environment variables that describe a tab.
pub open spec fn tab_env(tab: &Tab, prefix: Seq<char>) -> Seq<(Seq<char>, Seq<u8>)> {
    let dir = seq![(prefix + "_PATH"@, path::path_bytes(tab.dir@))];
    match tab.search {
        Some(q) => dir.push((prefix + "_SEARCH"@, encode_utf8(q@))),
        None => dir,
    }
}

/// An environment variable.
pub struct EnvVar {
    pub name: String,
    pub value: Vec<u8>,
}

pub open spec fn env_views(env: Seq<EnvVar>) -> Seq<(Seq<char>, Seq<u8>)> {
    Seq::new(env.len(), |i: int| (env[i].name@, env[i].value@))
}

fn push_env(env: &mut Vec<EnvVar>, name: String, value: Vec<u8>)
    ensures
        env_views(final(env)@) == env_views(old(env)@).push((name@, value@)),
{
    env.push(EnvVar { name, value });
    assert(env_views(env@) =~= env_views(old(env)@).push((name@, value@)));
}

fn env_vars(tab: &Tab, prefix: &str, env: &mut Vec<EnvVar>)
    ensures
        env_views(final(env)@) == env_views(old(env)@) + tab_env(tab, prefix@),
{
    push_env(env, prefix.to_owned().concat("_PATH"), tab.dir.to_bytes());
    match &tab.search {
        Some(q) => {
            push_env(env, prefix.to_owned().concat("_SEARCH"), q.as_str().as_bytes_vec());
        },
        None => {},
    }
    assert(env_views(env@) =~= env_views(old(env)@) + tab_env(tab, prefix@));
}

proof fn same_ids_match(tabs: Seq<Tab>, now: Seq<Tab>, bv: Seq<BlockView>)
    requires
        tabs_match(tabs, bv),
        tabs.len() == now.len(),
        forall|i: int| 0 <= i < tabs.len() ==> (#[trigger] now[i]).id == tabs[i].id,
    ensures
        tabs_match(now, bv),
{
    assert forall|k: int, t: TabId| #[trigger] tab_at(now, k, t) implies tab_at(tabs, k, t) by {
        assert(now[k].id == tabs[k].id);
    }
    assert forall|k: int, t: TabId| #[trigger] tab_at(tabs, k, t) implies tab_at(now, k, t) by {
        assert(now[k].id == tabs[k].id);
    }
    assert forall|t: TabId| #[trigger] blocks::lists(bv, t) implies exists|k: int| #[trigger]
        tab_at(now, k, t) by {
        let k = choose|k: int| #[trigger] tab_at(tabs, k, t);
        assert(tab_at(tabs, k, t));
        assert(tab_at(now, k, t));
    }
}

impl TabsList {
    /// Splits the active pane. The new pane is for the given tab, which leaves
    /// its own group, or else for a clone of the active tab. `room` says whether
    /// the active pane is large enough.
    pub fn active_split(
        &mut self,
        horizontal: bool,
        tab: Option<TabId>,
        room: bool,
        home: Option<NavTarget>,
        shown: &Shown,
    ) -> (r: SplitOutcome)
        requires
            old(self).valid(),
            old(self).next_id < u64::MAX,
            tab matches Some(id) ==> old(self).lists(id) && (old(self).active is Some
                && !old(self).visible(id) && room ==> old(self).may_leave(id)),
        ensures
            final(self).valid(),
            match (old(self).active, tab) {
                (None, _) => r is Opened && (home is None ==> r == SplitOutcome::Opened(None)
                    && *final(self) == *old(self)) && (home matches Some(target) ==> {
                    &&& r == SplitOutcome::Opened(Some(TabId(old(self).next_id)))
                    &&& final(self).bv() == old(self).bv().push(
                        blocks::single(TabId(old(self).next_id)),
                    )
                    &&& final(self).order@ == old(self).order@.push(TabId(old(self).next_id))
                    &&& old(self).tidy() ==> final(self).tidy()
                    &&& exists|new: Tab|
                        new.id == TabId(old(self).next_id) && #[trigger] new.opened_at(target)
                            && final(self).shows(old(self).tabs@.push(new), *shown)
                    &&& final(self).active == Some(TabId(old(self).next_id))
                    &&& final(self).closed == old(self).closed
                    &&& final(self).next_id == old(self).next_id + 1
                }),
                (Some(a), Some(id)) => if old(self).visible(id) {
                    &&& r is Activated
                    &&& final(self).bv() == old(self).bv()
                    &&& final(self).order == old(self).order
                    &&& final(self).shows(old(self).tabs@, *shown)
                    &&& final(self).active == Some(id)
                    &&& final(self).closed == old(self).closed
                    &&& final(self).next_id == old(self).next_id
                } else if !room {
                    r is TooSmall && *final(self) == *old(self)
                } else {
                    &&& r == SplitOutcome::Split(id)
                    &&& final(self).bv() == blocks::split_for(
                        blocks::closed(old(self).bv(), id),
                        a,
                        id,
                        horizontal,
                    )
                    &&& final(self).order@ == listing::split_order(
                        listing::unlisted(old(self).order@, id),
                        a,
                        id,
                    )
                    &&& old(self).tidy() ==> final(self).tidy()
                    &&& final(self).shows(old(self).tabs@, *shown)
                    &&& final(self).active == Some(id)
                    &&& final(self).closed == old(self).closed
                    &&& final(self).next_id == old(self).next_id
                },
                (Some(a), None) => if !room {
                    r is TooSmall && *final(self) == *old(self)
                } else {
                    let id = TabId(old(self).next_id);
                    &&& r == SplitOutcome::Split(id)
                    &&& final(self).bv() == blocks::split_for(old(self).bv(), a, id, horizontal)
                    &&& final(self).order@ == listing::split_order(old(self).order@, a, id)
                    &&& old(self).tidy() ==> final(self).tidy()
                    &&& exists|new: Tab|
                        new.id == id && #[trigger] old(self).clones_active(shown.of(a), &new)
                            && final(self).shows(old(self).tabs@.push(new), *shown)
                    &&& final(self).active == Some(id)
                    &&& final(self).closed == old(self).closed
                    &&& final(self).next_id == old(self).next_id + 1
                },
            },
    {
        let state = self.active_state(shown);
        let r = self.split_active(horizontal, tab, room, home, &state);
        let changed = match r {
            SplitOutcome::Opened(None) | SplitOutcome::TooSmall => false,
            _ => true,
        };
        if changed {
            proof {
                if self.tabs@.len() > old(self).tabs@.len() {
                    let new = self.tabs@.last();
                    assert(self.tabs@ =~= old(self).tabs@.push(new));
                }
            }
            self.show_panes(shown);
        }
        r
    }

    fn split_active(
        &mut self,
        horizontal: bool,
        tab: Option<TabId>,
        room: bool,
        home: Option<NavTarget>,
        shown: &PaneState,
    ) -> (r: SplitOutcome)
        requires
            old(self).arranged(),
            old(self).next_id < u64::MAX,
            tab matches Some(id) ==> old(self).lists(id) && (old(self).active is Some
                && !old(self).visible(id) && room ==> old(self).may_leave(id)),
        ensures
            final(self).arranged(),
            match (old(self).active, tab) {
                (None, _) => r is Opened && (home is None ==> r == SplitOutcome::Opened(None)
                    && *final(self) == *old(self)) && (home matches Some(target) ==> {
                    &&& r == SplitOutcome::Opened(Some(TabId(old(self).next_id)))
                    &&& final(self).bv() == old(self).bv().push(
                        blocks::single(TabId(old(self).next_id)),
                    )
                    &&& final(self).order@ == old(self).order@.push(TabId(old(self).next_id))
                    &&& old(self).tidy() ==> final(self).tidy()
                    &&& final(self).tabs@.len() == old(self).tabs@.len() + 1
                    &&& final(self).tabs@.drop_last() == old(self).tabs@
                    &&& final(self).tabs@.last().id == TabId(old(self).next_id)
                    &&& final(self).tabs@.last().opened_at(target)
                    &&& final(self).active == Some(TabId(old(self).next_id))
                    &&& final(self).closed == old(self).closed
                    &&& final(self).next_id == old(self).next_id + 1
                }),
                (Some(a), Some(id)) => if old(self).visible(id) {
                    &&& r is Activated
                    &&& final(self).bv() == old(self).bv()
                    &&& final(self).order == old(self).order
                    &&& final(self).tabs == old(self).tabs
                    &&& final(self).active == Some(id)
                    &&& final(self).closed == old(self).closed
                    &&& final(self).next_id == old(self).next_id
                } else if !room {
                    r is TooSmall && *final(self) == *old(self)
                } else {
                    &&& r == SplitOutcome::Split(id)
                    &&& final(self).bv() == blocks::split_for(
                        blocks::closed(old(self).bv(), id),
                        a,
                        id,
                        horizontal,
                    )
                    &&& final(self).order@ == listing::split_order(
                        listing::unlisted(old(self).order@, id),
                        a,
                        id,
                    )
                    &&& old(self).tidy() ==> final(self).tidy()
                    &&& final(self).tabs == old(self).tabs
                    &&& final(self).active == Some(id)
                    &&& final(self).closed == old(self).closed
                    &&& final(self).next_id == old(self).next_id
                },
                (Some(a), None) => if !room {
                    r is TooSmall && *final(self) == *old(self)
                } else {
                    let id = TabId(old(self).next_id);
                    &&& r == SplitOutcome::Split(id)
                    &&& final(self).bv() == blocks::split_for(old(self).bv(), a, id, horizontal)
                    &&& final(self).order@ == listing::split_order(old(self).order@, a, id)
                    &&& old(self).tidy() ==> final(self).tidy()
                    &&& final(self).tabs@.len() == old(self).tabs@.len() + 1
                    &&& final(self).tabs@.drop_last() == old(self).tabs@
                    &&& final(self).tabs@.last().id == id
                    &&& old(self).clones_active(*shown, &final(self).tabs@.last())
                    &&& final(self).active == Some(id)
                    &&& final(self).closed == old(self).closed
                    &&& final(self).next_id == old(self).next_id + 1
                },
            },
    {
        let ghost v = self.bv();
        let active = match self.active {
            Some(a) => a,
            None => {
                let r = self.add_new(true, home, shown);
                proof {
                    if home is Some {
                        assert(self.bv() =~= v.push(blocks::single(TabId(old(self).next_id))));
                        assert(self.order@ =~= old(self).order@.push(TabId(old(self).next_id)));
                    }
                }
                return SplitOutcome::Opened(r);
            },
        };
        match tab {
            Some(id) => {
                if self.is_visible(id) {
                    self.activate(id);
                    return SplitOutcome::Activated;
                }
                if !room {
                    return SplitOutcome::TooSmall;
                }
                proof {
                    assert(id != active) by {
                        let i = blocks::block_of(v, active);
                        assert(blocks::holds(v, i, active));
                    }
                    blocks::closed_ok(v, id);
                    let w = blocks::closed(v, id);
                    blocks::split_for_ok(w, active, id, horizontal);
                    assert forall|t: TabId| #[trigger]
                        blocks::lists(
                            blocks::split_for(w, active, id, horizontal),
                            t,
                        ) <==> blocks::lists(v, t) by {}
                    let o = self.order@;
                    listing::tidy_close(v, id);
                    listing::tidy_split(w, active, id, horizontal);
                    listing::remove_order_ok(o, v, id, w);
                    let rest = listing::unlisted(o, id);
                    assert(rest.contains(active));
                    listing::insert_order_ok(
                        rest,
                        w,
                        rest.index_of(active) + 1,
                        id,
                        blocks::split_for(w, active, id, horizontal),
                    );
                }
                listing::unlist(&mut self.order, id);
                let p = listing::place_of(&self.order, active);
                self.order.insert(p + 1, id);
                blocks::close(&mut self.blocks, id);
                blocks::split(&mut self.blocks, active, id, horizontal);
                self.active = Some(id);
                assert forall|i: int| 0 <= i < self.closed@.len() implies !self.lists(
                    (#[trigger] self.closed@[i]).id,
                ) && self.closed@[i].id.0 < self.next_id by {
                    assert(!blocks::lists(v, old(self).closed@[i].id));
                }
                SplitOutcome::Split(id)
            },
            None => {
                if !room {
                    return SplitOutcome::TooSmall;
                }
                match self.clone_tab(active, shown) {
                    Some(tab) => {
                        let id = tab.id;
                        proof {
                            blocks::split_for_ok(v, active, id, horizontal);
                            listing::tidy_split(v, active, id, horizontal);
                            assert(self.order@.contains(active));
                            listing::insert_order_ok(
                                self.order@,
                                v,
                                self.order@.index_of(active) + 1,
                                id,
                                blocks::split_for(v, active, id, horizontal),
                            );
                            push_tab_matches(
                                self.tabs@,
                                v,
                                tab,
                                blocks::split_for(v, active, id, horizontal),
                            );
                        }
                        let p = listing::place_of(&self.order, active);
                        self.order.insert(p + 1, id);
                        blocks::split(&mut self.blocks, active, id, horizontal);
                        self.tabs.push(tab);
                        self.active = Some(id);
                        assert(self.tabs@.drop_last() =~= old(self).tabs@);
                        assert forall|t: TabId| #[trigger] self.lists(t) implies t.0
                            < self.next_id by {
                            if t != id {
                                assert(blocks::lists(v, t));
                            }
                        }
                        assert forall|i: int| 0 <= i < self.closed@.len() implies !self.lists(
                            (#[trigger] self.closed@[i]).id,
                        ) && self.closed@[i].id.0 < self.next_id by {
                            assert(!blocks::lists(v, old(self).closed@[i].id));
                        }
                        SplitOutcome::Split(id)
                    },
                    None => SplitOutcome::TooSmall,
                }
            },
        }
    }

    /// Whether a tab can be moved to before or after another one.
    pub open spec fn may_reorder(&self, source: TabId, dest: TabId, after: bool) -> bool {
        self.tidy() || (reorder_applies(self.bv(), source, dest) ==> listing::can_drag(
            self.order@,
            self.bv(),
            source,
            dest,
            after,
        ))
    }

    /// Whether a tab can be moved to before or after another one.
    pub fn can_reorder(&self, source: TabId, dest: TabId, after: bool) -> (r: bool)
        requires
            self.arranged(),
        ensures
            r == self.may_reorder(source, dest, after),
    {
        match (find_block(&self.blocks, source), find_block(&self.blocks, dest)) {
            (Some(s), Some(d)) => {
                if s == d {
                    return true;
                }
                proof {
                    if self.tidy() {
                        listing::tidy_drag(self.bv(), source, dest, after);
                    }
                }
                listing::is_free_to_drag(&self.order, &self.blocks, source, dest, after)
            },
            _ => true,
        }
    }

    /// Moves a tab, or the group that it is the parent of, to before or after
    /// another tab.
    pub fn reorder(&mut self, source: TabId, dest: TabId, after: bool, shown: &Shown)
        requires
            old(self).valid(),
            source != dest,
            old(self).may_reorder(source, dest, after),
        ensures
            final(self).valid(),
            final(self).bv() == reordered(old(self).bv(), source, dest, after),
            final(self).order@ == (if reorder_applies(old(self).bv(), source, dest) {
                listing::dragged_order(old(self).order@, old(self).bv(), source, dest, after)
            } else {
                old(self).order@
            }),
            old(self).tidy() ==> final(self).tidy(),
            final(self).shows(old(self).tabs@, *shown),
            final(self).closed == old(self).closed,
            final(self).next_id == old(self).next_id,
            final(self).active == (if reorder_applies(old(self).bv(), source, dest) && is_child(
                old(self).bv(),
                source,
            ) {
                old(self).active_without(source)
            } else {
                old(self).active
            }),
    {
        self.move_tab(source, dest, after);
        self.show_panes(shown);
    }

    fn move_tab(&mut self, source: TabId, dest: TabId, after: bool)
        requires
            old(self).arranged(),
            source != dest,
            old(self).may_reorder(source, dest, after),
        ensures
            final(self).arranged(),
            final(self).bv() == reordered(old(self).bv(), source, dest, after),
            final(self).order@ == (if reorder_applies(old(self).bv(), source, dest) {
                listing::dragged_order(old(self).order@, old(self).bv(), source, dest, after)
            } else {
                old(self).order@
            }),
            old(self).tidy() ==> final(self).tidy(),
            final(self).tabs == old(self).tabs,
            final(self).closed == old(self).closed,
            final(self).next_id == old(self).next_id,
            final(self).active == (if reorder_applies(old(self).bv(), source, dest) && is_child(
                old(self).bv(),
                source,
            ) {
                old(self).active_without(source)
            } else {
                old(self).active
            }),
    {
        let ghost v = self.bv();
        let ghost o = self.order@;
        let (s, d): (usize, usize) = match (
            find_block(&self.blocks, source),
            find_block(&self.blocks, dest),
        ) {
            (Some(s), Some(d)) => (s, d),
            _ => {
                return;
            },
        };
        if s == d {
            return;
        }
        proof {
            if self.tidy() {
                listing::tidy_drag(v, source, dest, after);
            }
            listing::parent_is_listed(o, v, source);
            blocks::left_ok(v, source);
            lone_is_parent(v, source);
            lone_is_parent(v, dest);
        }
        let to = listing::find_drop_place(&self.order, &self.blocks, dest, after);
        let behind = after || self.parent(dest) != dest;
        let source_child = self.parent(source) != source;
        let count: usize = if source_child {
            1
        } else {
            self.blocks[s].members.len()
        };
        if source_child {
            self.hide_one(source);
        }
        let ghost w = self.bv();
        proof {
            assert(self.order@ == listing::left_order(o, v, source));
            assert(self.lists(source) && self.lists(dest));
            assert(self.order@.len() == o.len()) by {
                if source_child {
                    listing::left_order_ok(o, v, source, v);
                }
            }
            let (x, y) = (blocks::block_of(w, source), blocks::block_of(w, dest));
            assert(x != y) by {
                assert(blocks::holds(w, x, source) && blocks::holds(w, y, dest));
                if x == y && source_child {
                    assert(w[x].members.len() == 1);
                    assert(w[x].members[0] == source);
                    assert(w[x].members[0] == dest);
                }
            }
        }
        self.drag(source, dest, to, count, behind);
    }

    /// Moves the block of a tab, and tabs from it on, to another place.
    fn drag(&mut self, source: TabId, dest: TabId, to: usize, count: usize, behind: bool)
        requires
            old(self).arranged(),
            old(self).lists(source),
            old(self).lists(dest),
            blocks::block_of(old(self).bv(), source) != blocks::block_of(old(self).bv(), dest),
            old(self).order@.index_of(source) + count <= old(self).order@.len(),
            listing::past_itself(old(self).order@.index_of(source), to as int)
                < old(self).order@.len(),
        ensures
            final(self).arranged(),
            final(self).bv() == block_moved(
                old(self).bv(),
                blocks::block_of(old(self).bv(), source),
                blocks::block_of(old(self).bv(), dest),
                behind,
            ),
            final(self).order@ == listing::moved(
                old(self).order@,
                old(self).order@.index_of(source),
                listing::past_itself(old(self).order@.index_of(source), to as int),
                count as nat,
            ),
            final(self).tabs == old(self).tabs,
            final(self).closed == old(self).closed,
            final(self).next_id == old(self).next_id,
            final(self).active == old(self).active,
    {
        let src = listing::place_of(&self.order, source);
        let end: usize = if src < to {
            to - 1
        } else {
            to
        };
        let (from, into): (usize, usize) = match (
            find_block(&self.blocks, source),
            find_block(&self.blocks, dest),
        ) {
            (Some(s), Some(d)) => (s, d),
            _ => {
                return;
            },
        };
        proof {
            listing::moved_order_ok(self.order@, self.bv(), src as int, end as int, count as nat);
        }
        listing::move_tabs(&mut self.order, src, end, count);
        self.move_block(from, into, behind);
    }

    fn move_block(&mut self, from: usize, to: usize, behind: bool)
        requires
            old(self).arranged(),
            from < old(self).blocks.len(),
            to < old(self).blocks.len(),
            from != to,
        ensures
            final(self).arranged(),
            final(self).bv() == block_moved(old(self).bv(), from as int, to as int, behind),
            final(self).order == old(self).order,
            final(self).tabs == old(self).tabs,
            final(self).closed == old(self).closed,
            final(self).next_id == old(self).next_id,
            final(self).active == old(self).active,
    {
        let ghost w = self.bv();
        proof {
            block_moved_ok(w, from as int, to as int, behind);
        }
        let b = self.blocks.remove(from);
        let ghost moved = b@;
        let ghost rest = self.bv();
        assert(rest =~= w.remove(from as int));
        let at: usize = if from < to {
            to - 1
        } else {
            to
        };
        let k: usize = if behind {
            at + 1
        } else {
            at
        };
        self.blocks.insert(k, b);
        assert(self.bv() =~= rest.insert(k as int, moved));
        assert forall|i: int| 0 <= i < self.closed@.len() implies !self.lists(
            (#[trigger] self.closed@[i]).id,
        ) && self.closed@[i].id.0 < self.next_id by {
            assert(!blocks::lists(w, old(self).closed@[i].id));
        }
    }

    /// The environment for executables: the active tab, its selection and its
    /// neighbours in the list. Without an active tab, the first one is next.
    pub open spec fn env(&self, selection: Seq<u8>) -> Seq<(Seq<char>, Seq<u8>)> {
        match self.active {
            Some(a) => self.env_of(Some(a), "AWFM_CURRENT_TAB"@).push(
                ("AWFM_SELECTION"@, selection),
            ) + self.env_of(listing::before(self.order@, a), "AWFM_PREV_TAB"@) + self.env_of(
                listing::after(self.order@, a),
                "AWFM_NEXT_TAB"@,
            ),
            None => if self.order@.len() > 0 {
                self.env_of(Some(self.order@[0]), "AWFM_NEXT_TAB"@)
            } else {
                Seq::empty()
            },
        }
    }

    /// The environment variables for a tab, if it exists.
    pub open spec fn env_of(&self, id: Option<TabId>, prefix: Seq<char>) -> Seq<
        (Seq<char>, Seq<u8>),
    > {
        match id {
            Some(t) => tab_env(
                &self.tabs@[choose|k: int| #[trigger] tab_at(self.tabs@, k, t)],
                prefix,
            ),
            None => Seq::empty(),
        }
    }

    fn push_tab_env(&self, id: Option<TabId>, prefix: &str, env: &mut Vec<EnvVar>)
        requires
            self.arranged(),
            id matches Some(t) ==> self.lists(t),
        ensures
            env_views(final(env)@) == env_views(old(env)@) + self.env_of(id, prefix@),
    {
        match id {
            Some(t) => match self.position(t) {
                Some(k) => {
                    assert(tab_at(self.tabs@, k as int, t));
                    env_vars(&self.tabs[k], prefix, env);
                },
                None => {},
            },
            None => {
                assert(env_views(env@) + self.env_of(id, prefix@) =~= env_views(env@));
            },
        }
    }

    /// The environment for executables. `selection` lists the selected paths.
    pub fn get_env(&self, selection: Vec<u8>) -> (r: Vec<EnvVar>)
        requires
            self.arranged(),
        ensures
            env_views(r@) == self.env(selection@),
    {
        let mut env: Vec<EnvVar> = Vec::new();
        assert(env_views(env@) =~= Seq::<(Seq<char>, Seq<u8>)>::empty());
        match self.active {
            Some(a) => {
                self.push_tab_env(Some(a), "AWFM_CURRENT_TAB", &mut env);
                let ghost one = env_views(env@);
                assert(one =~= self.env_of(Some(a), "AWFM_CURRENT_TAB"@));
                push_env(&mut env, "AWFM_SELECTION".to_owned(), selection);
                let prev = listing::tab_before(&self.order, a);
                self.push_tab_env(prev, "AWFM_PREV_TAB", &mut env);
                let next = listing::tab_after(&self.order, a);
                self.push_tab_env(next, "AWFM_NEXT_TAB", &mut env);
            },
            None => {
                if self.order.len() > 0 {
                    let first = self.order[0];
                    assert(self.order@.contains(first));
                    self.push_tab_env(Some(first), "AWFM_NEXT_TAB", &mut env);
                    assert(env_views(env@) =~= self.env(selection@));
                }
            },
        }
        env
    }

    /// Whether ids are those of tabs, each of them once.
    pub open spec fn lists_each_once(&self, ids: Seq<TabId>) -> bool {
        ids.no_duplicates() && forall|m: int| 0 <= m < ids.len() ==> self.lists(#[trigger] ids[m])
    }

    /// Notes that the contents of tabs are unloaded: what their panes show is
    /// remembered for when they have been loaded again.
    pub fn unload_tabs(&mut self, ids: &Vec<TabId>, shown: &Shown)
        requires
            old(self).valid(),
        ensures
            final(self).valid(),
            final(self).bv() == old(self).bv(),
            final(self).order == old(self).order,
            final(self).active == old(self).active,
            final(self).closed == old(self).closed,
            final(self).next_id == old(self).next_id,
            final(self).tabs@ == Seq::new(
                old(self).tabs@.len(),
                |k: int|
                    if ids@.contains(old(self).tabs@[k].id) {
                        old(self).tabs@[k].unloaded(shown.of(old(self).tabs@[k].id))
                    } else {
                        old(self).tabs@[k]
                    },
            ),
    {
        let ghost before = *self;
        let mut i: usize = 0;
        while i < self.tabs.len()
            invariant
                i <= self.tabs.len(),
                self.blocks == before.blocks,
                self.order == before.order,
                self.active == before.active,
                self.closed == before.closed,
                self.next_id == before.next_id,
                self.tabs@.len() == before.tabs@.len(),
                forall|k: int| i <= k < self.tabs@.len() ==> self.tabs@[k] == before.tabs@[k],
                forall|k: int|
                    0 <= k < i ==> #[trigger] self.tabs@[k] == (if ids@.contains(
                        before.tabs@[k].id,
                    ) {
                        before.tabs@[k].unloaded(shown.of(before.tabs@[k].id))
                    } else {
                        before.tabs@[k]
                    }),
            decreases self.tabs.len() - i,
        {
            let id = self.tabs[i].id;
            let mut found: bool = false;
            let mut j: usize = 0;
            while j < ids.len()
                invariant
                    j <= ids.len(),
                    found == exists|m: int| 0 <= m < j && ids@[m] == id,
                decreases ids.len() - j,
            {
                if ids[j] == id {
                    found = true;
                }
                j += 1;
            }
            assert(found == ids@.contains(id));
            assert(self.tabs@[i as int] == before.tabs@[i as int]);
            if found {
                self.tabs[i].pane.prepare_for_unload(shown.get(id));
            }
            i += 1;
        }
        proof {
            same_ids_match(before.tabs@, self.tabs@, before.bv());
            assert forall|k: int| 0 <= k < self.tabs@.len() implies ((
            #[trigger] self.tabs@[k]).pane.spec_visible() <==> self.visible(self.tabs@[k].id)) by {
                assert(before.tabs@[k].pane.spec_visible() <==> before.visible(before.tabs@[k].id));
            }
        }
    }

    /// The state to apply to the pane of a tab once its contents are loaded, if
    /// there is one and the pane is displayed.
    pub fn resolve_pending(&mut self, id: TabId) -> (r: Option<PaneState>)
        requires
            old(self).valid(),
        ensures
            final(self).valid(),
            !old(self).lists(id) ==> r is None && *final(self) == *old(self),
            forall|k: int| #[trigger]
                tab_at(old(self).tabs@, k, id) ==> {
                    &&& r == (match old(self).tabs@[k].pane {
                        TabPane::Loading(state) => Some(state),
                        _ => None,
                    })
                    &&& old(self).only_changed(final(self), k)
                    &&& final(self).tabs@[k] == (if r is Some {
                        (Tab { pane: TabPane::Displayed, ..old(self).tabs@[k] })
                    } else {
                        old(self).tabs@[k]
                    })
                },
    {
        match self.position(id) {
            Some(k) => {
                let r = self.tabs[k].pane.maybe_resolve_pending();
                proof {
                    assert(tab_at(old(self).tabs@, k as int, id));
                    old(self).changed_keeps_valid(self, k as int);
                }
                r
            },
            None => None,
        }
    }

    /// Whether some visible tab is in the given directory.
    pub open spec fn shown_somewhere(&self, dir: Seq<Seq<u8>>) -> bool {
        exists|k: int|
            0 <= k < self.tabs@.len() && self.visible((#[trigger] self.tabs@[k]).id)
                && self.tabs@[k].dir@ == dir
    }

    /// The tabs to unload for a refresh: every tab in a directory that is
    /// visible. `None` if nothing is visible.
    pub fn refresh(&self) -> (r: Option<Vec<TabId>>)
        requires
            self.arranged(),
        ensures
            r is None <==> self.active is None,
            r matches Some(ids) ==> self.lists_each_once(ids@),
            r matches Some(ids) ==> forall|k: int|
                0 <= k < self.tabs@.len() ==> (ids@.contains((#[trigger] self.tabs@[k]).id)
                    <==> self.shown_somewhere(self.tabs@[k].dir@)),
    {
        if self.active.is_none() {
            return None;
        }
        let mut ids: Vec<TabId> = Vec::new();
        let mut i: usize = 0;
        while i < self.tabs.len()
            invariant
                i <= self.tabs.len(),
                self.arranged(),
                forall|k: int|
                    0 <= k < i ==> (ids@.contains((#[trigger] self.tabs@[k]).id)
                        <==> self.shown_somewhere(self.tabs@[k].dir@)),
                forall|m: int|
                    0 <= m < ids@.len() ==> exists|k: int|
                        0 <= k < i && (#[trigger] self.tabs@[k]).id == #[trigger] ids@[m],
                ids@.no_duplicates(),
            decreases self.tabs.len() - i,
        {
            let mut found: bool = false;
            let mut j: usize = 0;
            while j < self.tabs.len()
                invariant
                    i < self.tabs.len(),
                    j <= self.tabs.len(),
                    self.arranged(),
                    found == exists|k: int|
                        0 <= k < j && self.visible((#[trigger] self.tabs@[k]).id)
                            && self.tabs@[k].dir@ == self.tabs@[i as int].dir@,
                decreases self.tabs.len() - j,
            {
                if self.is_visible(self.tabs[j].id) && self.tabs[j].dir.same(&self.tabs[i].dir) {
                    assert(self.visible(self.tabs@[j as int].id));
                    found = true;
                }
                j += 1;
            }
            let ghost before = ids@;
            let id = self.tabs[i].id;
            assert(tab_at(self.tabs@, i as int, id));
            if found {
                ids.push(id);
                proof {
                    assert forall|t: TabId| #[trigger] ids@.contains(t) <==> before.contains(t)
                        || t == id by {
                        if before.contains(t) {
                            let m = before.index_of(t);
                            assert(ids@[m] == t);
                        }
                        if t == id {
                            assert(ids@[before.len() as int] == t);
                        }
                    }
                    assert forall|m: int| 0 <= m < ids@.len() implies exists|k: int|
                        0 <= k < i + 1 && (#[trigger] self.tabs@[k]).id == #[trigger] ids@[m] by {
                        if m < before.len() {
                            assert(ids@[m] == before[m]);
                        } else {
                            assert(self.tabs@[i as int].id == ids@[m]);
                        }
                    }
                }
            }
            proof {
                assert(!before.contains(id)) by {
                    if before.contains(id) {
                        let m = before.index_of(id);
                        let k = choose|k: int|
                            0 <= k < i && (#[trigger] self.tabs@[k]).id == before[m];
                        assert(tab_at(self.tabs@, k, id));
                    }
                }
                assert(ids@.no_duplicates()) by {
                    assert(ids@ == before || ids@ =~= before.push(id));
                    assert forall|a: int, b: int|
                        0 <= a < ids@.len() && 0 <= b < ids@.len() && a != b implies ids@[a]
                        != ids@[b] by {
                        if a == before.len() && b < before.len() {
                            assert(before.contains(before[b]));
                        }
                        if b == before.len() && a < before.len() {
                            assert(before.contains(before[a]));
                        }
                    }
                }
                assert forall|k: int| 0 <= k < i implies (ids@.contains(
                    (#[trigger] self.tabs@[k]).id,
                ) <==> self.shown_somewhere(self.tabs@[k].dir@)) by {
                    let t = self.tabs@[k].id;
                    assert(tab_at(self.tabs@, k, t));
                    assert(t != id);
                }
            }
            i += 1;
        }
        proof {
            assert forall|m: int| 0 <= m < ids@.len() implies self.lists(#[trigger] ids@[m]) by {
                let k = choose|k: int|
                    0 <= k < i && (#[trigger] self.tabs@[k]).id == #[trigger] ids@[m];
                assert(tab_at(self.tabs@, k, ids@[m]));
            }
        }
        Some(ids)
    }

    /// The first tab that is in the same directory as the one at `k`. It stands
    /// for that directory.
    pub open spec fn dir_number(&self, k: int) -> int {
        self.first_in(self.tabs@[k].dir@, 0)
    }

    /// The first tab from `from` on that is in the given directory.
    pub open spec fn first_in(&self, dir: Seq<Seq<u8>>, from: int) -> int
        decreases self.tabs@.len() - from,
    {
        if from >= self.tabs@.len() || self.tabs@[from].dir@ == dir {
            from
        } else {
            self.first_in(dir, from + 1)
        }
    }
}

impl TabsList {
    proof fn first_in_finds(&self, dir: Seq<Seq<u8>>, from: int, k: int)
        requires
            0 <= from <= k < self.tabs@.len(),
            self.tabs@[k].dir@ == dir,
        ensures
            from <= self.first_in(dir, from) <= k,
            self.tabs@[self.first_in(dir, from)].dir@ == dir,
        decreases self.tabs@.len() - from,
    {
        if self.tabs@[from].dir@ != dir {
            self.first_in_finds(dir, from + 1, k);
        }
    }

    /// Tabs have the same number exactly if they are in the same directory.
    proof fn same_number(&self, j: int, k: int)
        requires
            0 <= j < self.tabs@.len(),
            0 <= k < self.tabs@.len(),
        ensures
            self.dir_number(j) == self.dir_number(k) <==> self.tabs@[j].dir@ == self.tabs@[k].dir@,
            0 <= self.dir_number(k) < self.tabs@.len(),
    {
        self.first_in_finds(self.tabs@[j].dir@, 0, j);
        self.first_in_finds(self.tabs@[k].dir@, 0, k);
    }

    fn number_dir(&self, k: usize) -> (r: u64)
        requires
            k < self.tabs.len(),
        ensures
            r as int == self.dir_number(k as int),
    {
        proof {
            self.first_in_finds(self.tabs@[k as int].dir@, 0, k as int);
        }
        let mut i: usize = 0;
        while !self.tabs[i].dir.same(&self.tabs[k].dir)
            invariant
                i <= k < self.tabs.len(),
                self.first_in(self.tabs@[k as int].dir@, 0) == self.first_in(
                    self.tabs@[k as int].dir@,
                    i as int,
                ),
            decreases k - i,
        {
            i += 1;
        }
        i as u64
    }

    /// Whether some tab in the given directory is loaded.
    pub open spec fn loaded_somewhere(&self, unloaded: Seq<bool>, dir: Seq<Seq<u8>>) -> bool {
        exists|k: int|
            0 <= k < self.tabs@.len() && (#[trigger] self.tabs@[k]).dir@ == dir && !unloaded[k]
    }

    /// The tabs to unload when the program is idle: those in directories that
    /// are loaded but not visible. `unloaded` says of each tab whether it is not
    /// loaded.
    pub fn idle_unload(&self, unloaded: &Vec<bool>) -> (r: Vec<TabId>)
        requires
            self.arranged(),
            unloaded.len() == self.tabs.len(),
        ensures
            self.lists_each_once(r@),
            forall|k: int|
                0 <= k < self.tabs@.len() ==> (r@.contains((#[trigger] self.tabs@[k]).id)
                    <==> !self.shown_somewhere(self.tabs@[k].dir@) && self.loaded_somewhere(
                    unloaded@,
                    self.tabs@[k].dir@,
                )),
    {
        let mut visible = empty_set();
        let mut unload = empty_set();
        let mut i: usize = 0;
        while i < self.tabs.len()
            invariant
                i <= self.tabs.len(),
                self.arranged(),
                unloaded.len() == self.tabs.len(),
                forall|d: u64| #[trigger]
                    collections::members(visible).contains(d) <==> self.visible_number(
                        i as int,
                        d as int,
                    ),
                forall|d: u64| #[trigger]
                    collections::members(unload).contains(d) <==> self.loaded_number(
                        unloaded@,
                        i as int,
                        d as int,
                    ) && !self.visible_number(i as int, d as int),
            decreases self.tabs.len() - i,
        {
            let d: u64 = self.number_dir(i);
            let ghost seen = collections::members(visible);
            let ghost marked = collections::members(unload);
            assert(tab_at(self.tabs@, i as int, self.tabs@[i as int].id));
            if self.is_visible(self.tabs[i].id) {
                set_remove(&mut unload, d);
                set_insert(&mut visible, d);
            } else if !unloaded[i] && !set_contains(&visible, d) {
                set_insert(&mut unload, d);
            }
            proof {
                assert forall|n: u64| #[trigger]
                    collections::members(visible).contains(n) <==> self.visible_number(
                        i + 1,
                        n as int,
                    ) by {
                    assert(seen.contains(n) <==> self.visible_number(i as int, n as int));
                    self.numbers_step(unloaded@, i as int, n as int);
                }
                assert forall|n: u64| #[trigger]
                    collections::members(unload).contains(n) <==> self.loaded_number(
                        unloaded@,
                        i + 1,
                        n as int,
                    ) && !self.visible_number(i + 1, n as int) by {
                    assert(seen.contains(n) <==> self.visible_number(i as int, n as int));
                    assert(marked.contains(n) <==> self.loaded_number(
                        unloaded@,
                        i as int,
                        n as int,
                    ) && !self.visible_number(i as int, n as int));
                    self.numbers_step(unloaded@, i as int, n as int);
                }
            }
            i += 1;
        }
        let ghost count = self.tabs.len() as int;
        let mut ids: Vec<TabId> = Vec::new();
        let mut i: usize = 0;
        while i < self.tabs.len()
            invariant
                i <= self.tabs.len(),
                count == self.tabs.len(),
                self.arranged(),
                unloaded.len() == self.tabs.len(),
                forall|d: u64| #[trigger]
                    collections::members(unload).contains(d) <==> self.loaded_number(
                        unloaded@,
                        count,
                        d as int,
                    ) && !self.visible_number(count, d as int),
                forall|k: int|
                    0 <= k < i ==> (ids@.contains((#[trigger] self.tabs@[k]).id)
                        <==> !self.shown_somewhere(self.tabs@[k].dir@) && self.loaded_somewhere(
                        unloaded@,
                        self.tabs@[k].dir@,
                    )),
                forall|m: int|
                    0 <= m < ids@.len() ==> exists|k: int|
                        0 <= k < i && (#[trigger] self.tabs@[k]).id == #[trigger] ids@[m],
                ids@.no_duplicates(),
            decreases self.tabs.len() - i,
        {
            let d: u64 = self.number_dir(i);
            let ghost before = ids@;
            let id = self.tabs[i].id;
            assert(tab_at(self.tabs@, i as int, id));
            let idle = set_contains(&unload, d);
            proof {
                self.numbers_mean(unloaded@, i as int);
            }
            if idle {
                ids.push(id);
                proof {
                    assert forall|t: TabId| #[trigger] ids@.contains(t) <==> before.contains(t)
                        || t == id by {
                        if before.contains(t) {
                            let m = before.index_of(t);
                            assert(ids@[m] == t);
                        }
                        if t == id {
                            assert(ids@[before.len() as int] == t);
                        }
                    }
                    assert forall|m: int| 0 <= m < ids@.len() implies exists|k: int|
                        0 <= k < i + 1 && (#[trigger] self.tabs@[k]).id == #[trigger] ids@[m] by {
                        if m < before.len() {
                            assert(ids@[m] == before[m]);
                        } else {
                            assert(self.tabs@[i as int].id == ids@[m]);
                        }
                    }
                }
            }
            proof {
                assert(!before.contains(id)) by {
                    if before.contains(id) {
                        let m = before.index_of(id);
                        let k = choose|k: int|
                            0 <= k < i && (#[trigger] self.tabs@[k]).id == before[m];
                        assert(tab_at(self.tabs@, k, id));
                    }
                }
                assert(ids@.no_duplicates()) by {
                    assert(ids@ == before || ids@ =~= before.push(id));
                    assert forall|a: int, b: int|
                        0 <= a < ids@.len() && 0 <= b < ids@.len() && a != b implies ids@[a]
                        != ids@[b] by {
                        if a == before.len() && b < before.len() {
                            assert(before.contains(before[b]));
                        }
                        if b == before.len() && a < before.len() {
                            assert(before.contains(before[a]));
                        }
                    }
                }
                assert forall|k: int| 0 <= k < i implies (ids@.contains(
                    (#[trigger] self.tabs@[k]).id,
                ) <==> !self.shown_somewhere(self.tabs@[k].dir@) && self.loaded_somewhere(
                    unloaded@,
                    self.tabs@[k].dir@,
                )) by {
                    let t = self.tabs@[k].id;
                    assert(tab_at(self.tabs@, k, t));
                    assert(t != id);
                    assert(before.contains(t) <==> ids@.contains(t));
                }
            }
            i += 1;
        }
        proof {
            assert forall|m: int| 0 <= m < ids@.len() implies self.lists(#[trigger] ids@[m]) by {
                let k = choose|k: int|
                    0 <= k < i && (#[trigger] self.tabs@[k]).id == #[trigger] ids@[m];
                assert(tab_at(self.tabs@, k, ids@[m]));
            }
        }
        ids
    }

    /// Whether one of the first `n` tabs is visible and has the number `d`.
    pub open spec fn visible_number(&self, n: int, d: int) -> bool {
        exists|k: int|
            0 <= k < n && self.visible((#[trigger] self.tabs@[k]).id) && self.dir_number(k) == d
    }

    /// Whether one of the first `n` tabs is hidden and loaded and has the
    /// number `d`.
    pub open spec fn loaded_number(&self, unloaded: Seq<bool>, n: int, d: int) -> bool {
        exists|k: int|
            0 <= k < n && !self.visible((#[trigger] self.tabs@[k]).id) && !unloaded[k]
                && self.dir_number(k) == d
    }

    proof fn numbers_step(&self, unloaded: Seq<bool>, n: int, d: int)
        requires
            0 <= n < self.tabs@.len(),
        ensures
            self.visible_number(n + 1, d) <==> self.visible_number(n, d) || (self.visible(
                self.tabs@[n].id,
            ) && self.dir_number(n) == d),
            self.loaded_number(unloaded, n + 1, d) <==> self.loaded_number(unloaded, n, d) || (
            !self.visible(self.tabs@[n].id) && !unloaded[n] && self.dir_number(n) == d),
    {
        let t = self.tabs@[n];
        if self.visible_number(n, d) {
            let k = choose|k: int|
                0 <= k < n && self.visible((#[trigger] self.tabs@[k]).id) && self.dir_number(k)
                    == d;
            assert(self.visible(self.tabs@[k].id));
        }
        if self.loaded_number(unloaded, n, d) {
            let k = choose|k: int|
                0 <= k < n && !self.visible((#[trigger] self.tabs@[k]).id) && !unloaded[k]
                    && self.dir_number(k) == d;
            assert(!self.visible(self.tabs@[k].id));
        }
    }

    proof fn numbers_mean(&self, unloaded: Seq<bool>, k: int)
        requires
            0 <= k < self.tabs@.len(),
        ensures
            self.visible_number(self.tabs@.len() as int, self.dir_number(k))
                <==> self.shown_somewhere(self.tabs@[k].dir@),
            !self.shown_somewhere(self.tabs@[k].dir@) ==> (self.loaded_number(
                unloaded,
                self.tabs@.len() as int,
                self.dir_number(k),
            ) <==> self.loaded_somewhere(unloaded, self.tabs@[k].dir@)),
    {
        let n = self.tabs@.len() as int;
        let d = self.dir_number(k);
        let dir = self.tabs@[k].dir@;
        if self.visible_number(n, d) {
            let j = choose|j: int|
                0 <= j < n && self.visible((#[trigger] self.tabs@[j]).id) && self.dir_number(j)
                    == d;
            self.same_number(j, k);
            assert(self.visible(self.tabs@[j].id));
        }
        if self.shown_somewhere(dir) {
            let j = choose|j: int|
                0 <= j < self.tabs@.len() && self.visible((#[trigger] self.tabs@[j]).id)
                    && self.tabs@[j].dir@ == dir;
            self.same_number(j, k);
            assert(self.visible(self.tabs@[j].id));
        } else {
            if self.loaded_number(unloaded, n, d) {
                let j = choose|j: int|
                    0 <= j < n && !self.visible((#[trigger] self.tabs@[j]).id) && !unloaded[j]
                        && self.dir_number(j) == d;
                self.same_number(j, k);
                assert(self.tabs@[j].dir@ == dir);
            }
            if self.loaded_somewhere(unloaded, dir) {
                let j = choose|j: int|
                    0 <= j < self.tabs@.len() && (#[trigger] self.tabs@[j]).dir@ == dir
                        && !unloaded[j];
                self.same_number(j, k);
                assert(!self.visible(self.tabs@[j].id));
            }
        }
    }

    /// Whether only the tab at `k` has changed.
    pub open spec fn only_changed(&self, next: &TabsList, k: int) -> bool {
        &&& next.bv() == self.bv()
        &&& next.order == self.order
        &&& next.active == self.active
        &&& next.closed == self.closed
        &&& next.next_id == self.next_id
        &&& next.tabs@.len() == self.tabs@.len()
        &&& forall|i: int|
            0 <= i < self.tabs@.len() && i != k ==> #[trigger] next.tabs@[i] == self.tabs@[i]
    }

    proof fn changed_keeps_valid(&self, next: &TabsList, k: int)
        requires
            self.valid(),
            0 <= k < self.tabs@.len(),
            self.only_changed(next, k),
            next.tabs@[k].id == self.tabs@[k].id,
            next.tabs@[k].pane.spec_visible() == self.tabs@[k].pane.spec_visible(),
        ensures
            next.valid(),
    {
        same_ids_match(self.tabs@, next.tabs@, self.bv());
        assert forall|i: int| 0 <= i < next.tabs@.len() implies ((
        #[trigger] next.tabs@[i]).pane.spec_visible() <==> next.visible(next.tabs@[i].id)) by {
            assert(self.tabs@[i].pane.spec_visible() <==> self.visible(self.tabs@[i].id));
        }
    }

    /// Goes one step forward in a tab.
    pub fn forward_in(&mut self, id: TabId, shown: &PaneState)
        requires
            old(self).valid(),
            old(self).lists(id),
        ensures
            final(self).valid(),
            exists|k: int| #[trigger]
                tab_at(old(self).tabs@, k, id) && old(self).only_changed(final(self), k)
                    && old(self).tabs@[k].went_forward(*shown, &final(self).tabs@[k]),
    {
        match self.position(id) {
            Some(k) => {
                self.tabs[k].forward(shown);
                proof {
                    assert(tab_at(old(self).tabs@, k as int, id));
                    old(self).changed_keeps_valid(self, k as int);
                }
            },
            None => {},
        }
    }

    /// Goes one step back in a tab.
    pub fn back_in(&mut self, id: TabId, shown: &PaneState)
        requires
            old(self).valid(),
            old(self).lists(id),
        ensures
            final(self).valid(),
            exists|k: int| #[trigger]
                tab_at(old(self).tabs@, k, id) && old(self).only_changed(final(self), k)
                    && old(self).tabs@[k].went_back(*shown, &final(self).tabs@[k]),
    {
        match self.position(id) {
            Some(k) => {
                let _moved = self.tabs[k].back(shown);
                proof {
                    assert(tab_at(old(self).tabs@, k as int, id));
                    old(self).changed_keeps_valid(self, k as int);
                }
            },
            None => {},
        }
    }

    /// Goes to the parent directory in a tab.
    pub fn parent_in(&mut self, id: TabId, shown: &PaneState)
        requires
            old(self).valid(),
            old(self).lists(id),
        ensures
            final(self).valid(),
            exists|k: int| #[trigger]
                tab_at(old(self).tabs@, k, id) && old(self).only_changed(final(self), k)
                    && old(self).tabs@[k].went_to_parent(*shown, true, &final(self).tabs@[k]),
    {
        match self.position(id) {
            Some(k) => {
                self.tabs[k].parent(shown);
                proof {
                    assert(tab_at(old(self).tabs@, k as int, id));
                    old(self).changed_keeps_valid(self, k as int);
                }
            },
            None => {},
        }
    }

    /// Goes back or to the parent directory in a tab.
    pub fn back_or_parent_in(&mut self, id: TabId, shown: &PaneState)
        requires
            old(self).valid(),
            old(self).lists(id),
        ensures
            final(self).valid(),
            exists|k: int| #[trigger]
                tab_at(old(self).tabs@, k, id) && old(self).only_changed(final(self), k)
                    && old(self).tabs@[k].went_back_or_up(*shown, &final(self).tabs@[k]),
    {
        match self.position(id) {
            Some(k) => {
                self.tabs[k].back_or_parent(shown);
                proof {
                    assert(tab_at(old(self).tabs@, k as int, id));
                    old(self).changed_keeps_valid(self, k as int);
                }
            },
            None => {},
        }
    }

    /// Goes to the child directory in a tab, whose contents are given.
    pub fn child_in(&mut self, id: TabId, contents: &Contents, shown: &PaneState)
        requires
            old(self).valid(),
            old(self).lists(id),
        ensures
            final(self).valid(),
            exists|k: int| #[trigger]
                tab_at(old(self).tabs@, k, id) && old(self).only_changed(final(self), k)
                    && old(self).tabs@[k].went_to_child(contents, *shown, &final(self).tabs@[k]),
    {
        match self.position(id) {
            Some(k) => {
                self.tabs[k].child(contents, shown);
                proof {
                    assert(tab_at(old(self).tabs@, k as int, id));
                    old(self).changed_keeps_valid(self, k as int);
                }
            },
            None => {},
        }
    }

    /// Searches in a tab.
    pub fn search_in(&mut self, id: TabId, query: String, shown: &PaneState)
        requires
            old(self).valid(),
            old(self).lists(id),
        ensures
            final(self).valid(),
            exists|k: int| #[trigger]
                tab_at(old(self).tabs@, k, id) && old(self).only_changed(final(self), k)
                    && old(self).tabs@[k].searched(query, *shown, &final(self).tabs@[k]),
    {
        match self.position(id) {
            Some(k) => {
                self.tabs[k].search(query, shown);
                proof {
                    assert(tab_at(old(self).tabs@, k as int, id));
                    old(self).changed_keeps_valid(self, k as int);
                }
            },
            None => {},
        }
    }

    /// Goes somewhere in a tab.
    pub fn navigate_in(&mut self, id: TabId, target: NavTarget, shown: &PaneState)
        requires
            old(self).valid(),
            old(self).lists(id),
        ensures
            final(self).valid(),
            exists|k: int| #[trigger]
                tab_at(old(self).tabs@, k, id) && old(self).only_changed(final(self), k)
                    && old(self).tabs@[k].navigated(target, *shown, &final(self).tabs@[k]),
    {
        match self.position(id) {
            Some(k) => {
                self.tabs[k].navigate(target, shown);
                proof {
                    assert(tab_at(old(self).tabs@, k as int, id));
                    old(self).changed_keeps_valid(self, k as int);
                }
            },
            None => {},
        }
    }

    /// Goes somewhere in the active tab, or in a new one if no tab is active.
    pub fn active_navigate(&mut self, target: NavTarget, shown: &Shown)
        requires
            old(self).valid(),
            old(self).next_id < u64::MAX,
        ensures
            final(self).valid(),
            old(self).tidy() ==> final(self).tidy(),
            match old(self).active {
                Some(a) => exists|k: int| #[trigger]
                    tab_at(old(self).tabs@, k, a) && old(self).only_changed(final(self), k)
                        && old(self).tabs@[k].navigated(
                        target,
                        shown.of(a),
                        &final(self).tabs@[k],
                    ),
                None => {
                    &&& final(self).active == Some(TabId(old(self).next_id))
                    &&& final(self).bv() == old(self).bv().push(
                        blocks::single(TabId(old(self).next_id)),
                    )
                    &&& final(self).order@ == old(self).order@.push(TabId(old(self).next_id))
                    &&& old(self).tidy() ==> final(self).tidy()
                    &&& exists|new: Tab|
                        new.id == TabId(old(self).next_id) && #[trigger] new.opened_at(target)
                            && final(self).shows(old(self).tabs@.push(new), *shown)
                    &&& final(self).closed == old(self).closed
                    &&& final(self).next_id == old(self).next_id + 1
                },
            },
    {
        match self.active {
            Some(a) => {
                self.navigate_in(a, target, &shown.get(a));
            },
            None => {
                let ghost v = self.bv();
                let id = self.create_tab(TabPosition::AfterActive, target, true, shown);
                assert(self.bv() =~= v.push(blocks::single(id)));
                assert(self.order@ =~= old(self).order@.push(id));
            },
        }
    }

    /// Goes one step forward in the active tab.
    pub fn active_forward(&mut self, shown: &PaneState)
        requires
            old(self).valid(),
        ensures
            final(self).valid(),
            match old(self).active {
                Some(a) => exists|k: int| #[trigger]
                    tab_at(old(self).tabs@, k, a) && old(self).only_changed(final(self), k)
                        && old(self).tabs@[k].went_forward(*shown, &final(self).tabs@[k]),
                None => *final(self) == *old(self),
            },
    {
        match self.active {
            Some(a) => {
                self.forward_in(a, shown);
            },
            None => {},
        }
    }

    /// Goes one step back in the active tab.
    pub fn active_back(&mut self, shown: &PaneState)
        requires
            old(self).valid(),
        ensures
            final(self).valid(),
            match old(self).active {
                Some(a) => exists|k: int| #[trigger]
                    tab_at(old(self).tabs@, k, a) && old(self).only_changed(final(self), k)
                        && old(self).tabs@[k].went_back(*shown, &final(self).tabs@[k]),
                None => *final(self) == *old(self),
            },
    {
        match self.active {
            Some(a) => {
                self.back_in(a, shown);
            },
            None => {},
        }
    }

    /// Goes to the parent directory in the active tab.
    pub fn active_parent(&mut self, shown: &PaneState)
        requires
            old(self).valid(),
        ensures
            final(self).valid(),
            match old(self).active {
                Some(a) => exists|k: int| #[trigger]
                    tab_at(old(self).tabs@, k, a) && old(self).only_changed(final(self), k)
                        && old(self).tabs@[k].went_to_parent(*shown, true, &final(self).tabs@[k]),
                None => *final(self) == *old(self),
            },
    {
        match self.active {
            Some(a) => {
                self.parent_in(a, shown);
            },
            None => {},
        }
    }

    /// Goes back or to the parent directory in the active tab.
    pub fn active_back_or_parent(&mut self, shown: &PaneState)
        requires
            old(self).valid(),
        ensures
            final(self).valid(),
            match old(self).active {
                Some(a) => exists|k: int| #[trigger]
                    tab_at(old(self).tabs@, k, a) && old(self).only_changed(final(self), k)
                        && old(self).tabs@[k].went_back_or_up(*shown, &final(self).tabs@[k]),
                None => *final(self) == *old(self),
            },
    {
        match self.active {
            Some(a) => {
                self.back_or_parent_in(a, shown);
            },
            None => {},
        }
    }

    /// Goes to the child directory in the active tab, whose contents are given.
    pub fn active_child(&mut self, contents: &Contents, shown: &PaneState)
        requires
            old(self).valid(),
        ensures
            final(self).valid(),
            match old(self).active {
                Some(a) => exists|k: int| #[trigger]
                    tab_at(old(self).tabs@, k, a) && old(self).only_changed(final(self), k)
                        && old(self).tabs@[k].went_to_child(
                        contents,
                        *shown,
                        &final(self).tabs@[k],
                    ),
                None => *final(self) == *old(self),
            },
    {
        match self.active {
            Some(a) => {
                self.child_in(a, contents, shown);
            },
            None => {},
        }
    }

    /// Searches in the active tab.
    pub fn active_search(&mut self, query: String, shown: &PaneState)
        requires
            old(self).valid(),
        ensures
            final(self).valid(),
            match old(self).active {
                Some(a) => exists|k: int| #[trigger]
                    tab_at(old(self).tabs@, k, a) && old(self).only_changed(final(self), k)
                        && old(self).tabs@[k].searched(query, *shown, &final(self).tabs@[k]),
                None => *final(self) == *old(self),
            },
    {
        match self.active {
            Some(a) => {
                self.search_in(a, query, shown);
            },
            None => {},
        }
    }

    /// The directory of the active tab.
    pub fn get_active_dir(&self) -> (r: Option<Arc<FilePath>>)
        requires
            self.valid(),
        ensures
            match self.active {
                Some(a) => exists|k: int| #[trigger]
                    tab_at(self.tabs@, k, a) && r == Some(self.tabs@[k].dir),
                None => r is None,
            },
    {
        match self.active {
            Some(a) => match self.position(a) {
                Some(k) => Some(self.tabs[k].dir.clone()),
                None => None,
            },
            None => None,
        }
    }

    /// Moves every tab out of a directory that is gone, to the nearest one that
    /// still exists.
    pub fn directory_deleted(&mut self, removed: &FilePath, nearest: Arc<FilePath>)
        requires
            old(self).valid(),
        ensures
            final(self).valid(),
            final(self).bv() == old(self).bv(),
            final(self).order == old(self).order,
            final(self).active == old(self).active,
            final(self).closed == old(self).closed,
            final(self).next_id == old(self).next_id,
            final(self).tabs@.len() == old(self).tabs@.len(),
            forall|k: int|
                0 <= k < old(self).tabs@.len() ==> {
                    let before = old(self).tabs@[k];
                    let after = #[trigger] final(self).tabs@[k];
                    if before.dir@ == removed@ {
                        before.displaced(nearest@, &after)
                    } else {
                        after == before
                    }
                },
    {
        let mut i: usize = 0;
        while i < self.tabs.len()
            invariant
                i <= self.tabs.len(),
                self.tabs@.len() == old(self).tabs@.len(),
                self.blocks == old(self).blocks,
                self.order == old(self).order,
                self.active == old(self).active,
                self.closed == old(self).closed,
                self.next_id == old(self).next_id,
                forall|k: int| i <= k < self.tabs@.len() ==> self.tabs@[k] == old(self).tabs@[k],
                forall|k: int|
                    0 <= k < i ==> {
                        let before = old(self).tabs@[k];
                        let after = #[trigger] self.tabs@[k];
                        if before.dir@ == removed@ {
                            before.displaced(nearest@, &after)
                        } else {
                            after == before
                        }
                    },
            decreases self.tabs.len() - i,
        {
            if self.tabs[i].dir.same(removed) {
                self.tabs[i].handle_directory_deleted(nearest.clone());
            }
            i += 1;
        }
        proof {
            same_ids_match(old(self).tabs@, self.tabs@, old(self).bv());
            assert forall|k: int| 0 <= k < self.tabs@.len() implies ((
            #[trigger] self.tabs@[k]).pane.spec_visible() <==> self.visible(self.tabs@[k].id)) by {
                assert(old(self).tabs@[k].pane.spec_visible() <==> old(self).visible(
                    old(self).tabs@[k].id,
                ));
            }
        }
    }
}

/// Closing a tab that is not active leaves the active one as it is. Closing the active
/// one makes another listed tab active, unless it was the last: one that is shown
/// beside it, or else its neighbour.
pub proof fn closing_activates_another(list: &TabsList, id: TabId)
    requires
        list.arranged(),
        list.lists(id),
    ensures
        list.active != Some(id) ==> list.active_after_close(id) == list.active
            && list.active_without(id) == list.active,
        list.active == Some(id) ==> (list.active_after_close(id) is None <==> list.order@.len()
            == 1),
        list.active_after_close(id) matches Some(t) ==> t != id && list.lists(t),
        list.active_without(id) matches Some(t) ==> t != id && list.lists(t),
        list.active == Some(id) && list.group_size(id) == 1 ==> list.active_without(id) is None,
        list.active == Some(id) && list.group_size(id) > 1 ==> (list.active_without(
            id,
        ) matches Some(t) && blocks::holds(list.bv(), blocks::block_of(list.bv(), id), t)),
{
    let bv = list.bv();
    let order = list.order@;
    let i = blocks::block_of(bv, id);
    assert(blocks::holds(bv, i, id));
    let b = bv[i];
    assert(blocks::block_ok(b));
    assert(b.layout.leaves().contains(id));
    pane::kin_is_other(b.layout, id);
    if let Some(k) = b.layout.kin(id) {
        assert(blocks::holds(bv, i, k));
        assert(list.lists(k));
    }
    assert(order.contains(id));
    let p = order.index_of(id);
    if b.members.len() == 1 {
        if p > 0 {
            alone_is_no_parent(list, id, order[p - 1]);
        }
        if p + 1 < order.len() {
            alone_is_no_parent(list, id, order[p + 1]);
        }
    } else {
        let other = b.layout.kin(id)->0;
        assert(order.contains(other));
        assert(order.len() > 1);
    }
}

proof fn alone_is_no_parent(list: &TabsList, id: TabId, t: TabId)
    requires
        list.arranged(),
        list.lists(id),
        list.bv()[blocks::block_of(list.bv(), id)].members.len() == 1,
        list.order@.contains(t),
        t != id,
    ensures
        listing::parent_of(list.bv(), t) != id,
        list.lists(listing::parent_of(list.bv(), t)),
{
    let bv = list.bv();
    let i = blocks::block_of(bv, id);
    let j = blocks::block_of(bv, t);
    assert(blocks::lists(bv, t));
    assert(blocks::holds(bv, i, id));
    assert(blocks::holds(bv, j, t));
    listing::parent_is_listed(list.order@, bv, t);
    let first = bv[j].members[0];
    assert(bv[j].members.contains(first));
    if first == id {
        assert(blocks::holds(bv, j, id));
        assert(i == j);
        assert(bv[i].members.index_of(t) == 0);
    }
}

/// A new tab stands behind the group of the tab that it was opened from, or at the end.
pub proof fn new_tabs_stand_behind(list: &TabsList, a: TabId, new: TabId)
    requires
        list.arranged(),
        list.lists(a),
    ensures
        ({
            let k = list.new_index(TabPosition::After(a));
            let after = list.bv().insert(k, blocks::single(new));
            &&& 0 < k <= list.bv().len()
            &&& after[k] == blocks::single(new)
            &&& after[k - 1].members.contains(a)
        }),
        list.active == Some(a) ==> list.new_index(TabPosition::AfterActive) == list.new_index(
            TabPosition::After(a),
        ) && list.new_place(TabPosition::AfterActive) == list.new_place(TabPosition::After(a)),
        list.new_index(TabPosition::End) == list.bv().len(),
        list.new_place(TabPosition::End) == list.order@.len(),
        list.active is None ==> list.new_index(TabPosition::AfterActive) == list.bv().len(),
        list.tidy() ==> {
            let p = list.new_place(TabPosition::After(a));
            let group = list.bv()[blocks::block_of(list.bv(), a)].members;
            0 < p <= list.order@.len() && list.order@[p - 1] == group.last()
        },
{
    let bv = list.bv();
    let i = blocks::block_of(bv, a);
    assert(blocks::holds(bv, i, a));
    assert(blocks::block_ok(bv[i]));
    if list.tidy() {
        let n = bv[i].members.len() as int;
        listing::listed_position(bv, i, 0);
        listing::listed_position(bv, i, n - 1);
        listing::group_is_contiguous(bv, i);
        let from = listing::offset(bv, i);
        assert(blocks::listed(bv).subrange(from, from + n)[n - 1] == blocks::listed(bv)[from + n
            - 1]);
    }
}

proof fn one_leaf(p: pane::Pane)
    requires
        p.leaves().len() == 1,
    ensures
        p == pane::Pane::Leaf(p.leaves()[0]),
{
    if let pane::Pane::Split { start, end, .. } = p {
        pane::has_leaves(*start);
        pane::has_leaves(*end);
    }
}

/// A tab that was closed, and that was in no group, is opened again where it was.
pub proof fn reopened_where_it_was(list: &TabsList, id: TabId, shown: Shown, next: &TabsList)
    requires
        list.arranged(),
        list.tidy(),
        list.lists(id),
        list.group_size(id) == 1,
        list.closed_to(id, shown, next),
    ensures
        next.bv().insert(next.reopen_index(), blocks::single(id)) == list.bv(),
        next.order@.insert(next.reopen_place(), id) == list.order@,
{
    let bv = list.bv();
    let i = blocks::block_of(bv, id);
    assert(blocks::holds(bv, i, id));
    let b = bv[i];
    assert(blocks::block_ok(b));
    assert(b.members =~= seq![id]);
    assert(b.layout.leaves().contains(id));
    one_leaf(b.layout);
    assert(b == blocks::single(id));
    let rest = bv.remove(i);
    assert(next.bv() == rest);
    blocks::closed_ok(bv, id);
    listing::tidy_close(bv, id);
    listing::listed_position(bv, i, 0);
    let p = listing::offset(bv, i);
    assert(list.order@.index_of(id) == p);
    assert(rest.insert(i, b) =~= bv);
    if i > 0 {
        let g = bv[i - 1].members;
        let n = g.len() as int;
        assert(blocks::block_ok(bv[i - 1]));
        listing::listed_position(bv, i - 1, n - 1);
        listing::offset_step(bv, i - 1);
        listing::group_is_contiguous(bv, i - 1);
        let t = g[n - 1];
        let from = listing::offset(bv, i - 1);
        assert(blocks::listed(bv).subrange(from, from + n)[n - 1] == blocks::listed(bv)[p - 1]);
        assert(listing::before(list.order@, id) == Some(t));
        assert(g.contains(t));
        assert(rest[i - 1] == bv[i - 1]);
        assert(blocks::holds(rest, i - 1, t));
        blocks::block_of_unique(rest, i - 1, t);
        listing::tidy_insert(rest, t, id);
    } else {
        assert(bv.take(0) =~= Seq::<BlockView>::empty());
        assert(listing::before(list.order@, id) is None);
        listing::tidy_insert_at_ends(rest, id);
    }
}

/// Whether `next` has a block beside the `d`th one, behind it or in front of it, and is
/// otherwise `rest`.
pub open spec fn beside(
    next: Seq<BlockView>,
    rest: Seq<BlockView>,
    block: BlockView,
    other: BlockView,
    behind: bool,
    k: int,
) -> bool {
    &&& 0 <= k < next.len()
    &&& next[k] == block
    &&& next.remove(k) == rest
    &&& if behind {
        k > 0 && next[k - 1] == other
    } else {
        k + 1 < next.len() && next[k + 1] == other
    }
}

proof fn moved_beside(v: Seq<BlockView>, s: int, d: int, behind: bool) -> (k: int)
    requires
        0 <= s < v.len(),
        0 <= d < v.len(),
        s != d,
    ensures
        beside(block_moved(v, s, d, behind), v.remove(s), v[s], v[d], behind, k),
{
    let rest = v.remove(s);
    let at = if s < d {
        d - 1
    } else {
        d
    };
    let k = if behind {
        at + 1
    } else {
        at
    };
    let next = block_moved(v, s, d, behind);
    assert(next == rest.insert(k, v[s]));
    assert(next.remove(k) =~= rest);
    assert(rest[at] == v[d]);
    k
}

proof fn children_are_within(bv: Seq<BlockView>, id: TabId)
    requires
        blocks::blocks_ok(bv),
        blocks::lists(bv, id),
    ensures
        is_child(bv, id) <==> bv[blocks::block_of(bv, id)].members[0] != id,
{
    let i = blocks::block_of(bv, id);
    assert(blocks::holds(bv, i, id));
    if bv[i].members.len() == 1 {
        assert(bv[i].members.index_of(id) == 0);
    }
}

/// A tab, or the group that it leads, that is dragged to another one ends up beside the
/// other one's group: behind it if it was dropped behind it or onto a tab within the
/// group, and otherwise in front of it. All the other groups stay as they are.
pub proof fn dragged_beside(bv: Seq<BlockView>, source: TabId, dest: TabId, after: bool) -> (k: int)
    requires
        blocks::blocks_ok(bv),
        reorder_applies(bv, source, dest),
        bv[blocks::block_of(bv, source)].members[0] == source,
    ensures
        ({
            let s = blocks::block_of(bv, source);
            let d = blocks::block_of(bv, dest);
            beside(
                reordered(bv, source, dest, after),
                bv.remove(s),
                bv[s],
                bv[d],
                after || bv[d].members[0] != dest,
                k,
            )
        }),
{
    let s = blocks::block_of(bv, source);
    let d = blocks::block_of(bv, dest);
    assert(blocks::holds(bv, s, source));
    assert(blocks::holds(bv, d, dest));
    children_are_within(bv, source);
    children_are_within(bv, dest);
    moved_beside(bv, s, d, after || is_child(bv, dest))
}

proof fn left_places(bv: Seq<BlockView>, source: TabId, dest: TabId)
    requires
        blocks::blocks_ok(bv),
        reorder_applies(bv, source, dest),
        bv[blocks::block_of(bv, source)].members[0] != source,
    ensures
        ({
            let v = blocks::left(bv, source);
            let s = blocks::block_of(v, source);
            let d = blocks::block_of(v, dest);
            &&& 0 <= s < v.len() && 0 <= d < v.len() && s != d
            &&& v[s] == blocks::single(source)
            &&& v[d] == bv[blocks::block_of(bv, dest)]
            &&& v.remove(s) == blocks::closed(bv, source)
        }),
{
    let s = blocks::block_of(bv, source);
    let d = blocks::block_of(bv, dest);
    assert(blocks::holds(bv, s, source));
    assert(blocks::holds(bv, d, dest));
    children_are_within(bv, source);
    let v = blocks::left(bv, source);
    blocks::left_ok(bv, source);
    assert(v[s + 1] == blocks::single(source));
    assert(v[s + 1].members[0] == source);
    assert(blocks::holds(v, s + 1, source));
    blocks::block_of_unique(v, s + 1, source);
    let e = if d > s {
        d + 1
    } else {
        d
    };
    assert(v[e] == bv[d]);
    assert(blocks::holds(v, e, dest));
    blocks::block_of_unique(v, e, dest);
    assert(v.remove(s + 1) =~= blocks::closed(bv, source));
}

/// A tab within a group that is dragged away leaves the group, which stays where it is,
/// and ends up beside the other one's group.
pub proof fn dragged_out_of_a_group(
    bv: Seq<BlockView>,
    source: TabId,
    dest: TabId,
    after: bool,
) -> (k: int)
    requires
        blocks::blocks_ok(bv),
        reorder_applies(bv, source, dest),
        bv[blocks::block_of(bv, source)].members[0] != source,
    ensures
        ({
            let d = blocks::block_of(bv, dest);
            beside(
                reordered(bv, source, dest, after),
                blocks::closed(bv, source),
                blocks::single(source),
                bv[d],
                after || bv[d].members[0] != dest,
                k,
            )
        }),
{
    let v = blocks::left(bv, source);
    children_are_within(bv, source);
    children_are_within(bv, dest);
    left_places(bv, source, dest);
    moved_beside(
        v,
        blocks::block_of(v, source),
        blocks::block_of(v, dest),
        after || is_child(bv, dest),
    )
}

/// Programs get the directory of the active tab and the selection first, and then those
/// of the tabs beside it.
pub proof fn programs_get_the_tabs(list: &TabsList, a: TabId, k: int, selection: Seq<u8>)
    requires
        list.arranged(),
        list.active == Some(a),
        tab_at(list.tabs@, k, a),
    ensures
        list.env(selection).len() > 0,
        list.env(selection)[0] == (
            "AWFM_CURRENT_TAB"@ + "_PATH"@,
            path::path_bytes(list.tabs@[k].dir@),
        ),
        list.env(selection).contains(("AWFM_SELECTION"@, selection)),
        listing::after(list.order@, a) is None && listing::before(list.order@, a) is None
            ==> list.env(selection).len() == (if list.tabs@[k].search is Some {
            3int
        } else {
            2int
        }),
{
    let j = choose|j: int| #[trigger] tab_at(list.tabs@, j, a);
    assert(tab_at(list.tabs@, j, a));
    assert(j == k);
    let own = list.env_of(Some(a), "AWFM_CURRENT_TAB"@);
    let env = list.env(selection);
    assert(own == tab_env(&list.tabs@[k], "AWFM_CURRENT_TAB"@));
    assert(env[own.len() as int] == ("AWFM_SELECTION"@, selection));
    assert(env[0] == own[0]);
}

/// Once the active tab is closed, and it was in no group, the tab listed before it takes
/// over, or that after it if it was the first. Of a group the first tab does.
pub proof fn neighbour_takes_over(list: &TabsList, p: int)
    requires
        list.arranged(),
        0 <= p < list.order@.len(),
        list.active == Some(list.order@[p]),
        list.group_size(list.order@[p]) == 1,
    ensures
        ({
            let next = list.active_after_close(list.order@[p]);
            let beside = if p > 0 {
                p - 1
            } else {
                p + 1
            };
            if beside < list.order@.len() {
                &&& next is Some
                &&& blocks::holds(
                    list.bv(),
                    blocks::block_of(list.bv(), list.order@[beside]),
                    next->0,
                )
                &&& list.group_size(list.order@[beside]) == 1 ==> next == Some(list.order@[beside])
            } else {
                next is None
            }
        }),
{
    let order = list.order@;
    let id = order[p];
    assert(order.contains(id));
    assert(order.index_of(id) == p);
    let beside = if p > 0 {
        p - 1
    } else {
        p + 1
    };
    if beside < order.len() {
        let t = order[beside];
        let bv = list.bv();
        assert(order.contains(t));
        let j = blocks::block_of(bv, t);
        assert(blocks::lists(bv, t));
        assert(blocks::holds(bv, j, t));
        listing::parent_is_listed(order, bv, t);
        let first = bv[j].members[0];
        assert(bv[j].members.contains(first));
        if bv[j].members.len() == 1 {
            assert(bv[j].members.index_of(t) == 0);
        }
    }
}

/// What a pane shows is found by its tab, and a tab without a pane shows the start of its
/// directory.
pub proof fn shown_by_its_pane(
    id: TabId,
    state: PaneState,
    other: TabId,
    rest: Seq<(TabId, PaneState)>,
)
    ensures
        shown_in(seq![(id, state)] + rest, id) == state,
        other != id ==> shown_in(seq![(id, state)] + rest, other) == shown_in(rest, other),
        shown_in(Seq::empty(), id).scroll is None && shown_in(Seq::empty(), id).focus is None,
{
    assert((seq![(id, state)] + rest).skip(1) =~= rest);
}

} // verus!
