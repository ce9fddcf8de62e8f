//! Joining tabs to the groups of a saved session.
use vstd::prelude::*;

use crate::blocks::{self, block_of, find_block, lists, Block, BlockView};
use crate::listing;
use crate::pane::TabId;
use crate::session::{self, SavedGroup, SavedSplit, SplitChild};

verus! {

/// What is wrong with a saved group or with a split in it.
#[derive(Clone, Copy, Debug, PartialEq, Eq, Structural)]
pub enum SessionError {
    /// The parent of the group doesn't exist.
    NoParent,
    /// A tab is split with itself.
    SplitWithItself,
    /// Tabs are split that do not exist.
    NoSuchTab,
}

impl SessionError {
    /// What to tell the user.
    pub fn text(self) -> (r: &'static str)
        ensures
            r@ == match self {
                SessionError::NoParent => {
                    "Invalid or corrupt session: parent of group doesn't exist"@
                },
                SessionError::SplitWithItself => {
                    "Invalid or corrupt session: tab split with itself"@
                },
                SessionError::NoSuchTab => {
                    "Invalid or corrupt session: splitting non-existent tabs"@
                },
            },
    {
        match self {
            SessionError::NoParent => "Invalid or corrupt session: parent of group doesn't exist",
            SessionError::SplitWithItself => "Invalid or corrupt session: tab split with itself",
            SessionError::NoSuchTab => "Invalid or corrupt session: splitting non-existent tabs",
        }
    }
}

/// The mistake of a saved split itself, without those inside of it, in a session of
/// `count` tabs.
pub open spec fn own_error(split: SavedSplit, count: nat) -> Option<SessionError> {
    let first = split.start.spec_first();
    let second = split.end.spec_first();
    if first == second {
        Some(SessionError::SplitWithItself)
    } else if first >= count || second >= count {
        Some(SessionError::NoSuchTab)
    } else {
        None
    }
}

/// All mistakes in a saved split, the outer ones first. Nothing is looked for inside
/// of a split that is one.
pub open spec fn split_errors(split: SavedSplit, count: nat) -> Seq<SessionError>
    decreases split,
{
    match own_error(split, count) {
        Some(e) => seq![e],
        None => {
            let start = match split.start {
                SplitChild::Split(s) => split_errors(*s, count),
                SplitChild::Tab(_) => Seq::empty(),
            };
            let end = match split.end {
                SplitChild::Split(s) => split_errors(*s, count),
                SplitChild::Tab(_) => Seq::empty(),
            };
            start + end
        },
    }
}

/// All mistakes in a saved group.
pub open spec fn group_errors(g: SavedGroup, count: nat) -> Seq<SessionError> {
    if g.parent >= count {
        seq![SessionError::NoParent]
    } else {
        split_errors(g.split, count)
    }
}

/// All mistakes in the saved groups, one after the other.
pub open spec fn session_errors(groups: Seq<SavedGroup>, count: nat) -> Seq<SessionError>
    decreases groups.len(),
{
    if groups.len() == 0 {
        Seq::empty()
    } else {
        session_errors(groups.drop_last(), count) + group_errors(groups.last(), count)
    }
}

/// The blocks once a saved split has been restored, from the top down: the pane of
/// its first tab is split for the first tab of its end, wherever that one was, and
/// then the splits on both sides are restored. A split that is a mistake is left out.
pub open spec fn rejoined(bv: Seq<BlockView>, ids: Seq<TabId>, split: SavedSplit) -> Seq<BlockView>
    decreases split,
{
    if own_error(split, ids.len()) is Some {
        bv
    } else {
        let first = ids[split.start.spec_first() as int];
        let second = ids[split.end.spec_first() as int];
        let one = blocks::split_for(blocks::closed(bv, second), first, second, split.horizontal);
        let two = match split.start {
            SplitChild::Split(s) => rejoined(one, ids, *s),
            SplitChild::Tab(_) => one,
        };
        match split.end {
            SplitChild::Split(s) => rejoined(two, ids, *s),
            SplitChild::Tab(_) => two,
        }
    }
}

/// Those of some tabs that are among others.
pub open spec fn picked(all: Seq<TabId>, among: Seq<TabId>) -> Seq<TabId>
    decreases all.len(),
{
    if all.len() == 0 {
        Seq::empty()
    } else if among.contains(all.last()) {
        picked(all.drop_last(), among).push(all.last())
    } else {
        picked(all.drop_last(), among)
    }
}

/// The members of a group in the order they are listed, from its parent on and around
/// the end of the list.
pub open spec fn ring(order: Seq<TabId>, parent: TabId, members: Seq<TabId>) -> Seq<TabId> {
    let p = order.index_of(parent);
    picked(order.skip(p) + order.take(p), members)
}

/// The blocks once `parent` has become the parent of the group of `id`, if it is in it.
pub open spec fn headed(
    bv: Seq<BlockView>,
    order: Seq<TabId>,
    id: TabId,
    parent: TabId,
) -> Seq<BlockView> {
    let j = block_of(bv, id);
    if bv[j].members.contains(parent) {
        bv.update(
            j,
            BlockView {
                members: ring(order, parent, bv[j].members),
                layout: bv[j].layout,
            },
        )
    } else {
        bv
    }
}

/// The blocks once a saved group has been restored, for tabs that are listed in order
/// of their numbers. If the parent is in a group already, then that group grows.
pub open spec fn with_group(bv: Seq<BlockView>, ids: Seq<TabId>, g: SavedGroup) -> Seq<BlockView> {
    if g.parent >= ids.len() || own_error(g.split, ids.len()) is Some {
        bv
    } else {
        headed(
            rejoined(bv, ids, g.split),
            ids,
            ids[g.split.start.spec_first() as int],
            listing::parent_of(bv, ids[g.parent as int]),
        )
    }
}

/// The blocks once the saved groups have been restored, one after the other.
pub open spec fn restored(
    bv: Seq<BlockView>,
    ids: Seq<TabId>,
    groups: Seq<SavedGroup>,
) -> Seq<BlockView>
    decreases groups.len(),
{
    if groups.len() == 0 {
        bv
    } else {
        with_group(restored(bv, ids, groups.drop_last()), ids, groups.last())
    }
}

/// Whether the tabs that a split names are listed, as far as they exist.
pub open spec fn names_listed(bv: Seq<BlockView>, ids: Seq<TabId>, split: SavedSplit) -> bool {
    forall|k: int|
        0 <= k < split.tabs().len() && split.tabs()[k] < ids.len() ==> lists(
            bv,
            ids[(#[trigger] split.tabs()[k]) as int],
        )
}

proof fn named_inside(bv: Seq<BlockView>, ids: Seq<TabId>, split: SavedSplit)
    requires
        names_listed(bv, ids, split),
    ensures
        split.start matches SplitChild::Split(s) ==> names_listed(bv, ids, *s),
        split.end matches SplitChild::Split(s) ==> names_listed(bv, ids, *s),
        split.start.spec_first() < ids.len() ==> lists(
            bv,
            ids[split.start.spec_first() as int],
        ),
        split.end.spec_first() < ids.len() ==> lists(bv, ids[split.end.spec_first() as int]),
{
    let a = split.start.tabs();
    let b = split.end.tabs();
    let all = split.tabs();
    session::layout_leaves(split.start, ids);
    session::layout_leaves(split.end, ids);
    assert(all[0] == a[0]);
    assert(all[a.len() as int] == b[0]);
    if let SplitChild::Split(s) = split.start {
        assert forall|k: int| 0 <= k < s.tabs().len() && s.tabs()[k] < ids.len() implies lists(
            bv,
            ids[(#[trigger] s.tabs()[k]) as int],
        ) by {
            assert(all[k] == s.tabs()[k]);
        }
    }
    if let SplitChild::Split(s) = split.end {
        assert forall|k: int| 0 <= k < s.tabs().len() && s.tabs()[k] < ids.len() implies lists(
            bv,
            ids[(#[trigger] s.tabs()[k]) as int],
        ) by {
            assert(all[a.len() + k] == s.tabs()[k]);
        }
    }
}

proof fn named_still(
    bv: Seq<BlockView>,
    next: Seq<BlockView>,
    ids: Seq<TabId>,
    split: SavedSplit,
)
    requires
        names_listed(bv, ids, split),
        forall|t: TabId| #[trigger] lists(next, t) <==> lists(bv, t),
    ensures
        names_listed(next, ids, split),
{
    assert forall|k: int| 0 <= k < split.tabs().len() && split.tabs()[k] < ids.len() implies lists(
        next,
        ids[(#[trigger] split.tabs()[k]) as int],
    ) by {
        assert(lists(bv, ids[split.tabs()[k] as int]));
    }
}

/// The blocks once one pane has been split for another tab, wherever that one was.
pub open spec fn once(
    bv: Seq<BlockView>,
    first: TabId,
    second: TabId,
    horizontal: bool,
) -> Seq<BlockView> {
    blocks::split_for(blocks::closed(bv, second), first, second, horizontal)
}

proof fn once_ok(bv: Seq<BlockView>, first: TabId, second: TabId, horizontal: bool)
    requires
        blocks::blocks_ok(bv),
        lists(bv, first),
        lists(bv, second),
        first != second,
    ensures
        blocks::blocks_ok(once(bv, first, second, horizontal)),
        forall|t: TabId| #[trigger] lists(once(bv, first, second, horizontal), t) <==> lists(bv, t),
        blocks::blocks_ok(blocks::closed(bv, second)),
        lists(blocks::closed(bv, second), first),
        !lists(blocks::closed(bv, second), second),
{
    blocks::closed_ok(bv, second);
    blocks::split_for_ok(blocks::closed(bv, second), first, second, horizontal);
}

/// Restoring a split loses no tabs.
pub proof fn rejoined_ok(bv: Seq<BlockView>, ids: Seq<TabId>, split: SavedSplit)
    requires
        blocks::blocks_ok(bv),
        ids.no_duplicates(),
        names_listed(bv, ids, split),
    ensures
        blocks::blocks_ok(rejoined(bv, ids, split)),
        forall|t: TabId| #[trigger] lists(rejoined(bv, ids, split), t) <==> lists(bv, t),
    decreases split,
{
    if own_error(split, ids.len()) is None {
        let first = ids[split.start.spec_first() as int];
        let second = ids[split.end.spec_first() as int];
        named_inside(bv, ids, split);
        once_ok(bv, first, second, split.horizontal);
        let one = once(bv, first, second, split.horizontal);
        named_still(bv, one, ids, split);
        named_inside(one, ids, split);
        if let SplitChild::Split(s) = split.start {
            rejoined_ok(one, ids, *s);
        }
        let two = match split.start {
            SplitChild::Split(s) => rejoined(one, ids, *s),
            SplitChild::Tab(_) => one,
        };
        named_still(one, two, ids, split);
        named_inside(two, ids, split);
        if let SplitChild::Split(s) = split.end {
            rejoined_ok(two, ids, *s);
        }
    }
}

proof fn picked_ok(all: Seq<TabId>, among: Seq<TabId>)
    requires
        all.no_duplicates(),
    ensures
        picked(all, among).no_duplicates(),
        forall|t: TabId| #[trigger]
            picked(all, among).contains(t) <==> all.contains(t) && among.contains(t),
        all.len() > 0 && among.contains(all[0]) ==> picked(all, among).len() > 0 && picked(
            all,
            among,
        )[0] == all[0],
    decreases all.len(),
{
    if all.len() > 0 {
        let front = all.drop_last();
        let last = all.last();
        assert forall|i: int, j: int|
            0 <= i < front.len() && 0 <= j < front.len() && i != j implies front[i] != front[j] by {
            assert(front[i] == all[i] && front[j] == all[j]);
        }
        picked_ok(front, among);
        let p = picked(front, among);
        let r = picked(all, among);
        assert forall|t: TabId| #[trigger] all.contains(t) <==> front.contains(t) || t == last by {
            if all.contains(t) {
                let i = all.index_of(t);
                if i < front.len() {
                    assert(front[i] == t);
                }
            }
            if front.contains(t) {
                let i = front.index_of(t);
                assert(all[i] == t);
            }
            if t == last {
                assert(all[all.len() - 1] == t);
            }
        }
        assert(!front.contains(last)) by {
            if front.contains(last) {
                let i = front.index_of(last);
                assert(all[i] == all[all.len() - 1]);
            }
        }
        if among.contains(last) {
            assert(!p.contains(last));
            blocks::inserted_contains(p, p.len() as int, last);
            assert(p.insert(p.len() as int, last) =~= r);
        }
        if front.len() > 0 {
            assert(front[0] == all[0]);
        }
    }
}

/// The tabs of a list from one of them on, around the end.
proof fn turned_ok(order: Seq<TabId>, p: int)
    requires
        order.no_duplicates(),
        0 <= p < order.len(),
    ensures
        (order.skip(p) + order.take(p)).no_duplicates(),
        forall|t: TabId| #[trigger]
            (order.skip(p) + order.take(p)).contains(t) <==> order.contains(t),
{
    let r = order.skip(p) + order.take(p);
    let n = order.len() as int;
    let from = |i: int| if i < n - p { i + p } else { i - (n - p) };
    assert forall|i: int, j: int| 0 <= i < r.len() && 0 <= j < r.len() && i != j implies r[i]
        != r[j] by {
        assert(r[i] == order[from(i)] && r[j] == order[from(j)]);
    }
    assert forall|t: TabId| #[trigger] r.contains(t) <==> order.contains(t) by {
        if r.contains(t) {
            let i = r.index_of(t);
            assert(r[i] == order[from(i)]);
        }
        if order.contains(t) {
            let i = order.index_of(t);
            let k = if i >= p { i - p } else { i + n - p };
            assert(r[k] == t);
        }
    }
}

/// A group has the same members when they are listed from its parent on.
proof fn ring_ok(order: Seq<TabId>, parent: TabId, members: Seq<TabId>)
    requires
        order.no_duplicates(),
        members.no_duplicates(),
        members.contains(parent),
        forall|t: TabId| #[trigger] members.contains(t) ==> order.contains(t),
    ensures
        ring(order, parent, members).no_duplicates(),
        ring(order, parent, members).len() == members.len(),
        forall|t: TabId| #[trigger]
            ring(order, parent, members).contains(t) <==> members.contains(t),
        ring(order, parent, members)[0] == parent,
{
    let p = order.index_of(parent);
    assert(order.contains(parent));
    turned_ok(order, p);
    let all = order.skip(p) + order.take(p);
    assert(all[0] == parent);
    picked_ok(all, members);
    let r = ring(order, parent, members);
    r.unique_seq_to_set();
    members.unique_seq_to_set();
    assert(r.to_set() =~= members.to_set()) by {
        assert forall|t: TabId| r.to_set().contains(t) <==> members.to_set().contains(t) by {
            assert(r.contains(t) <==> members.contains(t));
        }
    }
}

/// Another parent for a group changes nothing but the order of its members.
pub proof fn headed_ok(bv: Seq<BlockView>, order: Seq<TabId>, id: TabId, parent: TabId)
    requires
        blocks::blocks_ok(bv),
        lists(bv, id),
        order.no_duplicates(),
        forall|t: TabId| #[trigger] lists(bv, t) ==> order.contains(t),
    ensures
        blocks::blocks_ok(headed(bv, order, id, parent)),
        forall|t: TabId| #[trigger] lists(headed(bv, order, id, parent), t) <==> lists(bv, t),
{
    let j = block_of(bv, id);
    assert(blocks::holds(bv, j, id));
    let b = bv[j];
    assert(blocks::block_ok(b));
    if b.members.contains(parent) {
        assert forall|t: TabId| #[trigger] b.members.contains(t) implies order.contains(t) by {
            assert(blocks::holds(bv, j, t));
            assert(lists(bv, t));
        }
        ring_ok(order, parent, b.members);
        let now = BlockView { members: ring(order, parent, b.members), layout: b.layout };
        assert forall|t: TabId| #[trigger] now.layout.leaves().contains(t)
            <==> now.members.contains(t) by {
            assert(b.layout.leaves().contains(t) <==> b.members.contains(t));
            assert(now.members.contains(t) <==> b.members.contains(t));
        }
        blocks::update_block_ok(bv, j, now);
        assert forall|t: TabId| #[trigger] lists(headed(bv, order, id, parent), t) <==> lists(
            bv,
            t,
        ) by {
            assert(now.members.contains(t) <==> b.members.contains(t));
            if b.members.contains(t) {
                assert(blocks::holds(bv, j, t));
            }
        }
    }
}

/// Another parent for a group, seen from the tabs.
pub proof fn headed_block(bv: Seq<BlockView>, order: Seq<TabId>, id: TabId, parent: TabId)
    requires
        blocks::blocks_ok(bv),
        lists(bv, id),
        order.no_duplicates(),
        forall|t: TabId| #[trigger] lists(bv, t) ==> order.contains(t),
        block_with(bv, id).members.contains(parent),
    ensures
        forall|t: TabId| #[trigger]
            block_with(bv, id).members.contains(t) ==> {
                &&& block_with(headed(bv, order, id, parent), t).layout == block_with(
                    bv,
                    id,
                ).layout
                &&& block_with(headed(bv, order, id, parent), t).members[0] == parent
            },
        forall|t: TabId|
            lists(bv, t) && !(#[trigger] block_with(bv, id).members.contains(t)) ==> block_with(
                headed(bv, order, id, parent),
                t,
            ) == block_with(bv, t),
{
    let j = block_of(bv, id);
    in_own_block(bv, id);
    headed_ok(bv, order, id, parent);
    let b = bv[j];
    assert forall|t: TabId| #[trigger] b.members.contains(t) implies order.contains(t) by {
        assert(blocks::holds(bv, j, t));
        assert(lists(bv, t));
    }
    ring_ok(order, parent, b.members);
    let next = headed(bv, order, id, parent);
    assert forall|t: TabId| #[trigger] b.members.contains(t) implies {
        &&& block_with(next, t).layout == b.layout
        &&& block_with(next, t).members[0] == parent
    } by {
        assert(next[j].members.contains(t));
        assert(blocks::holds(next, j, t));
        blocks::block_of_unique(next, j, t);
    }
    assert forall|t: TabId| lists(bv, t) && !(#[trigger] b.members.contains(t)) implies block_with(
        next,
        t,
    ) == block_with(bv, t) by {
        in_own_block(bv, t);
        let i = block_of(bv, t);
        assert(i != j);
        assert(next[i] == bv[i]);
        assert(blocks::holds(next, i, t));
        blocks::block_of_unique(next, i, t);
    }
}

/// Restoring a group loses no tabs.
pub proof fn with_group_ok(bv: Seq<BlockView>, ids: Seq<TabId>, g: SavedGroup)
    requires
        blocks::blocks_ok(bv),
        listing::order_ok(ids, bv),
    ensures
        blocks::blocks_ok(with_group(bv, ids, g)),
        listing::order_ok(ids, with_group(bv, ids, g)),
{
    if g.parent < ids.len() && own_error(g.split, ids.len()) is None {
        all_named(bv, ids, g.split);
        rejoined_ok(bv, ids, g.split);
        let first = ids[g.split.start.spec_first() as int];
        assert(ids.contains(first));
        headed_ok(
            rejoined(bv, ids, g.split),
            ids,
            first,
            listing::parent_of(bv, ids[g.parent as int]),
        );
    }
}

pub(crate) proof fn all_named(bv: Seq<BlockView>, ids: Seq<TabId>, split: SavedSplit)
    requires
        listing::order_ok(ids, bv),
    ensures
        names_listed(bv, ids, split),
{
    assert forall|k: int| 0 <= k < split.tabs().len() && split.tabs()[k] < ids.len() implies lists(
        bv,
        ids[(#[trigger] split.tabs()[k]) as int],
    ) by {
        assert(ids.contains(ids[split.tabs()[k] as int]));
    }
}

fn find_error(split: &SavedSplit, count: usize) -> (r: Option<SessionError>)
    ensures
        r == own_error(*split, count as nat),
{
    let first = split.start.first_child();
    let second = split.end.first_child();
    if first == second {
        Some(SessionError::SplitWithItself)
    } else if first as usize >= count || second as usize >= count {
        Some(SessionError::NoSuchTab)
    } else {
        None
    }
}

/// Restores a saved split from the top down, by splitting out the first tab of each
/// branch in turn. Adds what is wrong with it to the errors.
pub fn restore_split(
    blocks: &mut Vec<Block>,
    ids: &Vec<TabId>,
    split: &SavedSplit,
    errors: &mut Vec<SessionError>,
)
    requires
        blocks::blocks_ok(blocks::views(old(blocks)@)),
        ids@.no_duplicates(),
        names_listed(blocks::views(old(blocks)@), ids@, *split),
    ensures
        blocks::views(final(blocks)@) == rejoined(blocks::views(old(blocks)@), ids@, *split),
        final(errors)@ == old(errors)@ + split_errors(*split, ids@.len()),
    decreases split,
{
    let ghost v = blocks::views(blocks@);
    let ghost before = errors@;
    match find_error(split, ids.len()) {
        Some(e) => {
            errors.push(e);
            assert(errors@ =~= before + split_errors(*split, ids@.len()));
            return;
        },
        None => {},
    }
    let first = ids[split.start.first_child() as usize];
    let second = ids[split.end.first_child() as usize];
    proof {
        named_inside(v, ids@, *split);
        once_ok(v, first, second, split.horizontal);
    }
    blocks::close(blocks, second);
    blocks::split(blocks, first, second, split.horizontal);
    let ghost one = blocks::views(blocks@);
    proof {
        named_still(v, one, ids@, *split);
        named_inside(one, ids@, *split);
    }
    match &split.start {
        SplitChild::Split(s) => {
            proof {
                rejoined_ok(one, ids@, **s);
            }
            restore_split(blocks, ids, s, errors);
        },
        SplitChild::Tab(_) => {},
    }
    let ghost two = blocks::views(blocks@);
    proof {
        named_still(one, two, ids@, *split);
        named_inside(two, ids@, *split);
    }
    match &split.end {
        SplitChild::Split(s) => {
            restore_split(blocks, ids, s, errors);
        },
        SplitChild::Tab(_) => {},
    }
    assert(errors@ =~= before + split_errors(*split, ids@.len()));
}

/// The members of a group in the order they are listed, from its parent on.
fn list_from(order: &Vec<TabId>, parent: TabId, members: &Vec<TabId>) -> (r: Vec<TabId>)
    requires
        order@.no_duplicates(),
        members@.no_duplicates(),
        order@.contains(parent),
    ensures
        r@ == ring(order@, parent, members@),
{
    let n: usize = order.len();
    let p = listing::place_of(order, parent);
    let ghost all = order@.skip(p as int) + order@.take(p as int);
    let mut r: Vec<TabId> = Vec::new();
    let mut i: usize = 0;
    assert(all.take(0) =~= Seq::<TabId>::empty());
    while i < n
        invariant
            i <= n == order.len(),
            p < n,
            all == order@.skip(p as int) + order@.take(p as int),
            members@.no_duplicates(),
            r@ == picked(all.take(i as int), members@),
        decreases n - i,
    {
        let t = if i < n - p {
            order[p + i]
        } else {
            order[i - (n - p)]
        };
        assert(all[i as int] == t);
        assert(all.take(i + 1).drop_last() =~= all.take(i as int));
        assert(all.take(i + 1).last() == t);
        if blocks::position_in(members, t).is_some() {
            r.push(t);
        }
        i += 1;
    }
    assert(all.take(i as int) =~= all);
    r
}

/// Makes `parent` the parent of the group of `id`, if it is in it.
fn set_parent(blocks: &mut Vec<Block>, order: &Vec<TabId>, id: TabId, parent: TabId)
    requires
        blocks::blocks_ok(blocks::views(old(blocks)@)),
        lists(blocks::views(old(blocks)@), id),
        order@.no_duplicates(),
        order@.contains(parent),
    ensures
        blocks::views(final(blocks)@) == headed(
            blocks::views(old(blocks)@),
            order@,
            id,
            parent,
        ),
{
    let ghost v = blocks::views(blocks@);
    match find_block(blocks, id) {
        Some(j) => {
            assert(blocks::block_ok(v[j as int]));
            if blocks::position_in(&blocks[j].members, parent).is_some() {
                let b = blocks.remove(j);
                let ghost was = b@;
                let members = list_from(order, parent, &b.members);
                blocks.insert(j, Block { members, layout: b.layout });
                assert(blocks::views(blocks@) =~= headed(v, order@, id, parent));
            }
        },
        None => {},
    }
}

/// Joins the tabs of a saved group. Adds what is wrong with it to the errors.
pub fn restore_group(
    blocks: &mut Vec<Block>,
    ids: &Vec<TabId>,
    g: &SavedGroup,
    errors: &mut Vec<SessionError>,
)
    requires
        blocks::blocks_ok(blocks::views(old(blocks)@)),
        listing::order_ok(ids@, blocks::views(old(blocks)@)),
    ensures
        blocks::views(final(blocks)@) == with_group(blocks::views(old(blocks)@), ids@, *g),
        final(errors)@ == old(errors)@ + group_errors(*g, ids@.len()),
{
    let ghost v = blocks::views(blocks@);
    if g.parent as usize >= ids.len() {
        errors.push(SessionError::NoParent);
        assert(errors@ =~= old(errors)@ + group_errors(*g, ids@.len()));
        return;
    }
    let id = ids[g.parent as usize];
    assert(ids@.contains(id));
    proof {
        listing::parent_is_listed(ids@, v, id);
        all_named(v, ids@, g.split);
        rejoined_ok(v, ids@, g.split);
    }
    let parent = match find_block(blocks, id) {
        Some(i) => blocks[i].members[0],
        None => id,
    };
    let wrong = find_error(&g.split, ids.len()).is_some();
    restore_split(blocks, ids, &g.split, errors);
    if !wrong {
        let first = ids[g.split.start.first_child() as usize];
        assert(ids@.contains(first));
        set_parent(blocks, ids, first, parent);
    }
}

/// The block of a tab.
pub open spec fn block_with(bv: Seq<BlockView>, id: TabId) -> BlockView {
    bv[block_of(bv, id)]
}

pub(crate) proof fn in_own_block(bv: Seq<BlockView>, id: TabId)
    requires
        blocks::blocks_ok(bv),
        lists(bv, id),
    ensures
        block_with(bv, id).members.contains(id),
        block_with(bv, id).layout.leaves().contains(id),
        blocks::block_ok(block_with(bv, id)),
        0 <= block_of(bv, id) < bv.len(),
        blocks::holds(bv, block_of(bv, id), id),
{
    assert(blocks::holds(bv, block_of(bv, id), id));
}

/// The members of a block are in that block.
pub(crate) proof fn same_block(bv: Seq<BlockView>, id: TabId, other: TabId)
    requires
        blocks::blocks_ok(bv),
        lists(bv, id),
        block_with(bv, id).members.contains(other),
    ensures
        block_of(bv, other) == block_of(bv, id),
        lists(bv, other),
{
    in_own_block(bv, id);
    assert(blocks::holds(bv, block_of(bv, id), other));
    blocks::block_of_unique(bv, block_of(bv, id), other);
}

/// Closing a tab leaves the blocks of others as they are.
proof fn closed_elsewhere(bv: Seq<BlockView>, id: TabId, other: TabId)
    requires
        blocks::blocks_ok(bv),
        lists(bv, id),
        lists(bv, other),
        !block_with(bv, other).members.contains(id),
    ensures
        block_with(blocks::closed(bv, id), other) == block_with(bv, other),
{
    in_own_block(bv, id);
    in_own_block(bv, other);
    blocks::closed_ok(bv, id);
    let w = blocks::closed(bv, id);
    let i = block_of(bv, id);
    let j = block_of(bv, other);
    assert(i != j);
    let k = if bv[i].members.len() == 1 && j > i { j - 1 } else { j };
    assert(w[k] == bv[j]);
    assert(blocks::holds(w, k, other));
    blocks::block_of_unique(w, k, other);
}

/// Splitting a pane changes its block and no others.
proof fn split_elsewhere(
    bv: Seq<BlockView>,
    at: TabId,
    new: TabId,
    horizontal: bool,
    other: TabId,
)
    requires
        blocks::blocks_ok(bv),
        lists(bv, at),
        !lists(bv, new),
        lists(bv, other),
    ensures
        block_with(blocks::split_for(bv, at, new, horizontal), at) == blocks::grown(
            block_with(bv, at),
            at,
            new,
            horizontal,
        ),
        !block_with(bv, other).members.contains(at) ==> block_with(
            blocks::split_for(bv, at, new, horizontal),
            other,
        ) == block_with(bv, other),
{
    in_own_block(bv, at);
    in_own_block(bv, other);
    blocks::split_for_ok(bv, at, new, horizontal);
    let w = blocks::split_for(bv, at, new, horizontal);
    let i = block_of(bv, at);
    let j = block_of(bv, other);
    assert(!bv[i].members.contains(new)) by {
        if bv[i].members.contains(new) {
            assert(blocks::holds(bv, i, new));
        }
    }
    blocks::grown_ok(bv[i], at, new, horizontal);
    assert(w[i].members.contains(at));
    assert(blocks::holds(w, i, at));
    blocks::block_of_unique(w, i, at);
    if i != j {
        assert(w[j] == bv[j]);
        assert(blocks::holds(w, j, other));
        blocks::block_of_unique(w, j, other);
    }
}

/// Whether a split names none of the tabs in the block of another one.
pub open spec fn names_none_with(
    bv: Seq<BlockView>,
    ids: Seq<TabId>,
    split: SavedSplit,
    other: TabId,
) -> bool {
    forall|k: int|
        0 <= k < split.tabs().len() && split.tabs()[k] < ids.len() ==> !block_with(
            bv,
            other,
        ).members.contains(ids[(#[trigger] split.tabs()[k]) as int])
}

proof fn none_inside(bv: Seq<BlockView>, ids: Seq<TabId>, split: SavedSplit, other: TabId)
    requires
        names_none_with(bv, ids, split, other),
    ensures
        split.start matches SplitChild::Split(s) ==> names_none_with(bv, ids, *s, other),
        split.end matches SplitChild::Split(s) ==> names_none_with(bv, ids, *s, other),
        split.start.spec_first() < ids.len() ==> !block_with(bv, other).members.contains(
            ids[split.start.spec_first() as int],
        ),
        split.end.spec_first() < ids.len() ==> !block_with(bv, other).members.contains(
            ids[split.end.spec_first() as int],
        ),
{
    let a = split.start.tabs();
    let b = split.end.tabs();
    let all = split.tabs();
    session::layout_leaves(split.start, ids);
    session::layout_leaves(split.end, ids);
    assert(all[0] == a[0]);
    assert(all[a.len() as int] == b[0]);
    if let SplitChild::Split(s) = split.start {
        assert forall|k: int|
            0 <= k < s.tabs().len() && s.tabs()[k] < ids.len() implies !block_with(
            bv,
            other,
        ).members.contains(ids[(#[trigger] s.tabs()[k]) as int]) by {
            assert(all[k] == s.tabs()[k]);
        }
    }
    if let SplitChild::Split(s) = split.end {
        assert forall|k: int|
            0 <= k < s.tabs().len() && s.tabs()[k] < ids.len() implies !block_with(
            bv,
            other,
        ).members.contains(ids[(#[trigger] s.tabs()[k]) as int]) by {
            assert(all[a.len() + k] == s.tabs()[k]);
        }
    }
}

/// Restoring a split leaves the blocks of tabs that it does not touch as they are.
pub proof fn rejoined_elsewhere(
    bv: Seq<BlockView>,
    ids: Seq<TabId>,
    split: SavedSplit,
    other: TabId,
)
    requires
        blocks::blocks_ok(bv),
        ids.no_duplicates(),
        names_listed(bv, ids, split),
        lists(bv, other),
        names_none_with(bv, ids, split, other),
    ensures
        block_with(rejoined(bv, ids, split), other) == block_with(bv, other),
    decreases split,
{
    if own_error(split, ids.len()) is None {
        let first = ids[split.start.spec_first() as int];
        let second = ids[split.end.spec_first() as int];
        named_inside(bv, ids, split);
        none_inside(bv, ids, split, other);
        once_ok(bv, first, second, split.horizontal);
        closed_elsewhere(bv, second, other);
        in_own_block(bv, other);
        blocks::closed_ok(bv, second);
        split_elsewhere(blocks::closed(bv, second), first, second, split.horizontal, other);
        let one = once(bv, first, second, split.horizontal);
        assert(block_with(one, other) == block_with(bv, other));
        named_still(bv, one, ids, split);
        named_inside(one, ids, split);
        assert(names_none_with(one, ids, split, other));
        none_inside(one, ids, split, other);
        if let SplitChild::Split(s) = split.start {
            rejoined_ok(one, ids, *s);
            rejoined_elsewhere(one, ids, *s, other);
        }
        let two = match split.start {
            SplitChild::Split(s) => rejoined(one, ids, *s),
            SplitChild::Tab(_) => one,
        };
        assert(block_with(two, other) == block_with(bv, other));
        named_still(one, two, ids, split);
        named_inside(two, ids, split);
        assert(names_none_with(two, ids, split, other));
        none_inside(two, ids, split, other);
        if let SplitChild::Split(s) = split.end {
            rejoined_elsewhere(two, ids, *s, other);
        }
    }
}

/// Restoring a split of different tabs gives them the saved layout, in place of the
/// pane of the first of them.
pub proof fn rejoined_layout(bv: Seq<BlockView>, ids: Seq<TabId>, split: SavedSplit)
    requires
        blocks::blocks_ok(bv),
        ids.no_duplicates(),
        names_listed(bv, ids, split),
        session::restorable(split.tabs(), ids.len()),
        session::ready_for(
            block_with(bv, ids[split.start.spec_first() as int]).layout,
            split.tabs(),
            ids,
        ),
    ensures
        own_error(split, ids.len()) is None,
        ({
            let first = ids[split.start.spec_first() as int];
            block_with(rejoined(bv, ids, split), first).layout == block_with(
                bv,
                first,
            ).layout.replaced(first, split.layout(ids))
        }),
    decreases split,
{
    let first = ids[split.start.spec_first() as int];
    let second = ids[split.end.spec_first() as int];
    let layout = block_with(bv, first).layout;
    session::restored_by_halves(layout, split, ids);
    named_inside(bv, ids, split);
    in_own_block(bv, first);
    once_ok(bv, first, second, split.horizontal);
    assert(!block_with(bv, first).members.contains(second));
    closed_elsewhere(bv, second, first);
    split_elsewhere(blocks::closed(bv, second), first, second, split.horizontal, first);
    let one = once(bv, first, second, split.horizontal);
    assert(block_with(one, first).layout == layout.after_split(first, second, split.horizontal));
    named_still(bv, one, ids, split);
    named_inside(one, ids, split);
    if let SplitChild::Split(s) = split.start {
        rejoined_ok(one, ids, *s);
        rejoined_layout(one, ids, *s);
        assert(split.start.layout(ids) == s.layout(ids));
    }
    let two = match split.start {
        SplitChild::Split(s) => rejoined(one, ids, *s),
        SplitChild::Tab(_) => one,
    };
    assert(block_with(two, first).layout == session::half_restored(layout, split, ids));
    named_still(one, two, ids, split);
    named_inside(two, ids, split);
    in_own_block(two, first);
    same_block(two, first, second);
    if let SplitChild::Split(s) = split.end {
        rejoined_ok(two, ids, *s);
        rejoined_layout(two, ids, *s);
        assert(split.end.layout(ids) == s.layout(ids));
        let three = rejoined(two, ids, *s);
        in_own_block(three, second);
        same_block(three, second, first);
    }
}

/// Closing a tab between other blocks leaves those as they are.
proof fn closed_between(
    pre: Seq<BlockView>,
    mid: Seq<BlockView>,
    post: Seq<BlockView>,
    id: TabId,
)
    requires
        blocks::blocks_ok(pre + mid + post),
        blocks::blocks_ok(mid),
        lists(mid, id),
    ensures
        blocks::closed(pre + mid + post, id) == pre + blocks::closed(mid, id) + post,
        lists(pre + mid + post, id),
{
    let all = pre + mid + post;
    in_own_block(mid, id);
    let i = block_of(mid, id);
    let k = pre.len() + i;
    assert(all[k] == mid[i]);
    assert(blocks::holds(all, k, id));
    blocks::block_of_unique(all, k, id);
    assert(blocks::closed(all, id) =~= pre + blocks::closed(mid, id) + post);
}

proof fn split_between(
    pre: Seq<BlockView>,
    mid: Seq<BlockView>,
    post: Seq<BlockView>,
    at: TabId,
    new: TabId,
    horizontal: bool,
)
    requires
        blocks::blocks_ok(pre + mid + post),
        blocks::blocks_ok(mid),
        lists(mid, at),
    ensures
        blocks::split_for(pre + mid + post, at, new, horizontal) == pre + blocks::split_for(
            mid,
            at,
            new,
            horizontal,
        ) + post,
{
    let all = pre + mid + post;
    in_own_block(mid, at);
    let i = block_of(mid, at);
    let k = pre.len() + i;
    assert(all[k] == mid[i]);
    assert(blocks::holds(all, k, at));
    blocks::block_of_unique(all, k, at);
    assert(blocks::split_for(all, at, new, horizontal) =~= pre + blocks::split_for(
        mid,
        at,
        new,
        horizontal,
    ) + post);
}

/// Restoring a split between other blocks leaves those where they are.
pub proof fn rejoined_between(
    pre: Seq<BlockView>,
    mid: Seq<BlockView>,
    post: Seq<BlockView>,
    ids: Seq<TabId>,
    split: SavedSplit,
)
    requires
        blocks::blocks_ok(pre + mid + post),
        blocks::blocks_ok(mid),
        ids.no_duplicates(),
        names_listed(mid, ids, split),
        names_listed(pre + mid + post, ids, split),
    ensures
        rejoined(pre + mid + post, ids, split) == pre + rejoined(mid, ids, split) + post,
    decreases split,
{
    if own_error(split, ids.len()) is None {
        let all = pre + mid + post;
        let first = ids[split.start.spec_first() as int];
        let second = ids[split.end.spec_first() as int];
        let h = split.horizontal;
        named_inside(mid, ids, split);
        named_inside(all, ids, split);
        once_ok(mid, first, second, h);
        once_ok(all, first, second, h);
        closed_between(pre, mid, post, second);
        split_between(pre, blocks::closed(mid, second), post, first, second, h);
        let one = once(mid, first, second, h);
        let one_all = once(all, first, second, h);
        assert(one_all == pre + one + post);
        named_still(mid, one, ids, split);
        named_still(all, one_all, ids, split);
        named_inside(one, ids, split);
        named_inside(one_all, ids, split);
        if let SplitChild::Split(s) = split.start {
            rejoined_between(pre, one, post, ids, *s);
            rejoined_ok(one, ids, *s);
            rejoined_ok(one_all, ids, *s);
        }
        let two = match split.start {
            SplitChild::Split(s) => rejoined(one, ids, *s),
            SplitChild::Tab(_) => one,
        };
        let two_all = match split.start {
            SplitChild::Split(s) => rejoined(one_all, ids, *s),
            SplitChild::Tab(_) => one_all,
        };
        named_still(one, two, ids, split);
        named_still(one_all, two_all, ids, split);
        named_inside(two, ids, split);
        named_inside(two_all, ids, split);
        if let SplitChild::Split(s) = split.end {
            rejoined_between(pre, two, post, ids, *s);
        }
    }
}

/// A range of the list stays as it is when it is listed from its first tab on.
pub proof fn ring_of_range(order: Seq<TabId>, o: int, n: int, members: Seq<TabId>)
    requires
        order.no_duplicates(),
        0 <= o,
        0 < n,
        o + n <= order.len(),
        forall|t: TabId| #[trigger]
            members.contains(t) <==> order.subrange(o, o + n).contains(t),
    ensures
        ring(order, order[o], members) == order.subrange(o, o + n),
{
    assert(order.contains(order[o]));
    assert(order.index_of(order[o]) == o);
    let all = order.skip(o) + order.take(o);
    let r = order.subrange(o, o + n);
    assert forall|i: int| 0 <= i < all.len() implies (members.contains(#[trigger] all[i]) <==> i
        < n) by {
        if i < n {
            assert(r[i] == all[i]);
        } else if members.contains(all[i]) {
            let k = r.index_of(all[i]);
            assert(r[k] == order[o + k]);
            let j = if i < order.len() - o { i + o } else { i - (order.len() - o) };
            assert(all[i] == order[j]);
        }
    }
    picked_prefix(all, members, n, all.len() as int);
    assert(all.take(all.len() as int) =~= all);
    assert(all.take(n) =~= r);
}

proof fn picked_prefix(all: Seq<TabId>, members: Seq<TabId>, n: int, m: int)
    requires
        0 <= n <= all.len(),
        0 <= m <= all.len(),
        forall|i: int| 0 <= i < all.len() ==> (members.contains(#[trigger] all[i]) <==> i < n),
    ensures
        picked(all.take(m), members) == all.take(if m < n { m } else { n }),
    decreases m,
{
    if m > 0 {
        picked_prefix(all, members, n, m - 1);
        let s = all.take(m);
        assert(s.drop_last() =~= all.take(m - 1));
        assert(s.last() == all[m - 1]);
        assert(picked(s, members) =~= all.take(if m < n { m } else { n }));
    } else {
        assert(all.take(0) =~= Seq::<TabId>::empty());
    }
}

/// A split without mistakes names only tabs that there are, and one that names each of
/// its tabs once, all of them there, has no mistakes.
pub proof fn mistakes_are_found(split: SavedSplit, count: nat)
    ensures
        split_errors(split, count).len() == 0 ==> forall|i: int|
            0 <= i < split.tabs().len() ==> (#[trigger] split.tabs()[i]) < count,
        session::restorable(split.tabs(), count) ==> split_errors(split, count).len() == 0,
    decreases split,
{
    let (a, b) = (split.start.tabs(), split.end.tabs());
    session::layout_leaves(split.start, Seq::empty());
    session::layout_leaves(split.end, Seq::empty());
    assert(split.tabs() =~= a + b);
    if let SplitChild::Split(s) = split.start {
        mistakes_are_found(*s, count);
        assert(s.tabs() =~= a);
    }
    if let SplitChild::Split(s) = split.end {
        mistakes_are_found(*s, count);
        assert(s.tabs() =~= b);
    }
    if session::restorable(split.tabs(), count) {
        assert(split.tabs()[0] == a[0]);
        assert(split.tabs()[a.len() as int] == b[0]);
        assert forall|i: int| 0 <= i < a.len() implies (#[trigger] a[i]) < count by {
            assert(split.tabs()[i] == a[i]);
        }
        assert forall|i: int| 0 <= i < b.len() implies (#[trigger] b[i]) < count by {
            assert(split.tabs()[a.len() + i] == b[i]);
        }
        assert(a.no_duplicates()) by {
            assert forall|i: int, j: int| 0 <= i < a.len() && 0 <= j < a.len() && i != j implies a[i]
                != a[j] by {
                assert(split.tabs()[i] != split.tabs()[j]);
            }
        }
        assert(b.no_duplicates()) by {
            assert forall|i: int, j: int| 0 <= i < b.len() && 0 <= j < b.len() && i != j implies b[i]
                != b[j] by {
                assert(split.tabs()[a.len() + i] != split.tabs()[a.len() + j]);
            }
        }
        assert(split_errors(split, count) =~= Seq::empty());
    }
    if split_errors(split, count).len() == 0 {
        assert forall|i: int| 0 <= i < split.tabs().len() implies (#[trigger] split.tabs()[i])
            < count by {
            if i < a.len() {
                assert(split.tabs()[i] == a[i]);
            } else {
                assert(split.tabs()[i] == b[i - a.len()]);
            }
        }
    }
}

} // verus!
