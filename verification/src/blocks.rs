//! Tabs and tab groups.
use vstd::prelude::*;

use crate::pane::{self, Pane, TabId};

verus! {

/// Tabs that are shown together: a single tab, or the members of a group. The first
/// member is the group's parent; the others have the order of the list, unless a
/// session lists them apart.
pub struct Block {
    pub members: Vec<TabId>,
    pub layout: Pane,
}

/// The mathematical form of a block.
#[verifier::ext_equal]
pub struct BlockView {
    pub members: Seq<TabId>,
    pub layout: Pane,
}

impl View for Block {
    type V = BlockView;

    open spec fn view(&self) -> BlockView {
        BlockView { members: self.members@, layout: self.layout }
    }
}

pub open spec fn views(blocks: Seq<Block>) -> Seq<BlockView> {
    Seq::new(blocks.len(), |i: int| blocks[i]@)
}

/// A block of one tab.
pub open spec fn single(id: TabId) -> BlockView {
    BlockView { members: seq![id], layout: Pane::Leaf(id) }
}

/// The tabs of the blocks, one block after the other.
pub open spec fn listed(blocks: Seq<BlockView>) -> Seq<TabId>
    decreases blocks.len(),
{
    if blocks.len() == 0 {
        Seq::empty()
    } else {
        listed(blocks.drop_last()) + blocks.last().members
    }
}

/// Whether a tab is in a block.
pub open spec fn holds(blocks: Seq<BlockView>, i: int, id: TabId) -> bool {
    0 <= i < blocks.len() && blocks[i].members.contains(id)
}

/// Whether a tab is in any block.
pub open spec fn lists(blocks: Seq<BlockView>, id: TabId) -> bool {
    exists|i: int| #[trigger] holds(blocks, i, id)
}

/// The block of a tab.
pub open spec fn block_of(blocks: Seq<BlockView>, id: TabId) -> int {
    choose|i: int| #[trigger] holds(blocks, i, id)
}

/// A block has at least one member, and its layout has one pane for each.
pub open spec fn block_ok(b: BlockView) -> bool {
    &&& b.members.len() > 0
    &&& b.members.no_duplicates()
    &&& b.layout.leaves().no_duplicates()
    &&& b.layout.leaves().len() == b.members.len()
    &&& forall|t: TabId| #[trigger] b.layout.leaves().contains(t) <==> b.members.contains(t)
}

/// No tab is in two blocks.
pub open spec fn disjoint(blocks: Seq<BlockView>) -> bool {
    forall|i: int, j: int, t: TabId|
        #[trigger] holds(blocks, i, t) && #[trigger] holds(blocks, j, t) ==> i == j
}

pub open spec fn blocks_ok(blocks: Seq<BlockView>) -> bool {
    &&& forall|i: int| 0 <= i < blocks.len() ==> block_ok(#[trigger] blocks[i])
    &&& disjoint(blocks)
}

/// The block without one of its several members, whose pane is taken out of
/// the layout.
pub open spec fn shrunk(b: BlockView, id: TabId) -> BlockView {
    BlockView {
        members: b.members.remove(b.members.index_of(id)),
        layout: b.layout.without(id)->0,
    }
}

/// The blocks once a tab has left its group. A parent stays in front of its
/// former group; any other member moves behind it.
pub open spec fn left(blocks: Seq<BlockView>, id: TabId) -> Seq<BlockView> {
    let i = block_of(blocks, id);
    let b = blocks[i];
    if b.members.len() == 1 {
        blocks
    } else if b.members[0] == id {
        blocks.update(i, shrunk(b, id)).insert(i, single(id))
    } else {
        blocks.update(i, shrunk(b, id)).insert(i + 1, single(id))
    }
}

/// The blocks without one tab.
pub open spec fn closed(blocks: Seq<BlockView>, id: TabId) -> Seq<BlockView> {
    let i = block_of(blocks, id);
    if blocks[i].members.len() == 1 {
        blocks.remove(i)
    } else {
        blocks.update(i, shrunk(blocks[i], id))
    }
}

/// The block once the pane of `at` has been split for a new member.
pub open spec fn grown(b: BlockView, at: TabId, new: TabId, horizontal: bool) -> BlockView {
    BlockView {
        members: b.members.insert(b.members.index_of(at) + 1, new),
        layout: b.layout.after_split(at, new, horizontal),
    }
}

/// The blocks once the pane of `at` has been split for a new tab.
pub open spec fn split_for(
    blocks: Seq<BlockView>,
    at: TabId,
    new: TabId,
    horizontal: bool,
) -> Seq<BlockView> {
    let i = block_of(blocks, at);
    blocks.update(i, grown(blocks[i], at, new, horizontal))
}

/// Blocks that are all right with one tab that none of them holds.
pub proof fn block_of_unique(blocks: Seq<BlockView>, i: int, id: TabId)
    requires
        disjoint(blocks),
        holds(blocks, i, id),
    ensures
        lists(blocks, id),
        block_of(blocks, id) == i,
{
}

pub proof fn single_ok(id: TabId)
    ensures
        block_ok(single(id)),
        forall|t: TabId| #[trigger] single(id).members.contains(t) <==> t == id,
{
    let b = single(id);
    assert(b.members =~= seq![id]);
    assert(b.layout.leaves() =~= seq![id]);
    assert forall|t: TabId| #[trigger] b.members.contains(t) <==> t == id by {
        if t == id {
            assert(b.members[0] == t);
        }
    }
    assert forall|t: TabId| #[trigger] b.layout.leaves().contains(t) <==> b.members.contains(t) by {
        assert(b.layout.leaves() =~= b.members);
    }
}

/// A new block of a new tab fits anywhere.
pub proof fn insert_ok(blocks: Seq<BlockView>, k: int, id: TabId)
    requires
        blocks_ok(blocks),
        0 <= k <= blocks.len(),
        !lists(blocks, id),
    ensures
        blocks_ok(blocks.insert(k, single(id))),
        forall|t: TabId| #[trigger]
            lists(blocks.insert(k, single(id)), t) <==> lists(blocks, t) || t == id,
        holds(blocks.insert(k, single(id)), k, id),
{
    single_ok(id);
    insert_block_ok(blocks, k, single(id));
    let after = blocks.insert(k, single(id));
    assert(after[k] == single(id));
    assert forall|t: TabId| #[trigger] lists(after, t) <==> lists(blocks, t) || t == id by {
        assert(single(id).members.contains(t) <==> t == id);
    }
}

/// A block fits anywhere among blocks that hold none of its members.
pub proof fn insert_block_ok(blocks: Seq<BlockView>, k: int, b: BlockView)
    requires
        blocks_ok(blocks),
        block_ok(b),
        0 <= k <= blocks.len(),
        forall|t: TabId| #[trigger] b.members.contains(t) ==> !lists(blocks, t),
    ensures
        blocks_ok(blocks.insert(k, b)),
        forall|t: TabId| #[trigger]
            lists(blocks.insert(k, b), t) <==> lists(blocks, t) || b.members.contains(t),
{
    let after = blocks.insert(k, b);
    assert forall|i: int| 0 <= i < after.len() implies block_ok(#[trigger] after[i]) by {
        if i < k {
            assert(after[i] == blocks[i]);
        } else if i > k {
            assert(after[i] == blocks[i - 1]);
        }
    }
    assert forall|i: int, t: TabId| #[trigger] holds(after, i, t) implies if i == k {
        b.members.contains(t)
    } else {
        holds(
            blocks,
            if i < k {
                i
            } else {
                i - 1
            },
            t,
        )
    } by {
        if i < k {
            assert(after[i] == blocks[i]);
        } else if i > k {
            assert(after[i] == blocks[i - 1]);
        }
    }
    assert forall|i: int, j: int, t: TabId| #[trigger]
        holds(after, i, t) && #[trigger] holds(after, j, t) implies i == j by {
        if i == k && j != k {
            assert(lists(blocks, t));
        }
        if j == k && i != k {
            assert(lists(blocks, t));
        }
    }
    assert forall|t: TabId| #[trigger]
        lists(after, t) <==> lists(blocks, t) || b.members.contains(t) by {
        if lists(after, t) {
            let i = choose|i: int| #[trigger] holds(after, i, t);
            assert(holds(after, i, t));
        }
        if lists(blocks, t) {
            let i = choose|i: int| #[trigger] holds(blocks, i, t);
            if i < k {
                assert(after[i] == blocks[i]);
                assert(holds(after, i, t));
            } else {
                assert(after[i + 1] == blocks[i]);
                assert(holds(after, i + 1, t));
            }
        }
        if b.members.contains(t) {
            assert(after[k] == b);
            assert(holds(after, k, t));
        }
    }
}

/// Taking a block out.
pub proof fn remove_block_ok(blocks: Seq<BlockView>, k: int)
    requires
        blocks_ok(blocks),
        0 <= k < blocks.len(),
    ensures
        blocks_ok(blocks.remove(k)),
        forall|t: TabId| #[trigger]
            lists(blocks.remove(k), t) <==> lists(blocks, t) && !blocks[k].members.contains(t),
{
    let after = blocks.remove(k);
    assert forall|i: int| 0 <= i < after.len() implies block_ok(#[trigger] after[i]) by {
        if i < k {
            assert(after[i] == blocks[i]);
        } else {
            assert(after[i] == blocks[i + 1]);
        }
    }
    assert forall|i: int, t: TabId| #[trigger] holds(after, i, t) implies holds(
        blocks,
        if i < k {
            i
        } else {
            i + 1
        },
        t,
    ) by {
        if i < k {
            assert(after[i] == blocks[i]);
        } else {
            assert(after[i] == blocks[i + 1]);
        }
    }
    assert forall|i: int, j: int, t: TabId| #[trigger]
        holds(after, i, t) && #[trigger] holds(after, j, t) implies i == j by {}
    assert forall|t: TabId| #[trigger]
        lists(after, t) <==> lists(blocks, t) && !blocks[k].members.contains(t) by {
        if lists(after, t) {
            let i = choose|i: int| #[trigger] holds(after, i, t);
            assert(holds(after, i, t));
            if blocks[k].members.contains(t) {
                assert(holds(blocks, k, t));
            }
        }
        if lists(blocks, t) && !blocks[k].members.contains(t) {
            let i = choose|i: int| #[trigger] holds(blocks, i, t);
            if i < k {
                assert(after[i] == blocks[i]);
                assert(holds(after, i, t));
            } else {
                assert(after[i - 1] == blocks[i]);
                assert(holds(after, i - 1, t));
            }
        }
    }
}

/// Replacing a block by one whose members are new, or were in the same block.
pub proof fn update_block_ok(blocks: Seq<BlockView>, k: int, b: BlockView)
    requires
        blocks_ok(blocks),
        block_ok(b),
        0 <= k < blocks.len(),
        forall|t: TabId| #[trigger]
            b.members.contains(t) ==> blocks[k].members.contains(t) || !lists(blocks, t),
    ensures
        blocks_ok(blocks.update(k, b)),
        forall|t: TabId| #[trigger]
            lists(blocks.update(k, b), t) <==> (lists(blocks, t) && !blocks[k].members.contains(t))
                || b.members.contains(t),
{
    remove_block_ok(blocks, k);
    let rest = blocks.remove(k);
    assert forall|t: TabId| #[trigger] b.members.contains(t) implies !lists(rest, t) by {}
    insert_block_ok(rest, k, b);
    assert(rest.insert(k, b) =~= blocks.update(k, b));
}

/// A block of several members is still all right without one of them.
pub proof fn shrunk_ok(b: BlockView, id: TabId)
    requires
        block_ok(b),
        b.members.contains(id),
        b.members.len() > 1,
    ensures
        block_ok(shrunk(b, id)),
        forall|t: TabId| #[trigger]
            shrunk(b, id).members.contains(t) <==> b.members.contains(t) && t != id,
        b.layout.without(id) is Some,
{
    pane::remove_leaves(b.layout, id);
    assert(b.layout.leaves().contains(id));
    let s = shrunk(b, id);
    removed_contains(b.members, id);
    removed_contains(b.layout.leaves(), id);
    assert(s.layout.leaves() == b.layout.leaves().remove(b.layout.leaves().index_of(id)));
    assert forall|t: TabId| #[trigger] s.layout.leaves().contains(t) <==> s.members.contains(t) by {
        assert(b.layout.leaves().contains(t) <==> b.members.contains(t));
    }
}

pub(crate) proof fn removed_contains(s: Seq<TabId>, id: TabId)
    requires
        s.no_duplicates(),
        s.contains(id),
    ensures
        s.remove(s.index_of(id)).no_duplicates(),
        s.remove(s.index_of(id)).len() == s.len() - 1,
        forall|t: TabId| #[trigger]
            s.remove(s.index_of(id)).contains(t) <==> s.contains(t) && t != id,
{
    let p = s.index_of(id);
    let r = s.remove(p);
    assert forall|i: int, j: int| 0 <= i < r.len() && 0 <= j < r.len() && i != j implies r[i]
        != r[j] by {
        let a = if i < p { i } else { i + 1 };
        let b = if j < p { j } else { j + 1 };
        assert(r[i] == s[a] && r[j] == s[b]);
    }
    assert forall|t: TabId| #[trigger] r.contains(t) <==> s.contains(t) && t != id by {
        if r.contains(t) {
            let i = r.index_of(t);
            let a = if i < p { i } else { i + 1 };
            assert(r[i] == s[a]);
            assert(s[p] == id);
        }
        if s.contains(t) && t != id {
            let i = s.index_of(t);
            if i < p {
                assert(r[i] == t);
            } else {
                assert(r[i - 1] == t);
            }
        }
    }
}

/// A block is still all right with one more member.
pub proof fn grown_ok(b: BlockView, at: TabId, new: TabId, horizontal: bool)
    requires
        block_ok(b),
        b.members.contains(at),
        !b.members.contains(new),
    ensures
        block_ok(grown(b, at, new, horizontal)),
        forall|t: TabId| #[trigger]
            grown(b, at, new, horizontal).members.contains(t) <==> b.members.contains(t) || t
                == new,
{
    assert(b.layout.leaves().contains(at));
    assert(!b.layout.leaves().contains(new));
    pane::split_leaves(b.layout, at, new, horizontal);
    let g = grown(b, at, new, horizontal);
    inserted_contains(b.members, b.members.index_of(at) + 1, new);
    inserted_contains(b.layout.leaves(), b.layout.leaves().index_of(at) + 1, new);
    assert forall|t: TabId| #[trigger] g.layout.leaves().contains(t) <==> g.members.contains(t) by {
        assert(b.layout.leaves().contains(t) <==> b.members.contains(t));
    }
}

pub(crate) proof fn inserted_contains(s: Seq<TabId>, k: int, new: TabId)
    requires
        s.no_duplicates(),
        !s.contains(new),
        0 <= k <= s.len(),
    ensures
        s.insert(k, new).no_duplicates(),
        s.insert(k, new).len() == s.len() + 1,
        forall|t: TabId| #[trigger] s.insert(k, new).contains(t) <==> s.contains(t) || t == new,
{
    let r = s.insert(k, new);
    assert forall|i: int, j: int| 0 <= i < r.len() && 0 <= j < r.len() && i != j implies r[i]
        != r[j] by {
        let a = if i < k { i } else { i - 1 };
        let b = if j < k { j } else { j - 1 };
        if i != k {
            assert(r[i] == s[a]);
        }
        if j != k {
            assert(r[j] == s[b]);
        }
    }
    assert forall|t: TabId| #[trigger] r.contains(t) <==> s.contains(t) || t == new by {
        if r.contains(t) {
            let i = r.index_of(t);
            if i < k {
                assert(s[i] == t);
            } else if i > k {
                assert(s[i - 1] == t);
            }
        }
        if s.contains(t) {
            let i = s.index_of(t);
            if i < k {
                assert(r[i] == t);
            } else {
                assert(r[i + 1] == t);
            }
        }
        if t == new {
            assert(r[k] == t);
        }
    }
}

/// A tab that leaves its group stays in the list, alone.
pub proof fn left_ok(blocks: Seq<BlockView>, id: TabId)
    requires
        blocks_ok(blocks),
        lists(blocks, id),
    ensures
        blocks_ok(left(blocks, id)),
        forall|t: TabId| #[trigger] lists(left(blocks, id), t) <==> lists(blocks, t),
        left(blocks, id)[block_of(left(blocks, id), id)].members.len() == 1,
{
    let i = block_of(blocks, id);
    assert(holds(blocks, i, id));
    let b = blocks[i];
    if b.members.len() > 1 {
        shrunk_ok(b, id);
        update_block_ok(blocks, i, shrunk(b, id));
        let mid = blocks.update(i, shrunk(b, id));
        assert(!lists(mid, id));
        let k = if b.members[0] == id { i } else { i + 1 };
        insert_ok(mid, k, id);
        block_of_unique(mid.insert(k, single(id)), k, id);
        assert(left(blocks, id) == mid.insert(k, single(id)));
        assert forall|t: TabId| #[trigger] lists(left(blocks, id), t) <==> lists(blocks, t) by {
            if b.members.contains(t) {
                assert(holds(blocks, i, t));
            }
        }
    }
}

/// Closing a tab takes it and nothing else out of the list.
pub proof fn closed_ok(blocks: Seq<BlockView>, id: TabId)
    requires
        blocks_ok(blocks),
        lists(blocks, id),
    ensures
        blocks_ok(closed(blocks, id)),
        forall|t: TabId| #[trigger] lists(closed(blocks, id), t) <==> lists(blocks, t) && t != id,
{
    let i = block_of(blocks, id);
    assert(holds(blocks, i, id));
    let b = blocks[i];
    if b.members.len() > 1 {
        shrunk_ok(b, id);
        update_block_ok(blocks, i, shrunk(b, id));
        assert forall|t: TabId| #[trigger] lists(closed(blocks, id), t) <==> lists(blocks, t) && t
            != id by {
            if b.members.contains(t) {
                assert(holds(blocks, i, t));
            }
        }
    } else {
        remove_block_ok(blocks, i);
        assert(b.members =~= seq![id]);
        assert forall|t: TabId| #[trigger] lists(closed(blocks, id), t) <==> lists(blocks, t) && t
            != id by {
            if b.members.contains(t) {
                assert(b.members[0] == t);
            }
        }
    }
}

/// Splitting a pane adds one tab to the group.
pub proof fn split_for_ok(blocks: Seq<BlockView>, at: TabId, new: TabId, horizontal: bool)
    requires
        blocks_ok(blocks),
        lists(blocks, at),
        !lists(blocks, new),
    ensures
        blocks_ok(split_for(blocks, at, new, horizontal)),
        forall|t: TabId| #[trigger]
            lists(split_for(blocks, at, new, horizontal), t) <==> lists(blocks, t) || t == new,
{
    let i = block_of(blocks, at);
    assert(holds(blocks, i, at));
    let b = blocks[i];
    if b.members.contains(new) {
        assert(holds(blocks, i, new));
    }
    grown_ok(b, at, new, horizontal);
    update_block_ok(blocks, i, grown(b, at, new, horizontal));
    assert forall|t: TabId| #[trigger]
        lists(split_for(blocks, at, new, horizontal), t) <==> lists(blocks, t) || t == new by {
        if b.members.contains(t) {
            assert(holds(blocks, i, t));
        }
    }
}

/// The position of a tab among different tabs.
pub fn position_in(members: &Vec<TabId>, id: TabId) -> (r: Option<usize>)
    requires
        members@.no_duplicates(),
    ensures
        r is Some <==> members@.contains(id),
        r matches Some(p) ==> p < members.len() && members@[p as int] == id && members@.index_of(id)
            == p,
{
    let mut i: usize = 0;
    while i < members.len()
        invariant
            i <= members.len(),
            members@.no_duplicates(),
            forall|k: int| 0 <= k < i ==> members@[k] != id,
        decreases members.len() - i,
    {
        if members[i] == id {
            assert(members@.contains(id));
            assert(members@[members@.index_of(id)] == id);
            return Some(i);
        }
        i += 1;
    }
    None
}

impl Block {
    /// A block of one tab.
    pub fn single(id: TabId) -> (r: Block)
        ensures
            r@ == single(id),
    {
        let mut members: Vec<TabId> = Vec::new();
        members.push(id);
        let r = Block { members, layout: Pane::Leaf(id) };
        assert(r@ =~= single(id));
        r
    }

    pub fn copy(&self) -> (r: Block)
        ensures
            r@ == self@,
    {
        let mut members: Vec<TabId> = Vec::new();
        let mut i: usize = 0;
        while i < self.members.len()
            invariant
                i <= self.members.len(),
                members@ =~= self.members@.take(i as int),
            decreases self.members.len() - i,
        {
            members.push(self.members[i]);
            i += 1;
        }
        Block { members, layout: self.layout.copy() }
    }

    /// Takes a member out of a block of several.
    pub fn shrink(self, id: TabId) -> (r: Block)
        requires
            block_ok(self@),
            self@.members.contains(id),
            self@.members.len() > 1,
        ensures
            r@ == shrunk(self@, id),
            block_ok(r@),
    {
        proof {
            shrunk_ok(self@, id);
        }
        let mut members = self.members;
        match position_in(&members, id) {
            Some(p) => {
                let _id = members.remove(p);
            },
            None => {},
        }
        let layout = match self.layout.remove(id) {
            Some(l) => l,
            None => Pane::Leaf(id),
        };
        let r = Block { members, layout };
        assert(r@ =~= shrunk(self@, id));
        r
    }

    /// Splits the pane of `at` for a new member.
    pub fn grow(self, at: TabId, new: TabId, horizontal: bool) -> (r: Block)
        requires
            block_ok(self@),
            self@.members.contains(at),
            !self@.members.contains(new),
        ensures
            r@ == grown(self@, at, new, horizontal),
            block_ok(r@),
    {
        proof {
            grown_ok(self@, at, new, horizontal);
            assert(self@.layout.leaves().contains(at));
            assert(!self@.layout.leaves().contains(new));
        }
        let mut members = self.members;
        match position_in(&members, at) {
            Some(p) => {
                members.insert(p + 1, new);
            },
            None => {},
        }
        let layout = self.layout.split(at, new, horizontal);
        let r = Block { members, layout };
        assert(r@ =~= grown(self@, at, new, horizontal));
        r
    }
}

/// The block that holds a tab.
pub fn find_block(blocks: &Vec<Block>, id: TabId) -> (r: Option<usize>)
    requires
        blocks_ok(views(blocks@)),
    ensures
        r is Some <==> lists(views(blocks@), id),
        r matches Some(i) ==> holds(views(blocks@), i as int, id) && block_of(views(blocks@), id)
            == i && i < blocks.len(),
{
    let ghost v = views(blocks@);
    let mut i: usize = 0;
    while i < blocks.len()
        invariant
            i <= blocks.len(),
            v == views(blocks@),
            blocks_ok(v),
            forall|k: int| 0 <= k < i ==> !(#[trigger] holds(v, k, id)),
        decreases blocks.len() - i,
    {
        assert(block_ok(v[i as int]));
        match position_in(&blocks[i].members, id) {
            Some(_) => {
                assert(holds(v, i as int, id));
                proof {
                    block_of_unique(v, i as int, id);
                }
                return Some(i);
            },
            None => {},
        }
        i += 1;
    }
    None
}

/// Takes a tab out of its group.
pub fn leave_group(blocks: &mut Vec<Block>, id: TabId)
    requires
        blocks_ok(views(old(blocks)@)),
        lists(views(old(blocks)@), id),
    ensures
        views(final(blocks)@) == left(views(old(blocks)@), id),
{
    let ghost v = views(blocks@);
    match find_block(blocks, id) {
        Some(i) => {
            assert(block_ok(v[i as int]));
            if blocks[i].members.len() == 1 {
                return;
            }
            let first = blocks[i].members[0] == id;
            let b = blocks.remove(i);
            let smaller = b.shrink(id);
            let ghost s = smaller@;
            blocks.insert(i, smaller);
            assert(views(blocks@) =~= v.update(i as int, s));
            let ghost mid = views(blocks@);
            if first {
                blocks.insert(i, Block::single(id));
                assert(views(blocks@) =~= mid.insert(i as int, single(id)));
            } else {
                blocks.insert(i + 1, Block::single(id));
                assert(views(blocks@) =~= mid.insert(i + 1, single(id)));
            }
        },
        None => {},
    }
}

/// Takes a tab out of the list.
pub fn close(blocks: &mut Vec<Block>, id: TabId)
    requires
        blocks_ok(views(old(blocks)@)),
        lists(views(old(blocks)@), id),
    ensures
        views(final(blocks)@) == closed(views(old(blocks)@), id),
{
    let ghost v = views(blocks@);
    match find_block(blocks, id) {
        Some(i) => {
            assert(block_ok(v[i as int]));
            let b = blocks.remove(i);
            if b.members.len() == 1 {
                assert(views(blocks@) =~= v.remove(i as int));
                return;
            }
            let smaller = b.shrink(id);
            let ghost s = smaller@;
            blocks.insert(i, smaller);
            assert(views(blocks@) =~= v.update(i as int, s));
        },
        None => {},
    }
}

/// Adds a new tab to the group of another, whose pane is split for it.
pub fn split(blocks: &mut Vec<Block>, at: TabId, new: TabId, horizontal: bool)
    requires
        blocks_ok(views(old(blocks)@)),
        lists(views(old(blocks)@), at),
        !lists(views(old(blocks)@), new),
    ensures
        views(final(blocks)@) == split_for(views(old(blocks)@), at, new, horizontal),
{
    let ghost v = views(blocks@);
    match find_block(blocks, at) {
        Some(i) => {
            assert(block_ok(v[i as int]));
            assert(!v[i as int].members.contains(new)) by {
                if v[i as int].members.contains(new) {
                    assert(holds(v, i as int, new));
                }
            }
            let b = blocks.remove(i);
            let bigger = b.grow(at, new, horizontal);
            let ghost g = bigger@;
            blocks.insert(i, bigger);
            assert(views(blocks@) =~= v.update(i as int, g));
        },
        None => {},
    }
}

/// Puts a new tab into the list, alone.
pub fn insert_single(blocks: &mut Vec<Block>, k: usize, id: TabId)
    requires
        k <= old(blocks).len(),
    ensures
        views(final(blocks)@) == views(old(blocks)@).insert(k as int, single(id)),
{
    blocks.insert(k, Block::single(id));
    assert(views(blocks@) =~= views(old(blocks)@).insert(k as int, single(id)));
}

/// The tabs of the blocks, one block after the other.
pub fn list_tabs(blocks: &Vec<Block>) -> (r: Vec<TabId>)
    ensures
        r@ == listed(views(blocks@)),
{
    let ghost v = views(blocks@);
    let mut r: Vec<TabId> = Vec::new();
    let mut i: usize = 0;
    assert(v.take(0) =~= Seq::<BlockView>::empty());
    while i < blocks.len()
        invariant
            i <= blocks.len(),
            v == views(blocks@),
            r@ == listed(v.take(i as int)),
        decreases blocks.len() - i,
    {
        let members = &blocks[i].members;
        let ghost start = r@;
        let mut j: usize = 0;
        while j < members.len()
            invariant
                j <= members.len(),
                r@ =~= start + members@.take(j as int),
            decreases members.len() - j,
        {
            r.push(members[j]);
            j += 1;
        }
        assert(members@.take(j as int) =~= members@);
        assert(v.take(i + 1).drop_last() =~= v.take(i as int));
        assert(v.take(i + 1).last() == v[i as int]);
        i += 1;
    }
    assert(v.take(i as int) =~= v);
    r
}

/// A tab is listed exactly if some block holds it.
pub proof fn listed_contains(blocks: Seq<BlockView>, id: TabId)
    ensures
        listed(blocks).contains(id) <==> lists(blocks, id),
    decreases blocks.len(),
{
    if blocks.len() == 0 {
        if lists(blocks, id) {
            let i = choose|i: int| #[trigger] holds(blocks, i, id);
            assert(holds(blocks, i, id));
        }
    } else {
        let front = blocks.drop_last();
        listed_contains(front, id);
        pane::concat_contains(listed(front), blocks.last().members, id);
        if lists(blocks, id) {
            let i = choose|i: int| #[trigger] holds(blocks, i, id);
            if i < front.len() {
                assert(front[i] == blocks[i]);
                assert(holds(front, i, id));
            }
        }
        if lists(front, id) {
            let i = choose|i: int| #[trigger] holds(front, i, id);
            assert(front[i] == blocks[i]);
            assert(holds(blocks, i, id));
        }
        if blocks.last().members.contains(id) {
            assert(holds(blocks, blocks.len() - 1, id));
        }
    }
}

/// No tab is listed twice.
pub proof fn listed_distinct(blocks: Seq<BlockView>)
    requires
        blocks_ok(blocks),
    ensures
        listed(blocks).no_duplicates(),
    decreases blocks.len(),
{
    if blocks.len() > 0 {
        let front = blocks.drop_last();
        let last = blocks.len() - 1;
        remove_block_ok(blocks, last);
        assert(blocks.remove(last) =~= front);
        listed_distinct(front);
        assert(block_ok(blocks[last]));
        let a = listed(front);
        let b = blocks.last().members;
        assert forall|i: int, j: int|
            0 <= i < (a + b).len() && 0 <= j < (a + b).len() && i != j implies (a + b)[i] != (a
            + b)[j] by {
            let x = if i < j { i } else { j };
            let y = if i < j { j } else { i };
            if x < a.len() && y >= a.len() {
                assert(a.contains(a[x]));
                listed_contains(front, a[x]);
                if a[x] == b[y - a.len()] {
                    assert(blocks[last].members.contains(a[x]));
                }
            }
        }
    }
}

/// A tab that leaves its group stands right behind what is left of it, or in front of it
/// if it was the first. Where it was alone nothing changes.
pub proof fn leaving_stays_beside(blocks: Seq<BlockView>, i: int, id: TabId)
    requires
        blocks_ok(blocks),
        holds(blocks, i, id),
    ensures
        ({
            let next = left(blocks, id);
            let b = blocks[i];
            if b.members.len() == 1 {
                next == blocks
            } else if b.members[0] == id {
                &&& next[i] == single(id)
                &&& next[i + 1].members == b.members.skip(1)
                &&& next.remove(i) == closed(blocks, id)
            } else {
                &&& next[i + 1] == single(id)
                &&& next[i].members[0] == b.members[0]
                &&& next.remove(i + 1) == closed(blocks, id)
            }
        }),
{
    block_of_unique(blocks, i, id);
    let b = blocks[i];
    let next = left(blocks, id);
    if b.members.len() > 1 {
        let k = b.members.index_of(id);
        assert(b.members[k] == id);
        if b.members[0] == id {
            assert(k == 0) by {
                assert(b.members.no_duplicates());
            }
            assert(b.members.remove(0) =~= b.members.skip(1));
            assert(next.remove(i) =~= closed(blocks, id));
        } else {
            assert(k > 0);
            assert(next.remove(i + 1) =~= closed(blocks, id));
        }
    }
}

/// A tab that is opened beside another one is listed right behind it, in its group.
pub proof fn splits_are_listed_behind(
    blocks: Seq<BlockView>,
    i: int,
    at: TabId,
    new: TabId,
    horizontal: bool,
)
    requires
        blocks_ok(blocks),
        holds(blocks, i, at),
        !lists(blocks, new),
    ensures
        ({
            let group = split_for(blocks, at, new, horizontal)[i].members;
            let k = blocks[i].members.index_of(at);
            &&& group.len() == blocks[i].members.len() + 1
            &&& group[k] == at
            &&& group[k + 1] == new
            &&& group.remove(k + 1) == blocks[i].members
        }),
        forall|j: int|
            0 <= j < blocks.len() && j != i ==> #[trigger] split_for(blocks, at, new, horizontal)[j]
                == blocks[j],
{
    block_of_unique(blocks, i, at);
    let m = blocks[i].members;
    let k = m.index_of(at);
    assert(m[k] == at);
    assert(m.insert(k + 1, new).remove(k + 1) =~= m);
}

} // verus!
