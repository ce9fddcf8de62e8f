//! The order in which tabs are listed, next to the groups that they form.
use vstd::prelude::*;

use crate::blocks::{self, block_of, find_block, listed, lists, position_in, Block, BlockView};
use crate::list;
use crate::pane::TabId;

verus! {

/// Whether tabs are listed that the blocks hold and no others, each of them once.
pub open spec fn order_ok(order: Seq<TabId>, bv: Seq<BlockView>) -> bool {
    &&& order.no_duplicates()
    &&& forall|t: TabId| #[trigger] order.contains(t) <==> lists(bv, t)
}

/// The parent of a tab's group. A lone tab is its own.
pub open spec fn parent_of(bv: Seq<BlockView>, id: TabId) -> TabId {
    bv[block_of(bv, id)].members[0]
}

/// The number of tabs in the group of a tab.
pub open spec fn size_of(bv: Seq<BlockView>, id: TabId) -> nat {
    bv[block_of(bv, id)].members.len()
}

/// Where a tab goes that is to stand behind the group of another one.
pub open spec fn place_behind(order: Seq<TabId>, bv: Seq<BlockView>, id: TabId) -> int {
    order.index_of(parent_of(bv, id)) + size_of(bv, id)
}

/// The tab that is listed right before another.
pub open spec fn before(order: Seq<TabId>, id: TabId) -> Option<TabId> {
    let p = order.index_of(id);
    if p > 0 {
        Some(order[p - 1])
    } else {
        None
    }
}

/// The tab that is listed right after another.
pub open spec fn after(order: Seq<TabId>, id: TabId) -> Option<TabId> {
    let p = order.index_of(id);
    if p + 1 < order.len() {
        Some(order[p + 1])
    } else {
        None
    }
}

/// The order without one tab.
pub open spec fn unlisted(order: Seq<TabId>, id: TabId) -> Seq<TabId> {
    order.remove(order.index_of(id))
}

/// The order once a tab has left its group. A parent stays where it is; any other
/// member moves behind the group.
pub open spec fn left_order(order: Seq<TabId>, bv: Seq<BlockView>, id: TabId) -> Seq<TabId> {
    if parent_of(bv, id) == id {
        order
    } else {
        unlisted(order, id).insert(place_behind(order, bv, id) - 1, id)
    }
}

/// Whether a tab can leave its group: behind a parent stands the member that
/// takes its place, and a child has the end of the group before it.
pub open spec fn can_leave(order: Seq<TabId>, bv: Seq<BlockView>, id: TabId) -> bool {
    let b = bv[block_of(bv, id)];
    if b.members.len() == 1 {
        true
    } else if b.members[0] == id {
        after(order, id) == Some(b.members[1])
    } else {
        order.index_of(id) < place_behind(order, bv, id) <= order.len()
    }
}

/// The order with a new tab right behind another one.
pub open spec fn split_order(order: Seq<TabId>, at: TabId, new: TabId) -> Seq<TabId> {
    order.insert(order.index_of(at) + 1, new)
}

/// The order once `n` tabs from `src` on have been moved to `dest`, one by one.
pub open spec fn moved(order: Seq<TabId>, src: int, dest: int, n: nat) -> Seq<TabId>
    decreases n,
{
    if n == 0 {
        order
    } else {
        let next = order.remove(src).insert(dest, order[src]);
        if src > dest {
            moved(next, src + 1, dest + 1, (n - 1) as nat)
        } else {
            moved(next, src, dest, (n - 1) as nat)
        }
    }
}

/// How many tabs are listed before block `k`.
pub open spec fn offset(bv: Seq<BlockView>, k: int) -> int {
    listed(bv.take(k)).len() as int
}

/// Blocks list what their parts list.
pub proof fn listed_concat(a: Seq<BlockView>, b: Seq<BlockView>)
    ensures
        listed(a + b) == listed(a) + listed(b),
    decreases b.len(),
{
    if b.len() == 0 {
        assert(a + b =~= a);
        assert(listed(a) + listed(b) =~= listed(a));
    } else {
        listed_concat(a, b.drop_last());
        assert((a + b).drop_last() =~= a + b.drop_last());
        assert((a + b).last() == b.last());
        assert(listed(a + b) =~= listed(a) + listed(b));
    }
}

proof fn listed_one(b: BlockView)
    ensures
        listed(seq![b]) == b.members,
{
    let s = seq![b];
    assert(s.drop_last() =~= Seq::<BlockView>::empty());
    assert(s.last() == b);
    assert(listed(s.drop_last()) =~= Seq::<TabId>::empty());
    assert(listed(s) =~= b.members);
}

/// What is listed with one block in the middle.
pub(crate) proof fn listed_around(a: Seq<BlockView>, b: BlockView, c: Seq<BlockView>)
    ensures
        listed(a.push(b) + c) == listed(a) + b.members + listed(c),
{
    listed_concat(a.push(b), c);
    listed_concat(a, seq![b]);
    listed_one(b);
    assert(a + seq![b] =~= a.push(b));
}

proof fn listed_insert(bv: Seq<BlockView>, k: int, b: BlockView)
    requires
        0 <= k <= bv.len(),
    ensures
        listed(bv.insert(k, b)) == listed(bv.take(k)) + b.members + listed(bv.skip(k)),
        listed(bv) == listed(bv.take(k)) + listed(bv.skip(k)),
{
    listed_around(bv.take(k), b, bv.skip(k));
    assert(bv.take(k).push(b) + bv.skip(k) =~= bv.insert(k, b));
    listed_concat(bv.take(k), bv.skip(k));
    assert(bv.take(k) + bv.skip(k) =~= bv);
}

/// What is listed when block `k` is replaced or taken out.
proof fn listed_update(bv: Seq<BlockView>, k: int, b: BlockView)
    requires
        0 <= k < bv.len(),
    ensures
        listed(bv) == listed(bv.take(k)) + bv[k].members + listed(bv.skip(k + 1)),
        listed(bv.update(k, b)) == listed(bv.take(k)) + b.members + listed(bv.skip(k + 1)),
        listed(bv.remove(k)) == listed(bv.take(k)) + listed(bv.skip(k + 1)),
{
    let a = bv.take(k);
    let c = bv.skip(k + 1);
    listed_around(a, bv[k], c);
    listed_around(a, b, c);
    listed_concat(a, c);
    assert(a.push(bv[k]) + c =~= bv);
    assert(a.push(b) + c =~= bv.update(k, b));
    assert(a + c =~= bv.remove(k));
}

/// The next block is listed behind the members of one.
pub proof fn offset_step(bv: Seq<BlockView>, k: int)
    requires
        0 <= k < bv.len(),
    ensures
        offset(bv, k + 1) == offset(bv, k) + bv[k].members.len(),
        offset(bv, k + 1) <= listed(bv).len(),
{
    assert(bv.take(k + 1).drop_last() =~= bv.take(k));
    assert(bv.take(k + 1).last() == bv[k]);
    listed_update(bv, k, bv[k]);
}

/// Where a tab is listed: as far behind the start of its block as in the block.
pub proof fn listed_position(bv: Seq<BlockView>, i: int, p: int)
    requires
        blocks::blocks_ok(bv),
        0 <= i < bv.len(),
        0 <= p < bv[i].members.len(),
    ensures
        listed(bv).index_of(bv[i].members[p]) == offset(bv, i) + p,
        block_of(bv, bv[i].members[p]) == i,
        bv[i].members.index_of(bv[i].members[p]) == p,
        0 <= offset(bv, i),
        offset(bv, i) + bv[i].members.len() <= listed(bv).len(),
{
    let id = bv[i].members[p];
    assert(blocks::block_ok(bv[i]));
    assert(bv[i].members.contains(id));
    assert(blocks::holds(bv, i, id));
    blocks::block_of_unique(bv, i, id);
    listed_update(bv, i, bv[i]);
    blocks::listed_distinct(bv);
    let l = listed(bv);
    assert(l[offset(bv, i) + p] == id);
    assert(l.contains(id));
}

/// Where groups are listed together, the members of a group are listed one after the
/// other, the parent first.
pub proof fn group_is_contiguous(bv: Seq<BlockView>, i: int)
    requires
        0 <= i < bv.len(),
    ensures
        offset(bv, i) + bv[i].members.len() <= listed(bv).len(),
        listed(bv).subrange(offset(bv, i), offset(bv, i) + bv[i].members.len()) == bv[i].members,
{
    listed_update(bv, i, bv[i]);
    assert(listed(bv).subrange(offset(bv, i), offset(bv, i) + bv[i].members.len())
        =~= bv[i].members);
}

/// The order that the blocks have is an order of their tabs.
pub proof fn listed_order_ok(bv: Seq<BlockView>)
    requires
        blocks::blocks_ok(bv),
    ensures
        order_ok(listed(bv), bv),
{
    blocks::listed_distinct(bv);
    assert forall|t: TabId| #[trigger] listed(bv).contains(t) <==> lists(bv, t) by {
        blocks::listed_contains(bv, t);
    }
}

/// Where groups are listed together, a tab can stand behind each of them.
pub proof fn tidy_insert(bv: Seq<BlockView>, at: TabId, new: TabId)
    requires
        blocks::blocks_ok(bv),
        lists(bv, at),
    ensures
        0 <= place_behind(listed(bv), bv, at) <= listed(bv).len(),
        listed(bv.insert(block_of(bv, at) + 1, blocks::single(new))) == listed(bv).insert(
            place_behind(listed(bv), bv, at),
            new,
        ),
{
    let i = block_of(bv, at);
    assert(blocks::holds(bv, i, at));
    assert(blocks::block_ok(bv[i]));
    listed_position(bv, i, 0);
    listed_update(bv, i, bv[i]);
    let k = i + 1;
    listed_insert(bv, k, blocks::single(new));
    listed_around(bv.take(i), bv[i], Seq::empty());
    assert(bv.take(i).push(bv[i]) + Seq::<BlockView>::empty() =~= bv.take(k));
    assert(listed(Seq::<BlockView>::empty()) =~= Seq::<TabId>::empty());
    assert(listed(bv.insert(k, blocks::single(new))) =~= listed(bv).insert(
        place_behind(listed(bv), bv, at),
        new,
    ));
}

/// A new tab at the end or the start of the blocks is listed there.
pub proof fn tidy_insert_at_ends(bv: Seq<BlockView>, new: TabId)
    ensures
        listed(bv.insert(bv.len() as int, blocks::single(new))) == listed(bv).push(new),
        listed(bv.insert(0, blocks::single(new))) == listed(bv).insert(0, new),
{
    listed_insert(bv, bv.len() as int, blocks::single(new));
    listed_insert(bv, 0, blocks::single(new));
    assert(bv.take(bv.len() as int) =~= bv);
    assert(bv.skip(bv.len() as int) =~= Seq::<BlockView>::empty());
    assert(bv.take(0) =~= Seq::<BlockView>::empty());
    assert(bv.skip(0) =~= bv);
    assert(listed(bv.insert(bv.len() as int, blocks::single(new))) =~= listed(bv).push(new));
    assert(listed(bv.insert(0, blocks::single(new))) =~= listed(bv).insert(0, new));
}

/// Where groups are listed together, closing a tab takes it out of the order.
pub proof fn tidy_close(bv: Seq<BlockView>, id: TabId)
    requires
        blocks::blocks_ok(bv),
        lists(bv, id),
    ensures
        listed(blocks::closed(bv, id)) == unlisted(listed(bv), id),
{
    let i = block_of(bv, id);
    assert(blocks::holds(bv, i, id));
    let b = bv[i];
    assert(blocks::block_ok(b));
    let p = b.members.index_of(id);
    assert(b.members[p] == id);
    listed_position(bv, i, p);
    listed_update(bv, i, blocks::shrunk(b, id));
    assert(listed(blocks::closed(bv, id)) =~= unlisted(listed(bv), id));
}

/// Where groups are listed together, every tab can leave its group.
pub proof fn tidy_leave(bv: Seq<BlockView>, id: TabId)
    requires
        blocks::blocks_ok(bv),
        lists(bv, id),
    ensures
        can_leave(listed(bv), bv, id),
        listed(blocks::left(bv, id)) == left_order(listed(bv), bv, id),
{
    let i = block_of(bv, id);
    assert(blocks::holds(bv, i, id));
    let b = bv[i];
    assert(blocks::block_ok(b));
    let p = b.members.index_of(id);
    assert(b.members[p] == id);
    let l = listed(bv);
    listed_position(bv, i, p);
    listed_position(bv, i, 0);
    listed_update(bv, i, blocks::shrunk(b, id));
    if b.members.len() > 1 {
        listed_position(bv, i, 1);
        let s = blocks::shrunk(b, id);
        let mid = bv.update(i, s);
        assert(l[offset(bv, i) + 1] == b.members[1]);
        if b.members[0] == id {
            listed_insert(mid, i, blocks::single(id));
            listed_update(mid, i, s);
            assert(mid.take(i) =~= bv.take(i));
            assert(mid.skip(i + 1) =~= bv.skip(i + 1));
            assert(listed(mid.take(i)) + listed(mid.skip(i)) == listed(mid));
            listed_around(Seq::empty(), s, bv.skip(i + 1));
            assert(Seq::<BlockView>::empty().push(s) + bv.skip(i + 1) =~= mid.skip(i));
            assert(listed(Seq::<BlockView>::empty()) =~= Seq::<TabId>::empty());
            assert(p == 0);
            assert(listed(blocks::left(bv, id)) =~= l);
        } else {
            let k = i + 1;
            listed_insert(mid, k, blocks::single(id));
            listed_around(bv.take(i), s, Seq::empty());
            assert(bv.take(i).push(s) + Seq::<BlockView>::empty() =~= mid.take(k));
            assert(listed(Seq::<BlockView>::empty()) =~= Seq::<TabId>::empty());
            assert(mid.skip(k) =~= bv.skip(k));
            assert(p > 0);
            assert(listed(blocks::left(bv, id)) =~= left_order(l, bv, id));
        }
    }
}

/// Where groups are listed together, a pane that is split adds a tab right behind.
pub proof fn tidy_split(bv: Seq<BlockView>, at: TabId, new: TabId, horizontal: bool)
    requires
        blocks::blocks_ok(bv),
        lists(bv, at),
    ensures
        listed(blocks::split_for(bv, at, new, horizontal)) == split_order(listed(bv), at, new),
{
    let i = block_of(bv, at);
    assert(blocks::holds(bv, i, at));
    let b = bv[i];
    assert(blocks::block_ok(b));
    let p = b.members.index_of(at);
    assert(b.members[p] == at);
    listed_position(bv, i, p);
    listed_update(bv, i, blocks::grown(b, at, new, horizontal));
    assert(listed(blocks::split_for(bv, at, new, horizontal)) =~= split_order(
        listed(bv),
        at,
        new,
    ));
}

/// Moving tabs towards the start.
proof fn moved_up(order: Seq<TabId>, src: int, dest: int, n: nat)
    requires
        0 <= dest < src,
        src + n <= order.len(),
    ensures
        moved(order, src, dest, n) == order.take(dest) + order.subrange(src, src + n)
            + order.subrange(dest, src) + order.skip(src + n),
    decreases n,
{
    let all = order.take(dest) + order.subrange(src, src + n) + order.subrange(dest, src)
        + order.skip(src + n);
    if n == 0 {
        assert(order =~= all);
    } else {
        let next = order.remove(src).insert(dest, order[src]);
        moved_up(next, src + 1, dest + 1, (n - 1) as nat);
        assert(moved(next, src + 1, dest + 1, (n - 1) as nat) =~= all);
    }
}

/// Moving tabs towards the end, past all of them.
proof fn moved_down(order: Seq<TabId>, src: int, dest: int, n: nat)
    requires
        0 <= src <= dest < order.len(),
        src + n <= dest + 1,
    ensures
        moved(order, src, dest, n) == order.take(src) + order.subrange(src + n, dest + 1)
            + order.subrange(src, src + n) + order.skip(dest + 1),
    decreases n,
{
    let all = order.take(src) + order.subrange(src + n, dest + 1) + order.subrange(src, src + n)
        + order.skip(dest + 1);
    if n == 0 {
        assert(order =~= all);
    } else {
        let next = order.remove(src).insert(dest, order[src]);
        moved_down(next, src, dest, (n - 1) as nat);
        assert(moved(next, src, dest, (n - 1) as nat) =~= all);
    }
}

/// Moving tabs to where they are.
proof fn moved_nowhere(order: Seq<TabId>, src: int, n: nat)
    requires
        0 <= src < order.len(),
    ensures
        moved(order, src, src, n) == order,
    decreases n,
{
    if n > 0 {
        assert(order.remove(src).insert(src, order[src]) =~= order);
        moved_nowhere(order, src, (n - 1) as nat);
    }
}

/// Where the first of the tabs goes that are dragged to before or after `dest`.
pub open spec fn drop_place(
    order: Seq<TabId>,
    bv: Seq<BlockView>,
    dest: TabId,
    after: bool,
) -> int {
    order.index_of(parent_of(bv, dest)) + if after || parent_of(bv, dest) != dest {
        size_of(bv, dest) as int
    } else {
        0
    }
}

/// How many tabs are dragged: a parent takes along as many as its group has.
pub open spec fn dragged(bv: Seq<BlockView>, source: TabId) -> nat {
    if parent_of(bv, source) == source {
        size_of(bv, source)
    } else {
        1
    }
}

/// Where dragged tabs are in the end. `to` is where they go, while they are still
/// at `src`.
pub open spec fn past_itself(src: int, to: int) -> int {
    if src < to {
        to - 1
    } else {
        to
    }
}

/// The order once `source` has been dragged to before or after `dest`, which is not
/// in the same group. A child leaves its group first.
pub open spec fn dragged_order(
    order: Seq<TabId>,
    bv: Seq<BlockView>,
    source: TabId,
    dest: TabId,
    after: bool,
) -> Seq<TabId> {
    let now = left_order(order, bv, source);
    let src = now.index_of(source);
    moved(now, src, past_itself(src, drop_place(order, bv, dest, after)), dragged(bv, source))
}

/// Whether `source` can be dragged there: a child can leave its group, there are as
/// many tabs as are to move, and the place is in the list.
pub open spec fn can_drag(
    order: Seq<TabId>,
    bv: Seq<BlockView>,
    source: TabId,
    dest: TabId,
    after: bool,
) -> bool {
    let src = left_order(order, bv, source).index_of(source);
    &&& parent_of(bv, source) != source ==> can_leave(order, bv, source)
    &&& src + dragged(bv, source) <= order.len()
    &&& past_itself(src, drop_place(order, bv, dest, after)) < order.len()
}

proof fn pieces_down(a: Seq<TabId>, x: Seq<TabId>, m: Seq<TabId>, c: Seq<TabId>)
    requires
        x.len() > 0,
    ensures
        moved(a + x + m + c, a.len() as int, a.len() + x.len() + m.len() - 1, x.len()) == a + m + x
            + c,
{
    let l = a + x + m + c;
    moved_down(l, a.len() as int, a.len() + x.len() + m.len() - 1, x.len());
    assert(l.take(a.len() as int) =~= a);
    assert(l.subrange(a.len() as int, (a.len() + x.len()) as int) =~= x);
    assert(l.subrange((a.len() + x.len()) as int, (a.len() + x.len() + m.len()) as int) =~= m);
    assert(l.skip((a.len() + x.len() + m.len()) as int) =~= c);
}

proof fn pieces_up(a: Seq<TabId>, m: Seq<TabId>, x: Seq<TabId>, c: Seq<TabId>)
    requires
        x.len() > 0,
    ensures
        moved(a + m + x + c, (a.len() + m.len()) as int, a.len() as int, x.len()) == a + x + m + c,
{
    let l = a + m + x + c;
    let src = (a.len() + m.len()) as int;
    if m.len() == 0 {
        moved_nowhere(l, src, x.len());
        assert(l =~= a + x + m + c);
    } else {
        moved_up(l, src, a.len() as int, x.len());
        assert(l.take(a.len() as int) =~= a);
        assert(l.subrange(src, (src + x.len()) as int) =~= x);
        assert(l.subrange(a.len() as int, src) =~= m);
        assert(l.skip((src + x.len()) as int) =~= c);
    }
}

/// What is listed with two blocks in the middle.
proof fn listed_pieces(
    a: Seq<BlockView>,
    x: BlockView,
    m: Seq<BlockView>,
    y: BlockView,
    c: Seq<BlockView>,
)
    ensures
        listed(a.push(x) + m.push(y) + c) == listed(a) + x.members + listed(m) + y.members + listed(
            c,
        ),
{
    listed_around(a, x, m.push(y));
    listed_around(m, y, Seq::empty());
    assert(listed(Seq::<BlockView>::empty()) =~= Seq::<TabId>::empty());
    assert(m.push(y) + Seq::<BlockView>::empty() =~= m.push(y));
    listed_concat(a.push(x) + m.push(y), c);
    assert(listed(a.push(x) + m.push(y) + c) =~= listed(a) + x.members + listed(m) + y.members
        + listed(c));
}

/// What is listed around blocks `x` and `y`, and where their tabs are.
proof fn listed_parts(bv: Seq<BlockView>, x: int, y: int)
    requires
        0 <= x < y < bv.len(),
    ensures
        ({
            let a = listed(bv.take(x));
            let m = listed(bv.subrange(x + 1, y));
            let c = listed(bv.skip(y + 1));
            &&& listed(bv) == a + bv[x].members + m + bv[y].members + c
            &&& offset(bv, x) == a.len()
            &&& offset(bv, y) == a.len() + bv[x].members.len() + m.len()
        }),
{
    let a = bv.take(x);
    let m = bv.subrange(x + 1, y);
    let c = bv.skip(y + 1);
    listed_pieces(a, bv[x], m, bv[y], c);
    assert(a.push(bv[x]) + m.push(bv[y]) + c =~= bv);
    listed_around(a, bv[x], m);
    assert(a.push(bv[x]) + m =~= bv.take(y));
}

spec fn tidily_moved(bv: Seq<BlockView>, s: int, d: int, behind: bool) -> bool {
    let src = offset(bv, s);
    let n = bv[s].members.len();
    let to = offset(bv, d) + if behind {
        bv[d].members.len() as int
    } else {
        0
    };
    &&& src + n <= listed(bv).len()
    &&& past_itself(src, to) < listed(bv).len()
    &&& listed(list::block_moved(bv, s, d, behind)) == moved(
        listed(bv),
        src,
        past_itself(src, to),
        n,
    )
}

proof fn tidy_move_down(bv: Seq<BlockView>, s: int, d: int, behind: bool)
    requires
        0 <= s < d < bv.len(),
        bv[s].members.len() > 0,
    ensures
        tidily_moved(bv, s, d, behind),
{
    let a = bv.take(s);
    let m = bv.subrange(s + 1, d);
    let c = bv.skip(d + 1);
    let e = Seq::<BlockView>::empty();
    let (la, lm, lc) = (listed(a), listed(m), listed(c));
    let (ms, md) = (bv[s].members, bv[d].members);
    let after = list::block_moved(bv, s, d, behind);
    listed_parts(bv, s, d);
    assert(listed(e) =~= Seq::<TabId>::empty());
    if behind {
        assert(listed(after) == la + (lm + md) + ms + lc) by {
            listed_concat(a, m);
            listed_pieces(a + m, bv[d], e, bv[s], c);
            assert((a + m).push(bv[d]) + e.push(bv[s]) + c =~= after);
            assert(la + lm + md + listed(e) + ms + lc =~= la + (lm + md) + ms + lc);
        }
        pieces_down(la, ms, lm + md, lc);
        assert(la + ms + lm + md + lc =~= la + ms + (lm + md) + lc);
    } else {
        assert(listed(after) == la + lm + ms + (md + lc)) by {
            listed_concat(a, m);
            listed_pieces(a + m, bv[s], e, bv[d], c);
            assert((a + m).push(bv[s]) + e.push(bv[d]) + c =~= after);
            assert(la + lm + ms + listed(e) + md + lc =~= la + lm + ms + (md + lc));
        }
        pieces_down(la, ms, lm, md + lc);
        assert(la + ms + lm + md + lc =~= la + ms + lm + (md + lc));
    }
}

proof fn tidy_move_up(bv: Seq<BlockView>, s: int, d: int, behind: bool)
    requires
        0 <= d < s < bv.len(),
        bv[s].members.len() > 0,
    ensures
        tidily_moved(bv, s, d, behind),
{
    let a = bv.take(d);
    let m = bv.subrange(d + 1, s);
    let c = bv.skip(s + 1);
    let e = Seq::<BlockView>::empty();
    let (la, lm, lc) = (listed(a), listed(m), listed(c));
    let (ms, md) = (bv[s].members, bv[d].members);
    let after = list::block_moved(bv, s, d, behind);
    listed_parts(bv, d, s);
    assert(listed(e) =~= Seq::<TabId>::empty());
    if behind {
        assert(listed(after) == (la + md) + ms + lm + lc) by {
            listed_concat(m, c);
            listed_pieces(a, bv[d], e, bv[s], m + c);
            assert(a.push(bv[d]) + e.push(bv[s]) + (m + c) =~= after);
            assert(la + md + listed(e) + ms + (lm + lc) =~= (la + md) + ms + lm + lc);
        }
        pieces_up(la + md, lm, ms, lc);
    } else {
        assert(listed(after) == la + ms + (md + lm) + lc) by {
            listed_concat(m, c);
            listed_pieces(a, bv[s], e, bv[d], m + c);
            assert(a.push(bv[s]) + e.push(bv[d]) + (m + c) =~= after);
            assert(la + ms + listed(e) + md + (lm + lc) =~= la + ms + (md + lm) + lc);
        }
        pieces_up(la, md + lm, ms, lc);
        assert(la + md + lm + ms + lc =~= la + (md + lm) + ms + lc);
    }
}

/// A tab that leaves its group changes nothing for the tabs of other groups.
proof fn others_stay(bv: Seq<BlockView>, id: TabId, other: TabId)
    requires
        blocks::blocks_ok(bv),
        lists(bv, id),
        lists(bv, other),
        block_of(bv, id) != block_of(bv, other),
    ensures
        ({
            let w = blocks::left(bv, id);
            &&& w[block_of(w, other)] == bv[block_of(bv, other)]
            &&& listed(w).index_of(parent_of(bv, other)) == listed(bv).index_of(
                parent_of(bv, other),
            )
        }),
{
    let i = block_of(bv, id);
    let j = block_of(bv, other);
    assert(blocks::holds(bv, i, id) && blocks::holds(bv, j, other));
    let b = bv[i];
    assert(blocks::block_ok(b) && blocks::block_ok(bv[j]));
    if b.members.len() > 1 {
        let w = blocks::left(bv, id);
        blocks::left_ok(bv, id);
        let k = if b.members[0] == id { i } else { i + 1 };
        let at = if j < k { j } else { j + 1 };
        assert(w[at] == bv[j]);
        assert(blocks::holds(w, at, other));
        blocks::block_of_unique(w, at, other);
        tidy_leave(bv, id);
        let p = b.members.index_of(id);
        assert(b.members[p] == id);
        listed_position(bv, i, p);
        listed_position(bv, i, 0);
        listed_position(bv, j, 0);
        let x = parent_of(bv, other);
        let q = offset(bv, j);
        let l = listed(bv);
        assert(q < offset(bv, i) || q >= offset(bv, i) + b.members.len()) by {
            if offset(bv, i) <= q < offset(bv, i) + b.members.len() {
                let r = q - offset(bv, i);
                listed_position(bv, i, r);
                assert(l.contains(b.members[r])) by {
                    blocks::listed_contains(bv, b.members[r]);
                    assert(blocks::holds(bv, i, b.members[r]));
                }
                assert(l.contains(x)) by {
                    blocks::listed_contains(bv, x);
                    assert(blocks::holds(bv, j, x));
                }
                assert(l[q] == x && l[q] == b.members[r]);
                assert(blocks::holds(bv, i, x) && blocks::holds(bv, j, x));
            }
        }
        assert(l.contains(x)) by {
            blocks::listed_contains(bv, x);
            assert(blocks::holds(bv, j, x));
        }
        assert(l[q] == x);
        blocks::listed_distinct(w);
        assert(listed(w)[q] == x);
        assert(listed(w).contains(x));
    }
}

/// Where groups are listed together, every tab can be dragged, and they still are.
pub proof fn tidy_drag(bv: Seq<BlockView>, source: TabId, dest: TabId, after: bool)
    requires
        blocks::blocks_ok(bv),
        list::reorder_applies(bv, source, dest),
    ensures
        can_drag(listed(bv), bv, source, dest, after),
        listed(list::reordered(bv, source, dest, after)) == dragged_order(
            listed(bv),
            bv,
            source,
            dest,
            after,
        ),
{
    let s = block_of(bv, source);
    let d = block_of(bv, dest);
    assert(blocks::holds(bv, s, source) && blocks::holds(bv, d, dest));
    assert(blocks::block_ok(bv[s]) && blocks::block_ok(bv[d]));
    if bv[s].members.len() == 1 {
        assert(bv[s].members[0] == source);
    }
    if bv[d].members.len() == 1 {
        assert(bv[d].members[0] == dest);
    }
    let behind = after || list::is_child(bv, dest);
    let w = if list::is_child(bv, source) {
        blocks::left(bv, source)
    } else {
        bv
    };
    tidy_leave(bv, source);
    blocks::left_ok(bv, source);
    listed_order_ok(bv);
    left_order_ok(listed(bv), bv, source, blocks::left(bv, source));
    if list::is_child(bv, source) {
        blocks::left_ok(bv, source);
        others_stay(bv, source, dest);
    }
    assert(lists(w, source) && lists(w, dest));
    let ws = block_of(w, source);
    let wd = block_of(w, dest);
    assert(blocks::holds(w, ws, source) && blocks::holds(w, wd, dest));
    assert(blocks::block_ok(w[ws]));
    assert(w[ws].members[0] == source) by {
        if list::is_child(bv, source) {
            assert(w[ws].members.len() == 1);
        }
    }
    assert(ws != wd) by {
        if ws == wd && list::is_child(bv, source) {
            assert(w[ws].members.len() == 1);
            assert(w[ws].members[0] == source && w[ws].members[0] == dest);
            assert(blocks::holds(bv, s, dest));
        }
    }
    listed_position(w, ws, 0);
    listed_position(w, wd, 0);
    listed_position(bv, d, 0);
    if ws < wd {
        tidy_move_down(w, ws, wd, behind);
    } else {
        tidy_move_up(w, ws, wd, behind);
    }
}

proof fn insert_keeps_order(order: Seq<TabId>, k: int, new: TabId)
    requires
        order.no_duplicates(),
        !order.contains(new),
        0 <= k <= order.len(),
    ensures
        order.insert(k, new).no_duplicates(),
        forall|t: TabId| #[trigger]
            order.insert(k, new).contains(t) <==> order.contains(t) || t == new,
{
    blocks::inserted_contains(order, k, new);
}

/// A new tab has its place in an order of tabs.
pub proof fn insert_order_ok(
    order: Seq<TabId>,
    bv: Seq<BlockView>,
    k: int,
    new: TabId,
    next: Seq<BlockView>,
)
    requires
        order_ok(order, bv),
        0 <= k <= order.len(),
        !lists(bv, new),
        forall|t: TabId| #[trigger] lists(next, t) <==> lists(bv, t) || t == new,
    ensures
        order_ok(order.insert(k, new), next),
{
    assert(!order.contains(new));
    insert_keeps_order(order, k, new);
}

/// A tab that is gone has none.
pub proof fn remove_order_ok(
    order: Seq<TabId>,
    bv: Seq<BlockView>,
    id: TabId,
    next: Seq<BlockView>,
)
    requires
        order_ok(order, bv),
        lists(bv, id),
        forall|t: TabId| #[trigger] lists(next, t) <==> lists(bv, t) && t != id,
    ensures
        order_ok(unlisted(order, id), next),
        0 <= order.index_of(id) < order.len(),
        unlisted(order, id).len() == order.len() - 1,
{
    assert(order.contains(id));
    blocks::removed_contains(order, id);
}

/// A tab that leaves its group stays in the order.
pub proof fn left_order_ok(
    order: Seq<TabId>,
    bv: Seq<BlockView>,
    id: TabId,
    next: Seq<BlockView>,
)
    requires
        blocks::blocks_ok(bv),
        order_ok(order, bv),
        lists(bv, id),
        can_leave(order, bv, id),
        forall|t: TabId| #[trigger] lists(next, t) <==> lists(bv, t),
    ensures
        order_ok(left_order(order, bv, id), next),
        left_order(order, bv, id).len() == order.len(),
        parent_of(bv, id) != id ==> size_of(bv, id) > 1 && 0 < place_behind(order, bv, id)
            <= order.len(),
{
    let i = block_of(bv, id);
    assert(blocks::holds(bv, i, id));
    assert(blocks::block_ok(bv[i]));
    let b = bv[i];
    assert(order.contains(id));
    if b.members.len() == 1 {
        assert(b.members[0] == id);
    }
    if parent_of(bv, id) != id {
        blocks::removed_contains(order, id);
        assert(b.members.contains(b.members[0]));
        assert(blocks::holds(bv, i, b.members[0]));
        assert(lists(bv, b.members[0]));
        assert(order.contains(b.members[0]));
        insert_keeps_order(unlisted(order, id), place_behind(order, bv, id) - 1, id);
    }
}

/// Moving tabs keeps all of them in the order.
pub proof fn moved_order_ok(
    order: Seq<TabId>,
    bv: Seq<BlockView>,
    src: int,
    dest: int,
    n: nat,
)
    requires
        order_ok(order, bv),
        0 <= src,
        src + n <= order.len(),
        0 <= dest < order.len(),
    ensures
        order_ok(moved(order, src, dest, n), bv),
        moved(order, src, dest, n).len() == order.len(),
    decreases n,
{
    if n > 0 {
        let id = order[src];
        assert(order.contains(id));
        assert(order.index_of(id) == src);
        blocks::removed_contains(order, id);
        let next = order.remove(src).insert(dest, id);
        insert_keeps_order(order.remove(src), dest, id);
        assert(order_ok(next, bv));
        if src > dest {
            moved_order_ok(next, bv, src + 1, dest + 1, (n - 1) as nat);
        } else {
            moved_order_ok(next, bv, src, dest, (n - 1) as nat);
        }
    }
}

/// Where a tab is listed.
pub fn place_of(order: &Vec<TabId>, id: TabId) -> (r: usize)
    requires
        order@.no_duplicates(),
        order@.contains(id),
    ensures
        r < order.len(),
        r == order@.index_of(id),
        order@[r as int] == id,
{
    match position_in(order, id) {
        Some(p) => p,
        None => 0,
    }
}

/// The tab that is listed right before another.
pub fn tab_before(order: &Vec<TabId>, id: TabId) -> (r: Option<TabId>)
    requires
        order@.no_duplicates(),
        order@.contains(id),
    ensures
        r == before(order@, id),
        r matches Some(t) ==> order@.contains(t) && t != id,
{
    let p = place_of(order, id);
    if p > 0 {
        assert(order@.contains(order@[p - 1]));
        Some(order[p - 1])
    } else {
        None
    }
}

/// The tab that is listed right after another.
pub fn tab_after(order: &Vec<TabId>, id: TabId) -> (r: Option<TabId>)
    requires
        order@.no_duplicates(),
        order@.contains(id),
    ensures
        r == after(order@, id),
        r matches Some(t) ==> order@.contains(t) && t != id,
{
    let p = place_of(order, id);
    if p + 1 < order.len() {
        assert(order@.contains(order@[p + 1]));
        Some(order[p + 1])
    } else {
        None
    }
}

/// Takes a tab out of the order.
pub fn unlist(order: &mut Vec<TabId>, id: TabId)
    requires
        old(order)@.no_duplicates(),
        old(order)@.contains(id),
    ensures
        final(order)@ == unlisted(old(order)@, id),
{
    let p = place_of(order, id);
    let _id = order.remove(p);
}

/// A listed tab's group and its parent.
pub proof fn parent_is_listed(order: Seq<TabId>, bv: Seq<BlockView>, id: TabId)
    requires
        blocks::blocks_ok(bv),
        order_ok(order, bv),
        lists(bv, id),
    ensures
        lists(bv, parent_of(bv, id)),
        order.contains(parent_of(bv, id)),
        0 <= block_of(bv, id) < bv.len(),
        size_of(bv, id) > 0,
{
    let i = block_of(bv, id);
    assert(blocks::holds(bv, i, id));
    assert(blocks::block_ok(bv[i]));
    assert(bv[i].members.contains(bv[i].members[0]));
    assert(blocks::holds(bv, i, bv[i].members[0]));
}

/// Where a tab goes that is to stand behind the group of another one.
pub fn find_place_behind(order: &Vec<TabId>, blocks: &Vec<Block>, id: TabId) -> (r: usize)
    requires
        blocks::blocks_ok(blocks::views(blocks@)),
        order_ok(order@, blocks::views(blocks@)),
        lists(blocks::views(blocks@), id),
        place_behind(order@, blocks::views(blocks@), id) <= order@.len(),
    ensures
        r == place_behind(order@, blocks::views(blocks@), id),
{
    proof {
        parent_is_listed(order@, blocks::views(blocks@), id);
    }
    match find_block(blocks, id) {
        Some(i) => {
            let p = place_of(order, blocks[i].members[0]);
            p + blocks[i].members.len()
        },
        None => 0,
    }
}

/// Moves a tab that leaves its group behind it.
pub fn leave(order: &mut Vec<TabId>, blocks: &Vec<Block>, id: TabId)
    requires
        blocks::blocks_ok(blocks::views(blocks@)),
        order_ok(old(order)@, blocks::views(blocks@)),
        lists(blocks::views(blocks@), id),
        can_leave(old(order)@, blocks::views(blocks@), id),
    ensures
        final(order)@ == left_order(old(order)@, blocks::views(blocks@), id),
{
    let ghost bv = blocks::views(blocks@);
    proof {
        parent_is_listed(order@, bv, id);
        left_order_ok(order@, bv, id, bv);
        assert(order@.contains(id));
        blocks::removed_contains(order@, id);
    }
    match find_block(blocks, id) {
        Some(i) => {
            if blocks[i].members[0] == id {
                return;
            }
            let dest: usize = find_place_behind(order, blocks, id) - 1;
            unlist(order, id);
            order.insert(dest, id);
        },
        None => {},
    }
}

/// Where the first of the tabs goes that are dragged to before or after `dest`.
pub fn find_drop_place(order: &Vec<TabId>, blocks: &Vec<Block>, dest: TabId, after: bool) -> (r:
    usize)
    requires
        blocks::blocks_ok(blocks::views(blocks@)),
        order_ok(order@, blocks::views(blocks@)),
        lists(blocks::views(blocks@), dest),
        drop_place(order@, blocks::views(blocks@), dest, after) <= order@.len(),
    ensures
        r == drop_place(order@, blocks::views(blocks@), dest, after),
{
    proof {
        parent_is_listed(order@, blocks::views(blocks@), dest);
    }
    match find_block(blocks, dest) {
        Some(i) => {
            let parent = blocks[i].members[0];
            let p = place_of(order, parent);
            if after || parent != dest {
                p + blocks[i].members.len()
            } else {
                p
            }
        },
        None => 0,
    }
}

/// Whether `source` can be dragged to before or after `dest`.
pub fn is_free_to_drag(
    order: &Vec<TabId>,
    blocks: &Vec<Block>,
    source: TabId,
    dest: TabId,
    after: bool,
) -> (r: bool)
    requires
        blocks::blocks_ok(blocks::views(blocks@)),
        order_ok(order@, blocks::views(blocks@)),
        lists(blocks::views(blocks@), source),
        lists(blocks::views(blocks@), dest),
    ensures
        r == can_drag(order@, blocks::views(blocks@), source, dest, after),
{
    let ghost bv = blocks::views(blocks@);
    proof {
        parent_is_listed(order@, bv, source);
        parent_is_listed(order@, bv, dest);
    }
    let (s, d): (usize, usize) = match (find_block(blocks, source), find_block(blocks, dest)) {
        (Some(s), Some(d)) => (s, d),
        _ => {
            return false;
        },
    };
    let mut src = place_of(order, source);
    let mut count: usize = blocks[s].members.len();
    if blocks[s].members[0] != source {
        if !is_free_to_leave(order, blocks, source) {
            return false;
        }
        proof {
            left_order_ok(order@, bv, source, bv);
        }
        src = find_place_behind(order, blocks, source) - 1;
        count = 1;
        proof {
            let now = left_order(order@, bv, source);
            assert(now[src as int] == source);
            assert(now.contains(source));
            assert(src == now.index_of(source));
        }
    }
    if count > order.len() - src {
        return false;
    }
    let parent = blocks[d].members[0];
    let p = place_of(order, parent);
    let size: usize = blocks[d].members.len();
    if after || parent != dest {
        size <= order.len() - p && (src < p + size || p + size < order.len())
    } else {
        true
    }
}

/// Whether a tab can leave its group.
pub fn is_free_to_leave(order: &Vec<TabId>, blocks: &Vec<Block>, id: TabId) -> (r: bool)
    requires
        blocks::blocks_ok(blocks::views(blocks@)),
        order_ok(order@, blocks::views(blocks@)),
        lists(blocks::views(blocks@), id),
    ensures
        r == can_leave(order@, blocks::views(blocks@), id),
{
    let ghost bv = blocks::views(blocks@);
    proof {
        parent_is_listed(order@, bv, id);
    }
    match find_block(blocks, id) {
        Some(i) => {
            let n: usize = blocks[i].members.len();
            if n == 1 {
                return true;
            }
            let parent = blocks[i].members[0];
            if parent == id {
                match tab_after(order, id) {
                    Some(t) => t == blocks[i].members[1],
                    None => false,
                }
            } else {
                let p = place_of(order, id);
                let q = place_of(order, parent);
                n <= order.len() - q && p < q + n
            }
        },
        None => true,
    }
}

/// Moves `n` tabs from `src` on to `dest`, one by one.
pub fn move_tabs(order: &mut Vec<TabId>, src: usize, dest: usize, n: usize)
    requires
        src + n <= old(order).len(),
        dest < old(order).len(),
    ensures
        final(order)@ == moved(old(order)@, src as int, dest as int, n as nat),
{
    let mut src = src;
    let mut dest = dest;
    let mut left: usize = n;
    let ghost whole = order@;
    let ghost from = src;
    let ghost to = dest;
    while left > 0
        invariant
            left <= n,
            src + left <= order.len(),
            dest < order.len(),
            moved(whole, from as int, to as int, n as nat) == moved(
                order@,
                src as int,
                dest as int,
                left as nat,
            ),
        decreases left,
    {
        let id = order.remove(src);
        order.insert(dest, id);
        if src > dest {
            src += 1;
            dest += 1;
        }
        left -= 1;
    }
}

} // verus!
