//! Saved sessions: the open directories and the layout of tab groups.
use ahash::AHashMap;
use vstd::prelude::*;

use crate::collections::{self, get_number};
use crate::pane::{self, Pane, TabId};
use crate::path::{self, FilePath};
use crate::text::{self, join_bytes, split_bytes};

verus! {

/// One side of a saved split. Tabs are numbered in the order they are shown.
pub enum SplitChild {
    Split(Box<SavedSplit>),
    Tab(u32),
}

pub struct SavedSplit {
    pub horizontal: bool,
    pub start: SplitChild,
    pub end: SplitChild,
}

pub struct SavedGroup {
    pub parent: u32,
    pub split: SavedSplit,
}

pub struct Session {
    pub paths: Vec<FilePath>,
    pub groups: Vec<SavedGroup>,
}

impl SplitChild {
    pub open spec fn spec_first(self) -> u32
        decreases self,
    {
        match self {
            SplitChild::Split(s) => s.start.spec_first(),
            SplitChild::Tab(n) => n,
        }
    }

    /// The number of the first tab on this side.
    pub fn first_child(&self) -> (r: u32)
        ensures
            r == self.spec_first(),
        decreases self,
    {
        match self {
            SplitChild::Split(s) => s.start.first_child(),
            SplitChild::Tab(n) => *n,
        }
    }

    /// The numbers of all tabs on this side, in order.
    pub open spec fn tabs(self) -> Seq<u32>
        decreases self,
    {
        match self {
            SplitChild::Split(s) => s.start.tabs() + s.end.tabs(),
            SplitChild::Tab(n) => seq![n],
        }
    }

    /// The layout that this side describes, for tabs with the given ids.
    pub open spec fn layout(self, ids: Seq<TabId>) -> Pane
        decreases self,
    {
        match self {
            SplitChild::Split(s) => Pane::Split {
                horizontal: s.horizontal,
                start: Box::new(s.start.layout(ids)),
                end: Box::new(s.end.layout(ids)),
            },
            SplitChild::Tab(n) => Pane::Leaf(ids[n as int]),
        }
    }
}

impl SavedSplit {
    pub open spec fn tabs(self) -> Seq<u32> {
        self.start.tabs() + self.end.tabs()
    }

    pub open spec fn layout(self, ids: Seq<TabId>) -> Pane {
        Pane::Split {
            horizontal: self.horizontal,
            start: Box::new(self.start.layout(ids)),
            end: Box::new(self.end.layout(ids)),
        }
    }
}

/// How a layout is saved, when tabs have the given numbers.
pub open spec fn saved(p: Pane, numbers: Map<u64, u32>) -> SplitChild
    decreases p,
{
    match p {
        Pane::Leaf(t) => SplitChild::Tab(numbers[t.0]),
        Pane::Split { horizontal, start, end } => SplitChild::Split(
            Box::new(
                SavedSplit { horizontal, start: saved(*start, numbers), end: saved(*end, numbers) },
            ),
        ),
    }
}

/// Whether every tab of a layout has a number.
pub open spec fn all_numbered(p: Pane, numbers: Map<u64, u32>) -> bool {
    forall|t: TabId| #[trigger] p.leaves().contains(t) ==> numbers.dom().contains(t.0)
}

/// The form in which a layout is saved.
pub fn save_tree(p: &Pane, ids: &AHashMap<u64, u32>) -> (r: SplitChild)
    requires
        all_numbered(*p, collections::numbers(*ids)),
    ensures
        r == saved(*p, collections::numbers(*ids)),
    decreases p,
{
    match p {
        Pane::Leaf(t) => {
            assert(p.leaves()[0] == *t);
            assert(p.leaves().contains(*t));
            match get_number(ids, t.0) {
                Some(n) => SplitChild::Tab(n),
                None => SplitChild::Tab(0),
            }
        },
        Pane::Split { horizontal, start, end } => {
            proof {
                assert forall|t: TabId|
                    start.leaves().contains(t) || end.leaves().contains(
                        t,
                    ) implies collections::numbers(*ids).dom().contains(t.0) by {
                    pane::concat_contains(start.leaves(), end.leaves(), t);
                    assert(p.leaves().contains(t));
                }
            }
            let s = save_tree(start, ids);
            let e = save_tree(end, ids);
            SplitChild::Split(Box::new(SavedSplit { horizontal: *horizontal, start: s, end: e }))
        },
    }
}

/// Saving a layout and reading it back gives the same layout, when each tab's
/// number is its position among the ids.
pub proof fn save_then_layout(p: Pane, numbers: Map<u64, u32>, ids: Seq<TabId>)
    requires
        forall|t: TabId| #[trigger]
            p.leaves().contains(t) ==> numbers.dom().contains(t.0) && numbers[t.0] < ids.len()
                && ids[numbers[t.0] as int] == t,
    ensures
        saved(p, numbers).layout(ids) == p,
    decreases p,
{
    match p {
        Pane::Leaf(t) => {
            assert(p.leaves()[0] == t);
            assert(p.leaves().contains(t));
        },
        Pane::Split { start, end, .. } => {
            assert forall|t: TabId| #[trigger] start.leaves().contains(t) implies numbers.dom().contains(
                t.0,
            ) && numbers[t.0] < ids.len() && ids[numbers[t.0] as int] == t by {
                pane::concat_contains(start.leaves(), end.leaves(), t);
                assert(p.leaves().contains(t));
            }
            assert forall|t: TabId| #[trigger] end.leaves().contains(t) implies numbers.dom().contains(
                t.0,
            ) && numbers[t.0] < ids.len() && ids[numbers[t.0] as int] == t by {
                pane::concat_contains(start.leaves(), end.leaves(), t);
                assert(p.leaves().contains(t));
            }
            save_then_layout(*start, numbers, ids);
            save_then_layout(*end, numbers, ids);
        },
    }
}

/// Reading a saved layout and saving it again gives the same, when each id's
/// number is its position.
pub proof fn layout_then_save(c: SplitChild, numbers: Map<u64, u32>, ids: Seq<TabId>)
    requires
        forall|i: int| 0 <= i < c.tabs().len() ==> (#[trigger] c.tabs()[i]) < ids.len(),
        forall|i: int|
            0 <= i < ids.len() ==> numbers.dom().contains((#[trigger] ids[i]).0)
                && numbers[ids[i].0] == i,
    ensures
        saved(c.layout(ids), numbers) == c,
    decreases c,
{
    match c {
        SplitChild::Tab(n) => {
            assert(c.tabs()[0] == n);
        },
        SplitChild::Split(s) => {
            let a = s.start.tabs();
            let b = s.end.tabs();
            assert forall|i: int| 0 <= i < a.len() implies (#[trigger] a[i]) < ids.len() by {
                assert(c.tabs()[i] == a[i]);
            }
            assert forall|i: int| 0 <= i < b.len() implies (#[trigger] b[i]) < ids.len() by {
                assert(c.tabs()[a.len() + i] == b[i]);
            }
            layout_then_save(s.start, numbers, ids);
            layout_then_save(s.end, numbers, ids);
        },
    }
}

/// The panes of a restored layout are the tabs that were saved, in order.
pub proof fn layout_leaves(c: SplitChild, ids: Seq<TabId>)
    ensures
        c.layout(ids).leaves().len() == c.tabs().len(),
        forall|i: int|
            0 <= i < c.tabs().len() ==> #[trigger] c.layout(ids).leaves()[i]
                == ids[c.tabs()[i] as int],
        c.tabs().len() > 0,
        c.tabs()[0] == c.spec_first(),
    decreases c,
{
    match c {
        SplitChild::Tab(n) => {},
        SplitChild::Split(s) => {
            layout_leaves(s.start, ids);
            layout_leaves(s.end, ids);
            let p = s.start.layout(ids);
            let q = s.end.layout(ids);
            assert(c.layout(ids).leaves() == p.leaves() + q.leaves());
            assert forall|i: int| 0 <= i < c.tabs().len() implies #[trigger] c.layout(
                ids,
            ).leaves()[i] == ids[c.tabs()[i] as int] by {
                if i < p.leaves().len() {
                    assert(c.layout(ids).leaves()[i] == p.leaves()[i]);
                } else {
                    assert(c.layout(ids).leaves()[i] == q.leaves()[i - p.leaves().len()]);
                }
            }
        },
    }
}

/// Whether a saved split names different tabs, all of which exist.
pub open spec fn restorable(tabs: Seq<u32>, count: nat) -> bool {
    &&& tabs.no_duplicates()
    &&& forall|i: int| 0 <= i < tabs.len() ==> (#[trigger] tabs[i]) < count
}

proof fn replaced_twice(p: Pane, f: TabId, x: Pane, y: Pane)
    ensures
        p.replaced(f, x).replaced(f, y) == p.replaced(f, x.replaced(f, y)),
    decreases p,
{
    match p {
        Pane::Leaf(t) => {},
        Pane::Split { start, end, .. } => {
            replaced_twice(*start, f, x, y);
            replaced_twice(*end, f, x, y);
        },
    }
}

proof fn replaced_inside(p: Pane, f: TabId, x: Pane, s: TabId, y: Pane)
    requires
        !p.leaves().contains(s),
    ensures
        p.replaced(f, x).replaced(s, y) == p.replaced(f, x.replaced(s, y)),
    decreases p,
{
    match p {
        Pane::Leaf(t) => {
            assert(p.leaves()[0] == t);
        },
        Pane::Split { start, end, .. } => {
            pane::concat_contains(start.leaves(), end.leaves(), s);
            replaced_inside(*start, f, x, s, y);
            replaced_inside(*end, f, x, s, y);
        },
    }
}

/// What a layout may hold for a saved split to be restored into it: the first
/// tab of the split and none of the others.
pub open spec fn ready_for(layout: Pane, tabs: Seq<u32>, ids: Seq<TabId>) -> bool {
    &&& layout.leaves().no_duplicates()
    &&& tabs.len() > 0
    &&& layout.leaves().contains(ids[tabs[0] as int])
    &&& forall|i: int|
        0 < i < tabs.len() ==> !layout.leaves().contains(ids[(#[trigger] tabs[i]) as int])
}

/// The layout once a saved split has been restored into it, except for what its end
/// holds: the pane of its first tab has become the layout of its start, with the
/// first tab of its end beside it.
pub open spec fn half_restored(layout: Pane, split: SavedSplit, ids: Seq<TabId>) -> Pane {
    let first = ids[split.start.spec_first() as int];
    let second = ids[split.end.spec_first() as int];
    layout.after_split(first, second, split.horizontal).replaced(first, split.start.layout(ids))
}

/// A saved split can be restored from the top down, by splitting out the first tab
/// of each branch in turn. In the end, the pane of its first tab has become the saved
/// layout.
#[verifier::spinoff_prover]
#[verifier::rlimit(40)]
pub proof fn restored_by_halves(layout: Pane, split: SavedSplit, ids: Seq<TabId>)
    requires
        restorable(split.tabs(), ids.len()),
        ids.no_duplicates(),
        ready_for(layout, split.tabs(), ids),
    ensures
        ({
            let first = ids[split.start.spec_first() as int];
            let second = ids[split.end.spec_first() as int];
            let one = layout.after_split(first, second, split.horizontal);
            let two = half_restored(layout, split, ids);
            &&& first != second
            &&& split.start.spec_first() < ids.len()
            &&& split.end.spec_first() < ids.len()
            &&& split.start.spec_first() != split.end.spec_first()
            &&& layout.leaves().contains(first)
            &&& !layout.leaves().contains(second)
            &&& one.leaves().contains(first)
            &&& one.leaves().contains(second)
            &&& split.start matches SplitChild::Split(s) ==> restorable(s.tabs(), ids.len())
                && ready_for(one, s.tabs(), ids)
            &&& split.start is Tab ==> one == two
            &&& two.leaves().contains(first)
            &&& two.leaves().contains(second)
            &&& split.end matches SplitChild::Split(s) ==> restorable(s.tabs(), ids.len())
                && ready_for(two, s.tabs(), ids)
            &&& two.replaced(second, split.end.layout(ids)) == layout.replaced(
                first,
                split.layout(ids),
            )
            &&& split.end is Tab ==> two == layout.replaced(first, split.layout(ids))
            &&& layout.replaced(first, split.layout(ids)).leaves().contains(first)
        }),
{
    let a = split.start.tabs();
    let b = split.end.tabs();
    let all = split.tabs();
    layout_leaves(split.start, ids);
    layout_leaves(split.end, ids);
    assert(all[0] == a[0]);
    assert(all[a.len() as int] == b[0]);
    let first = ids[split.start.spec_first() as int];
    let second = ids[split.end.spec_first() as int];
    let horizontal = split.horizontal;
    let pair = Pane::pair(horizontal, first, second);
    pane::split_leaves(layout, first, second, horizontal);
    let one = layout.after_split(first, second, horizontal);
    contained_after_split(layout, first, second, horizontal);
    split_distinct(layout, first, second, horizontal);
    if let SplitChild::Split(s) = split.start {
        assert(s.tabs() == a);
        assert forall|i: int, j: int| 0 <= i < a.len() && 0 <= j < a.len() && i != j implies a[i]
            != a[j] by {
            assert(all[i] == a[i] && all[j] == a[j]);
        }
        assert forall|i: int| 0 <= i < a.len() implies (#[trigger] a[i]) < ids.len() by {
            assert(all[i] == a[i]);
        }
        assert forall|i: int| 0 < i < a.len() implies !one.leaves().contains(
            ids[(#[trigger] a[i]) as int],
        ) by {
            assert(all[i] == a[i]);
            assert(all[i] != all[a.len() as int]);
            assert(ids[a[i] as int] != second);
        }
    }
    let x = split.start.layout(ids);
    let two = one.replaced(first, x);
    if split.start is Tab {
        replaced_by_itself(one, first);
    }
    replaced_twice(layout, first, pair, x);
    assert(pair.replaced(first, x) == (Pane::Split {
        horizontal,
        start: Box::new(x),
        end: Box::new(Pane::Leaf(second)),
    })) by {
        reveal_with_fuel(Pane::replaced, 2);
    }
    leaves_after_replace(one, first, x);
    assert forall|i: int, j: int| 0 <= i < b.len() && 0 <= j < b.len() && i != j implies b[i]
        != b[j] by {
        assert(all[a.len() + i] == b[i] && all[a.len() + j] == b[j]);
    }
    assert forall|i: int| 0 <= i < b.len() implies (#[trigger] b[i]) < ids.len() by {
        assert(all[a.len() + i] == b[i]);
    }
    assert forall|i: int| 0 <= i < b.len() implies !x.leaves().contains(
        ids[(#[trigger] b[i]) as int],
    ) by {
        assert(all[a.len() + i] == b[i]);
        let t = ids[b[i] as int];
        if x.leaves().contains(t) {
            let k = x.leaves().index_of(t);
            assert(x.leaves()[k] == ids[a[k] as int]);
            assert(all[k] == a[k]);
            assert(ids[a[k] as int] == ids[b[i] as int]);
        }
    }
    assert forall|i: int| 0 < i < b.len() implies !one.leaves().contains(
        ids[(#[trigger] b[i]) as int],
    ) by {
        assert(all[a.len() + i] == b[i]);
        assert(ids[b[i] as int] != second);
    }
    x_leaves_distinct(split.start, ids, all);
    assert forall|t: TabId| #[trigger] x.leaves().contains(t) && one.leaves().contains(t) implies t
        == first by {
        let k = x.leaves().index_of(t);
        assert(x.leaves()[k] == ids[a[k] as int]);
        assert(all[k] == a[k]);
        if k > 0 {
            assert(!layout.leaves().contains(ids[all[k] as int]));
            assert(t != second);
        }
    }
    replaced_distinct(one, first, x);
    assert(second != first) by {
        assert(all[0] != all[a.len() as int]);
    }
    assert(x.leaves()[0] == first);
    assert(x.leaves().contains(first));
    assert(one.leaves().contains(first));
    assert(one.leaves().contains(second));
    assert(two.leaves().contains(second));
    assert(two.leaves().contains(first));
    assert(ids[b[0] as int] == second);
    if let SplitChild::Split(s) = split.end {
        assert(s.tabs() == b);
        assert(two.leaves().contains(ids[b[0] as int]));
        assert forall|i: int| 0 < i < b.len() implies !two.leaves().contains(
            ids[(#[trigger] b[i]) as int],
        ) by {
            let t = ids[b[i] as int];
            assert(!one.leaves().contains(t));
            assert(!x.leaves().contains(t));
        }
    }
    let y = split.end.layout(ids);
    if split.end is Tab {
        replaced_by_itself(two, second);
    }
    let half = Pane::Split { horizontal, start: Box::new(x), end: Box::new(Pane::Leaf(second)) };
    assert(!layout.leaves().contains(second)) by {
        assert(all[a.len() as int] == b[0]);
    }
    replaced_inside(layout, first, half, second, y);
    pane::absent_pane(x, second, y);
    assert(half.replaced(second, y) == split.layout(ids)) by {
        reveal_with_fuel(Pane::replaced, 2);
    }
    leaves_after_replace(two, second, y);
    assert(two.replaced(second, y).leaves().contains(first));
}

/// A split adds a pane that was not there, so all stay different.
proof fn split_distinct(p: Pane, id: TabId, new: TabId, horizontal: bool)
    requires
        p.leaves().no_duplicates(),
        p.leaves().contains(id),
        !p.leaves().contains(new),
    ensures
        p.after_split(id, new, horizontal).leaves().no_duplicates(),
{
    pane::split_leaves(p, id, new, horizontal);
    crate::blocks::inserted_contains(p.leaves(), p.leaves().index_of(id) + 1, new);
}

proof fn replaced_by_itself(p: Pane, f: TabId)
    ensures
        p.replaced(f, Pane::Leaf(f)) == p,
    decreases p,
{
    match p {
        Pane::Leaf(t) => {},
        Pane::Split { start, end, .. } => {
            replaced_by_itself(*start, f);
            replaced_by_itself(*end, f);
        },
    }
}

proof fn contained_after_split(p: Pane, id: TabId, new: TabId, horizontal: bool)
    requires
        p.leaves().no_duplicates(),
        p.leaves().contains(id),
        !p.leaves().contains(new),
    ensures
        forall|t: TabId| #[trigger]
            p.after_split(id, new, horizontal).leaves().contains(t) <==> p.leaves().contains(t) || t
                == new,
{
    pane::split_leaves(p, id, new, horizontal);
    let k = p.leaves().index_of(id) + 1;
    let after = p.leaves().insert(k, new);
    assert forall|t: TabId| #[trigger] after.contains(t) <==> p.leaves().contains(t) || t
        == new by {
        if after.contains(t) {
            let i = after.index_of(t);
            if i < k {
                assert(p.leaves()[i] == t);
            } else if i > k {
                assert(p.leaves()[i - 1] == t);
            }
        }
        if p.leaves().contains(t) {
            let i = p.leaves().index_of(t);
            if i < k {
                assert(after[i] == t);
            } else {
                assert(after[i + 1] == t);
            }
        }
        if t == new {
            assert(after[k] == t);
        }
    }
}

/// Every pane of a layout stays, apart from the one that is replaced.
proof fn leaves_after_replace(p: Pane, f: TabId, x: Pane)
    ensures
        forall|t: TabId| #[trigger]
            p.replaced(f, x).leaves().contains(t) ==> (p.leaves().contains(t) && t != f)
                || x.leaves().contains(t),
        forall|t: TabId|
            t != f && #[trigger] p.leaves().contains(t) ==> p.replaced(f, x).leaves().contains(t),
        p.leaves().contains(f) ==> forall|t: TabId| #[trigger]
            x.leaves().contains(t) ==> p.replaced(f, x).leaves().contains(t),
    decreases p,
{
    match p {
        Pane::Leaf(t) => {
            assert(p.leaves()[0] == t);
        },
        Pane::Split { start, end, .. } => {
            leaves_after_replace(*start, f, x);
            leaves_after_replace(*end, f, x);
            let a = start.replaced(f, x).leaves();
            let b = end.replaced(f, x).leaves();
            assert forall|t: TabId| #[trigger] p.replaced(f, x).leaves().contains(t) implies (
            p.leaves().contains(t) && t != f) || x.leaves().contains(t) by {
                pane::concat_contains(a, b, t);
                pane::concat_contains(start.leaves(), end.leaves(), t);
            }
            assert forall|t: TabId|
                t != f && #[trigger] p.leaves().contains(t) implies p.replaced(
                f,
                x,
            ).leaves().contains(t) by {
                pane::concat_contains(a, b, t);
                pane::concat_contains(start.leaves(), end.leaves(), t);
            }
            if p.leaves().contains(f) {
                pane::concat_contains(start.leaves(), end.leaves(), f);
                assert forall|t: TabId| #[trigger] x.leaves().contains(t) implies p.replaced(
                    f,
                    x,
                ).leaves().contains(t) by {
                    pane::concat_contains(a, b, t);
                }
            }
        },
    }
}

/// Replacing a pane by a layout of otherwise new panes keeps all panes
/// different.
proof fn replaced_distinct(p: Pane, f: TabId, x: Pane)
    requires
        p.leaves().no_duplicates(),
        x.leaves().no_duplicates(),
        forall|t: TabId| #[trigger] x.leaves().contains(t) && p.leaves().contains(t) ==> t == f,
    ensures
        p.replaced(f, x).leaves().no_duplicates(),
    decreases p,
{
    match p {
        Pane::Leaf(t) => {},
        Pane::Split { start, end, .. } => {
            let a = start.leaves();
            let b = end.leaves();
            pane::halves_disjoint(a, b);
            assert forall|t: TabId| #[trigger] x.leaves().contains(t) && a.contains(t) implies t
                == f by {
                pane::concat_contains(a, b, t);
            }
            assert forall|t: TabId| #[trigger] x.leaves().contains(t) && b.contains(t) implies t
                == f by {
                pane::concat_contains(a, b, t);
            }
            replaced_distinct(*start, f, x);
            replaced_distinct(*end, f, x);
            leaves_after_replace(*start, f, x);
            leaves_after_replace(*end, f, x);
            let c = start.replaced(f, x).leaves();
            let d = end.replaced(f, x).leaves();
            if !a.contains(f) {
                pane::absent_pane(*start, f, x);
            }
            if !b.contains(f) {
                pane::absent_pane(*end, f, x);
            }
            assert forall|i: int, j: int|
                0 <= i < (c + d).len() && 0 <= j < (c + d).len() && i != j implies (c + d)[i] != (c
                + d)[j] by {
                if i < c.len() && j >= c.len() {
                    cross_distinct(a, b, c, d, x, f, i, j - c.len());
                } else if j < c.len() && i >= c.len() {
                    cross_distinct(a, b, c, d, x, f, j, i - c.len());
                }
            }
        },
    }
}

proof fn cross_distinct(
    a: Seq<TabId>,
    b: Seq<TabId>,
    c: Seq<TabId>,
    d: Seq<TabId>,
    x: Pane,
    f: TabId,
    i: int,
    j: int,
)
    requires
        0 <= i < c.len(),
        0 <= j < d.len(),
        forall|t: TabId| a.contains(t) ==> !(#[trigger] b.contains(t)),
        forall|t: TabId| #[trigger] x.leaves().contains(t) && a.contains(t) ==> t == f,
        forall|t: TabId| #[trigger] x.leaves().contains(t) && b.contains(t) ==> t == f,
        forall|t: TabId| #[trigger]
            c.contains(t) ==> (a.contains(t) && t != f) || x.leaves().contains(t),
        forall|t: TabId| #[trigger]
            d.contains(t) ==> (b.contains(t) && t != f) || x.leaves().contains(t),
        !a.contains(f) ==> c == a,
        !b.contains(f) ==> d == b,
    ensures
        c[i] != d[j],
{
    if c[i] == d[j] {
        let t = c[i];
        assert(c.contains(t));
        assert(d.contains(t));
        assert(a.contains(f) ==> !b.contains(f));
        if a.contains(f) {
            assert(d == b);
            assert(b.contains(t));
            assert(x.leaves().contains(t) ==> t == f);
        } else {
            assert(c == a);
            assert(a.contains(t));
            assert(x.leaves().contains(t) ==> t == f);
        }
    }
}

proof fn x_leaves_distinct(c: SplitChild, ids: Seq<TabId>, all: Seq<u32>)
    requires
        ids.no_duplicates(),
        all.no_duplicates(),
        c.tabs().len() <= all.len(),
        forall|i: int| 0 <= i < c.tabs().len() ==> c.tabs()[i] == all[i],
        forall|i: int| 0 <= i < all.len() ==> (#[trigger] all[i]) < ids.len(),
    ensures
        c.layout(ids).leaves().no_duplicates(),
{
    layout_leaves(c, ids);
    let l = c.layout(ids).leaves();
    assert forall|i: int, j: int| 0 <= i < l.len() && 0 <= j < l.len() && i != j implies l[i]
        != l[j] by {
        assert(l[i] == ids[all[i] as int]);
        assert(l[j] == ids[all[j] as int]);
        assert(all[i] < ids.len() && all[j] < ids.len());
    }
}

/// The bytes of each path of a session.
pub open spec fn raw_paths(paths: Seq<FilePath>) -> Seq<Seq<u8>> {
    Seq::new(paths.len(), |i: int| path::path_bytes(paths[i]@))
}

/// The form in which the paths of a session are stored: separated by zero
/// bytes, which no path contains.
pub fn encode_paths(paths: &Vec<FilePath>) -> (r: Vec<u8>)
    ensures
        r@ == text::join(raw_paths(paths@), 0u8),
{
    let mut raw: Vec<Vec<u8>> = Vec::new();
    let mut i: usize = 0;
    while i < paths.len()
        invariant
            i <= paths.len(),
            text::views(raw@) =~= raw_paths(paths@).take(i as int),
        decreases paths.len() - i,
    {
        let ghost before = text::views(raw@);
        raw.push(paths[i].to_bytes());
        assert(text::views(raw@) =~= before.push(raw_paths(paths@)[i as int]));
        i += 1;
    }
    assert(text::views(raw@) =~= raw_paths(paths@));
    join_bytes(&raw, 0)
}

/// The path that stored bytes stand for. One that is not absolute starts in
/// `cwd`.
pub open spec fn stored_path(raw: Seq<u8>, cwd: Seq<Seq<u8>>) -> Seq<Seq<u8>> {
    if path::rooted(raw) {
        path::path_parts(raw)
    } else {
        cwd + path::path_parts(raw)
    }
}

/// The paths of a stored session.
pub fn decode_paths(raw: &Vec<u8>, cwd: &FilePath) -> (r: Vec<FilePath>)
    requires
        cwd.valid(),
    ensures
        r.len() == text::split(raw@, 0u8).len(),
        forall|i: int|
            0 <= i < r.len() ==> (#[trigger] r@[i])@ == stored_path(
                text::split(raw@, 0u8)[i],
                cwd@,
            ) && r@[i].valid(),
{
    let runs = split_bytes(raw, 0);
    let mut paths: Vec<FilePath> = Vec::new();
    let mut i: usize = 0;
    while i < runs.len()
        invariant
            i <= runs.len(),
            cwd.valid(),
            text::views(runs@) == text::split(raw@, 0u8),
            paths.len() == i,
            forall|k: int|
                0 <= k < i ==> (#[trigger] paths@[k])@ == stored_path(
                    text::split(raw@, 0u8)[k],
                    cwd@,
                ) && paths@[k].valid(),
        decreases runs.len() - i,
    {
        assert(text::split(raw@, 0u8)[i as int] == runs@[i as int]@);
        let p = match FilePath::parse(&runs[i]) {
            Some(p) => p,
            None => cwd.join(&runs[i]),
        };
        paths.push(p);
        i += 1;
    }
    paths
}

/// Whether no component of a path holds a zero byte, as the file system
/// guarantees.
pub open spec fn no_zero(p: Seq<Seq<u8>>) -> bool {
    forall|i: int| 0 <= i < p.len() ==> !(#[trigger] p[i]).contains(0u8)
}

proof fn join_no_zero(parts: Seq<Seq<u8>>)
    requires
        no_zero(parts),
    ensures
        !text::join(parts, path::SLASH).contains(0u8),
    decreases parts.len(),
{
    if parts.len() > 0 {
        let front = parts.drop_last();
        assert forall|i: int| 0 <= i < front.len() implies !(#[trigger] front[i]).contains(
            0u8,
        ) by {
            assert(front[i] == parts[i]);
        }
        join_no_zero(front);
        let last = parts.last();
        assert(last == parts[parts.len() - 1]);
        let whole = text::join(parts, path::SLASH);
        if whole.contains(0u8) {
            let k = choose|k: int| 0 <= k < whole.len() && whole[k] == 0u8;
            if parts.len() == 1 {
                assert(parts[0].contains(0u8));
            } else {
                let j = text::join(front, path::SLASH);
                if k < j.len() {
                    assert(j[k] == 0u8);
                } else if k > j.len() {
                    assert(last[k - j.len() - 1] == 0u8);
                }
            }
        }
    }
}

/// Storing the paths of a session and reading them back gives the same paths.
pub proof fn paths_round_trip(paths: Seq<FilePath>)
    requires
        paths.len() > 0,
        forall|i: int| 0 <= i < paths.len() ==> (#[trigger] paths[i]).valid(),
        forall|i: int| 0 <= i < paths.len() ==> no_zero((#[trigger] paths[i])@),
    ensures
        ({
            let stored = text::split(text::join(raw_paths(paths), 0u8), 0u8);
            &&& stored.len() == paths.len()
            &&& forall|i: int|
                0 <= i < paths.len() ==> path::rooted(#[trigger] stored[i]) && path::path_parts(
                    stored[i],
                ) == paths[i]@
        }),
{
    let raw = raw_paths(paths);
    assert forall|i: int| 0 <= i < raw.len() implies !(#[trigger] raw[i]).contains(0u8) by {
        assert(paths[i].valid());
        assert(no_zero(paths[i]@));
        join_no_zero(paths[i]@);
        let b = text::join(paths[i]@, path::SLASH);
        if raw[i].contains(0u8) {
            let k = choose|k: int| 0 <= k < raw[i].len() && raw[i][k] == 0u8;
            if k > 0 {
                assert(b[k - 1] == 0u8);
            }
        }
    }
    text::split_join(raw, 0u8);
    assert forall|i: int| 0 <= i < paths.len() implies path::rooted(#[trigger] raw[i])
        && path::path_parts(raw[i]) == paths[i]@ by {
        assert(paths[i].valid());
        path::path_round_trip(paths[i]@);
    }
}

/// How a session is stored. The bytes of the groups are written and read by the
/// caller.
pub struct SessionRow {
    pub paths: Vec<u8>,
    pub groups: Option<Vec<u8>>,
}

/// A row of the table of sessions, as a mathematical value.
pub struct RowView {
    pub paths: Seq<u8>,
    pub groups: Option<Seq<u8>>,
}

impl View for SessionRow {
    type V = RowView;

    open spec fn view(&self) -> RowView {
        RowView {
            paths: self.paths@,
            groups: match self.groups {
                Some(g) => Some(g@),
                None => None,
            },
        }
    }
}

/// The row for a session whose groups are written as the given bytes.
pub open spec fn row_of(paths: Seq<FilePath>, groups: Seq<u8>) -> RowView {
    RowView { paths: text::join(raw_paths(paths), 0u8), groups: Some(groups) }
}

pub fn session_row(session: &Session, groups: Vec<u8>) -> (r: SessionRow)
    ensures
        r@ == row_of(session.paths@, groups@),
{
    SessionRow { paths: encode_paths(&session.paths), groups: Some(groups) }
}

/// The paths that a row stores.
pub open spec fn row_paths(row: RowView, cwd: Seq<Seq<u8>>) -> Seq<Seq<Seq<u8>>> {
    let runs = text::split(row.paths, 0u8);
    Seq::new(runs.len(), |i: int| stored_path(runs[i], cwd))
}

/// The groups of a session that was read, if there were any that could be read.
pub open spec fn read_groups(groups: Option<Seq<SavedGroup>>) -> Seq<SavedGroup> {
    match groups {
        Some(g) => g,
        None => Seq::empty(),
    }
}

/// The paths of a session.
pub open spec fn path_views(paths: Seq<FilePath>) -> Seq<Seq<Seq<u8>>> {
    Seq::new(paths.len(), |i: int| paths[i]@)
}

/// The session that a row stores. `groups` is what its bytes for groups were read
/// as, if there are any and they could be read.
pub fn row_session(row: &SessionRow, groups: Option<Vec<SavedGroup>>, cwd: &FilePath) -> (r: Session)
    requires
        cwd.valid(),
    ensures
        path_views(r.paths@) == row_paths(row@, cwd@),
        r.groups@ == read_groups(
            match groups {
                Some(g) => Some(g@),
                None => None,
            },
        ),
{
    let paths = decode_paths(&row.paths, cwd);
    assert(path_views(paths@) =~= row_paths(row@, cwd@));
    let groups = match groups {
        Some(g) => g,
        None => Vec::new(),
    };
    Session { paths, groups }
}

/// A stored session stores the paths that were saved.
pub proof fn row_round_trip(s: Session, bytes: Seq<u8>, cwd: Seq<Seq<u8>>)
    requires
        s.paths@.len() > 0,
        forall|i: int| 0 <= i < s.paths@.len() ==> (#[trigger] s.paths@[i]).valid(),
        forall|i: int| 0 <= i < s.paths@.len() ==> no_zero((#[trigger] s.paths@[i])@),
    ensures
        row_paths(row_of(s.paths@, bytes), cwd) == path_views(s.paths@),
{
    paths_round_trip(s.paths@);
    let row = row_of(s.paths@, bytes);
    let stored = text::split(text::join(raw_paths(s.paths@), 0u8), 0u8);
    assert forall|i: int| 0 <= i < stored.len() implies #[trigger] row_paths(row, cwd)[i]
        == path_views(s.paths@)[i] by {
        assert(path::rooted(stored[i]));
    }
    assert(row_paths(row, cwd) =~= path_views(s.paths@));
}

/// A path that is stored without its root is below the working directory.
pub proof fn relative_paths(raw: Seq<u8>, cwd: Seq<Seq<u8>>)
    ensures
        !(raw.len() > 0 && raw[0] == 47) ==> stored_path(raw, cwd) == cwd + path::path_parts(raw),
        raw.len() > 0 && raw[0] == 47 ==> stored_path(raw, cwd) == path::path_parts(raw),
{
}

} // verus!
