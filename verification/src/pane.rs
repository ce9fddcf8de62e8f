//! The tree of splits in which the panes of a tab group are laid out.
use vstd::prelude::*;

verus! {

/// Identifies a tab for as long as the program runs.
#[derive(Clone, Copy, Debug, PartialEq, Eq, Structural, Hash)]
pub struct TabId(pub u64);

/// The smallest width or height that a pane may have after a split.
pub const MIN_PANE_RES: i32 = 250;

/// Where the pane of each tab of a group stands.
pub enum Pane {
    Leaf(TabId),
    /// The start is the left or the top one.
    Split { horizontal: bool, start: Box<Pane>, end: Box<Pane> },
}

impl Pane {
    /// The tabs in the layout, from the start to the end.
    pub open spec fn leaves(self) -> Seq<TabId>
        decreases self,
    {
        match self {
            Pane::Leaf(t) => seq![t],
            Pane::Split { start, end, .. } => start.leaves() + end.leaves(),
        }
    }

    /// The layout with the pane of `id` replaced by another layout.
    pub open spec fn replaced(self, id: TabId, by: Pane) -> Pane
        decreases self,
    {
        match self {
            Pane::Leaf(t) => if t == id {
                by
            } else {
                self
            },
            Pane::Split { horizontal, start, end } => Pane::Split {
                horizontal,
                start: Box::new(start.replaced(id, by)),
                end: Box::new(end.replaced(id, by)),
            },
        }
    }

    /// Two panes side by side.
    pub open spec fn pair(horizontal: bool, first: TabId, second: TabId) -> Pane {
        Pane::Split {
            horizontal,
            start: Box::new(Pane::Leaf(first)),
            end: Box::new(Pane::Leaf(second)),
        }
    }

    /// The layout after the pane of `id` has been split: the new pane stands to
    /// the right of it or below.
    pub open spec fn after_split(self, id: TabId, new: TabId, horizontal: bool) -> Pane {
        self.replaced(id, Pane::pair(horizontal, id, new))
    }

    /// The layout without the pane of `id`, whose sibling takes the place of
    /// both. Nothing is left of a layout that was that pane alone.
    pub open spec fn without(self, id: TabId) -> Option<Pane>
        decreases self,
    {
        match self {
            Pane::Leaf(t) => if t == id {
                None
            } else {
                Some(self)
            },
            Pane::Split { horizontal, start, end } => match (start.without(id), end.without(id)) {
                (Some(a), Some(b)) => Some(
                    Pane::Split { horizontal, start: Box::new(a), end: Box::new(b) },
                ),
                (Some(a), None) => Some(a),
                (None, Some(b)) => Some(b),
                (None, None) => None,
            },
        }
    }

    pub open spec fn spec_first(self) -> TabId
        decreases self,
    {
        match self {
            Pane::Leaf(t) => t,
            Pane::Split { start, .. } => start.spec_first(),
        }
    }

    pub open spec fn spec_last(self) -> TabId
        decreases self,
    {
        match self {
            Pane::Leaf(t) => t,
            Pane::Split { end, .. } => end.spec_last(),
        }
    }

    /// The pane that is closest to that of `id`, found by reversing the split
    /// that made it.
    pub open spec fn kin(self, id: TabId) -> Option<TabId>
        decreases self,
    {
        match self {
            Pane::Leaf(_) => None,
            Pane::Split { start, end, .. } => if *start == Pane::Leaf(id) {
                Some(end.spec_first())
            } else if *end == Pane::Leaf(id) {
                Some(start.spec_last())
            } else if start.leaves().contains(id) {
                start.kin(id)
            } else {
                end.kin(id)
            },
        }
    }

    fn is_leaf_of(&self, id: TabId) -> (r: bool)
        ensures
            r == (*self == Pane::Leaf(id)),
    {
        match self {
            Pane::Leaf(t) => *t == id,
            _ => false,
        }
    }

    /// Whether the layout holds a pane for `id`.
    pub fn contains(&self, id: TabId) -> (r: bool)
        ensures
            r == self.leaves().contains(id),
        decreases self,
    {
        match self {
            Pane::Leaf(t) => {
                assert(self.leaves() =~= seq![*t]);
                assert(self.leaves()[0] == *t);
                *t == id
            },
            Pane::Split { start, end, .. } => {
                let a = start.contains(id);
                let b = end.contains(id);
                proof {
                    concat_contains(start.leaves(), end.leaves(), id);
                }
                a || b
            },
        }
    }

    pub fn copy(&self) -> (r: Pane)
        ensures
            r == *self,
        decreases self,
    {
        match self {
            Pane::Leaf(t) => Pane::Leaf(*t),
            Pane::Split { horizontal, start, end } => Pane::Split {
                horizontal: *horizontal,
                start: Box::new(start.copy()),
                end: Box::new(end.copy()),
            },
        }
    }

    /// The first pane of the layout.
    pub fn firstmost(&self) -> (r: TabId)
        ensures
            r == self.spec_first(),
            r == self.leaves()[0],
            self.leaves().len() > 0,
        decreases self,
    {
        match self {
            Pane::Leaf(t) => *t,
            Pane::Split { start, .. } => start.firstmost(),
        }
    }

    /// The last pane of the layout.
    pub fn lastmost(&self) -> (r: TabId)
        ensures
            r == self.spec_last(),
            r == self.leaves().last(),
            self.leaves().len() > 0,
        decreases self,
    {
        match self {
            Pane::Leaf(t) => *t,
            Pane::Split { end, .. } => end.lastmost(),
        }
    }

    fn replace(self, id: TabId, new: TabId, horizontal: bool) -> (r: Pane)
        ensures
            r == self.after_split(id, new, horizontal),
        decreases self,
    {
        match self {
            Pane::Leaf(t) => if t == id {
                Pane::Split {
                    horizontal,
                    start: Box::new(Pane::Leaf(id)),
                    end: Box::new(Pane::Leaf(new)),
                }
            } else {
                Pane::Leaf(t)
            },
            Pane::Split { horizontal: h, start, end } => {
                let a = (*start).replace(id, new, horizontal);
                let b = (*end).replace(id, new, horizontal);
                Pane::Split { horizontal: h, start: Box::new(a), end: Box::new(b) }
            },
        }
    }

    /// Splits the pane of `id` in two, with the pane of `new` at the end.
    pub fn split(self, id: TabId, new: TabId, horizontal: bool) -> (r: Pane)
        requires
            self.leaves().no_duplicates(),
            self.leaves().contains(id),
            !self.leaves().contains(new),
        ensures
            r == self.after_split(id, new, horizontal),
            r.leaves() == self.leaves().insert(self.leaves().index_of(id) + 1, new),
            r.leaves().no_duplicates(),
    {
        proof {
            split_leaves(self, id, new, horizontal);
        }
        self.replace(id, new, horizontal)
    }

    /// Takes the pane of `id` out of the layout.
    pub fn remove(self, id: TabId) -> (r: Option<Pane>)
        ensures
            r == self.without(id),
        decreases self,
    {
        match self {
            Pane::Leaf(t) => if t == id {
                None
            } else {
                Some(Pane::Leaf(t))
            },
            Pane::Split { horizontal, start, end } => {
                let a = (*start).remove(id);
                let b = (*end).remove(id);
                match (a, b) {
                    (Some(a), Some(b)) => Some(
                        Pane::Split { horizontal, start: Box::new(a), end: Box::new(b) },
                    ),
                    (Some(a), None) => Some(a),
                    (None, Some(b)) => Some(b),
                    (None, None) => None,
                }
            },
        }
    }

    /// The pane that becomes active when that of `id` goes.
    pub fn next_of_kin(&self, id: TabId) -> (r: Option<TabId>)
        ensures
            r == self.kin(id),
        decreases self,
    {
        match self {
            Pane::Leaf(_) => None,
            Pane::Split { start, end, .. } => if start.is_leaf_of(id) {
                Some(end.firstmost())
            } else if end.is_leaf_of(id) {
                Some(start.lastmost())
            } else if start.contains(id) {
                start.next_of_kin(id)
            } else {
                end.next_of_kin(id)
            },
        }
    }
}

pub proof fn concat_contains(a: Seq<TabId>, b: Seq<TabId>, id: TabId)
    ensures
        (a + b).contains(id) <==> a.contains(id) || b.contains(id),
{
    if a.contains(id) {
        let i = a.index_of(id);
        assert((a + b)[i] == id);
    }
    if b.contains(id) {
        let i = b.index_of(id);
        assert((a + b)[a.len() + i] == id);
    }
}

/// Neither half of a layout without duplicates holds a pane of the other.
pub proof fn halves_disjoint(a: Seq<TabId>, b: Seq<TabId>)
    requires
        (a + b).no_duplicates(),
    ensures
        a.no_duplicates(),
        b.no_duplicates(),
        forall|t: TabId| a.contains(t) ==> !(#[trigger] b.contains(t)),
{
    assert forall|i: int, j: int| 0 <= i < a.len() && 0 <= j < a.len() && i != j implies a[i]
        != a[j] by {
        assert((a + b)[i] == a[i] && (a + b)[j] == a[j]);
    }
    assert forall|i: int, j: int| 0 <= i < b.len() && 0 <= j < b.len() && i != j implies b[i]
        != b[j] by {
        assert((a + b)[a.len() + i] == b[i] && (a + b)[a.len() + j] == b[j]);
    }
    assert forall|t: TabId| a.contains(t) implies !(#[trigger] b.contains(t)) by {
        if b.contains(t) {
            let i = a.index_of(t);
            let j = b.index_of(t);
            assert((a + b)[i] == t && (a + b)[a.len() + j] == t);
        }
    }
}

proof fn index_in_concat(a: Seq<TabId>, b: Seq<TabId>, id: TabId)
    requires
        (a + b).no_duplicates(),
        (a + b).contains(id),
    ensures
        a.contains(id) ==> (a + b).index_of(id) == a.index_of(id),
        b.contains(id) ==> (a + b).index_of(id) == a.len() + b.index_of(id),
{
    halves_disjoint(a, b);
    let k = (a + b).index_of(id);
    if a.contains(id) {
        let i = a.index_of(id);
        assert((a + b)[i] == id);
        assert((a + b)[k] == id);
    }
    if b.contains(id) {
        let i = b.index_of(id);
        assert((a + b)[a.len() + i] == id);
        assert((a + b)[k] == id);
    }
}

/// A layout that lacks a pane does not change when that pane is replaced or
/// taken out.
pub proof fn absent_pane(p: Pane, id: TabId, by: Pane)
    requires
        !p.leaves().contains(id),
    ensures
        p.replaced(id, by) == p,
        p.without(id) == Some(p),
    decreases p,
{
    match p {
        Pane::Leaf(t) => {
            assert(p.leaves()[0] == t);
        },
        Pane::Split { start, end, .. } => {
            concat_contains(start.leaves(), end.leaves(), id);
            absent_pane(*start, id, by);
            absent_pane(*end, id, by);
        },
    }
}

/// Splitting a pane puts the new one right after it.
pub proof fn split_leaves(p: Pane, id: TabId, new: TabId, horizontal: bool)
    requires
        p.leaves().no_duplicates(),
        p.leaves().contains(id),
        !p.leaves().contains(new),
    ensures
        p.after_split(id, new, horizontal).leaves() == p.leaves().insert(
            p.leaves().index_of(id) + 1,
            new,
        ),
        p.after_split(id, new, horizontal).leaves().no_duplicates(),
    decreases p,
{
    let pair = Pane::pair(horizontal, id, new);
    match p {
        Pane::Leaf(t) => {
            assert(p.leaves() =~= seq![t]);
            assert(p.leaves()[0] == t);
            assert(p.leaves().index_of(id) == 0);
            reveal_with_fuel(Pane::leaves, 2);
            assert(pair.leaves() =~= seq![id, new]);
        },
        Pane::Split { start, end, .. } => {
            let a = start.leaves();
            let b = end.leaves();
            concat_contains(a, b, id);
            concat_contains(a, b, new);
            halves_disjoint(a, b);
            index_in_concat(a, b, id);
            if a.contains(id) {
                split_leaves(*start, id, new, horizontal);
                absent_pane(*end, id, pair);
            } else {
                split_leaves(*end, id, new, horizontal);
                absent_pane(*start, id, pair);
            }
            assert(p.after_split(id, new, horizontal).leaves() =~= p.leaves().insert(
                p.leaves().index_of(id) + 1,
                new,
            ));
        },
    }
    let all = p.leaves();
    let k = all.index_of(id) + 1;
    assert forall|i: int, j: int|
        0 <= i < all.len() + 1 && 0 <= j < all.len() + 1 && i != j implies all.insert(k, new)[i]
        != all.insert(k, new)[j] by {
        let x = if i < k { i } else { i - 1 };
        let y = if j < k { j } else { j - 1 };
        if i != k {
            assert(all.insert(k, new)[i] == all[x]);
        }
        if j != k {
            assert(all.insert(k, new)[j] == all[y]);
        }
    }
}

/// Splitting a pane and then taking the new one out again restores the layout.
pub proof fn split_then_remove(p: Pane, id: TabId, new: TabId, horizontal: bool)
    requires
        p.leaves().contains(id),
        !p.leaves().contains(new),
        id != new,
    ensures
        p.after_split(id, new, horizontal).without(new) == Some(p),
    decreases p,
{
    let pair = Pane::pair(horizontal, id, new);
    match p {
        Pane::Leaf(t) => {
            assert(p.leaves()[0] == t);
            reveal_with_fuel(Pane::without, 2);
            assert(pair.without(new) == Some(Pane::Leaf(id)));
        },
        Pane::Split { start, end, .. } => {
            concat_contains(start.leaves(), end.leaves(), id);
            concat_contains(start.leaves(), end.leaves(), new);
            if start.leaves().contains(id) {
                split_then_remove(*start, id, new, horizontal);
            } else {
                absent_pane(*start, id, pair);
                absent_pane(*start, new, pair);
            }
            if end.leaves().contains(id) {
                split_then_remove(*end, id, new, horizontal);
            } else {
                absent_pane(*end, id, pair);
                absent_pane(*end, new, pair);
            }
        },
    }
}

/// After a split the two panes are each other's closest kin.
pub proof fn split_kin(p: Pane, id: TabId, new: TabId, horizontal: bool)
    requires
        p.leaves().no_duplicates(),
        p.leaves().contains(id),
        !p.leaves().contains(new),
    ensures
        p.after_split(id, new, horizontal).kin(new) == Some(id),
        p.after_split(id, new, horizontal).kin(id) == Some(new),
    decreases p,
{
    let pair = Pane::pair(horizontal, id, new);
    match p {
        Pane::Leaf(t) => {
            assert(p.leaves()[0] == t);
        },
        Pane::Split { start, end, .. } => {
            let a = start.leaves();
            let b = end.leaves();
            concat_contains(a, b, id);
            concat_contains(a, b, new);
            halves_disjoint(a, b);
            let q = p.after_split(id, new, horizontal);
            if a.contains(id) {
                split_kin(*start, id, new, horizontal);
                split_leaves(*start, id, new, horizontal);
                absent_pane(*end, id, pair);
                inserted_contains(a, a.index_of(id) + 1, new);
                if *end == Pane::Leaf(id) || *end == Pane::Leaf(new) {
                    assert(end.leaves()[0] == id || end.leaves()[0] == new);
                }
            } else {
                split_kin(*end, id, new, horizontal);
                absent_pane(*start, id, pair);
                if *start == Pane::Leaf(id) || *start == Pane::Leaf(new) {
                    assert(start.leaves()[0] == id || start.leaves()[0] == new);
                }
            }
        },
    }
}

proof fn inserted_contains(s: Seq<TabId>, k: int, new: TabId)
    requires
        0 <= k <= s.len(),
    ensures
        s.insert(k, new).contains(new),
        forall|t: TabId| s.contains(t) ==> #[trigger] s.insert(k, new).contains(t),
{
    assert(s.insert(k, new)[k] == new);
    assert forall|t: TabId| s.contains(t) implies #[trigger] s.insert(k, new).contains(t) by {
        let i = s.index_of(t);
        if i < k {
            assert(s.insert(k, new)[i] == t);
        } else {
            assert(s.insert(k, new)[i + 1] == t);
        }
    }
}

/// Taking a pane out of a layout of more than one keeps the others, in their
/// order.
pub proof fn remove_leaves(p: Pane, id: TabId)
    requires
        p.leaves().no_duplicates(),
        p.leaves().contains(id),
    ensures
        p.leaves().len() == 1 <==> p.without(id) is None,
        p.without(id) matches Some(q) ==> q.leaves() == p.leaves().remove(p.leaves().index_of(id)),
        p.leaves().len() > 0,
    decreases p,
{
    match p {
        Pane::Leaf(t) => {
            assert(p.leaves() =~= seq![t]);
            assert(p.leaves()[0] == t);
        },
        Pane::Split { start, end, .. } => {
            let a = start.leaves();
            let b = end.leaves();
            concat_contains(a, b, id);
            halves_disjoint(a, b);
            index_in_concat(a, b, id);
            has_leaves(*start);
            has_leaves(*end);
            if a.contains(id) {
                remove_leaves(*start, id);
                absent_pane(*end, id, p);
                if start.without(id) is None {
                    assert(b =~= (a + b).remove((a + b).index_of(id)));
                } else {
                    assert(a.remove(a.index_of(id)) + b =~= (a + b).remove((a + b).index_of(id)));
                }
            } else {
                remove_leaves(*end, id);
                absent_pane(*start, id, p);
                if end.without(id) is None {
                    assert(a =~= (a + b).remove((a + b).index_of(id)));
                } else {
                    assert(a + b.remove(b.index_of(id)) =~= (a + b).remove((a + b).index_of(id)));
                }
            }
        },
    }
}

pub proof fn has_leaves(p: Pane)
    ensures
        p.leaves().len() > 0,
        p.leaves()[0] == p.spec_first(),
        p.leaves().last() == p.spec_last(),
    decreases p,
{
    match p {
        Pane::Leaf(t) => {},
        Pane::Split { start, end, .. } => {
            has_leaves(*start);
            has_leaves(*end);
        },
    }
}

/// In a layout of more than one pane, each has kin, and that is another pane.
pub proof fn kin_is_other(p: Pane, id: TabId)
    requires
        p.leaves().no_duplicates(),
        p.leaves().contains(id),
    ensures
        p.kin(id) is None <==> p.leaves().len() == 1,
        p.kin(id) matches Some(k) ==> k != id && p.leaves().contains(k),
    decreases p,
{
    match p {
        Pane::Leaf(t) => {},
        Pane::Split { start, end, .. } => {
            let a = start.leaves();
            let b = end.leaves();
            concat_contains(a, b, id);
            halves_disjoint(a, b);
            has_leaves(*start);
            has_leaves(*end);
            if *start == Pane::Leaf(id) {
                assert(a[0] == id);
                assert(b.contains(b[0]));
                concat_contains(a, b, b[0]);
            } else if *end == Pane::Leaf(id) {
                assert(b[0] == id);
                assert(a.contains(a[a.len() - 1]));
                concat_contains(a, b, a.last());
            } else if a.contains(id) {
                kin_is_other(*start, id);
                single_leaf(*start, id);
                concat_contains(a, b, start.kin(id)->0);
            } else {
                kin_is_other(*end, id);
                single_leaf(*end, id);
                concat_contains(a, b, end.kin(id)->0);
            }
        },
    }
}

proof fn single_leaf(p: Pane, id: TabId)
    requires
        p.leaves().contains(id),
    ensures
        p.leaves().len() == 1 ==> p == Pane::Leaf(id),
{
    match p {
        Pane::Leaf(t) => {
            assert(p.leaves()[0] == t);
        },
        Pane::Split { start, end, .. } => {
            has_leaves(*start);
            has_leaves(*end);
        },
    }
}

/// The pane that takes over from another one is right beside it.
pub proof fn kin_is_beside(p: Pane, id: TabId) -> (i: int)
    requires
        p.leaves().no_duplicates(),
        p.leaves().contains(id),
    ensures
        0 <= i < p.leaves().len(),
        p.leaves()[i] == id,
        p.kin(id) matches Some(k) ==> (i + 1 < p.leaves().len() && p.leaves()[i + 1] == k) || (i
            > 0 && p.leaves()[i - 1] == k),
    decreases p,
{
    match p {
        Pane::Leaf(_) => 0,
        Pane::Split { start, end, .. } => {
            let (a, b) = (start.leaves(), end.leaves());
            halves_disjoint(a, b);
            concat_contains(a, b, id);
            has_leaves(*start);
            has_leaves(*end);
            if *start == Pane::Leaf(id) {
                assert((a + b)[1] == b[0]);
                0
            } else if *end == Pane::Leaf(id) {
                assert((a + b)[a.len() as int] == b[0]);
                a.len() as int
            } else if a.contains(id) {
                kin_is_beside(*start, id)
            } else {
                let i = kin_is_beside(*end, id);
                assert((a + b)[a.len() + i] == b[i]);
                a.len() + i
            }
        },
    }
}

/// Whether a pane of the given width or height may be split across it.
pub fn can_split(size: i32, forced: bool) -> (r: bool)
    ensures
        r == (forced || size > 2 * MIN_PANE_RES),
{
    size > MIN_PANE_RES * 2 || forced
}

/// The positions for the given splits, the outermost of which comes last.
/// Each lies in the middle of what the splits around it leave.
pub open spec fn positions(splits: Seq<bool>, w: int, h: int) -> Seq<int>
    decreases splits.len(),
{
    if splits.len() == 0 {
        Seq::empty()
    } else if splits.last() {
        seq![w / 2] + positions(splits.drop_last(), w / 2, h)
    } else {
        seq![h / 2] + positions(splits.drop_last(), w, h / 2)
    }
}

/// Default positions for the splits around a pane, from the outermost inwards.
/// `splits` says of each whether it is horizontal, from the innermost outwards.
pub fn default_positions(splits: Vec<bool>, width: i32, height: i32) -> (r: Vec<i32>)
    requires
        0 <= width,
        0 <= height,
    ensures
        r.len() == splits.len(),
        forall|i: int|
            0 <= i < r.len() ==> #[trigger] r@[i] as int == positions(
                splits@,
                width as int,
                height as int,
            )[i],
        positions(splits@, width as int, height as int).len() == r.len(),
{
    let ghost all = splits@;
    let mut stack = splits;
    let mut w: i32 = width;
    let mut h: i32 = height;
    let mut r: Vec<i32> = Vec::new();
    let ghost mut done: Seq<int> = Seq::empty();
    assert(done + positions(stack@, w as int, h as int) =~= positions(
        all,
        width as int,
        height as int,
    ));
    proof {
        positions_len(all, width as int, height as int);
    }
    while stack.len() > 0
        invariant
            0 <= w,
            0 <= h,
            done.len() == r.len(),
            forall|i: int| 0 <= i < r.len() ==> #[trigger] r@[i] as int == done[i],
            done + positions(stack@, w as int, h as int) == positions(
                all,
                width as int,
                height as int,
            ),
            stack.len() + r.len() == all.len(),
        decreases stack.len(),
    {
        let ghost before = stack@;
        let ghost rest = positions(stack@, w as int, h as int);
        let horizontal = stack.pop().unwrap();
        if horizontal {
            w = w / 2;
            r.push(w);
            proof {
                assert(before.drop_last() =~= stack@);
                assert(done.push(w as int) + positions(stack@, w as int, h as int) =~= done
                    + rest);
                done = done.push(w as int);
            }
        } else {
            h = h / 2;
            r.push(h);
            proof {
                assert(before.drop_last() =~= stack@);
                assert(done.push(h as int) + positions(stack@, w as int, h as int) =~= done
                    + rest);
                done = done.push(h as int);
            }
        }
    }
    assert(stack@ =~= Seq::<bool>::empty());
    assert(done + positions(stack@, w as int, h as int) =~= done);
    r
}

proof fn positions_len(splits: Seq<bool>, w: int, h: int)
    ensures
        positions(splits, w, h).len() == splits.len(),
    decreases splits.len(),
{
    if splits.len() > 0 {
        if splits.last() {
            positions_len(splits.drop_last(), w / 2, h);
        } else {
            positions_len(splits.drop_last(), w, h / 2);
        }
    }
}

/// New splits are halved, the innermost one last.
pub proof fn splits_are_halved(splits: Seq<bool>, w: int, h: int)
    ensures
        positions(splits, w, h).len() == splits.len(),
        splits.len() > 0 ==> positions(splits, w, h)[0] == (if splits.last() {
            w
        } else {
            h
        }) / 2,
        splits.len() > 1 && splits[splits.len() - 1] == splits[splits.len() - 2] ==> positions(
            splits,
            w,
            h,
        )[1] == positions(splits, w, h)[0] / 2,
    decreases splits.len(),
{
    if splits.len() > 0 {
        let rest = splits.drop_last();
        let (x, y) = if splits.last() {
            (w / 2, h)
        } else {
            (w, h / 2)
        };
        splits_are_halved(rest, x, y);
        let p = positions(splits, w, h);
        assert(p =~= seq![p[0]] + positions(rest, x, y));
        if splits.len() > 1 {
            assert(p[1] == positions(rest, x, y)[0]);
            assert(rest.last() == splits[splits.len() - 2]);
        }
    }
}

/// A pane is split the way that was asked for, with the new one behind, and within a
/// layout only that pane is.
pub proof fn split_as_asked(id: TabId, new: TabId, horizontal: bool, p: Pane, q: Pane, h: bool)
    requires
        !q.leaves().contains(id),
    ensures
        Pane::Leaf(id).after_split(id, new, horizontal) == (Pane::Split {
            horizontal,
            start: Box::new(Pane::Leaf(id)),
            end: Box::new(Pane::Leaf(new)),
        }),
        (Pane::Split { horizontal: h, start: Box::new(p), end: Box::new(q) }).after_split(
            id,
            new,
            horizontal,
        ) == (Pane::Split {
            horizontal: h,
            start: Box::new(p.after_split(id, new, horizontal)),
            end: Box::new(q),
        }),
{
    absent_pane(q, id, Pane::pair(horizontal, id, new));
}

} // verus!
