//! Three-way comparison results and the lexicographic orders built on them.
use vstd::prelude::*;

verus! {

/// The outcome of comparing two values.
#[derive(Clone, Copy, Debug, PartialEq, Eq, Structural)]
pub enum Order {
    Less,
    Equal,
    Greater,
}

impl Order {
    /// The same comparison with its arguments exchanged.
    pub open spec fn spec_reverse(self) -> Order {
        match self {
            Order::Less => Order::Greater,
            Order::Equal => Order::Equal,
            Order::Greater => Order::Less,
        }
    }

    pub fn reverse(self) -> (r: Order)
        ensures
            r == self.spec_reverse(),
    {
        match self {
            Order::Less => Order::Greater,
            Order::Equal => Order::Equal,
            Order::Greater => Order::Less,
        }
    }

    /// `next` breaks the tie when `self` is `Equal`.
    pub open spec fn spec_chain(self, next: Order) -> Order {
        if self is Equal {
            next
        } else {
            self
        }
    }

    pub fn chain(self, next: Order) -> (r: Order)
        ensures
            r == self.spec_chain(next),
    {
        match self {
            Order::Equal => next,
            _ => self,
        }
    }
}

/// How two integers compare.
pub open spec fn int_order(a: int, b: int) -> Order {
    if a < b {
        Order::Less
    } else if a > b {
        Order::Greater
    } else {
        Order::Equal
    }
}

pub fn u64_order(a: u64, b: u64) -> (r: Order)
    ensures
        r == int_order(a as int, b as int),
{
    if a < b {
        Order::Less
    } else if a > b {
        Order::Greater
    } else {
        Order::Equal
    }
}

/// Lexicographic order on bytes; a proper prefix sorts first.
pub open spec fn byte_order(a: Seq<u8>, b: Seq<u8>) -> Order
    decreases a.len(),
{
    if a.len() == 0 {
        if b.len() == 0 {
            Order::Equal
        } else {
            Order::Less
        }
    } else if b.len() == 0 {
        Order::Greater
    } else {
        int_order(a[0] as int, b[0] as int).spec_chain(
            byte_order(a.drop_first(), b.drop_first()),
        )
    }
}

/// Lexicographic order on sequences of byte strings.
pub open spec fn parts_order(a: Seq<Seq<u8>>, b: Seq<Seq<u8>>) -> Order
    decreases a.len(),
{
    if a.len() == 0 {
        if b.len() == 0 {
            Order::Equal
        } else {
            Order::Less
        }
    } else if b.len() == 0 {
        Order::Greater
    } else {
        byte_order(a[0], b[0]).spec_chain(parts_order(a.drop_first(), b.drop_first()))
    }
}

/// Compares two byte strings lexicographically.
pub fn compare_bytes(a: &Vec<u8>, b: &Vec<u8>) -> (r: Order)
    ensures
        r == byte_order(a@, b@),
{
    let mut i: usize = 0;
    assert(a@.skip(0) =~= a@);
    assert(b@.skip(0) =~= b@);
    while i < a.len() && i < b.len()
        invariant
            i <= a.len(),
            i <= b.len(),
            byte_order(a@, b@) == byte_order(a@.skip(i as int), b@.skip(i as int)),
        decreases a.len() - i,
    {
        assert(a@.skip(i as int).drop_first() =~= a@.skip(i + 1));
        assert(b@.skip(i as int).drop_first() =~= b@.skip(i + 1));
        if a[i] < b[i] {
            return Order::Less;
        }
        if a[i] > b[i] {
            return Order::Greater;
        }
        i += 1;
    }
    if i < b.len() {
        Order::Less
    } else if i < a.len() {
        Order::Greater
    } else {
        Order::Equal
    }
}

/// Comparing byte strings is reflexive, and exchanging them reverses the result;
/// only equal strings compare equal.
pub proof fn byte_order_antisymmetric(a: Seq<u8>, b: Seq<u8>)
    ensures
        byte_order(b, a) == byte_order(a, b).spec_reverse(),
        byte_order(a, b) is Equal <==> a == b,
    decreases a.len(),
{
    if a.len() > 0 && b.len() > 0 {
        byte_order_antisymmetric(a.drop_first(), b.drop_first());
        if byte_order(a, b) is Equal {
            assert(a =~= seq![a[0]] + a.drop_first());
            assert(b =~= seq![b[0]] + b.drop_first());
        }
    } else if a.len() == 0 && b.len() == 0 {
        assert(a =~= b);
    }
}

/// Comparing byte strings is transitive.
pub proof fn byte_order_transitive(a: Seq<u8>, b: Seq<u8>, c: Seq<u8>)
    requires
        !(byte_order(a, b) is Greater),
        !(byte_order(b, c) is Greater),
    ensures
        !(byte_order(a, c) is Greater),
        byte_order(a, c) is Equal ==> byte_order(a, b) is Equal && byte_order(b, c) is Equal,
    decreases a.len(),
{
    if a.len() > 0 && b.len() > 0 && c.len() > 0 {
        if a[0] == b[0] && b[0] == c[0] {
            byte_order_transitive(a.drop_first(), b.drop_first(), c.drop_first());
        }
    }
}

/// Comparing sequences of byte strings is reflexive, and exchanging them
/// reverses the result; only equal sequences compare equal.
pub proof fn parts_order_antisymmetric(a: Seq<Seq<u8>>, b: Seq<Seq<u8>>)
    ensures
        parts_order(b, a) == parts_order(a, b).spec_reverse(),
        parts_order(a, b) is Equal <==> a == b,
    decreases a.len(),
{
    if a.len() > 0 && b.len() > 0 {
        byte_order_antisymmetric(a[0], b[0]);
        parts_order_antisymmetric(a.drop_first(), b.drop_first());
        if parts_order(a, b) is Equal {
            assert(a =~= seq![a[0]] + a.drop_first());
            assert(b =~= seq![b[0]] + b.drop_first());
        }
    } else if a.len() == 0 && b.len() == 0 {
        assert(a =~= b);
    }
}

/// Comparing sequences of byte strings is transitive.
pub proof fn parts_order_transitive(a: Seq<Seq<u8>>, b: Seq<Seq<u8>>, c: Seq<Seq<u8>>)
    requires
        !(parts_order(a, b) is Greater),
        !(parts_order(b, c) is Greater),
    ensures
        !(parts_order(a, c) is Greater),
        parts_order(a, c) is Equal ==> parts_order(a, b) is Equal && parts_order(b, c) is Equal,
    decreases a.len(),
{
    if a.len() > 0 && b.len() > 0 && c.len() > 0 {
        byte_order_transitive(a[0], b[0], c[0]);
        byte_order_antisymmetric(a[0], b[0]);
        byte_order_antisymmetric(b[0], c[0]);
        byte_order_antisymmetric(a[0], c[0]);
        if a[0] == b[0] && b[0] == c[0] {
            parts_order_transitive(a.drop_first(), b.drop_first(), c.drop_first());
        }
    }
}

/// The first byte in which two strings differ decides, whatever follows it.
pub proof fn first_difference(p: Seq<u8>, x: u8, y: u8, s: Seq<u8>, t: Seq<u8>)
    requires
        x < y,
    ensures
        byte_order(p + seq![x] + s, p + seq![y] + t) is Less,
        byte_order(p + seq![y] + t, p + seq![x] + s) is Greater,
    decreases p.len(),
{
    let a = p + seq![x] + s;
    let b = p + seq![y] + t;
    if p.len() > 0 {
        first_difference(p.drop_first(), x, y, s, t);
        assert(a.drop_first() =~= p.drop_first() + seq![x] + s);
        assert(b.drop_first() =~= p.drop_first() + seq![y] + t);
    }
    byte_order_antisymmetric(a, b);
}

/// A string comes before every longer one that it starts.
pub proof fn prefix_comes_first(p: Seq<u8>, s: Seq<u8>)
    requires
        s.len() > 0,
    ensures
        byte_order(p, p + s) is Less,
        byte_order(p + s, p) is Greater,
    decreases p.len(),
{
    if p.len() > 0 {
        prefix_comes_first(p.drop_first(), s);
        assert((p + s).drop_first() =~= p.drop_first() + s);
    }
    byte_order_antisymmetric(p, p + s);
}

/// What two strings start with alike plays no part.
pub proof fn common_start(p: Seq<u8>, s: Seq<u8>, t: Seq<u8>)
    ensures
        byte_order(p + s, p + t) == byte_order(s, t),
    decreases p.len(),
{
    if p.len() > 0 {
        common_start(p.drop_first(), s, t);
        assert((p + s).drop_first() =~= p.drop_first() + s);
        assert((p + t).drop_first() =~= p.drop_first() + t);
    } else {
        assert(p + s =~= s);
        assert(p + t =~= t);
    }
}

/// The first component in which two paths differ decides, and a directory comes
/// before what is in it.
pub proof fn first_different_part(
    p: Seq<Seq<u8>>,
    x: Seq<u8>,
    y: Seq<u8>,
    s: Seq<Seq<u8>>,
    t: Seq<Seq<u8>>,
)
    ensures
        byte_order(x, y) is Less ==> parts_order(p + seq![x] + s, p + seq![y] + t) is Less,
        byte_order(x, y) is Greater ==> parts_order(p + seq![x] + s, p + seq![y] + t) is Greater,
        s.len() > 0 ==> parts_order(p, p + s) is Less,
    decreases p.len(),
{
    let a = p + seq![x] + s;
    let b = p + seq![y] + t;
    if p.len() > 0 {
        first_different_part(p.drop_first(), x, y, s, t);
        byte_order_antisymmetric(p[0], p[0]);
        assert(a.drop_first() =~= p.drop_first() + seq![x] + s);
        assert(b.drop_first() =~= p.drop_first() + seq![y] + t);
        assert((p + s).drop_first() =~= p.drop_first() + s);
    }
}

/// Numbers compare as they are, and exchanging what is compared reverses the result.
pub proof fn numbers_compare(a: int, b: int)
    ensures
        a < b <==> int_order(a, b) is Less,
        a > b <==> int_order(a, b) is Greater,
        int_order(b, a) == int_order(a, b).spec_reverse(),
        int_order(a, b).spec_reverse().spec_reverse() == int_order(a, b),
{
}

} // verus!
