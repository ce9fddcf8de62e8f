//! How log lines are laid out.
use vstd::prelude::*;
use vstd::string::*;

use crate::text::{chars_of, text_of};

verus! {

/// Wider modules do not widen the column for all lines.
pub const MAX_WIDTH: usize = 20;

/// Whether two colons stand at a position.
pub open spec fn colons_at(s: Seq<char>, i: int) -> bool {
    0 <= i && i + 1 < s.len() && s[i] == ':' && s[i + 1] == ':'
}

/// The last position before `end` where two colons stand, or a negative number.
/// Both of them stand before `end`.
pub open spec fn last_colons(s: Seq<char>, end: int) -> int
    decreases end,
{
    if end < 2 {
        -1
    } else if colons_at(s, end - 2) {
        end - 2
    } else {
        last_colons(s, end - 1)
    }
}

/// A module path without all but its last two modules.
pub open spec fn shrunk(s: Seq<char>) -> Seq<char> {
    let x = last_colons(s, s.len() as int);
    let y = last_colons(s, x);
    if x >= 0 && y >= 0 {
        s.skip(y + 2)
    } else {
        s
    }
}

fn find_colons(s: &Vec<char>, end: usize) -> (r: Option<usize>)
    requires
        end <= s.len(),
    ensures
        match r {
            Some(i) => last_colons(s@, end as int) == i && i + 2 <= end,
            None => last_colons(s@, end as int) < 0,
        },
{
    let mut e: usize = end;
    while e >= 2
        invariant
            e <= end <= s.len(),
            last_colons(s@, end as int) == last_colons(s@, e as int),
        decreases e,
    {
        if s[e - 2] == ':' && s[e - 1] == ':' {
            return Some(e - 2);
        }
        e -= 1;
    }
    None
}

/// Strips all but the last two modules.
pub fn shrink_target(target: &str) -> (r: String)
    ensures
        r@ == shrunk(target@),
{
    let s = chars_of(target);
    match find_colons(&s, s.len()) {
        Some(x) => match find_colons(&s, x) {
            Some(y) => {
                let r = text_of(&s, y + 2, s.len());
                assert(r@ =~= target@.skip(y + 2));
                r
            },
            None => target.to_owned(),
        },
        None => target.to_owned(),
    }
}

/// The width of the column for a module of the given width, and what later lines
/// are at least given.
pub fn max_target_width(current: usize, len: usize) -> (r: (usize, usize))
    ensures
        current < len ==> r.0 == len && r.1 == (if len < MAX_WIDTH {
            len
        } else {
            MAX_WIDTH
        }),
        current >= len ==> r == (current, current),
{
    if current < len {
        (
            len,
            if len < MAX_WIDTH {
                len
            } else {
                MAX_WIDTH
            },
        )
    } else {
        (current, current)
    }
}

proof fn last_colons_are(s: Seq<char>, end: int, k: int)
    requires
        k + 2 <= end <= s.len(),
        k >= 0 ==> colons_at(s, k),
        forall|j: int| k < j && j + 2 <= end ==> !#[trigger] colons_at(s, j),
    ensures
        k >= 0 ==> last_colons(s, end) == k,
        k < 0 ==> last_colons(s, end) < 0,
    decreases end,
{
    if end >= 2 && end - 2 > k {
        assert(!colons_at(s, end - 2));
        if end - 1 >= k + 2 {
            last_colons_are(s, end - 1, k);
        }
    }
}

/// What is left of a module path is its last two modules, and all of it where it has no
/// more.
pub proof fn last_two_modules(p: Seq<char>, a: Seq<char>, b: Seq<char>)
    requires
        !a.contains(':'),
        !b.contains(':'),
    ensures
        shrunk(p + seq![':', ':'] + a + seq![':', ':'] + b) == a + seq![':', ':'] + b,
        shrunk(a + seq![':', ':'] + b) == a + seq![':', ':'] + b,
        shrunk(a) == a,
{
    let c = seq![':', ':'];
    assert forall|i: int| 0 <= i < a.len() implies #[trigger] a[i] != ':' by {
        assert(a.contains(a[i]));
    }
    assert forall|i: int| 0 <= i < b.len() implies #[trigger] b[i] != ':' by {
        assert(b.contains(b[i]));
    }
    let s = p + c + a + c + b;
    let (y, x) = (p.len() as int, (p.len() + 2 + a.len()) as int);
    assert(colons_at(s, y));
    assert(colons_at(s, x));
    assert forall|j: int| x < j && j + 2 <= s.len() implies !#[trigger] colons_at(s, j) by {
        assert(s[j + 1] == b[j + 1 - (x + 2)]);
    }
    last_colons_are(s, s.len() as int, x);
    assert forall|j: int| y < j && j + 2 <= x implies !#[trigger] colons_at(s, j) by {
        assert(s[j + 1] == a[j + 1 - (y + 2)]);
    }
    last_colons_are(s, x, y);
    assert(s.skip(y + 2) =~= a + c + b);
    let t = a + c + b;
    let z = a.len() as int;
    assert(colons_at(t, z));
    assert forall|j: int| z < j && j + 2 <= t.len() implies !#[trigger] colons_at(t, j) by {
        assert(t[j + 1] == b[j + 1 - (z + 2)]);
    }
    last_colons_are(t, t.len() as int, z);
    assert forall|j: int| -2 < j && j + 2 <= z implies !#[trigger] colons_at(t, j) by {
        if j >= 0 {
            assert(t[j] == a[j]);
        }
    }
    last_colons_are(t, z, -2);
    assert forall|j: int| -2 < j && j + 2 <= a.len() implies !#[trigger] colons_at(a, j) by {
    }
    last_colons_are(a, a.len() as int, -2);
}

} // verus!
