//! Finding free names for files that would collide with others.
use ahash::AHashMap;
use vstd::prelude::*;
use vstd::string::*;
use vstd::utf8::*;

use crate::collections::{self, get_pair, set_pair};
use crate::path::{self, FilePath};
use crate::patterns::{self, captures};
use crate::text::{self, append_bytes, copy_bytes, decimal_string, parse_number};

verus! {

/// The word that is added to a name to tell it from others.
#[derive(Clone, Copy, Debug, PartialEq, Eq, Structural)]
pub enum Fragment {
    Copy,
    Copied,
    Moved,
}

impl Fragment {
    pub open spec fn spec_text(self) -> Seq<char> {
        match self {
            Fragment::Copy => "copy"@,
            Fragment::Copied => "copied"@,
            Fragment::Moved => "moved"@,
        }
    }

    pub fn text(self) -> (r: &'static str)
        ensures
            r@ == self.spec_text(),
    {
        match self {
            Fragment::Copy => "copy",
            Fragment::Copied => "copied",
            Fragment::Moved => "moved",
        }
    }

    /// The pattern of names that carry a number with this word already.
    pub open spec fn spec_pattern(self) -> Seq<char> {
        match self {
            Fragment::Copy => r"^(.*)( \(copy (\d+)\))(\.[^/]+)?$"@,
            Fragment::Copied => r"^(.*)( \(copied (\d+)\))(\.[^/]+)?$"@,
            Fragment::Moved => r"^(.*)( \(moved (\d+)\))(\.[^/]+)?$"@,
        }
    }

    pub fn pattern(self) -> (r: &'static str)
        ensures
            r@ == self.spec_pattern(),
    {
        match self {
            Fragment::Copy => r"^(.*)( \(copy (\d+)\))(\.[^/]+)?$",
            Fragment::Copied => r"^(.*)( \(copied (\d+)\))(\.[^/]+)?$",
            Fragment::Moved => r"^(.*)( \(moved (\d+)\))(\.[^/]+)?$",
        }
    }
}

/// Where the extension of a name starts, with its dot: at the last dot, unless
/// that is the first character.
pub open spec fn stem_len(name: Seq<u8>) -> nat
    decreases name.len(),
{
    last_dot(name, name.len())
}

/// The position of the last dot among the first `n` bytes but the very first
/// one, or the whole length if there is none.
pub open spec fn last_dot(name: Seq<u8>, n: nat) -> nat
    decreases n,
{
    if n <= 1 {
        name.len()
    } else if name[n - 1] == path::DOT {
        (n - 1) as nat
    } else {
        last_dot(name, (n - 1) as nat)
    }
}

proof fn last_dot_bounds(name: Seq<u8>, n: nat)
    requires
        n <= name.len(),
    ensures
        last_dot(name, n) <= name.len(),
    decreases n,
{
    if n > 1 && name[n - 1] != path::DOT {
        last_dot_bounds(name, (n - 1) as nat);
    }
}

/// The length of a name without its extension.
pub fn file_stem_len(name: &Vec<u8>) -> (r: usize)
    ensures
        r == stem_len(name@),
        r <= name.len(),
{
    proof {
        last_dot_bounds(name@, name@.len());
    }
    let mut n: usize = name.len();
    while n > 1
        invariant
            n <= name.len(),
            stem_len(name@) == last_dot(name@, n as nat),
        decreases n,
    {
        if name[n - 1] == path::DOT {
            return n - 1;
        }
        n -= 1;
    }
    name.len()
}

/// A name taken apart: what comes before the number, what comes after it, and
/// the number.
pub struct NameParts {
    pub prefix: Vec<u8>,
    pub suffix: Vec<u8>,
    pub number: u64,
}

/// The bytes of a text in which every byte stands for a character.
pub open spec fn as_chars(bytes: Seq<u8>) -> Seq<char> {
    Seq::new(bytes.len(), |i: int| bytes[i] as char)
}

fn chars_of_bytes(bytes: &Vec<u8>) -> (r: Vec<char>)
    ensures
        r@ == as_chars(bytes@),
{
    let mut r: Vec<char> = Vec::new();
    let mut i: usize = 0;
    while i < bytes.len()
        invariant
            i <= bytes.len(),
            r@ =~= as_chars(bytes@).take(i as int),
        decreases bytes.len() - i,
    {
        r.push(bytes[i] as char);
        i += 1;
    }
    assert(r@ =~= as_chars(bytes@));
    r
}

/// The number that digits denote, or zero if they denote none that fits.
pub open spec fn number_or_zero(digits: Seq<u8>) -> nat {
    match text::parsed_number(as_chars(digits), u64::MAX as nat) {
        Some(n) => n,
        None => 0,
    }
}

/// How a name is taken apart, given what its fragment's pattern captured: a
/// name that carries a number counts on from it, and any other name gets a
/// number between its stem and its extension.
pub open spec fn parts_of(
    name: Seq<u8>,
    groups: Option<Seq<Option<Seq<u8>>>>,
) -> (Seq<u8>, Seq<u8>, nat) {
    match groups {
        Some(g) if g.len() == 5 && g[1] is Some && g[3] is Some => (
            g[1]->0,
            match g[4] {
                Some(s) => s,
                None => Seq::empty(),
            },
            number_or_zero(g[3]->0),
        ),
        _ => (name.take(stem_len(name) as int), name.skip(stem_len(name) as int), 0),
    }
}

fn slice_of(s: &Vec<u8>, from: usize, to: usize) -> (r: Vec<u8>)
    requires
        from <= to <= s.len(),
    ensures
        r@ == s@.subrange(from as int, to as int),
{
    let mut r: Vec<u8> = Vec::new();
    let mut i: usize = from;
    while i < to
        invariant
            from <= i <= to <= s.len(),
            r@ =~= s@.subrange(from as int, i as int),
        decreases to - i,
    {
        r.push(s[i]);
        i += 1;
    }
    r
}

/// Takes a name apart, given what its fragment's pattern captured.
pub fn take_apart(name: &Vec<u8>, groups: Option<Vec<Option<Vec<u8>>>>) -> (r: NameParts)
    ensures
        ({
            let g = match groups {
                Some(g) => Some(patterns::group_views(g@)),
                None => None,
            };
            &&& r.prefix@ == parts_of(name@, g).0
            &&& r.suffix@ == parts_of(name@, g).1
            &&& r.number == parts_of(name@, g).2
        }),
{
    let cut: usize = file_stem_len(name);
    proof {
        assert(name@.take(cut as int) =~= name@.subrange(0, cut as int));
        assert(name@.skip(cut as int) =~= name@.subrange(cut as int, name.len() as int));
    }
    match groups {
        Some(g) => {
            let ghost v = patterns::group_views(g@);
            if g.len() == 5 {
                assert(v[1] == match g@[1] {
                    Some(x) => Some(x@),
                    None => None,
                });
                assert(v[3] == match g@[3] {
                    Some(x) => Some(x@),
                    None => None,
                });
                assert(v[4] == match g@[4] {
                    Some(x) => Some(x@),
                    None => None,
                });
                match (&g[1], &g[3]) {
                    (Some(prefix), Some(digits)) => {
                        let suffix = match &g[4] {
                            Some(s) => copy_bytes(s),
                            None => Vec::new(),
                        };
                        let number: u64 = match parse_number(&chars_of_bytes(digits), u64::MAX) {
                            Some(n) => n,
                            None => 0,
                        };
                        return NameParts { prefix: copy_bytes(prefix), suffix, number };
                    },
                    _ => {},
                }
            }
            NameParts {
                prefix: slice_of(name, 0, cut),
                suffix: slice_of(name, cut, name.len()),
                number: 0,
            }
        },
        None => NameParts {
            prefix: slice_of(name, 0, cut),
            suffix: slice_of(name, cut, name.len()),
            number: 0,
        },
    }
}

/// A name with a number in it.
pub open spec fn numbered(prefix: Seq<u8>, fragment: Fragment, n: nat, suffix: Seq<u8>) -> Seq<u8> {
    name_front(prefix, fragment) + encode_utf8(" "@) + encode_utf8(text::decimal(n)) + encode_utf8(
        ")"@,
    ) + suffix
}

/// The part of a name before its number.
pub open spec fn name_front(prefix: Seq<u8>, fragment: Fragment) -> Seq<u8> {
    prefix + encode_utf8(" ("@) + encode_utf8(fragment.spec_text())
}

fn front_of(prefix: &Vec<u8>, fragment: Fragment) -> (r: Vec<u8>)
    ensures
        r@ == name_front(prefix@, fragment),
{
    let mut r = copy_bytes(prefix);
    append_bytes(&mut r, &" (".as_bytes_vec());
    append_bytes(&mut r, &fragment.text().as_bytes_vec());
    r
}

/// How many numbers are tried one by one.
pub const MAX_LINEAR: u32 = 64;

/// A search for a number that is not taken. First the numbers right after the
/// last one are tried, so that gaps are found that are easy to find; then the
/// rest of all numbers is halved again and again.
#[derive(Clone, Copy, Debug, PartialEq, Eq, Structural)]
pub enum NameSearch {
    /// `n` is tried next, and `left` more after it.
    Linear { n: u64, left: u32 },
    /// The middle between the two is tried next.
    Binary { start: u64, end: u64 },
    /// The last candidate.
    Last { n: u64 },
}

/// What came of one try.
#[derive(Clone, Copy, Debug, PartialEq, Eq, Structural)]
pub enum Tried {
    Found(u64),
    Next(NameSearch),
    /// Every number seems to be taken.
    GiveUp,
}

impl NameSearch {
    pub open spec fn valid(self) -> bool {
        match self {
            NameSearch::Linear { n, left } => n + left <= u64::MAX && left < MAX_LINEAR,
            NameSearch::Binary { start, end } => start < end,
            NameSearch::Last { .. } => true,
        }
    }

    /// The search that goes on from the last number that was used. Close to the
    /// greatest number, fewer are tried one by one.
    pub open spec fn begin(last: int) -> NameSearch {
        let left = if last + MAX_LINEAR <= u64::MAX {
            MAX_LINEAR - 1
        } else {
            u64::MAX - last - 1
        };
        NameSearch::Linear { n: (last + 1) as u64, left: left as u32 }
    }

    /// The search that goes on from the last number that was used.
    pub fn new(last: u64) -> (r: NameSearch)
        requires
            last < u64::MAX,
        ensures
            r == NameSearch::begin(last as int),
            r.valid(),
    {
        let after: u64 = u64::MAX - last - 1;
        let left: u32 = if after >= MAX_LINEAR as u64 {
            MAX_LINEAR - 1
        } else {
            after as u32
        };
        NameSearch::Linear { n: last + 1, left }
    }

    pub open spec fn spec_candidate(self) -> u64 {
        match self {
            NameSearch::Linear { n, .. } => n,
            NameSearch::Binary { start, end } => (start + (end - start) / 2) as u64,
            NameSearch::Last { n } => n,
        }
    }

    /// The number to try.
    pub fn candidate(self) -> (r: u64)
        requires
            self.valid(),
        ensures
            r == self.spec_candidate(),
    {
        match self {
            NameSearch::Linear { n, .. } => n,
            NameSearch::Binary { start, end } => start + (end - start) / 2,
            NameSearch::Last { n } => n,
        }
    }

    /// The search once halving has come down to the range from `start` to
    /// `end`.
    pub open spec fn between(start: u64, end: u64) -> NameSearch {
        if start < end {
            NameSearch::Binary { start, end }
        } else {
            NameSearch::Last { n: start }
        }
    }

    /// What follows from whether the candidate is taken.
    pub open spec fn after(self, taken: bool) -> Tried {
        match self {
            NameSearch::Linear { n, left } => if !taken {
                Tried::Found(n)
            } else if left > 0 {
                Tried::Next(NameSearch::Linear { n: (n + 1) as u64, left: (left - 1) as u32 })
            } else {
                Tried::Next(NameSearch::between(n, u64::MAX))
            },
            NameSearch::Binary { start, end } => {
                let mid = self.spec_candidate();
                if taken {
                    Tried::Next(NameSearch::between((mid + 1) as u64, end))
                } else {
                    Tried::Next(NameSearch::between(start, mid))
                }
            },
            NameSearch::Last { n } => if taken {
                Tried::GiveUp
            } else {
                Tried::Found(n)
            },
        }
    }

    /// The number of tries that are left at most.
    pub open spec fn measure(self) -> (int, int) {
        match self {
            NameSearch::Linear { left, .. } => (2, left as int),
            NameSearch::Binary { start, end } => (1, end - start),
            NameSearch::Last { .. } => (0, 0),
        }
    }

    /// Goes on with the answer to whether the candidate is taken.
    pub fn answer(self, taken: bool) -> (r: Tried)
        requires
            self.valid(),
        ensures
            r == self.after(taken),
            r matches Tried::Next(s) ==> s.valid(),
    {
        match self {
            NameSearch::Linear { n, left } => {
                if !taken {
                    return Tried::Found(n);
                }
                if left > 0 {
                    return Tried::Next(NameSearch::Linear { n: n + 1, left: left - 1 });
                }
                if n < u64::MAX {
                    Tried::Next(NameSearch::Binary { start: n, end: u64::MAX })
                } else {
                    Tried::Next(NameSearch::Last { n })
                }
            },
            NameSearch::Binary { start, end } => {
                let mid: u64 = start + (end - start) / 2;
                if taken {
                    let start: u64 = mid + 1;
                    if start < end {
                        Tried::Next(NameSearch::Binary { start, end })
                    } else {
                        Tried::Next(NameSearch::Last { n: start })
                    }
                } else if start < mid {
                    Tried::Next(NameSearch::Binary { start, end: mid })
                } else {
                    Tried::Next(NameSearch::Last { n: start })
                }
            },
            NameSearch::Last { n } => {
                if taken {
                    Tried::GiveUp
                } else {
                    Tried::Found(n)
                }
            },
        }
    }
}

/// A number is only found when it was the candidate and it was not taken.
pub proof fn found_is_free(s: NameSearch, taken: bool)
    ensures
        s.after(taken) matches Tried::Found(n) ==> n == s.spec_candidate() && !taken,
{
}

/// Every search comes to an end.
pub proof fn search_ends(s: NameSearch, taken: bool)
    requires
        s.valid(),
    ensures
        s.after(taken) matches Tried::Next(next) ==> next.measure().0 < s.measure().0 || (
        next.measure().0 == s.measure().0 && 0 <= next.measure().1 < s.measure().1),
{
}

/// A new search finds the first free number, if one of the numbers right after
/// the last one is free.
pub proof fn finds_first_gap(s: NameSearch, taken: spec_fn(u64) -> bool, gap: u64)
    requires
        s.valid(),
        s matches NameSearch::Linear { n, left } && n <= gap <= n + left,
        !taken(gap),
        forall|m: u64| s.spec_candidate() <= m < gap ==> #[trigger] taken(m),
    ensures
        run_linear(s, taken) == Some(gap),
    decreases s.measure().1,
{
    if s.spec_candidate() < gap {
        if let Tried::Next(next) = s.after(taken(s.spec_candidate())) {
            finds_first_gap(next, taken, gap);
        }
    }
}

/// What trying numbers one by one finds, when `taken` answers.
pub open spec fn run_linear(s: NameSearch, taken: spec_fn(u64) -> bool) -> Option<u64>
    decreases s.measure().1,
{
    match s {
        NameSearch::Linear { n, left } => if !taken(n) {
            Some(n)
        } else if left > 0 && left < MAX_LINEAR {
            run_linear(
                NameSearch::Linear { n: (n + 1) as u64, left: (left - 1) as u32 },
                taken,
            )
        } else {
            None
        },
        _ => None,
    }
}

/// The least number that a search can still find.
pub open spec fn least(s: NameSearch) -> u64 {
    match s {
        NameSearch::Linear { n, .. } => n,
        NameSearch::Binary { start, .. } => start,
        NameSearch::Last { n } => n,
    }
}

/// What a search finds, when `taken` answers.
pub open spec fn run(s: NameSearch, taken: spec_fn(u64) -> bool) -> Option<u64>
    decreases s.measure().0, s.measure().1,
{
    if !s.valid() {
        None
    } else {
        match s.after(taken(s.spec_candidate())) {
            Tried::Found(n) => Some(n),
            Tried::Next(next) => run(next, taken),
            Tried::GiveUp => None,
        }
    }
}

/// What a search finds is free, and not below the numbers that were left to it.
pub proof fn found_is_above(s: NameSearch, taken: spec_fn(u64) -> bool)
    requires
        s.valid(),
    ensures
        run(s, taken) matches Some(n) ==> n >= least(s) && !taken(n),
    decreases s.measure().0, s.measure().1,
{
    if let Tried::Next(next) = s.after(taken(s.spec_candidate())) {
        found_is_above(next, taken);
    }
}

/// The path next to another one with a number in its name.
pub open spec fn numbered_path(
    path: Seq<Seq<u8>>,
    parts: (Seq<u8>, Seq<u8>, nat),
    fragment: Fragment,
    n: nat,
) -> Seq<Seq<u8>> {
    path.drop_last().push(numbered(parts.0, fragment, n, parts.1))
}

/// The number that is found for a path, when `exists_at` says which paths exist.
pub open spec fn found_number(
    path: Seq<Seq<u8>>,
    fragment: Fragment,
    known: Map<(Seq<u8>, Seq<u8>), u64>,
    exists_at: spec_fn(Seq<Seq<u8>>) -> bool,
) -> Option<u64> {
    let parts = parts_of(path.last(), name_groups(path.last(), fragment));
    let last = last_number(path.drop_last(), parts, fragment, known);
    if path.len() == 0 || path.last() == seq![path::DOT, path::DOT] || last >= u64::MAX {
        None
    } else {
        run(
            NameSearch::begin(last as int),
            |n: u64| exists_at(numbered_path(path, parts, fragment, n as nat)),
        )
    }
}

/// The new name for a path.
pub open spec fn found_path(
    path: Seq<Seq<u8>>,
    fragment: Fragment,
    known: Map<(Seq<u8>, Seq<u8>), u64>,
    exists_at: spec_fn(Seq<Seq<u8>>) -> bool,
) -> Option<Seq<Seq<u8>>> {
    let parts = parts_of(path.last(), name_groups(path.last(), fragment));
    match found_number(path, fragment, known, exists_at) {
        Some(n) => Some(numbered_path(path, parts, fragment, n as nat)),
        None => None,
    }
}

/// A new name is free and in the same directory, and its number is greater than
/// the last one. It is not that of the path if the path exists, or if it carried
/// no number.
pub proof fn new_name_is_free(
    path: Seq<Seq<u8>>,
    fragment: Fragment,
    known: Map<(Seq<u8>, Seq<u8>), u64>,
    exists_at: spec_fn(Seq<Seq<u8>>) -> bool,
)
    ensures
        found_path(path, fragment, known, exists_at) matches Some(p) ==> !exists_at(p)
            && p.drop_last() == path.drop_last(),
        exists_at(path) || name_groups(path.last(), fragment) is None ==> found_path(
            path,
            fragment,
            known,
            exists_at,
        ) != Some(path),
        found_number(path, fragment, known, exists_at) matches Some(n) ==> n > last_number(
            path.drop_last(),
            parts_of(path.last(), name_groups(path.last(), fragment)),
            fragment,
            known,
        ),
{
    let parts = parts_of(path.last(), name_groups(path.last(), fragment));
    let last = last_number(path.drop_last(), parts, fragment, known);
    if let Some(n) = found_number(path, fragment, known, exists_at) {
        let taken = |n: u64| exists_at(numbered_path(path, parts, fragment, n as nat));
        found_is_above(NameSearch::begin(last as int), taken);
        assert(!taken(n));
        let p = numbered_path(path, parts, fragment, n as nat);
        assert(p.drop_last() =~= path.drop_last());
        if name_groups(path.last(), fragment) is None {
            last_dot_bounds(path.last(), path.last().len());
            decimal_len(n as nat);
            assert(p.last().len() > path.last().len()) by {
                reveal_strlit(" ");
                is_ascii_chars_encode_utf8(" "@);
            }
        }
    }
}

proof fn digits_differ(a: nat, b: nat)
    requires
        a < 10,
        b < 10,
        text::digit(a) == text::digit(b),
    ensures
        a == b,
{
}

proof fn decimals_differ(a: nat, b: nat)
    requires
        text::decimal(a) == text::decimal(b),
    ensures
        a == b,
    decreases a,
{
    let (x, y) = (text::decimal(a), text::decimal(b));
    decimal_len(a);
    decimal_len(b);
    assert(x.last() == y.last());
    if a < 10 {
        digits_differ(a, b % 10);
    } else {
        digits_differ(a % 10, b % 10);
        assert(x.drop_last() =~= text::decimal(a / 10));
        assert(y.drop_last() =~= text::decimal(b / 10));
        decimals_differ(a / 10, b / 10);
    }
}

proof fn decimal_len(n: nat)
    ensures
        n < 10 ==> text::decimal(n).len() == 1,
        n >= 10 ==> text::decimal(n).len() >= 2,
    decreases n,
{
    if n >= 10 {
        decimal_len(n / 10);
    }
}

/// Names with different numbers differ.
pub proof fn numbers_tell_apart(prefix: Seq<u8>, fragment: Fragment, suffix: Seq<u8>, a: nat, b: nat)
    requires
        numbered(prefix, fragment, a, suffix) == numbered(prefix, fragment, b, suffix),
    ensures
        a == b,
{
    let front = name_front(prefix, fragment) + encode_utf8(" "@);
    let (x, y) = (encode_utf8(text::decimal(a)), encode_utf8(text::decimal(b)));
    let (n, m) = (numbered(prefix, fragment, a, suffix), numbered(prefix, fragment, b, suffix));
    assert(n.len() == m.len());
    assert(x =~= n.subrange(front.len() as int, (front.len() + x.len()) as int));
    assert(y =~= m.subrange(front.len() as int, (front.len() + y.len()) as int));
    encode_utf8_decode_utf8(text::decimal(a));
    encode_utf8_decode_utf8(text::decimal(b));
    decimals_differ(a, b);
}

/// Two names that are found in a row for a path differ, even if nothing was
/// created under the first one, as the number of the first one is remembered.
pub proof fn names_in_a_row_differ(
    path: Seq<Seq<u8>>,
    fragment: Fragment,
    known: Map<(Seq<u8>, Seq<u8>), u64>,
    first: spec_fn(Seq<Seq<u8>>) -> bool,
    second: spec_fn(Seq<Seq<u8>>) -> bool,
)
    requires
        found_number(path, fragment, known, first) is Some,
    ensures
        ({
            let n = found_number(path, fragment, known, first)->0;
            let parts = parts_of(path.last(), name_groups(path.last(), fragment));
            let key = collision_key(path.drop_last(), parts.0, fragment, parts.1);
            let then = known.insert(key, n);
            &&& found_number(path, fragment, then, second) matches Some(m) ==> m > n
            &&& found_path(path, fragment, then, second) matches Some(p) ==> p != found_path(
                path,
                fragment,
                known,
                first,
            )->0
        }),
{
    let n = found_number(path, fragment, known, first)->0;
    let parts = parts_of(path.last(), name_groups(path.last(), fragment));
    let key = collision_key(path.drop_last(), parts.0, fragment, parts.1);
    let then = known.insert(key, n);
    if let Some(m) = found_number(path, fragment, then, second) {
        let taken = |n: u64| second(numbered_path(path, parts, fragment, n as nat));
        found_is_above(NameSearch::begin(n as int), taken);
        let (p, q) = (
            numbered_path(path, parts, fragment, n as nat),
            numbered_path(path, parts, fragment, m as nat),
        );
        if p == q {
            assert(p.last() == q.last());
            numbers_tell_apart(parts.0, fragment, parts.1, n as nat, m as nat);
        }
    }
}

proof fn last_dot_from(name: Seq<u8>, n: nat, at: nat)
    requires
        0 < at < n <= name.len(),
        name[at as int] == 46,
        forall|i: int| at < i < n ==> #[trigger] name[i] != 46,
    ensures
        last_dot(name, n) == at,
    decreases n,
{
    if n - 1 > at {
        last_dot_from(name, (n - 1) as nat, at);
    }
}

proof fn no_last_dot(name: Seq<u8>, n: nat)
    requires
        n <= name.len(),
        forall|i: int| 0 < i < n ==> #[trigger] name[i] != 46,
    ensures
        last_dot(name, n) == name.len(),
    decreases n,
{
    if n > 1 {
        no_last_dot(name, (n - 1) as nat);
    }
}

/// The extension of a name is what follows its last dot. A name without one, or with
/// one only at its start, has none.
pub proof fn stem_ends_at_last_dot(stem: Seq<u8>, ext: Seq<u8>)
    requires
        !ext.contains(46),
    ensures
        stem.len() > 0 ==> stem_len(stem + seq![46u8] + ext) == stem.len(),
        stem_len(seq![46u8] + ext) == ext.len() + 1,
        stem_len(ext) == ext.len(),
{
    let name = stem + seq![46u8] + ext;
    if stem.len() > 0 {
        assert forall|i: int| stem.len() < i < name.len() implies #[trigger] name[i] != 46 by {
            assert(ext.contains(ext[i - stem.len() - 1]));
        }
        last_dot_from(name, name.len(), stem.len());
    }
    let hidden = seq![46u8] + ext;
    assert forall|i: int| 0 < i < hidden.len() implies #[trigger] hidden[i] != 46 by {
        assert(ext.contains(ext[i - 1]));
    }
    no_last_dot(hidden, hidden.len());
    assert forall|i: int| 0 < i < ext.len() implies #[trigger] ext[i] != 46 by {
        assert(ext.contains(ext[i]));
    }
    no_last_dot(ext, ext.len());
}

/// A new name for a file without a number keeps its stem in front and its extension
/// at the end.
pub proof fn extension_is_kept(
    path: Seq<Seq<u8>>,
    stem: Seq<u8>,
    ext: Seq<u8>,
    fragment: Fragment,
    known: Map<(Seq<u8>, Seq<u8>), u64>,
    exists_at: spec_fn(Seq<Seq<u8>>) -> bool,
)
    requires
        path.len() > 0,
        path.last() == stem + seq![46u8] + ext,
        stem.len() > 0,
        !ext.contains(46),
        name_groups(path.last(), fragment) is None,
    ensures
        found_path(path, fragment, known, exists_at) matches Some(p) ==> stem.is_prefix_of(
            p.last(),
        ) && (seq![46u8] + ext).is_suffix_of(p.last()) && p.last().len() > path.last().len(),
{
    stem_ends_at_last_dot(stem, ext);
    let name = path.last();
    assert(name.take(stem.len() as int) =~= stem);
    assert(name.skip(stem.len() as int) =~= seq![46u8] + ext);
    if let Some(n) = found_number(path, fragment, known, exists_at) {
        decimal_len(n as nat);
        assert(encode_utf8(" "@).len() > 0) by {
            reveal_strlit(" ");
            is_ascii_chars_encode_utf8(" "@);
        }
    }
}

/// A name that carries a number is counted on from it, with the same text around it.
pub proof fn counts_on(
    name: Seq<u8>,
    groups: Seq<Option<Seq<u8>>>,
    prefix: Seq<u8>,
    n: u64,
    suffix: Seq<u8>,
)
    requires
        groups.len() == 5,
        groups[1] == Some(prefix),
        groups[3] == Some(encode_utf8(text::decimal(n as nat))),
        groups[4] == Some(suffix) || (groups[4] is None && suffix.len() == 0),
    ensures
        parts_of(name, Some(groups)) == (prefix, suffix, n as nat),
{
    let d = text::decimal(n as nat);
    text::decimal_round_trip(n as nat, u64::MAX as nat);
    assert(is_ascii_chars(d)) by {
        assert forall|i: int| 0 <= i < d.len() implies (#[trigger] d[i] as nat) < 128 by {
            assert(text::is_digit(d[i]));
        }
    }
    is_ascii_chars_encode_utf8(d);
    assert(as_chars(encode_utf8(d)) =~= d);
    assert(suffix.len() == 0 ==> suffix =~= Seq::<u8>::empty());
}

proof fn linear_is_run(s: NameSearch, taken: spec_fn(u64) -> bool)
    requires
        s.valid(),
        run_linear(s, taken) is Some,
    ensures
        run(s, taken) == run_linear(s, taken),
    decreases s.measure().1,
{
    if let NameSearch::Linear { n, left } = s {
        if taken(n) {
            linear_is_run(
                NameSearch::Linear { n: (n + 1) as u64, left: (left - 1) as u32 },
                taken,
            );
        }
    }
}

/// The number of a new name is the first free one after the last that is known, if
/// one of the next 64 is free.
pub proof fn first_free_number(
    path: Seq<Seq<u8>>,
    fragment: Fragment,
    known: Map<(Seq<u8>, Seq<u8>), u64>,
    exists_at: spec_fn(Seq<Seq<u8>>) -> bool,
    last: u64,
    n: u64,
)
    requires
        path.len() > 0,
        path.last() != seq![46u8, 46u8],
        ({
            let parts = parts_of(path.last(), name_groups(path.last(), fragment));
            &&& last == last_number(path.drop_last(), parts, fragment, known)
            &&& last < n <= last + 64
            &&& !exists_at(numbered_path(path, parts, fragment, n as nat))
            &&& forall|m: nat|
                last < m < n ==> exists_at(#[trigger] numbered_path(path, parts, fragment, m))
        }),
    ensures
        found_number(path, fragment, known, exists_at) == Some(n),
{
    let parts = parts_of(path.last(), name_groups(path.last(), fragment));
    let taken = |m: u64| exists_at(numbered_path(path, parts, fragment, m as nat));
    let s = NameSearch::begin(last as int);
    assert forall|m: u64| s.spec_candidate() <= m < n implies #[trigger] taken(m) by {
        assert(exists_at(numbered_path(path, parts, fragment, m as nat)));
    }
    finds_first_gap(s, taken, n);
    linear_is_run(s, taken);
}

/// Where all numbers below some number are taken and the others are free, that number
/// is found, however great it is.
pub proof fn least_free_number(s: NameSearch, taken: spec_fn(u64) -> bool, k: u64)
    requires
        s.valid(),
        forall|m: u64| least(s) <= m ==> (#[trigger] taken(m) <==> m < k),
        match s {
            NameSearch::Linear { n, .. } => n <= k,
            NameSearch::Binary { start, end } => start <= k <= end,
            NameSearch::Last { n } => n == k,
        },
    ensures
        run(s, taken) == Some(k),
    decreases s.measure().0, s.measure().1,
{
    let c = s.spec_candidate();
    assert(taken(c) <==> c < k);
    if let Tried::Next(next) = s.after(taken(c)) {
        search_ends(s, taken(c));
        least_free_number(next, taken, k);
    }
}

/// Everything that is needed to name files after one that collides.
pub struct Renaming {
    pub parent: FilePath,
    pub parts: NameParts,
    pub fragment: Fragment,
    pub search: NameSearch,
}

/// The key under which the last number for a name is remembered.
pub open spec fn collision_key(
    parent: Seq<Seq<u8>>,
    prefix: Seq<u8>,
    fragment: Fragment,
    suffix: Seq<u8>,
) -> (Seq<u8>, Seq<u8>) {
    (path::path_bytes(parent) + encode_utf8("/"@) + name_front(prefix, fragment), suffix)
}

/// The last number that is known to be used for a name: the remembered one, or
/// else the one that the name carries.
pub open spec fn last_number(
    parent: Seq<Seq<u8>>,
    parts: (Seq<u8>, Seq<u8>, nat),
    fragment: Fragment,
    known: Map<(Seq<u8>, Seq<u8>), u64>,
) -> nat {
    let key = collision_key(parent, parts.0, fragment, parts.1);
    if known.dom().contains(key) {
        known[key] as nat
    } else {
        parts.2
    }
}

/// The groups of a name that its fragment's pattern captures.
pub open spec fn name_groups(name: Seq<u8>, fragment: Fragment) -> Option<Seq<Option<Seq<u8>>>> {
    patterns::captured(fragment.spec_pattern(), name)
}

impl Renaming {
    /// The first part of the key under which the last number is remembered.
    fn front_key(parent: &FilePath, prefix: &Vec<u8>, fragment: Fragment) -> (r: Vec<u8>)
        ensures
            r@ == path::path_bytes(parent@) + encode_utf8("/"@) + name_front(prefix@, fragment),
    {
        let mut key = parent.to_bytes();
        append_bytes(&mut key, &"/".as_bytes_vec());
        append_bytes(&mut key, &front_of(prefix, fragment));
        key
    }

    /// Starts looking for a free name next to `path`, given what its fragment's
    /// pattern captured of its name. `None` if the path has no name or parent,
    /// or if there is no greater number than its own.
    pub fn start(
        path: &FilePath,
        fragment: Fragment,
        groups: Option<Vec<Option<Vec<u8>>>>,
        known: &AHashMap<(Vec<u8>, Vec<u8>), u64>,
    ) -> (r: Option<Renaming>)
        ensures
            ({
                let g = match groups {
                    Some(g) => Some(patterns::group_views(g@)),
                    None => None,
                };
                let parts = parts_of(path@.last(), g);
                let last = last_number(
                    path@.drop_last(),
                    parts,
                    fragment,
                    collections::pairs(*known),
                );
                &&& r is Some <==> path@.len() > 0 && path@.last() != seq![path::DOT, path::DOT]
                    && last < u64::MAX
                &&& r matches Some(s) ==> s.parent@ == path@.drop_last() && s.fragment == fragment
                    && s.parts.prefix@ == parts.0 && s.parts.suffix@ == parts.1 && s.search
                    == NameSearch::begin(last as int) && s.search.valid()
            }),
    {
        let name = match path.file_name() {
            Some(n) => n,
            None => {
                return None;
            },
        };
        let parent = match path.parent() {
            Some(p) => p,
            None => {
                return None;
            },
        };
        let parts = take_apart(&name, groups);
        let key = Renaming::front_key(&parent, &parts.prefix, fragment);
        let last: u64 = match get_pair(known, key, copy_bytes(&parts.suffix)) {
            Some(n) => n,
            None => parts.number,
        };
        if last == u64::MAX {
            return None;
        }
        let search = NameSearch::new(last);
        Some(Renaming { parent, parts, fragment, search })
    }

    /// Starts looking for a free name next to `path`.
    pub fn new_name_for(
        path: &FilePath,
        fragment: Fragment,
        known: &AHashMap<(Vec<u8>, Vec<u8>), u64>,
    ) -> (r: Option<Renaming>)
        ensures
            ({
                let parts = parts_of(path@.last(), name_groups(path@.last(), fragment));
                let last = last_number(
                    path@.drop_last(),
                    parts,
                    fragment,
                    collections::pairs(*known),
                );
                &&& r is Some <==> path@.len() > 0 && path@.last() != seq![path::DOT, path::DOT]
                    && last < u64::MAX
                &&& r matches Some(s) ==> s.parent@ == path@.drop_last() && s.fragment == fragment
                    && s.parts.prefix@ == parts.0 && s.parts.suffix@ == parts.1 && s.search
                    == NameSearch::begin(last as int) && s.search.valid()
            }),
    {
        match path.file_name() {
            Some(name) => {
                let groups = captures(fragment.pattern(), &name);
                Renaming::start(path, fragment, groups, known)
            },
            None => None,
        }
    }

    /// The path with the given number.
    pub fn path_for(&self, n: u64) -> (r: FilePath)
        ensures
            r@ == self.parent@.push(
                numbered(self.parts.prefix@, self.fragment, n as nat, self.parts.suffix@),
            ),
    {
        let mut name = front_of(&self.parts.prefix, self.fragment);
        append_bytes(&mut name, &" ".as_bytes_vec());
        append_bytes(&mut name, &decimal_string(n).as_str().as_bytes_vec());
        append_bytes(&mut name, &")".as_bytes_vec());
        append_bytes(&mut name, &self.parts.suffix);
        self.parent.join_name(&name)
    }

    /// Remembers a number that was used.
    pub fn remember(&self, known: &mut AHashMap<(Vec<u8>, Vec<u8>), u64>, n: u64)
        ensures
            collections::pairs(*final(known)) == collections::pairs(*old(known)).insert(
                collision_key(
                    self.parent@,
                    self.parts.prefix@,
                    self.fragment,
                    self.parts.suffix@,
                ),
                n,
            ),
    {
        let key = Renaming::front_key(&self.parent, &self.parts.prefix, self.fragment);
        set_pair(known, key, copy_bytes(&self.parts.suffix), n);
    }
}

/// The numbers of names are counted apart for each directory and for each name: the key
/// under which one is remembered tells the directory and the name.
pub proof fn counted_apart(
    parent: Seq<Seq<u8>>,
    prefix: Seq<u8>,
    suffix: Seq<u8>,
    parent2: Seq<Seq<u8>>,
    prefix2: Seq<u8>,
    suffix2: Seq<u8>,
    fragment: Fragment,
)
    requires
        path::valid_parts(parent),
        path::valid_parts(parent2),
        !prefix.contains(47u8),
        !prefix2.contains(47u8),
        collision_key(parent, prefix, fragment, suffix) == collision_key(
            parent2,
            prefix2,
            fragment,
            suffix2,
        ),
    ensures
        parent == parent2,
        prefix == prefix2,
        suffix == suffix2,
{
    let (front, front2) = (name_front(prefix, fragment), name_front(prefix2, fragment));
    slash_bytes();
    front_is_a_name(prefix, fragment);
    front_is_a_name(prefix2, fragment);
    path::slashes_separate_parts(path::path_bytes(parent), front, front);
    path::slashes_separate_parts(path::path_bytes(parent2), front2, front2);
    path::path_round_trip(parent);
    path::path_round_trip(parent2);
    let (a, b) = (parent + seq![front], parent2 + seq![front2]);
    assert(a == b);
    assert(a.drop_last() =~= parent);
    assert(b.drop_last() =~= parent2);
    assert(a.last() == front && b.last() == front2);
    let word = encode_utf8(" ("@) + encode_utf8(fragment.spec_text());
    assert(front =~= prefix + word);
    assert(front2 =~= prefix2 + word);
    assert(prefix =~= front.take(front.len() - word.len()));
    assert(prefix2 =~= front2.take(front2.len() - word.len()));
}

proof fn slash_bytes()
    ensures
        encode_utf8("/"@) == seq![47u8],
{
    reveal_strlit("/");
    is_ascii_chars_encode_utf8("/"@);
    assert(encode_utf8("/"@) =~= seq![47u8]);
}

proof fn front_is_a_name(prefix: Seq<u8>, fragment: Fragment)
    requires
        !prefix.contains(47u8),
    ensures
        !name_front(prefix, fragment).contains(47u8),
        name_front(prefix, fragment).len() > 1,
{
    reveal_strlit(" (");
    reveal_strlit("copy");
    reveal_strlit("copied");
    reveal_strlit("moved");
    let (open, word) = (" ("@, fragment.spec_text());
    is_ascii_chars_encode_utf8(open);
    is_ascii_chars_encode_utf8(word);
    let front = name_front(prefix, fragment);
    assert forall|i: int| 0 <= i < front.len() implies #[trigger] front[i] != 47 by {
        if i < prefix.len() {
            assert(prefix.contains(prefix[i]));
        } else if i < prefix.len() + open.len() {
            assert(front[i] == encode_utf8(open)[i - prefix.len()]);
        } else {
            assert(front[i] == encode_utf8(word)[i - prefix.len() - open.len()]);
        }
    }
}

/// A number that is remembered for a name changes nothing for another one, nor for the
/// same name in another directory.
pub proof fn remembered_for_one_name(
    parent: Seq<Seq<u8>>,
    parts: (Seq<u8>, Seq<u8>, nat),
    parent2: Seq<Seq<u8>>,
    parts2: (Seq<u8>, Seq<u8>, nat),
    fragment: Fragment,
    known: Map<(Seq<u8>, Seq<u8>), u64>,
    n: u64,
)
    requires
        path::valid_parts(parent),
        path::valid_parts(parent2),
        !parts.0.contains(47u8),
        !parts2.0.contains(47u8),
    ensures
        ({
            let then = known.insert(collision_key(parent, parts.0, fragment, parts.1), n);
            &&& last_number(parent, parts, fragment, then) == n
            &&& parent2 != parent || parts2.0 != parts.0 || parts2.1 != parts.1 ==> last_number(
                parent2,
                parts2,
                fragment,
                then,
            ) == last_number(parent2, parts2, fragment, known)
            &&& last_number(parent2, parts2, fragment, Map::empty()) == parts2.2
        }),
{
    if collision_key(parent, parts.0, fragment, parts.1) == collision_key(
        parent2,
        parts2.0,
        fragment,
        parts2.1,
    ) {
        counted_apart(parent, parts.0, parts.1, parent2, parts2.0, parts2.1, fragment);
    }
}

} // verus!
