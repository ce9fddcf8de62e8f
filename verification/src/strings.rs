//! Taking text apart.
use vstd::prelude::*;
use vstd::string::*;
use vstd::utf8::*;

use crate::text::{self, chars_of, parse_number, same_text, text_of};

verus! {

/// The text that the standard library makes of bytes that may not be UTF-8.
pub uninterp spec fn lossy(bytes: Seq<u8>) -> Seq<char>;

/// `String::from_utf8_lossy`: the text that the bytes encode, with replacement
/// characters for what is not UTF-8. Bytes that are valid UTF-8 are decoded as
/// they are.
#[verifier::external_body]
pub(crate) fn lossy_text(bytes: &Vec<u8>) -> (r: String)
    ensures
        r@ == lossy(bytes@),
        valid_utf8(bytes@) ==> r@ == decode_utf8(bytes@),
{
    String::from_utf8_lossy(bytes).into_owned()
}

/// The text of bytes that may not be UTF-8: what they encode, or else what they
/// become with replacement characters.
pub open spec fn shown(bytes: Seq<u8>) -> Seq<char> {
    if valid_utf8(bytes) {
        decode_utf8(bytes)
    } else {
        lossy(bytes)
    }
}

/// `str::from_utf8`: whether the bytes are valid UTF-8.
#[verifier::external_body]
pub(crate) fn is_utf8(bytes: &Vec<u8>) -> (r: bool)
    ensures
        r == valid_utf8(bytes@),
{
    std::str::from_utf8(bytes).is_ok()
}

/// Whether a character is white space.
pub open spec fn is_space(c: char) -> bool {
    let n = c as u32;
    9 <= n <= 13 || n == 32 || n == 0x85 || n == 0xa0 || n == 0x1680 || 0x2000 <= n <= 0x200a || n
        == 0x2028 || n == 0x2029 || n == 0x202f || n == 0x205f || n == 0x3000
}

pub fn space(c: char) -> (r: bool)
    ensures
        r == is_space(c),
{
    let n: u32 = c as u32;
    (9 <= n && n <= 13) || n == 32 || n == 0x85 || n == 0xa0 || n == 0x1680 || (0x2000 <= n && n
        <= 0x200a) || n == 0x2028 || n == 0x2029 || n == 0x202f || n == 0x205f || n == 0x3000
}

/// What is cut off at the ends of a text.
#[derive(Clone, Copy, Debug, PartialEq, Eq, Structural)]
pub enum Strip {
    Space,
    Only(char),
}

impl Strip {
    pub open spec fn spec_cuts(self, c: char) -> bool {
        match self {
            Strip::Space => is_space(c),
            Strip::Only(x) => c == x,
        }
    }

    fn cuts(self, c: char) -> (r: bool)
        ensures
            r == self.spec_cuts(c),
    {
        match self {
            Strip::Space => space(c),
            Strip::Only(x) => c == x,
        }
    }
}

/// A text without what is cut off at its start.
pub open spec fn strip_start(s: Seq<char>, what: Strip) -> Seq<char>
    decreases s.len(),
{
    if s.len() > 0 && what.spec_cuts(s[0]) {
        strip_start(s.skip(1), what)
    } else {
        s
    }
}

/// A text without what is cut off at its end.
pub open spec fn strip_end(s: Seq<char>, what: Strip) -> Seq<char>
    decreases s.len(),
{
    if s.len() > 0 && what.spec_cuts(s.last()) {
        strip_end(s.drop_last(), what)
    } else {
        s
    }
}

/// A text without what is cut off at both ends.
pub open spec fn strip(s: Seq<char>, what: Strip) -> Seq<char> {
    strip_end(strip_start(s, what), what)
}

/// Nothing that is cut off is left at either end, and what lies between the ends is
/// kept.
pub proof fn strip_cuts_ends(a: Seq<char>, s: Seq<char>, b: Seq<char>, what: Strip)
    requires
        forall|i: int| 0 <= i < a.len() ==> what.spec_cuts(#[trigger] a[i]),
        forall|i: int| 0 <= i < b.len() ==> what.spec_cuts(#[trigger] b[i]),
        s.len() > 0,
        !what.spec_cuts(s[0]),
        !what.spec_cuts(s.last()),
    ensures
        strip(a + s + b, what) == s,
        strip_start(a + s + b, what) == s + b,
    decreases a.len() + b.len(),
{
    if a.len() > 0 {
        assert((a + s + b).skip(1) =~= a.skip(1) + s + b);
        assert(what.spec_cuts(a[0]));
        assert forall|i: int| 0 <= i < a.skip(1).len() implies what.spec_cuts(
            #[trigger] a.skip(1)[i],
        ) by {
            assert(a.skip(1)[i] == a[i + 1]);
        }
        strip_cuts_ends(a.skip(1), s, b, what);
    } else {
        assert(a + s + b =~= s + b);
        assert((s + b)[0] == s[0]);
        if b.len() > 0 {
            assert((s + b).drop_last() =~= s + b.drop_last());
            assert(what.spec_cuts(b[b.len() - 1]));
            assert forall|i: int| 0 <= i < b.drop_last().len() implies what.spec_cuts(
                #[trigger] b.drop_last()[i],
            ) by {
                assert(b.drop_last()[i] == b[i]);
            }
            strip_cuts_ends(a, s, b.drop_last(), what);
            assert(a + s + b.drop_last() =~= s + b.drop_last());
        } else {
            assert(s + b =~= s);
        }
    }
}

fn start_of(s: &Vec<char>, what: Strip) -> (r: usize)
    ensures
        r <= s.len(),
        strip_start(s@, what) == s@.skip(r as int),
{
    let mut i: usize = 0;
    assert(s@.skip(0) =~= s@);
    while i < s.len() && what.cuts(s[i])
        invariant
            i <= s.len(),
            strip_start(s@, what) == strip_start(s@.skip(i as int), what),
        decreases s.len() - i,
    {
        assert(s@.skip(i as int).skip(1) =~= s@.skip(i + 1));
        i += 1;
    }
    i
}

/// Cuts off the start of a text.
pub fn trim_start(s: &str) -> (r: String)
    ensures
        r@ == strip_start(s@, Strip::Space),
{
    let v = chars_of(s);
    let i: usize = start_of(&v, Strip::Space);
    text_of(&v, i, v.len())
}

/// Cuts off both ends of a text.
pub fn trim(s: &str, what: Strip) -> (r: String)
    ensures
        r@ == strip(s@, what),
{
    let v = chars_of(s);
    let i: usize = start_of(&v, what);
    let mut j: usize = v.len();
    assert(v@.subrange(i as int, j as int) =~= v@.skip(i as int));
    while j > i && what.cuts(v[j - 1])
        invariant
            i <= j <= v.len(),
            strip_end(v@.skip(i as int), what) == strip_end(
                v@.subrange(i as int, j as int),
                what,
            ),
        decreases j,
    {
        assert(v@.subrange(i as int, j as int).drop_last() =~= v@.subrange(i as int, j - 1));
        j -= 1;
    }
    text_of(&v, i, j)
}

/// Splits a text at each `sep`.
pub fn split_text(s: &str, sep: char) -> (r: Vec<String>)
    ensures
        text::texts(r@) == text::split(s@, sep),
{
    let v = chars_of(s);
    let mut r: Vec<String> = Vec::new();
    let mut from: usize = 0;
    let mut i: usize = 0;
    assert(text::split(v@.take(0), sep) =~= seq![Seq::<char>::empty()]);
    while i < v.len()
        invariant
            from <= i <= v.len(),
            text::texts(r@).push(v@.subrange(from as int, i as int)) =~~= text::split(
                v@.take(i as int),
                sep,
            ),
        decreases v.len() - i,
    {
        let ghost before = text::texts(r@).push(v@.subrange(from as int, i as int));
        assert(v@.take(i + 1).drop_last() =~= v@.take(i as int));
        assert(v@.take(i + 1).last() == v@[i as int]);
        assert(before.drop_last() =~= text::texts(r@));
        if v[i] == sep {
            r.push(text_of(&v, from, i));
            from = i + 1;
            assert(text::texts(r@) =~= before);
            assert(v@.subrange(from as int, i + 1) =~= Seq::empty());
        } else {
            assert(v@.subrange(from as int, i + 1) =~= v@.subrange(from as int, i as int).push(
                v@[i as int],
            ));
        }
        i += 1;
    }
    let ghost before = text::texts(r@).push(v@.subrange(from as int, i as int));
    r.push(text_of(&v, from, i));
    assert(text::texts(r@) =~= before);
    assert(v@.take(i as int) =~= v@);
    r
}

/// The position of the first `sep`, or the length.
pub open spec fn first_of(s: Seq<char>, sep: char) -> int
    decreases s.len(),
{
    if s.len() == 0 {
        0
    } else if s[0] == sep {
        0
    } else {
        1 + first_of(s.skip(1), sep)
    }
}

/// What comes before the first `sep` and what comes after it.
pub open spec fn split_at_first(s: Seq<char>, sep: char) -> Option<(Seq<char>, Seq<char>)> {
    let i = first_of(s, sep);
    if i < s.len() {
        Some((s.subrange(0, i), s.subrange(i + 1, s.len() as int)))
    } else {
        None
    }
}

proof fn first_of_at(a: Seq<char>, b: Seq<char>, sep: char)
    requires
        !a.contains(sep),
    ensures
        first_of(a + seq![sep] + b, sep) == a.len(),
        first_of(a, sep) == a.len(),
    decreases a.len(),
{
    if a.len() > 0 {
        let rest = a.skip(1);
        assert forall|i: int| 0 <= i < rest.len() implies #[trigger] rest[i] != sep by {
            assert(a.contains(a[i + 1]));
        }
        first_of_at(rest, b, sep);
        assert((a + seq![sep] + b).skip(1) =~= rest + seq![sep] + b);
        assert(a.contains(a[0]));
    }
}

/// A text is split at its first `sep`, and only there.
pub proof fn first_separator_splits(a: Seq<char>, b: Seq<char>, sep: char)
    requires
        !a.contains(sep),
    ensures
        split_at_first(a + seq![sep] + b, sep) == Some((a, b)),
        split_at_first(a, sep) is None,
{
    let s = a + seq![sep] + b;
    first_of_at(a, b, sep);
    assert(s.subrange(0, a.len() as int) =~= a);
    assert(s.subrange(a.len() as int + 1, s.len() as int) =~= b);
}

/// Splits a text at the first `sep`.
pub fn split_once(s: &str, sep: char) -> (r: Option<(String, String)>)
    ensures
        match split_at_first(s@, sep) {
            Some((a, b)) => r matches Some((x, y)) && x@ == a && y@ == b,
            None => r is None,
        },
{
    let v = chars_of(s);
    let mut i: usize = 0;
    assert(v@.skip(0) =~= v@);
    while i < v.len()
        invariant
            v@ == s@,
            i <= v.len(),
            first_of(v@, sep) == i + first_of(v@.skip(i as int), sep),
        decreases v.len() - i,
    {
        if v[i] == sep {
            return Some((text_of(&v, 0, i), text_of(&v, i + 1, v.len())));
        }
        assert(v@.skip(i as int).skip(1) =~= v@.skip(i + 1));
        i += 1;
    }
    None
}

/// Whether a text holds a character.
pub fn holds_char(s: &str, c: char) -> (r: bool)
    ensures
        r == s@.contains(c),
{
    let v = chars_of(s);
    let mut i: usize = 0;
    while i < v.len()
        invariant
            v@ == s@,
            i <= v.len(),
            forall|k: int| 0 <= k < i ==> v@[k] != c,
        decreases v.len() - i,
    {
        if v[i] == c {
            assert(s@[i as int] == c);
            return true;
        }
        i += 1;
    }
    false
}

/// Whether a text starts with another.
pub open spec fn begins(s: Seq<char>, prefix: Seq<char>) -> bool {
    prefix.len() <= s.len() && s.subrange(0, prefix.len() as int) == prefix
}

pub fn begins_with(s: &str, prefix: &str) -> (r: bool)
    ensures
        r == begins(s@, prefix@),
{
    let a = chars_of(s);
    let b = chars_of(prefix);
    if b.len() > a.len() {
        return false;
    }
    same_text(text_of(&a, 0, b.len()).as_str(), prefix)
}

/// What "true" and "false" stand for.
pub open spec fn parsed_bool(s: Seq<char>) -> Option<bool> {
    if s == "true"@ {
        Some(true)
    } else if s == "false"@ {
        Some(false)
    } else {
        None
    }
}

pub fn parse_bool(s: &str) -> (r: Option<bool>)
    ensures
        r == parsed_bool(s@),
{
    if same_text(s, "true") {
        Some(true)
    } else if same_text(s, "false") {
        Some(false)
    } else {
        None
    }
}

/// The number with an optional sign that a text denotes, if it fits into 32
/// bits.
pub open spec fn parsed_i32(s: Seq<char>) -> Option<int> {
    if s.len() > 0 && s[0] == '-' {
        let d = s.skip(1);
        if d.len() > 0 && text::all_digits(d) && text::digits_value(d) <= 0x8000_0000 {
            Some(-(text::digits_value(d) as int))
        } else {
            None
        }
    } else {
        match text::parsed_number(s, 0x7fff_ffff) {
            Some(n) => Some(n as int),
            None => None,
        }
    }
}

pub fn parse_i32(s: &str) -> (r: Option<i32>)
    ensures
        r is Some <==> parsed_i32(s@) is Some,
        r matches Some(n) ==> n == parsed_i32(s@)->0,
{
    let v = chars_of(s);
    if v.len() > 0 && v[0] == '-' {
        if v.len() > 1 && v[1] == '+' {
            assert(s@.skip(1)[0] == '+');
            assert(!text::is_digit(s@.skip(1)[0]));
            return None;
        }
        let digits = chars_of(text_of(&v, 1, v.len()).as_str());
        assert(digits@ =~= s@.skip(1));
        match parse_number(&digits, 0x8000_0000) {
            Some(n) => Some((0 - n as i64) as i32),
            None => None,
        }
    } else {
        match parse_number(&v, 0x7fff_ffff) {
            Some(n) => Some(n as i32),
            None => None,
        }
    }
}

/// The lines of a text, without their ends. Only a complete line end takes a
/// carriage return with it, and nothing follows the last one.
pub open spec fn lines_of(s: Seq<u8>) -> Seq<Seq<u8>> {
    let runs = text::split(s, 10u8);
    let full = Seq::new((runs.len() - 1) as nat, |i: int| without_return(runs[i]));
    if runs.last().len() == 0 {
        full
    } else {
        full.push(runs.last())
    }
}

/// A line without the carriage return at its end.
pub open spec fn without_return(line: Seq<u8>) -> Seq<u8> {
    if line.len() > 0 && line.last() == 13 {
        line.drop_last()
    } else {
        line
    }
}

/// Splits a text into its lines.
pub fn lines(s: &Vec<u8>) -> (r: Vec<Vec<u8>>)
    ensures
        text::views(r@) == lines_of(s@),
{
    let runs = text::split_bytes(s, 10);
    proof {
        text::split_nonempty(s@, 10u8);
    }
    let ghost spec_runs = text::split(s@, 10u8);
    let n: usize = runs.len() - 1;
    let mut r: Vec<Vec<u8>> = Vec::new();
    let mut i: usize = 0;
    while i < n
        invariant
            n + 1 == runs.len(),
            i <= n,
            text::views(runs@) == spec_runs,
            text::views(r@) =~= Seq::new(i as nat, |k: int| without_return(spec_runs[k])),
        decreases n - i,
    {
        let mut line = text::copy_bytes(&runs[i]);
        assert(line@ == spec_runs[i as int]);
        let len: usize = line.len();
        if len > 0 && line[len - 1] == 13 {
            let _ = line.pop();
            assert(line@ =~= spec_runs[i as int].drop_last());
        }
        let ghost before = text::views(r@);
        r.push(line);
        assert(text::views(r@) =~= before.push(line@));
        i += 1;
    }
    assert(runs@[n as int]@ == spec_runs.last());
    if runs[n].len() > 0 {
        let ghost before = text::views(r@);
        r.push(text::copy_bytes(&runs[n]));
        assert(text::views(r@) =~= before.push(spec_runs.last()));
    }
    r
}

/// Compares two texts character by character.
pub fn compare_texts(a: &str, b: &str) -> (r: crate::order::Order)
    ensures
        r == crate::order::byte_order(encode_utf8(a@), encode_utf8(b@)),
{
    crate::order::compare_bytes(&a.as_bytes_vec(), &b.as_bytes_vec())
}

/// A number in decimal notation is read back, with a minus sign as a negative one, as
/// long as it fits into 32 bits.
pub proof fn signed_round_trip(n: nat)
    ensures
        parsed_i32(text::decimal(n)) == (if n <= 2147483647 {
            Some(n as int)
        } else {
            None
        }),
        parsed_i32(seq!['-'] + text::decimal(n)) == (if n <= 2147483648 {
            Some(-(n as int))
        } else {
            None
        }),
{
    text::decimal_round_trip(n, 0x7fff_ffff);
    let d = text::decimal(n);
    assert(text::is_digit(d[0]));
    assert((seq!['-'] + d).skip(1) =~= d);
}

proof fn split_first(x: Seq<u8>, y: Seq<u8>)
    requires
        !x.contains(10u8),
    ensures
        text::split(x + seq![10u8] + y, 10u8) == seq![x] + text::split(y, 10u8),
    decreases y.len(),
{
    let whole = x + seq![10u8] + y;
    text::split_single(x, 10u8);
    if y.len() == 0 {
        assert(whole =~= x.push(10u8));
        assert(whole.drop_last() =~= x);
        assert(text::split(y, 10u8) =~= seq![Seq::<u8>::empty()]);
        assert(text::split(whole, 10u8) =~= seq![x] + text::split(y, 10u8));
    } else {
        let front = y.drop_last();
        split_first(x, front);
        text::split_nonempty(front, 10u8);
        assert(whole.drop_last() =~= x + seq![10u8] + front);
        assert(whole.last() == y.last());
        let v = text::split(front, 10u8);
        assert((seq![x] + v).drop_last() =~= seq![x] + v.drop_last());
        assert((seq![x] + v).last() == v.last());
        assert(text::split(whole, 10u8) =~= seq![x] + text::split(y, 10u8));
    }
}

/// A text is read line by line, whether its lines end with a line feed alone or with a
/// carriage return before it. A last line needs no end.
pub proof fn read_line_by_line(line: Seq<u8>, rest: Seq<u8>)
    requires
        !line.contains(10u8),
        line.len() == 0 || line.last() != 13,
    ensures
        lines_of(line + seq![10u8] + rest) == seq![line] + lines_of(rest),
        lines_of(line + seq![13u8, 10u8] + rest) == seq![line] + lines_of(rest),
        line.len() > 0 ==> lines_of(line) == seq![line],
        lines_of(Seq::empty()) == Seq::<Seq<u8>>::empty(),
{
    first_line(line, rest);
    let ended = line.push(13u8);
    assert forall|i: int| 0 <= i < ended.len() implies #[trigger] ended[i] != 10 by {
        if i < line.len() {
            assert(line.contains(line[i]));
        }
    }
    first_line(ended, rest);
    assert(ended + seq![10u8] + rest =~= line + seq![13u8, 10u8] + rest);
    assert(ended.drop_last() =~= line);
    text::split_single(line, 10u8);
    if line.len() > 0 {
        assert(lines_of(line) =~= seq![line]);
    }
    text::split_single(Seq::<u8>::empty(), 10u8);
    assert(lines_of(Seq::empty()) =~= Seq::<Seq<u8>>::empty());
}

proof fn first_line(line: Seq<u8>, rest: Seq<u8>)
    requires
        !line.contains(10u8),
    ensures
        lines_of(line + seq![10u8] + rest) == seq![without_return(line)] + lines_of(rest),
{
    split_first(line, rest);
    let v = text::split(rest, 10u8);
    text::split_nonempty(rest, 10u8);
    let runs = seq![line] + v;
    assert(runs.last() == v.last());
    let full = Seq::new((runs.len() - 1) as nat, |i: int| without_return(runs[i]));
    let rest_full = Seq::new((v.len() - 1) as nat, |i: int| without_return(v[i]));
    assert(full =~= seq![without_return(line)] + rest_full);
    assert(lines_of(line + seq![10u8] + rest) =~= seq![without_return(line)] + lines_of(rest));
}

} // verus!
