//! Natural ordering of file names: case does not matter and runs of digits
//! compare by the numbers they denote.
use vstd::prelude::*;
use vstd::string::*;
use vstd::utf8::*;

use crate::order::{self, compare_bytes, Order};
use crate::strings::{self, lossy_text};
use crate::text::copy_bytes;

verus! {

pub open spec fn ascii_digit(b: u8) -> bool {
    48 <= b <= 57
}

/// A text in lower case, as Unicode has it.
pub uninterp spec fn lowered(text: Seq<char>) -> Seq<char>;

/// An ASCII character in lower case.
pub open spec fn lower_char(c: char) -> char {
    if 'A' <= c <= 'Z' {
        ((c as u8) + 32) as u8 as char
    } else {
        c
    }
}

/// `str::to_lowercase`: the text in lower case, by the rules of Unicode; a
/// function of the text alone. A text of ASCII characters keeps its length, and
/// each of its letters becomes the small one.
#[verifier::external_body]
fn lowered_text(text: &str) -> (r: String)
    ensures
        r@ == lowered(text@),
        (forall|i: int| 0 <= i < text@.len() ==> (#[trigger] text@[i] as u32) < 128) ==> r@
            == Seq::new(text@.len(), |i: int| lower_char(text@[i])),
{
    text.to_lowercase()
}

/// The bytes of a text in lower case.
pub open spec fn lowercase_text(text: Seq<char>) -> Seq<u8> {
    if is_ascii_chars(text) {
        ascii_lowercase(Seq::new(text.len(), |i: int| text[i] as u8))
    } else {
        encode_utf8(lowered(text))
    }
}

/// The bytes of a name in lower case. What is not UTF-8 in it is replaced.
pub open spec fn lowercase(name: Seq<u8>) -> Seq<u8> {
    lowercase_text(strings::shown(name))
}

/// The number of digits at the start of `s`.
pub open spec fn digit_run(s: Seq<u8>) -> nat
    decreases s.len(),
{
    if s.len() > 0 && ascii_digit(s[0]) {
        1 + digit_run(s.drop_first())
    } else {
        0
    }
}

/// A run of digits without its leading zeros.
pub open spec fn significant(run: Seq<u8>) -> Seq<u8>
    decreases run.len(),
{
    if run.len() > 0 && run[0] == 48 {
        significant(run.drop_first())
    } else {
        run
    }
}

/// A number as bytes whose lexicographic order is numeric order: one `9` for
/// each significant digit, a `0`, and then the digits.
pub open spec fn number_key(run: Seq<u8>) -> Seq<u8> {
    let d = significant(run);
    Seq::new(d.len(), |i: int| 57u8) + seq![48u8] + d
}

/// The bytes by which a lower case name is ordered.
pub open spec fn natural_key(s: Seq<u8>) -> Seq<u8>
    decreases s.len(),
{
    if s.len() == 0 {
        Seq::empty()
    } else if ascii_digit(s[0]) {
        let n = digit_run(s);
        if 0 < n <= s.len() {
            number_key(s.take(n as int)) + natural_key(s.skip(n as int))
        } else {
            Seq::empty()
        }
    } else {
        seq![s[0]] + natural_key(s.drop_first())
    }
}

proof fn digit_run_bounds(s: Seq<u8>)
    ensures
        digit_run(s) <= s.len(),
        s.len() > 0 && ascii_digit(s[0]) ==> digit_run(s) > 0,
        forall|i: int| 0 <= i < digit_run(s) ==> ascii_digit(#[trigger] s[i]),
        digit_run(s) < s.len() ==> !ascii_digit(s[digit_run(s) as int]),
    decreases s.len(),
{
    if s.len() > 0 && ascii_digit(s[0]) {
        digit_run_bounds(s.drop_first());
        assert forall|i: int| 0 <= i < digit_run(s) implies ascii_digit(#[trigger] s[i]) by {
            if i > 0 {
                assert(s[i] == s.drop_first()[i - 1]);
            }
        }
        if digit_run(s) < s.len() {
            assert(s[digit_run(s) as int] == s.drop_first()[digit_run(s) - 1]);
        }
    }
}

/// A name together with the key that orders it.
pub struct NatKey {
    pub name: Vec<u8>,
    /// The name in lower case, for searching.
    pub lowercase: Vec<u8>,
    pub key: Vec<u8>,
}

impl NatKey {
    pub open spec fn valid(&self) -> bool {
        &&& self.lowercase@ == lowercase(self.name@)
        &&& self.key@ == natural_key(lowercase(self.name@))
    }

    /// How two names compare.
    pub open spec fn spec_order(&self, other: &NatKey) -> Order {
        order::byte_order(self.key@, other.key@)
    }

    pub fn compare(&self, other: &NatKey) -> (r: Order)
        ensures
            r == self.spec_order(other),
    {
        compare_bytes(&self.key, &other.key)
    }
}

fn append_number(key: &mut Vec<u8>, s: &Vec<u8>, from: usize, to: usize)
    requires
        from <= to <= s.len(),
    ensures
        final(key)@ == old(key)@ + number_key(s@.subrange(from as int, to as int)),
{
    let ghost run = s@.subrange(from as int, to as int);
    let mut first: usize = from;
    assert(s@.subrange(first as int, to as int) =~= run);
    while first < to && s[first] == 48
        invariant
            from <= first <= to <= s.len(),
            significant(run) == significant(s@.subrange(first as int, to as int)),
        decreases to - first,
    {
        assert(s@.subrange(first as int, to as int).drop_first() =~= s@.subrange(
            first + 1,
            to as int,
        ));
        first += 1;
    }
    let ghost d = s@.subrange(first as int, to as int);
    assert(significant(run) == d);
    let ghost start = key@;
    let mut i: usize = first;
    while i < to
        invariant
            first <= i <= to <= s.len(),
            key@ =~= start + Seq::new((i - first) as nat, |k: int| 57u8),
        decreases to - i,
    {
        key.push(57);
        i += 1;
    }
    key.push(48);
    let ghost middle = key@;
    i = first;
    while i < to
        invariant
            first <= i <= to <= s.len(),
            key@ =~= middle + s@.subrange(first as int, i as int),
        decreases to - i,
    {
        key.push(s[i]);
        i += 1;
    }
    assert(key@ =~= start + number_key(run));
}

/// Whether bytes are ASCII characters.
pub open spec fn ascii(name: Seq<u8>) -> bool {
    forall|i: int| 0 <= i < name.len() ==> #[trigger] name[i] < 128
}

/// ASCII characters in lower case.
pub open spec fn ascii_lowercase(name: Seq<u8>) -> Seq<u8> {
    Seq::new(name.len(), |i: int| lower_char(name[i] as char) as u8)
}

/// ASCII characters are their own encoding.
proof fn ascii_is_text(name: Seq<u8>)
    requires
        ascii(name),
    ensures
        valid_utf8(name),
        decode_utf8(name) == Seq::new(name.len(), |i: int| name[i] as char),
{
    let chars = Seq::new(name.len(), |i: int| name[i] as char);
    assert(is_ascii_chars(chars));
    is_ascii_chars_encode_utf8(chars);
    assert(encode_utf8(chars) =~= name);
    encode_utf8_valid_utf8(chars);
    encode_utf8_decode_utf8(chars);
}

/// The bytes of a text in lower case.
pub fn to_lowercase(text: &str) -> (r: Vec<u8>)
    ensures
        r@ == lowercase_text(text@),
        is_ascii_chars(text@) ==> r@ == ascii_lowercase(
            Seq::new(text@.len(), |i: int| text@[i] as u8),
        ),
{
    let low = lowered_text(text);
    proof {
        if is_ascii_chars(text@) {
            assert forall|i: int| 0 <= i < text@.len() implies (#[trigger] text@[i] as u32) < 128 by {}
            assert(is_ascii_chars(low@)) by {
                assert forall|i: int| 0 <= i < low@.len() implies '\0' <= #[trigger] low@[i]
                    <= '\u{7f}' by {
                    assert(low@[i] == lower_char(text@[i]));
                    assert('\0' <= text@[i] <= '\u{7f}');
                }
            }
            is_ascii_chars_encode_utf8(low@);
            assert(encode_utf8(low@) =~= ascii_lowercase(
                Seq::new(text@.len(), |i: int| text@[i] as u8),
            )) by {
                assert forall|i: int| 0 <= i < low@.len() implies #[trigger] encode_utf8(low@)[i]
                    == lower_char((text@[i] as u8) as char) as u8 by {
                    assert(low@[i] == lower_char(text@[i]));
                    assert('\0' <= text@[i] <= '\u{7f}');
                    assert((text@[i] as u8) as char == text@[i]);
                }
            }
        }
    }
    low.as_str().as_bytes_vec()
}

/// The key for a file name.
pub fn key(name: &Vec<u8>) -> (r: NatKey)
    ensures
        r.name@ == name@,
        r.valid(),
        ascii(name@) ==> r.lowercase@ == ascii_lowercase(name@),
{
    let text = lossy_text(name);
    let low = to_lowercase(text.as_str());
    proof {
        if ascii(name@) {
            ascii_is_text(name@);
            assert(is_ascii_chars(text@));
            assert(Seq::new(text@.len(), |i: int| text@[i] as u8) =~= name@);
        }
    }
    let mut out: Vec<u8> = Vec::new();
    let mut i: usize = 0;
    assert(low@.skip(0) =~= low@);
    while i < low.len()
        invariant
            i <= low.len(),
            natural_key(low@) == out@ + natural_key(low@.skip(i as int)),
        decreases low.len() - i,
    {
        let ghost before = out@;
        let ghost rest = low@.skip(i as int);
        proof {
            digit_run_bounds(rest);
        }
        if low[i] >= 48 && low[i] <= 57 {
            let mut j: usize = i;
            while j < low.len() && low[j] >= 48 && low[j] <= 57
                invariant
                    i <= j <= low.len(),
                    rest == low@.skip(i as int),
                    j - i <= digit_run(rest),
                    forall|k: int| 0 <= k < digit_run(rest) ==> ascii_digit(#[trigger] rest[k]),
                    digit_run(rest) < rest.len() ==> !ascii_digit(rest[digit_run(rest) as int]),
                decreases low.len() - j,
            {
                assert(rest[j - i] == low@[j as int]);
                j += 1;
            }
            proof {
                if j - i < digit_run(rest) {
                    assert(digit_run(rest) <= rest.len()) by {
                        digit_run_bounds(rest);
                    }
                    assert(ascii_digit(rest[j - i]));
                    assert(rest[j - i] == low@[j as int]);
                }
            }
            append_number(&mut out, &low, i, j);
            assert(rest.take(j - i) =~= low@.subrange(i as int, j as int));
            assert(rest.skip(j - i) =~= low@.skip(j as int));
            assert(out@ + natural_key(low@.skip(j as int)) =~= before + natural_key(rest));
            i = j;
        } else {
            out.push(low[i]);
            assert(rest.drop_first() =~= low@.skip(i + 1));
            assert(out@ + natural_key(low@.skip(i + 1)) =~= before + natural_key(rest));
            i += 1;
        }
    }
    assert(out@ =~= natural_key(low@));
    NatKey { name: copy_bytes(name), lowercase: low, key: out }
}

/// The number that a run of digits denotes.
pub open spec fn value(run: Seq<u8>) -> nat
    decreases run.len(),
{
    if run.len() == 0 {
        0
    } else {
        10 * value(run.drop_last()) + (run.last() - 48) as nat
    }
}

/// Whether all bytes are digits.
pub open spec fn digits(run: Seq<u8>) -> bool {
    forall|i: int| 0 <= i < run.len() ==> ascii_digit(#[trigger] run[i])
}

/// Whether a digit at the end of `p` and one at the start of `s` would be in one run.
pub open spec fn apart(p: Seq<u8>, s: Seq<u8>) -> bool {
    p.len() == 0 || s.len() == 0 || !ascii_digit(p.last()) || !ascii_digit(s[0])
}

proof fn significant_keeps_value(run: Seq<u8>)
    requires
        digits(run),
    ensures
        value(significant(run)) == value(run),
        digits(significant(run)),
        significant(run).len() > 0 ==> significant(run)[0] != 48,
    decreases run.len(),
{
    if run.len() > 0 && run[0] == 48 {
        assert forall|i: int| 0 <= i < run.drop_first().len() implies ascii_digit(
            #[trigger] run.drop_first()[i],
        ) by {
            assert(run.drop_first()[i] == run[i + 1]);
        }
        significant_keeps_value(run.drop_first());
        leading_zero(run);
    }
}

proof fn leading_zero(run: Seq<u8>)
    requires
        run.len() > 0,
        run[0] == 48,
    ensures
        value(run) == value(run.drop_first()),
    decreases run.len(),
{
    if run.len() == 1 {
        assert(run.drop_last() =~= Seq::<u8>::empty());
        assert(run.drop_first() =~= Seq::<u8>::empty());
        assert(value(run.drop_last()) == 0);
    } else {
        leading_zero(run.drop_last());
        assert(run.drop_last().drop_first() =~= run.drop_first().drop_last());
    }
}

proof fn digits_front(run: Seq<u8>)
    requires
        digits(run),
        run.len() > 0,
    ensures
        digits(run.drop_last()),
        ascii_digit(run.last()),
{
    assert forall|i: int| 0 <= i < run.drop_last().len() implies ascii_digit(
        #[trigger] run.drop_last()[i],
    ) by {
        assert(run.drop_last()[i] == run[i]);
    }
    assert(ascii_digit(run[run.len() - 1]));
}

proof fn longer_is_greater(d: Seq<u8>, e: Seq<u8>)
    requires
        digits(d),
        digits(e),
        d.len() > e.len(),
        d[0] != 48,
    ensures
        value(d) > value(e),
    decreases d.len(),
{
    digits_front(d);
    if e.len() > 0 {
        digits_front(e);
        assert(d.drop_last()[0] == d[0]);
        longer_is_greater(d.drop_last(), e.drop_last());
    } else if d.len() > 1 {
        assert(d.drop_last()[0] == d[0]);
        longer_is_greater(d.drop_last(), e);
    }
}

proof fn same_length_order(d: Seq<u8>, e: Seq<u8>, s: Seq<u8>, t: Seq<u8>)
    requires
        digits(d),
        digits(e),
        d.len() == e.len(),
    ensures
        value(d) < value(e) ==> order::byte_order(d + s, e + t) is Less,
        value(d) == value(e) ==> d == e,
    decreases d.len(),
{
    if d.len() > 0 {
        digits_front(d);
        digits_front(e);
        let (x, y) = (d.last(), e.last());
        let (d1, e1) = (d.drop_last(), e.drop_last());
        same_length_order(d1, e1, seq![x] + s, seq![y] + t);
        same_length_order(e1, d1, seq![y] + t, seq![x] + s);
        assert(d + s =~= d1 + (seq![x] + s));
        assert(e + t =~= e1 + (seq![y] + t));
        assert(d =~= d1.push(x));
        assert(e =~= e1.push(y));
        if value(d) < value(e) && value(d1) == value(e1) {
            order::first_difference(d1, x, y, s, t);
            assert(d + s =~= d1 + seq![x] + s);
            assert(e + t =~= e1 + seq![y] + t);
        }
    } else {
        assert(d =~= e);
    }
}

/// The keys of runs of digits have the order of the numbers that those denote,
/// whatever follows, and those of the same number are the same.
pub proof fn number_keys_order(a: Seq<u8>, b: Seq<u8>, s: Seq<u8>, t: Seq<u8>)
    requires
        digits(a),
        digits(b),
    ensures
        value(a) < value(b) ==> order::byte_order(number_key(a) + s, number_key(b) + t) is Less,
        value(a) == value(b) ==> number_key(a) == number_key(b),
{
    significant_keeps_value(a);
    significant_keeps_value(b);
    let d = significant(a);
    let e = significant(b);
    let nines = |n: nat| Seq::new(n, |i: int| 57u8);
    same_length_or_not(d, e);
    if value(a) < value(b) {
        if d.len() == e.len() {
            same_length_order(d, e, s, t);
            let p = nines(d.len()) + seq![48u8];
            assert(number_key(a) + s =~= p + (d + s));
            assert(number_key(b) + t =~= p + (e + t));
            order::common_start(p, d + s, e + t);
        } else {
            let p = nines(d.len());
            let more = nines((e.len() - d.len() - 1) as nat) + seq![48u8] + e + t;
            order::first_difference(p, 48u8, 57u8, d + s, more);
            assert(number_key(a) + s =~= p + seq![48u8] + (d + s));
            assert(number_key(b) + t =~= p + seq![57u8] + more);
        }
    } else if value(a) == value(b) {
        same_length_order(d, e, s, t);
    }
}

proof fn same_length_or_not(d: Seq<u8>, e: Seq<u8>)
    requires
        digits(d),
        digits(e),
        d.len() > 0 ==> d[0] != 48,
        e.len() > 0 ==> e[0] != 48,
    ensures
        value(d) <= value(e) ==> d.len() <= e.len(),
        value(d) >= value(e) ==> d.len() >= e.len(),
{
    if d.len() > e.len() {
        longer_is_greater(d, e);
    }
    if e.len() > d.len() {
        longer_is_greater(e, d);
    }
}

proof fn digit_run_of_concat(p: Seq<u8>, s: Seq<u8>)
    requires
        digit_run(p) < p.len() || s.len() == 0 || !ascii_digit(s[0]),
    ensures
        digit_run(p + s) == digit_run(p),
    decreases p.len(),
{
    if p.len() > 0 && ascii_digit(p[0]) {
        digit_run_of_concat(p.drop_first(), s);
        assert((p + s).drop_first() =~= p.drop_first() + s);
    } else if p.len() == 0 {
        assert(p + s =~= s);
    }
}

/// A name can be taken apart where no run of digits is, and its parts have the parts
/// of its key.
proof fn key_of_concat(p: Seq<u8>, s: Seq<u8>)
    requires
        apart(p, s),
    ensures
        natural_key(p + s) == natural_key(p) + natural_key(s),
    decreases p.len(),
{
    let all = p + s;
    if p.len() == 0 {
        assert(all =~= s);
        assert(natural_key(p) + natural_key(s) =~= natural_key(s));
    } else if ascii_digit(p[0]) {
        digit_run_bounds(p);
        let n = digit_run(p) as int;
        if n == p.len() {
            assert(ascii_digit(p[n - 1]));
        }
        digit_run_of_concat(p, s);
        assert(all.take(n) =~= p.take(n));
        assert(all.skip(n) =~= p.skip(n) + s);
        if p.skip(n).len() > 0 {
            assert(p.skip(n).last() == p.last());
        }
        key_of_concat(p.skip(n), s);
        assert(natural_key(all) =~= natural_key(p) + natural_key(s));
    } else {
        assert(all.drop_first() =~= p.drop_first() + s);
        if p.drop_first().len() > 0 {
            assert(p.drop_first().last() == p.last());
        }
        key_of_concat(p.drop_first(), s);
        assert(natural_key(all) =~= natural_key(p) + natural_key(s));
    }
}

proof fn key_of_run(run: Seq<u8>)
    requires
        digits(run),
        run.len() > 0,
    ensures
        natural_key(run) == number_key(run),
{
    assert(ascii_digit(run[0]));
    digit_run_bounds(run);
    let n = digit_run(run) as int;
    if n < run.len() {
        assert(ascii_digit(run[n]));
    }
    assert(run.take(n) =~= run);
    assert(run.skip(n) =~= Seq::<u8>::empty());
    assert(natural_key(run.skip(n)) =~= Seq::<u8>::empty());
    assert(natural_key(run) =~= number_key(run));
}

/// Names in lower case that are alike up to a number have the order of the numbers,
/// whatever follows them.
pub proof fn numbers_order_keys(
    p: Seq<u8>,
    x: Seq<u8>,
    y: Seq<u8>,
    s: Seq<u8>,
    t: Seq<u8>,
)
    requires
        digits(x),
        digits(y),
        x.len() > 0,
        y.len() > 0,
        value(x) < value(y),
        p.len() > 0 ==> !ascii_digit(p.last()),
        s.len() > 0 ==> !ascii_digit(s[0]),
        t.len() > 0 ==> !ascii_digit(t[0]),
    ensures
        order::byte_order(natural_key(p + x + s), natural_key(p + y + t)) is Less,
{
    key_of_concat(p + x, s);
    key_of_concat(p, x);
    key_of_concat(p + y, t);
    key_of_concat(p, y);
    key_of_run(x);
    key_of_run(y);
    let k = natural_key(p);
    number_keys_order(x, y, natural_key(s), natural_key(t));
    order::common_start(k, number_key(x) + natural_key(s), number_key(y) + natural_key(t));
    assert(natural_key(p + x + s) =~= k + (number_key(x) + natural_key(s)));
    assert(natural_key(p + y + t) =~= k + (number_key(y) + natural_key(t)));
}

/// Names in lower case that are alike up to a character that is no digit have the order
/// of those characters.
pub proof fn characters_order_keys(p: Seq<u8>, x: u8, y: u8, s: Seq<u8>, t: Seq<u8>)
    requires
        !ascii_digit(x),
        !ascii_digit(y),
        x < y,
    ensures
        order::byte_order(natural_key(p + seq![x] + s), natural_key(p + seq![y] + t)) is Less,
{
    let (a, b) = (seq![x] + s, seq![y] + t);
    key_of_concat(p, a);
    key_of_concat(p, b);
    assert(p + seq![x] + s =~= p + a);
    assert(p + seq![y] + t =~= p + b);
    assert(a.drop_first() =~= s);
    assert(b.drop_first() =~= t);
    let k = natural_key(p);
    order::first_difference(k, x, y, natural_key(s), natural_key(t));
    assert(natural_key(p + a) =~= k + seq![x] + natural_key(s));
    assert(natural_key(p + b) =~= k + seq![y] + natural_key(t));
}

/// The name of ASCII characters in lower case.
pub proof fn lowercase_of_ascii(name: Seq<u8>)
    requires
        ascii(name),
    ensures
        lowercase(name) == ascii_lowercase(name),
{
    ascii_is_text(name);
    let text = decode_utf8(name);
    assert(is_ascii_chars(text));
    assert(Seq::new(text.len(), |i: int| text[i] as u8) =~= name);
}

proof fn lowercase_of_digits(run: Seq<u8>)
    requires
        digits(run),
    ensures
        ascii_lowercase(run) == run,
        ascii(run),
{
    assert forall|i: int| 0 <= i < run.len() implies #[trigger] ascii_lowercase(run)[i]
        == run[i] by {
        assert(ascii_digit(run[i]));
    }
    assert forall|i: int| 0 <= i < run.len() implies #[trigger] run[i] < 128 by {
        assert(ascii_digit(run[i]));
    }
    assert(ascii_lowercase(run) =~= run);
}

proof fn lower_byte(b: u8)
    requires
        b < 128,
    ensures
        ascii_digit(lower_char(b as char) as u8) == ascii_digit(b),
        (lower_char(b as char) as u8) < 128,
{
}

/// Names of ASCII characters that are alike but for case up to a number have the order
/// of the numbers: `a2` comes before `a10`.
pub proof fn numbers_order_names(
    a: NatKey,
    b: NatKey,
    p: Seq<u8>,
    q: Seq<u8>,
    x: Seq<u8>,
    y: Seq<u8>,
    s: Seq<u8>,
    t: Seq<u8>,
)
    requires
        a.valid(),
        b.valid(),
        a.name@ == p + x + s,
        b.name@ == q + y + t,
        ascii(a.name@),
        ascii(b.name@),
        ascii_lowercase(p) == ascii_lowercase(q),
        digits(x),
        digits(y),
        x.len() > 0,
        y.len() > 0,
        value(x) < value(y),
        p.len() > 0 ==> !ascii_digit(p.last()),
        s.len() > 0 ==> !ascii_digit(s[0]),
        t.len() > 0 ==> !ascii_digit(t[0]),
    ensures
        a.spec_order(&b) is Less,
{
    lowercase_of_ascii(a.name@);
    lowercase_of_ascii(b.name@);
    lowercase_of_digits(x);
    lowercase_of_digits(y);
    let (l, m, n) = (ascii_lowercase(p), ascii_lowercase(s), ascii_lowercase(t));
    assert(p.len() == l.len() && q.len() == ascii_lowercase(q).len());
    assert(ascii_lowercase(a.name@) =~= l + x + m) by {
        assert(l + ascii_lowercase(x) + m =~= ascii_lowercase(p + x + s));
    }
    assert(ascii_lowercase(b.name@) =~= l + y + n) by {
        assert(ascii_lowercase(q) + ascii_lowercase(y) + n =~= ascii_lowercase(q + y + t));
    }
    if p.len() > 0 {
        assert(a.name@[p.len() - 1] == p.last());
        lower_byte(p.last());
    }
    if s.len() > 0 {
        assert(a.name@[(p.len() + x.len()) as int] == s[0]);
        lower_byte(s[0]);
    }
    if t.len() > 0 {
        assert(b.name@[(q.len() + y.len()) as int] == t[0]);
        lower_byte(t[0]);
    }
    numbers_order_keys(l, x, y, m, n);
}

/// Names of ASCII characters that are alike but for case have the same place in the
/// order and are found by the same searches.
pub proof fn case_plays_no_part(a: NatKey, b: NatKey, c: NatKey)
    requires
        a.valid(),
        b.valid(),
        ascii(a.name@),
        ascii(b.name@),
        a.name@.len() == b.name@.len(),
        forall|i: int|
            0 <= i < a.name@.len() ==> #[trigger] a.name@[i] == b.name@[i] || (97 <= a.name@[i]
                <= 122 && b.name@[i] == a.name@[i] - 32) || (97 <= b.name@[i] <= 122 && a.name@[i]
                == b.name@[i] - 32),
    ensures
        a.spec_order(&b) is Equal,
        a.spec_order(&c) == b.spec_order(&c),
        a.lowercase@ == b.lowercase@,
{
    lowercase_of_ascii(a.name@);
    lowercase_of_ascii(b.name@);
    assert forall|i: int| 0 <= i < a.name@.len() implies #[trigger] ascii_lowercase(a.name@)[i]
        == ascii_lowercase(b.name@)[i] by {
        let (x, y) = (a.name@[i], b.name@[i]);
        assert(x < 128 && y < 128);
        assert(x == y || (97 <= x <= 122 && y == x - 32) || (97 <= y <= 122 && x == y - 32));
    }
    assert(ascii_lowercase(a.name@) =~= ascii_lowercase(b.name@));
    order::byte_order_antisymmetric(a.key@, b.key@);
}

/// Names of ASCII characters that are alike but for case up to a character that is no
/// digit have the order of those characters in lower case.
pub proof fn characters_order_names(
    a: NatKey,
    b: NatKey,
    p: Seq<u8>,
    x: u8,
    y: u8,
    s: Seq<u8>,
    t: Seq<u8>,
)
    requires
        a.valid(),
        b.valid(),
        ascii(a.name@),
        ascii(b.name@),
        ascii_lowercase(a.name@) == p + seq![x] + s,
        ascii_lowercase(b.name@) == p + seq![y] + t,
        !ascii_digit(x),
        !ascii_digit(y),
        x < y,
    ensures
        a.spec_order(&b) is Less,
{
    lowercase_of_ascii(a.name@);
    lowercase_of_ascii(b.name@);
    characters_order_keys(p, x, y, s, t);
}

} // verus!
