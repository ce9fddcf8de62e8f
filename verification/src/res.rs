//! Sizes in pixels.
use vstd::prelude::*;
use vstd::string::*;

use crate::strings::{self, split_once};
use crate::text::{self, chars_of, decimal_string, parse_number};

verus! {

/// A width and a height.
#[derive(Clone, Copy, Debug, PartialEq, Eq, Structural)]
pub struct Res {
    pub w: u32,
    pub h: u32,
}

impl Default for Res {
    fn default() -> (r: Res)
        ensures
            r == (Res { w: 0, h: 0 }),
    {
        Res { w: 0, h: 0 }
    }
}

impl Res {
    /// From a width and a height that are signed but not negative.
    pub fn from_signed(w: i32, h: i32) -> (r: Res)
        requires
            w >= 0,
            h >= 0,
        ensures
            r.w == w,
            r.h == h,
    {
        Res { w: w as u32, h: h as u32 }
    }

    pub open spec fn spec_text(self) -> Seq<char> {
        text::decimal(self.w as nat) + "x"@ + text::decimal(self.h as nat)
    }

    /// The text of the form `WIDTHxHEIGHT`.
    pub fn text(self) -> (r: String)
        ensures
            r@ == self.spec_text(),
    {
        let mut t = decimal_string(self.w as u64);
        t.append("x");
        t.append(decimal_string(self.h as u64).as_str());
        t
    }

    /// What a text of the form `WIDTHxHEIGHT` stands for.
    pub open spec fn parsed(s: Seq<char>) -> Option<Res> {
        match strings::split_at_first(s, 'x') {
            Some((a, b)) => match (
                text::parsed_number(a, u32::MAX as nat),
                text::parsed_number(b, u32::MAX as nat),
            ) {
                (Some(w), Some(h)) => Some(Res { w: w as u32, h: h as u32 }),
                _ => None,
            },
            None => None,
        }
    }

    /// Parses a text of the form `WIDTHxHEIGHT`.
    pub fn from_str(s: &str) -> (r: Result<Res, &'static str>)
        ensures
            match Res::parsed(s@) {
                Some(res) => r == Ok::<Res, &'static str>(res),
                None => r matches Err(e) && e@
                    == "Expected a string of the form WIDTHxHEIGHT. Example: 3840x2160"@,
            },
    {
        match split_once(s, 'x') {
            Some((a, b)) => {
                match (
                    parse_number(&chars_of(a.as_str()), u32::MAX as u64),
                    parse_number(&chars_of(b.as_str()), u32::MAX as u64),
                ) {
                    (Some(w), Some(h)) => {
                        return Ok(Res { w: w as u32, h: h as u32 });
                    },
                    _ => {},
                }
            },
            None => {},
        }
        Err("Expected a string of the form WIDTHxHEIGHT. Example: 3840x2160")
    }

    pub fn is_zero_area(self) -> (r: bool)
        ensures
            r == (self.w == 0 || self.h == 0),
    {
        self.w == 0 || self.h == 0
    }

    pub fn is_zero(self) -> (r: bool)
        ensures
            r == (self.w == 0 && self.h == 0),
    {
        self.w == 0 && self.h == 0
    }
}

proof fn decimal_parses(n: nat, max: nat)
    requires
        n <= max,
    ensures
        text::parsed_number(text::decimal(n), max) == Some(n),
        text::decimal(n).len() > 0,
        text::all_digits(text::decimal(n)),
        text::digits_value(text::decimal(n)) == n,
    decreases n,
{
    let d = text::decimal(n);
    if n < 10 {
        assert(d =~= seq![text::digit(n)]);
        assert(d.drop_last() =~= Seq::empty());
        reveal_with_fuel(text::digits_value, 2);
    } else {
        decimal_parses(n / 10, max);
        let front = text::decimal(n / 10);
        assert(d =~= front.push(text::digit(n % 10)));
        assert(d.drop_last() =~= front);
        assert forall|i: int| 0 <= i < d.len() implies text::is_digit(#[trigger] d[i]) by {
            if i < front.len() {
                assert(d[i] == front[i]);
            }
        }
    }
    assert(text::is_digit(d[0]));
}

proof fn first_of_concat(a: Seq<char>, b: Seq<char>, c: char)
    requires
        forall|i: int| 0 <= i < a.len() ==> #[trigger] a[i] != c,
        b.len() > 0,
        b[0] == c,
    ensures
        strings::first_of(a + b, c) == a.len(),
    decreases a.len(),
{
    if a.len() == 0 {
        assert(a + b =~= b);
    } else {
        assert((a + b).skip(1) =~= a.skip(1) + b);
        assert((a + b)[0] == a[0]);
        first_of_concat(a.skip(1), b, c);
    }
}

/// Parsing gives back what was written.
pub proof fn text_round_trip(r: Res)
    ensures
        Res::parsed(r.spec_text()) == Some(r),
{
    reveal_strlit("x");
    let a = text::decimal(r.w as nat);
    let b = text::decimal(r.h as nat);
    decimal_parses(r.w as nat, u32::MAX as nat);
    decimal_parses(r.h as nat, u32::MAX as nat);
    let rest = "x"@ + b;
    assert(rest[0] == 'x');
    assert(r.spec_text() =~= a + rest);
    assert forall|i: int| 0 <= i < a.len() implies #[trigger] a[i] != 'x' by {
        assert(text::is_digit(a[i]));
    }
    first_of_concat(a, rest, 'x');
    assert(r.spec_text().subrange(0, a.len() as int) =~= a);
    assert(r.spec_text().subrange(a.len() as int + 1, r.spec_text().len() as int) =~= b);
}

} // verus!
