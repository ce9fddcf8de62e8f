//! Regular expressions.
use vstd::prelude::*;

verus! {

/// The groups that the leftmost match of `pattern` in `text` captures, the
/// whole match first, as the `regex` crate finds them. `None` if nothing
/// matches or the pattern is malformed.
pub uninterp spec fn captured(pattern: Seq<char>, text: Seq<u8>) -> Option<Seq<Option<Seq<u8>>>>;

/// The byte strings that captured groups hold.
pub open spec fn group_views(groups: Seq<Option<Vec<u8>>>) -> Seq<Option<Seq<u8>>> {
    Seq::new(
        groups.len(),
        |i: int|
            match groups[i] {
                Some(g) => Some(g@),
                None => None,
            },
    )
}

/// `regex::bytes::Regex::new` and `captures`: compiles the pattern and gives
/// what each group of the leftmost match holds. The result is a function of the
/// pattern and the text.
#[verifier::external_body]
pub(crate) fn captures(pattern: &str, text: &Vec<u8>) -> (r: Option<Vec<Option<Vec<u8>>>>)
    ensures
        r is Some <==> captured(pattern@, text@) is Some,
        r matches Some(groups) ==> captured(pattern@, text@) == Some(group_views(groups@)),
{
    let regex = regex::bytes::Regex::new(pattern).ok()?;
    let found = regex.captures(text)?;
    Some(found.iter().map(|group| group.map(|m| m.as_bytes().to_vec())).collect())
}

/// Whether the `regex` crate accepts a pattern.
pub uninterp spec fn compiles(pattern: Seq<char>) -> bool;

/// `regex::bytes::Regex::new`: whether the pattern is well-formed.
#[verifier::external_body]
pub(crate) fn is_pattern(pattern: &str) -> (r: bool)
    ensures
        r == compiles(pattern@),
{
    regex::bytes::Regex::new(pattern).is_ok()
}

/// Whether the `regex` crate finds a match of a pattern somewhere in a text.
pub uninterp spec fn pattern_matches(pattern: Seq<char>, text: Seq<u8>) -> bool;

/// `regex::bytes::Regex::is_match`: whether the pattern, if it is well-formed,
/// matches somewhere in the text.
#[verifier::external_body]
pub(crate) fn is_match(pattern: &str, text: &Vec<u8>) -> (r: bool)
    ensures
        r == pattern_matches(pattern@, text@),
{
    regex::bytes::Regex::new(pattern).is_ok_and(|regex| regex.is_match(text))
}

} // verus!
