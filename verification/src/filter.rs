//! Filtering a list by a text that is typed.
use vstd::prelude::*;

use crate::contents::{self, Query, QueryView, MIN_SEARCH};
use crate::entry::Entry;
use crate::text::{self, contains_bytes, equal_bytes};

verus! {

/// How a new filter relates to the one before it.
#[derive(Clone, Copy, Debug, PartialEq, Eq, Structural)]
pub enum FilterChange {
    /// Everything that was shown still is.
    LessStrict,
    /// Nothing is shown that was not shown before.
    MoreStrict,
    Different,
}

/// How the filter `new` relates to `old`.
pub open spec fn spec_filter_change(old_text: Seq<u8>, new_text: Seq<u8>) -> FilterChange {
    if text::occurs(new_text, old_text) {
        FilterChange::LessStrict
    } else if text::occurs(old_text, new_text) {
        FilterChange::MoreStrict
    } else {
        FilterChange::Different
    }
}

pub fn filter_change(old_text: &Vec<u8>, new_text: &Vec<u8>) -> (r: FilterChange)
    ensures
        r == spec_filter_change(old_text@, new_text@),
{
    if contains_bytes(old_text, new_text) {
        FilterChange::LessStrict
    } else if contains_bytes(new_text, old_text) {
        FilterChange::MoreStrict
    } else {
        FilterChange::Different
    }
}

/// A filter that is less strict shows everything that was shown before, and one
/// that is more strict nothing else.
pub proof fn filter_change_is_sound(old_text: Seq<u8>, new_text: Seq<u8>, name: Seq<u8>)
    ensures
        spec_filter_change(old_text, new_text) is LessStrict && text::occurs(old_text, name)
            ==> text::occurs(new_text, name),
        spec_filter_change(old_text, new_text) is MoreStrict && text::occurs(new_text, name)
            ==> text::occurs(old_text, name),
{
    if text::occurs(new_text, old_text) && text::occurs(old_text, name) {
        text::occurs_transitive(new_text, old_text, name);
    }
    if text::occurs(old_text, new_text) && text::occurs(new_text, name) {
        text::occurs_transitive(old_text, new_text, name);
    }
}

/// Whether enough characters were typed to search for.
pub open spec fn long_enough(query: QueryView) -> bool {
    query.chars >= MIN_SEARCH
}

/// How what is searched for relates to what was searched for before. Nothing
/// changes if too few characters were typed both times, or if they say the same.
pub open spec fn spec_search_change(query: QueryView, new_query: QueryView) -> Option<
    FilterChange,
> {
    if long_enough(query) != long_enough(new_query) {
        if long_enough(new_query) {
            Some(FilterChange::LessStrict)
        } else {
            Some(FilterChange::MoreStrict)
        }
    } else if !long_enough(query) || new_query.text == query.text {
        None
    } else {
        Some(spec_filter_change(query.text, new_query.text))
    }
}

pub fn search_change(query: &Query, new_query: &Query) -> (r: Option<FilterChange>)
    ensures
        r == spec_search_change(query@, new_query@),
{
    let before: bool = query.chars >= MIN_SEARCH;
    let now: bool = new_query.chars >= MIN_SEARCH;
    if before != now {
        if now {
            return Some(FilterChange::LessStrict);
        }
        return Some(FilterChange::MoreStrict);
    }
    if !before || equal_bytes(&new_query.text, &query.text) {
        return None;
    }
    Some(filter_change(&query.text, &new_query.text))
}

/// What a search shows changes only as it is said to: with no change it shows
/// the same, a less strict text shows everything that was shown before, and a
/// more strict one nothing else.
pub proof fn search_change_is_sound(query: QueryView, new_query: QueryView, e: &Entry)
    ensures
        match spec_search_change(query, new_query) {
            None => contents::query_matches(query, e) == contents::query_matches(new_query, e),
            Some(FilterChange::LessStrict) => contents::query_matches(query, e)
                ==> contents::query_matches(new_query, e),
            Some(FilterChange::MoreStrict) => contents::query_matches(new_query, e)
                ==> contents::query_matches(query, e),
            Some(FilterChange::Different) => true,
        },
{
    filter_change_is_sound(query.text, new_query.text, e.name.lowercase@);
}

/// Typing more, in front or behind, is noticed to be stricter, and deleting what was
/// typed to be less strict.
pub proof fn typing_more_is_stricter(a: Seq<u8>, text: Seq<u8>, b: Seq<u8>)
    requires
        a.len() + b.len() > 0,
    ensures
        spec_filter_change(text, a + text + b) is MoreStrict,
        spec_filter_change(a + text + b, text) is LessStrict,
{
    let longer = a + text + b;
    assert(longer.subrange(a.len() as int, a.len() as int + text.len()) =~= text);
    assert(text::occurs_at(text, longer, a.len() as int));
    assert forall|i: int| !(#[trigger] text::occurs_at(longer, text, i)) by {}
}

/// Searches start once three characters are typed and end once fewer are, and while
/// neither happens a change that matters is noticed.
pub proof fn searches_start_and_end(query: QueryView, new_query: QueryView)
    ensures
        query.chars < 3 && new_query.chars >= 3 ==> spec_search_change(query, new_query) == Some(
            FilterChange::LessStrict,
        ),
        query.chars >= 3 && new_query.chars < 3 ==> spec_search_change(query, new_query) == Some(
            FilterChange::MoreStrict,
        ),
        query.chars < 3 && new_query.chars < 3 ==> spec_search_change(query, new_query) is None,
        query.chars >= 3 && new_query.chars >= 3 ==> (spec_search_change(query, new_query) is None
            <==> query.text == new_query.text),
{
}

} // verus!
