//! Searches: an overlay on top of a tab. A search shows what is in the tab's
//! directory and gets everything below its subdirectories on its own.
use std::sync::Arc;

use vstd::prelude::*;
use vstd::string::*;
use vstd::utf8::*;

use crate::contents::{self, Contents, Item, PartiallyAppliedUpdate, Query, QueryView};
use crate::entry::Entry;
use crate::filter::{self, search_change, FilterChange};
use crate::natsort::{self, to_lowercase};
use crate::objects::{self, Objects};
use crate::path::{self, FilePath};
use crate::rows;
use crate::settings::SortSettings;
use crate::text::{self, chars_of};
use crate::thumbs::ThumbPriority;
use crate::update::{self, Update};

verus! {

/// How far a search has come. Each search has its own number.
pub enum SearchState {
    Unloaded,
    /// Updates wait until all results are in.
    Loading(u64, Vec<Update>),
    Done(u64),
}

pub struct Search {
    pub path: Arc<FilePath>,
    pub state: SearchState,
    /// Everything in the tab's contents, and items from subdirectories.
    pub contents: Contents,
    /// The text as it was typed.
    pub original: String,
}

/// Whether a path is below a directory.
pub open spec fn under(dir: Seq<Seq<u8>>, p: Seq<Seq<u8>>) -> bool {
    dir.is_prefix_of(p) && p != dir
}

/// Whether all paths are below a directory.
pub open spec fn all_under(dir: Seq<Seq<u8>>, paths: Set<Seq<Seq<u8>>>) -> bool {
    forall|p: Seq<Seq<u8>>| #[trigger] paths.contains(p) ==> under(dir, p)
}

/// A thumbnail that is to be loaded: the number of its entry, how urgent it is,
/// and whether that comes from an event.
pub struct ThumbRequest {
    pub id: u64,
    pub priority: ThumbPriority,
    pub from_event: bool,
}

/// What is searched for when a text is typed: case does not matter.
pub open spec fn query_of(text: Seq<char>) -> QueryView {
    QueryView { text: natsort::lowercase_text(text), chars: text.len() }
}

fn query_for(text: &str) -> (r: Query)
    ensures
        r@ == query_of(text@),
{
    Query { text: to_lowercase(text), chars: chars_of(text).len() }
}

/// Whether two ASCII characters are the same but for case.
pub open spec fn same_letter(a: int, b: int) -> bool {
    a == b || (97 <= a <= 122 && b == a - 32) || (97 <= b <= 122 && a == b - 32)
}

/// Whether a text stands in a name at position `i`, whatever the case of its letters.
pub open spec fn held_at(s: Seq<char>, name: Seq<u8>, i: int) -> bool {
    &&& 0 <= i && i + s.len() <= name.len()
    &&& forall|j: int|
        0 <= j < s.len() ==> same_letter(#[trigger] s[j] as int, name[i + j] as int)
}

proof fn lowered_letters(a: int, b: int)
    requires
        0 <= a < 128,
        0 <= b < 128,
    ensures
        natsort::lower_char((a as u8) as char) == natsort::lower_char((b as u8) as char) <==> same_letter(a, b),
        (natsort::lower_char((a as u8) as char) as u8 == natsort::lower_char((b as u8) as char) as u8) <==> same_letter(a, b),
{
}

/// A name of ASCII characters in lower case holds a text in lower case exactly if the
/// name holds the text, whatever the case of either.
pub proof fn held_in_lower_case(s: Seq<char>, name: Seq<u8>)
    requires
        is_ascii_chars(s),
        natsort::ascii(name),
    ensures
        text::occurs(natsort::lowercase_text(s), natsort::lowercase(name)) <==> exists|i: int|
            #[trigger] held_at(s, name, i),
{
    natsort::lowercase_of_ascii(name);
    let low = natsort::ascii_lowercase(name);
    let query = natsort::lowercase_text(s);
    assert forall|i: int| #[trigger] held_at(s, name, i) == text::occurs_at(query, low, i) by {
        if 0 <= i && i + s.len() <= name.len() {
            assert forall|j: int| 0 <= j < s.len() implies (query[j] == low[i + j]) == same_letter(
                #[trigger] s[j] as int,
                name[i + j] as int,
            ) by {
                lowered_letters(s[j] as int, name[i + j] as int);
            }
            if held_at(s, name, i) {
                assert(low.subrange(i, i + s.len()) =~= query);
            }
            if text::occurs_at(query, low, i) {
                assert forall|j: int| 0 <= j < s.len() implies same_letter(
                    #[trigger] s[j] as int,
                    name[i + j] as int,
                ) by {
                    assert(low.subrange(i, i + s.len())[j] == low[i + j]);
                }
            }
        }
    }
    if text::occurs(query, low) {
        let i = choose|i: int| #[trigger] text::occurs_at(query, low, i);
        assert(held_at(s, name, i));
    }
}

/// A search for a text of ASCII characters shows exactly the ASCII names that hold it,
/// in upper or lower case, if it has three characters or more.
pub proof fn search_shows_what_holds_the_text(s: Seq<char>, e: &Entry)
    requires
        is_ascii_chars(s),
        e.name.valid(),
        natsort::ascii(e.name.name@),
    ensures
        contents::query_matches(query_of(s), e) <==> s.len() >= 3 && exists|i: int| #[trigger]
            held_at(s, e.name.name@, i),
{
    held_in_lower_case(s, e.name.name@);
}

/// Case does not matter: two ASCII texts that are equal but for case show the same.
pub proof fn case_does_not_matter(s: Seq<char>, t: Seq<char>, e: &Entry, list: Seq<Item>)
    requires
        is_ascii_chars(s),
        is_ascii_chars(t),
        s.len() == t.len(),
        forall|j: int| 0 <= j < s.len() ==> same_letter(#[trigger] s[j] as int, t[j] as int),
    ensures
        contents::query_matches(query_of(s), e) == contents::query_matches(query_of(t), e),
        contents::visible_rows(list, Some(query_of(s))) == contents::visible_rows(
            list,
            Some(query_of(t)),
        ),
{
    assert forall|j: int| 0 <= j < s.len() implies #[trigger] query_of(s).text[j] == query_of(
        t,
    ).text[j] by {
        lowered_letters(s[j] as int, t[j] as int);
    }
    assert(query_of(s).text =~= query_of(t).text);
}

/// Every ASCII name that holds an ASCII text as it was typed is shown by a search for
/// it, and no search for fewer than three characters shows anything.
pub proof fn what_was_typed_is_found(s: Seq<char>, list: Seq<Item>, row: Item, i: int)
    requires
        is_ascii_chars(s),
        list.contains(row),
        row.entry.name.valid(),
        natsort::ascii(row.entry.name.name@),
        0 <= i && i + s.len() <= row.entry.name.name@.len(),
        forall|j: int|
            0 <= j < s.len() ==> #[trigger] s[j] as int == row.entry.name.name@[i + j] as int,
    ensures
        contents::visible_rows(list, Some(query_of(s))).contains(row) <==> s.len() >= 3,
{
    search_shows_what_holds_the_text(s, &row.entry);
    contents::search_lists_what_matches(list, query_of(s), row);
    assert(held_at(s, row.entry.name.name@, i));
}

/// Whether numbers stay what they are.
pub open spec fn ids_kept(before: Objects, after: Objects) -> bool {
    forall|q: Seq<Seq<u8>>|
        path::valid_parts(q) && before.id_of(q) is Some ==> #[trigger] after.id_of(q)
            == before.id_of(q)
}

/// How the entries in use change with an update for a search. `changes` says
/// whether it may change one that is in use.
pub open spec fn noted(before: Objects, after: Objects, up: Update, changes: bool) -> bool {
    match up {
        Update::Entry(e) => if before.entry_of(e.abs_path@) is None || changes {
            before.registered(e, true, after)
        } else {
            after == before
        },
        Update::Removed(_) => after == before,
    }
}

/// How the entries in use change with updates that change none of them.
pub open spec fn noted_all(before: Objects, ups: Seq<Update>, after: Objects) -> bool
    decreases ups.len(),
{
    if ups.len() == 0 {
        after == before
    } else {
        exists|mid: Objects|
            noted_all(before, ups.drop_last(), mid) && #[trigger] noted(
                mid,
                after,
                ups.last(),
                false,
            )
    }
}

/// How the entries in use change with results: what is in use already stays.
pub open spec fn adopted_all(before: Objects, entries: Seq<Arc<Entry>>, after: Objects) -> bool
    decreases entries.len(),
{
    if entries.len() == 0 {
        after == before
    } else {
        exists|mid: Objects|
            adopted_all(before, entries.drop_last(), mid) && #[trigger] mid.adopted(
                entries.last(),
                false,
                after,
            )
    }
}

/// How the entries in use change with results, and with the updates that have
/// waited for them.
pub open spec fn taken_in(
    before: Objects,
    entries: Seq<Arc<Entry>>,
    ups: Seq<Update>,
    after: Objects,
) -> bool {
    exists|mid: Objects| #[trigger]
        adopted_all(before, entries, mid) && noted_all(mid, ups, after)
}

/// The thumbnail that is to be loaded after an update. One that is about an
/// entry in use counts only if it `changes` that entry.
pub open spec fn request(before: Objects, after: Objects, up: Update, changes: bool) -> Option<
    ThumbRequest,
> {
    match up {
        Update::Entry(e) => if before.entry_of(e.abs_path@) is None || changes {
            match before.registers(e, true).1 {
                Some((priority, from_event)) => Some(
                    ThumbRequest { id: after.id_of(e.abs_path@)->0, priority, from_event },
                ),
                None => None,
            }
        } else {
            None
        },
        Update::Removed(_) => None,
    }
}

proof fn cloned_is_sound(flat: &Contents, c: &Contents, o: Objects)
    requires
        flat.valid(),
        !flat.stale ==> rows::sound(*flat, o),
        c.valid(),
        !c.stale,
        c.list@ == contents::cloned_rows(flat),
    ensures
        rows::sound(*c, o),
        rows::path_set(c.list@) == (if flat.stale {
            Set::empty()
        } else {
            rows::path_set(flat.list@)
        }),
{
    let a = flat.list@;
    let b = c.list@;
    if flat.stale {
        assert(rows::path_set(b) =~= Set::empty());
    } else {
        assert forall|i: int| 0 <= i < b.len() implies o.entry_of(
            (#[trigger] b[i]).entry.abs_path@,
        ) == Some(b[i].entry) by {
            assert(a[i].entry == b[i].entry);
        }
        assert forall|i: int, j: int| 0 <= i < j < b.len() implies (
        #[trigger] b[i]).entry.abs_path@ != (#[trigger] b[j]).entry.abs_path@ by {
            assert(a[i].entry == b[i].entry);
            assert(a[j].entry == b[j].entry);
        }
        assert forall|q: Seq<Seq<u8>>| rows::path_set(a).contains(q) == rows::path_set(
            b,
        ).contains(q) by {
            if contents::has_path(a, q) {
                let i = choose|i: int| 0 <= i < a.len() && (#[trigger] a[i]).entry.abs_path@ == q;
                assert(b[i].entry.abs_path@ == q);
            }
            if contents::has_path(b, q) {
                let i = choose|i: int| 0 <= i < b.len() && (#[trigger] b[i]).entry.abs_path@ == q;
                assert(a[i].entry.abs_path@ == q);
            }
        }
        assert(rows::path_set(a) =~= rows::path_set(b));
    }
}

impl Search {
    /// The rows are sound, and all of them are below the directory.
    pub open spec fn ok(self, o: Objects) -> bool {
        &&& rows::sound(self.contents, o)
        &&& all_under(self.path@, rows::path_set(self.contents.list@))
        &&& self.state matches SearchState::Loading(_, pending) ==> forall|i: int|
            0 <= i < pending@.len() ==> self.takes(#[trigger] pending@[i])
    }

    pub fn loaded(&self) -> (r: bool)
        ensures
            r == self.state is Done,
    {
        match self.state {
            SearchState::Done(_) => true,
            _ => false,
        }
    }

    pub fn loading(&self) -> (r: bool)
        ensures
            r == self.state is Loading,
    {
        match self.state {
            SearchState::Loading(..) => true,
            _ => false,
        }
    }

    /// Starts to search, unless that has been done. Returns whether it was.
    pub fn start_load(&mut self, id: u64) -> (r: bool)
        ensures
            final(self).path == old(self).path,
            final(self).contents == old(self).contents,
            final(self).original == old(self).original,
            r == old(self).state is Unloaded,
            r ==> (final(self).state matches SearchState::Loading(i, pending) && i == id
                && pending@.len() == 0),
            !r ==> final(self).state == old(self).state,
    {
        match self.state {
            SearchState::Unloaded => {
                self.state = SearchState::Loading(id, Vec::new());
                true
            },
            _ => false,
        }
    }

    /// Drops all results. Returns the number of the search that ends.
    pub fn unload(&mut self, sort: SortSettings) -> (r: Option<u64>)
        ensures
            final(self).path == old(self).path,
            final(self).original == old(self).original,
            final(self).state is Unloaded,
            final(self).contents.valid(),
            !final(self).contents.stale,
            final(self).contents.list@.len() == 0,
            final(self).contents.sort == sort,
            final(self).contents.filter == old(self).contents.filter,
            r == match old(self).state {
                SearchState::Unloaded => None,
                SearchState::Loading(id, _) => Some(id),
                SearchState::Done(id) => Some(id),
            },
    {
        let r = match &self.state {
            SearchState::Unloaded => None,
            SearchState::Loading(id, _) => Some(*id),
            SearchState::Done(id) => Some(*id),
        };
        self.state = SearchState::Unloaded;
        self.contents.clear(sort);
        r
    }

    /// A search in a tab, which starts with what the tab shows.
    pub(crate) fn new(p: Arc<FilePath>, flat: &Contents, query: String, Ghost(o): Ghost<Objects>) -> (r:
        Search)
        requires
            flat.valid(),
            !flat.stale ==> rows::sound(*flat, o),
            !flat.stale ==> all_under(p@, rows::path_set(flat.list@)),
        ensures
            r.ok(o),
            r.path == p,
            r.state is Unloaded,
            r.original == query,
            r.contents.sort == flat.sort,
            r.contents.query() == Some(query_of(query@)),
            r.contents.list@ == contents::cloned_rows(flat),
            rows::path_set(r.contents.list@) == (if flat.stale {
                Set::empty()
            } else {
                rows::path_set(flat.list@)
            }),
    {
        let mut contents = Contents::search_from(flat);
        contents.filter = Some(query_for(query.as_str()));
        proof {
            cloned_is_sound(flat, &contents, o);
        }
        Search { path: p, state: SearchState::Unloaded, contents, original: query }
    }

    /// The same search in another tab.
    pub(crate) fn clone_for(&self, flat: &Contents, Ghost(o): Ghost<Objects>) -> (r: Search)
        requires
            flat.valid(),
            !flat.stale ==> rows::sound(*flat, o),
            !flat.stale ==> all_under(self.path@, rows::path_set(flat.list@)),
        ensures
            r.ok(o),
            r.path == self.path,
            r.state is Unloaded,
            r.original@ == self.original@,
            r.contents.sort == flat.sort,
            r.contents.query() == self.contents.query(),
            r.contents.list@ == contents::cloned_rows(flat),
            rows::path_set(r.contents.list@) == (if flat.stale {
                Set::empty()
            } else {
                rows::path_set(flat.list@)
            }),
    {
        let mut contents = Contents::search_from(flat);
        contents.filter = match &self.contents.filter {
            Some(q) => Some(q.copy()),
            None => None,
        };
        proof {
            cloned_is_sound(flat, &contents, o);
        }
        Search {
            path: self.path.clone(),
            state: SearchState::Unloaded,
            contents,
            original: self.original.clone(),
        }
    }

    /// Takes another text to search for. Returns how what is shown changes, if
    /// it does.
    pub fn set_query(&mut self, text: &str) -> (r: Option<FilterChange>)
        requires
            old(self).contents.query() is Some,
        ensures
            final(self).path == old(self).path,
            final(self).state == old(self).state,
            final(self).original@ == text@,
            final(self).contents.list == old(self).contents.list,
            final(self).contents.sort == old(self).contents.sort,
            final(self).contents.stale == old(self).contents.stale,
            r == filter::spec_search_change(old(self).contents.query()->0, query_of(text@)),
            final(self).contents.query() == (if r is Some {
                Some(query_of(text@))
            } else {
                old(self).contents.query()
            }),
    {
        self.original = text.to_owned();
        let new = query_for(text);
        let change = match &self.contents.filter {
            Some(q) => search_change(q, &new),
            None => None,
        };
        if change.is_some() {
            self.contents.filter = Some(new);
        }
        change
    }

    /// Restores the order after any number of changes to entries.
    pub fn re_sort(&mut self)
        requires
            contents::all_ready(old(self).contents.list@),
        ensures
            final(self).path == old(self).path,
            final(self).state == old(self).state,
            final(self).original == old(self).original,
            final(self).contents.valid(),
            final(self).contents.sort == old(self).contents.sort,
            final(self).contents.filter == old(self).contents.filter,
            final(self).contents.stale == old(self).contents.stale,
            contents::in_order(final(self).contents.list@, final(self).contents.sort),
            final(self).contents.list@.to_multiset() == old(self).contents.list@.to_multiset(),
    {
        self.contents.re_sort_for_search();
    }

    /// Whether results are for this search.
    pub fn matches_snapshot(&self, id: u64) -> (r: bool)
        ensures
            r == (self.state matches SearchState::Loading(i, _) && i == id),
    {
        match &self.state {
            SearchState::Loading(i, _) => *i == id,
            _ => false,
        }
    }

    /// Whether a number is that of this search.
    pub open spec fn has_id(self, id: u64) -> bool {
        match self.state {
            SearchState::Unloaded => false,
            SearchState::Loading(i, _) => i == id,
            SearchState::Done(i) => i == id,
        }
    }

    /// Whether an update is for this search.
    pub fn matches_update(&self, id: u64) -> (r: bool)
        ensures
            r == self.has_id(id),
    {
        match &self.state {
            SearchState::Unloaded => false,
            SearchState::Loading(i, _) => *i == id,
            SearchState::Done(i) => *i == id,
        }
    }

    /// Whether an update for another search could concern this one too.
    pub open spec fn overlaps(self, up: &Update) -> bool {
        !(self.state is Unloaded) && update::below_subdir(up.spec_path(), self.path@)
    }

    pub fn overlaps_other_update(&self, up: &Update) -> (r: bool)
        ensures
            r == self.overlaps(up),
    {
        match self.state {
            SearchState::Unloaded => false,
            _ => up.is_in_subdir(&self.path),
        }
    }

    /// Applies a change in the directory of the tab itself.
    pub(crate) fn finish_flat_update(
        &mut self,
        partial: PartiallyAppliedUpdate,
        Ghost(before): Ghost<Objects>,
        Ghost(after): Ghost<Objects>,
    )
        requires
            old(self).ok(before),
            rows::tells(partial, before, after),
            rows::path_set(old(self).contents.list@).contains(partial.spec_entry().abs_path@)
                == !(partial is Insert),
            under(old(self).path@, partial.spec_entry().abs_path@),
        ensures
            final(self).ok(after),
            final(self).contents.sort == old(self).contents.sort,
            final(self).contents.filter == old(self).contents.filter,
            final(self).path == old(self).path,
            final(self).state == old(self).state,
            final(self).original == old(self).original,
            rows::path_set(final(self).contents.list@) == rows::paths_after(
                partial,
                rows::path_set(old(self).contents.list@),
            ),
            old(self).contents.after_update(&partial, final(self).contents.list@),
    {
        rows::apply(&mut self.contents, partial, Ghost(before), Ghost(after));
    }

    /// Applies a change in another tab's directory, if it is below one of the
    /// subdirectories. It may be needed even while the search is loading, since
    /// it could change the order.
    pub(crate) fn handle_subdir_flat_update(
        &mut self,
        partial: &PartiallyAppliedUpdate,
        Ghost(before): Ghost<Objects>,
        Ghost(after): Ghost<Objects>,
    )
        requires
            old(self).ok(before),
            rows::tells(*partial, before, after),
            !(partial is Insert),
            partial.spec_entry().abs_path@.len() > 0,
            partial.spec_entry().abs_path@.drop_last() != old(self).path@,
        ensures
            final(self).ok(after),
            final(self).contents.sort == old(self).contents.sort,
            final(self).contents.filter == old(self).contents.filter,
            final(self).path == old(self).path,
            final(self).state == old(self).state,
            final(self).original == old(self).original,
            rows::path_set(final(self).contents.list@) == rows::paths_after(
                *partial,
                rows::path_set(old(self).contents.list@),
            ),
            rows::applied(*partial, old(self).contents, final(self).contents),
    {
        let ghost p = partial.spec_entry().abs_path@;
        let ghost paths = rows::path_set(self.contents.list@);
        if !partial.is_in_subdir(&self.path) {
            proof {
                assert(!paths.contains(p));
                rows::stays_synced(self.contents.list@, before, after, p);
                assert(paths.remove(p) =~= paths);
            }
            return;
        }
        let e = match partial {
            PartiallyAppliedUpdate::Mutate(old_entry, _) => old_entry.clone(),
            PartiallyAppliedUpdate::Insert(e) => e.clone(),
            PartiallyAppliedUpdate::Delete(e) => e.clone(),
        };
        proof {
            rows::sound_is_locatable(self.contents, before, &e);
        }
        match self.contents.total_position_by_sorted(&e) {
            Some(_) => {
                rows::apply(&mut self.contents, partial.copy(), Ghost(before), Ghost(after));
            },
            None => {
                proof {
                    rows::stays_synced(self.contents.list@, before, after, p);
                    assert(paths.remove(p) =~= paths);
                }
            },
        }
    }

    /// Whether an update can be applied to this search: it is below one of the
    /// subdirectories.
    pub open spec fn takes(self, up: Update) -> bool {
        &&& update::below_subdir(up.spec_path(), self.path@)
        &&& up.spec_path() != self.path@
        &&& path::valid_parts(up.spec_path())
        &&& up matches Update::Entry(e) ==> e.ready()
    }

    /// What an update comes to, where `found` is the entry that is in use for its
    /// path and `shown` says whether the search shows it.
    pub open spec fn step(
        up: Update,
        found: Option<Arc<Entry>>,
        shown: bool,
        allow_mutation: bool,
    ) -> Option<PartiallyAppliedUpdate> {
        match (up, found) {
            (Update::Entry(e), None) => Some(PartiallyAppliedUpdate::Insert(e)),
            (Update::Entry(e), Some(x)) => if !shown {
                Some(PartiallyAppliedUpdate::Insert(x))
            } else if allow_mutation && !x.same_as(&e) {
                Some(PartiallyAppliedUpdate::Mutate(x, e))
            } else {
                None
            },
            (Update::Removed(_), Some(x)) => if shown {
                Some(PartiallyAppliedUpdate::Delete(x))
            } else {
                None
            },
            (Update::Removed(_), None) => None,
        }
    }

    /// How the rows change with an update.
    pub open spec fn stepped(
        self,
        up: Update,
        all: Objects,
        allow_mutation: bool,
        after: Seq<Item>,
    ) -> bool {
        match Search::step(
            up,
            all.entry_of(up.spec_path()),
            rows::path_set(self.contents.list@).contains(up.spec_path()),
            allow_mutation,
        ) {
            Some(u) => self.contents.after_update(&u, after),
            None => after == self.contents.list@,
        }
    }

    /// The selected paths after an update that changes no entry.
    pub open spec fn chosen_with(paths: Set<Seq<Seq<u8>>>, up: Update) -> Set<Seq<Seq<u8>>> {
        match up {
            Update::Entry(_) => paths,
            Update::Removed(p) => paths.remove(p@),
        }
    }

    /// The paths after an update.
    pub open spec fn paths_with(paths: Set<Seq<Seq<u8>>>, up: Update) -> Set<Seq<Seq<u8>>> {
        match up {
            Update::Entry(e) => paths.insert(e.abs_path@),
            Update::Removed(p) => paths.remove(p@),
        }
    }

    /// An update that changes no entry selects nothing.
    proof fn stepped_chosen(self, up: Update, all: Objects, after: Seq<Item>)
        requires
            self.ok(all),
            all.valid(),
            path::valid_parts(up.spec_path()),
            self.stepped(up, all, false, after),
        ensures
            rows::chosen(after) == Search::chosen_with(rows::chosen(self.contents.list@), up),
    {
        let list = self.contents.list@;
        let p = up.spec_path();
        let found = all.entry_of(p);
        let shown = rows::path_set(list).contains(p);
        match Search::step(up, found, shown, false) {
            Some(PartiallyAppliedUpdate::Insert(e)) => {
                contents::rank_bounds(list, &e, self.contents.sort);
                rows::inserting_keeps_chosen(
                    list,
                    contents::rank(list, &e, self.contents.sort) as int,
                    contents::unselected(e),
                );
            },
            Some(PartiallyAppliedUpdate::Delete(x)) => {
                let id = all.id_of(p)->0;
                assert(all.object(id) matches Some(o) && o.entry.abs_path@ == p);
                let k = choose|k: int| #[trigger]
                    self.contents.row_is_for(k, x.abs_path@) && after == list.remove(k);
                rows::removing_keeps_chosen(list, k);
            },
            Some(_) => {},
            None => {
                if up is Removed {
                    assert(!shown) by {
                        if shown {
                            let i = choose|i: int|
                                0 <= i < list.len() && (#[trigger] list[i]).entry.abs_path@ == p;
                            assert(all.entry_of(p) == Some(list[i].entry));
                        }
                    }
                    assert(rows::chosen(list).remove(p) =~= rows::chosen(list)) by {
                        if rows::chosen(list).contains(p) {
                            assert(contents::has_path(list, p));
                        }
                    }
                }
            },
        }
    }

    fn apply_search_update_inner(&mut self, up: Update, allow_mutation: bool, all: &mut Objects) -> (r:
        Option<ThumbRequest>)
        requires
            old(self).ok(*old(all)),
            old(all).valid(),
            old(all).slots@.len() < usize::MAX,
            old(self).takes(up),
        ensures
            final(all).valid(),
            final(self).ok(*final(all)),
            final(self).contents.sort == old(self).contents.sort,
            final(self).contents.filter == old(self).contents.filter,
            final(self).path == old(self).path,
            final(self).state == old(self).state,
            final(self).original == old(self).original,
            old(all).slots@.len() <= final(all).slots@.len() <= old(all).slots@.len() + 1,
            final(all).config == old(all).config,
            rows::same_but(*old(all), *final(all), up.spec_path()),
            ids_kept(*old(all), *final(all)),
            rows::path_set(final(self).contents.list@) == Search::paths_with(
                rows::path_set(old(self).contents.list@),
                up,
            ),
            r == request(
                *old(all),
                *final(all),
                up,
                allow_mutation && rows::path_set(old(self).contents.list@).contains(up.spec_path()),
            ),
            final(all).entry_of(up.spec_path()) == (match up {
                Update::Entry(e) => match old(all).entry_of(up.spec_path()) {
                    Some(x) if !allow_mutation || x.same_as(&e) || !rows::path_set(
                        old(self).contents.list@,
                    ).contains(up.spec_path()) => Some(x),
                    _ => Some(e),
                },
                Update::Removed(_) => old(all).entry_of(up.spec_path()),
            }),
            old(self).stepped(up, *old(all), allow_mutation, final(self).contents.list@),
            noted(
                *old(all),
                *final(all),
                up,
                allow_mutation && rows::path_set(old(self).contents.list@).contains(up.spec_path()),
            ),
            !allow_mutation ==> rows::chosen(final(self).contents.list@) == Search::chosen_with(
                rows::chosen(old(self).contents.list@),
                up,
            ),
    {
        let ghost start = *self;
        let ghost before = *all;
        let ghost p = up.spec_path();
        let ghost given = up;
        let ghost paths = rows::path_set(self.contents.list@);
        let existing = all.find_entry(up.path());
        let local: Option<usize> = match &existing {
            Some(e) => {
                proof {
                    let id = before.id_of(p)->0;
                    assert(before.object(id) matches Some(o) && o.entry.abs_path@ == p);
                    assert(before.slots@[id as int] is Some);
                    rows::sound_is_locatable(self.contents, before, e);
                }
                self.contents.total_position_by_sorted(e)
            },
            None => None,
        };
        proof {
            if existing is None && paths.contains(p) {
                let i = choose|i: int|
                    0 <= i < self.contents.list@.len() && (
                    #[trigger] self.contents.list@[i]).entry.abs_path@ == p;
                assert(before.entry_of(p) == Some(self.contents.list@[i].entry));
            }
            assert((local is Some) == paths.contains(p));
        }
        let r = match up {
            Update::Entry(entry) => match (local, existing) {
                (None, None) => {
                    let reg = all.create_or_update(entry.clone(), true);
                    rows::apply(
                        &mut self.contents,
                        PartiallyAppliedUpdate::Insert(entry),
                        Ghost(before),
                        Ghost(*all),
                    );
                    match reg.queue {
                        Some((priority, from_event)) => Some(
                            ThumbRequest { id: reg.id, priority, from_event },
                        ),
                        None => None,
                    }
                },
                (None, Some(e)) => {
                    rows::apply(
                        &mut self.contents,
                        PartiallyAppliedUpdate::Insert(e),
                        Ghost(before),
                        Ghost(before),
                    );
                    None
                },
                (Some(_), Some(e)) => {
                    assert(paths.insert(p) =~= paths);
                    if !allow_mutation {
                        proof {
                            start.stepped_chosen(given, before, self.contents.list@);
                        }
                        return None;
                    }
                    let reg = all.create_or_update(entry.clone(), true);
                    match reg.old {
                        None => {
                            proof {
                                assert forall|i: int| 0 <= i < self.contents.list@.len() implies
                                    all.entry_of(
                                    (#[trigger] self.contents.list@[i]).entry.abs_path@,
                                ) == Some(self.contents.list@[i].entry) by {
                                    rows::valid_row(self.contents.list@, before, i);
                                }
                            }
                        },
                        Some(previous) => {
                            rows::apply(
                                &mut self.contents,
                                PartiallyAppliedUpdate::Mutate(previous, entry),
                                Ghost(before),
                                Ghost(*all),
                            );
                        },
                    }
                    match reg.queue {
                        Some((priority, from_event)) => Some(
                            ThumbRequest { id: reg.id, priority, from_event },
                        ),
                        None => None,
                    }
                },
                (Some(_), None) => None,
            },
            Update::Removed(_) => {
                match (local, existing) {
                    (Some(_), Some(e)) => {
                        rows::apply(
                            &mut self.contents,
                            PartiallyAppliedUpdate::Delete(e),
                            Ghost(before),
                            Ghost(before),
                        );
                    },
                    _ => {
                        assert(paths.remove(p) =~= paths);
                    },
                }
                None
            },
        };
        proof {
            if !allow_mutation {
                start.stepped_chosen(given, before, self.contents.list@);
            }
        }
        r
    }

    /// Applies an update, or keeps it until all results are in.
    /// `allow_mutation` says that no other tab could show the same entry.
    pub fn apply_search_update(&mut self, up: Update, allow_mutation: bool, all: &mut Objects) -> (r:
        Option<ThumbRequest>)
        requires
            old(self).ok(*old(all)),
            old(all).valid(),
            old(all).slots@.len() < usize::MAX,
            old(self).takes(up),
            !(old(self).state is Unloaded),
        ensures
            final(all).valid(),
            final(self).ok(*final(all)),
            final(self).contents.sort == old(self).contents.sort,
            final(self).contents.filter == old(self).contents.filter,
            final(self).path == old(self).path,
            final(self).original == old(self).original,
            rows::same_but(*old(all), *final(all), up.spec_path()),
            match old(self).state {
                SearchState::Loading(id, pending) => {
                    &&& r is None
                    &&& *final(all) == *old(all)
                    &&& final(self).contents == old(self).contents
                    &&& final(self).state matches SearchState::Loading(i, p) && i == id && p@
                        == pending@.push(up)
                },
                _ => {
                    &&& final(self).state == old(self).state
                    &&& r == request(
                        *old(all),
                        *final(all),
                        up,
                        allow_mutation && rows::path_set(old(self).contents.list@).contains(
                            up.spec_path(),
                        ),
                    )
                    &&& rows::path_set(final(self).contents.list@) == Search::paths_with(
                        rows::path_set(old(self).contents.list@),
                        up,
                    )
                    &&& final(all).entry_of(up.spec_path()) == (match up {
                        Update::Entry(e) => match old(all).entry_of(up.spec_path()) {
                            Some(x) if !allow_mutation || x.same_as(&e) || !rows::path_set(
                                old(self).contents.list@,
                            ).contains(up.spec_path()) => Some(x),
                            _ => Some(e),
                        },
                        Update::Removed(_) => old(all).entry_of(up.spec_path()),
                    })
                    &&& old(self).stepped(up, *old(all), allow_mutation, final(self).contents.list@)
                    &&& noted(
                        *old(all),
                        *final(all),
                        up,
                        allow_mutation && rows::path_set(old(self).contents.list@).contains(
                            up.spec_path(),
                        ),
                    )
                },
            },
    {
        if let SearchState::Loading(_, pending) = &mut self.state {
            pending.push(up);
            return None;
        }
        self.apply_search_update_inner(up, allow_mutation, all)
    }
}

/// Results of a search: everything that was found in some directory.
pub struct SearchSnapshot {
    /// The number of the search.
    pub id: u64,
    pub entries: Vec<Arc<Entry>>,
    /// Whether these are the last ones.
    pub finished: bool,
}

/// A change that the watch of a search reported.
pub struct SearchUpdate {
    /// The number of the search.
    pub search_id: u64,
    pub update: Update,
}

/// Whether results make sense for a search: they are below its subdirectories,
/// and none of them is shown yet.
pub open spec fn results_fit(
    dir: Seq<Seq<u8>>,
    paths: Set<Seq<Seq<u8>>>,
    entries: Seq<Arc<Entry>>,
) -> bool {
    &&& objects::all_sound(entries)
    &&& objects::apart(entries)
    &&& forall|i: int|
        0 <= i < entries.len() ==> {
            let p = (#[trigger] entries[i]).abs_path@;
            under(dir, p) && update::below_subdir(p, dir) && !paths.contains(p)
        }
}

/// The entries that are shown for what was read.
pub open spec fn adopted(entries: Seq<Arc<Entry>>, o: Objects) -> Seq<Arc<Entry>> {
    Seq::new(
        entries.len(),
        |i: int|
            match o.entry_of(entries[i].abs_path@) {
                Some(x) => x,
                None => entries[i],
            },
    )
}

/// The thumbnail that is to be loaded for an entry that was found.
pub open spec fn adoption(before: Objects, after: Objects, e: Arc<Entry>) -> Option<ThumbRequest> {
    match (before.entry_of(e.abs_path@), before.registers(e, false).1) {
        (None, Some((priority, _))) => Some(
            ThumbRequest { id: after.id_of(e.abs_path@)->0, priority, from_event: false },
        ),
        _ => None,
    }
}

/// Whether an entry for a path was in use, or was found, or was in one of the
/// updates.
pub open spec fn known(
    o: Objects,
    entries: Seq<Arc<Entry>>,
    ups: Seq<Update>,
    p: Seq<Seq<u8>>,
) -> bool {
    o.entry_of(p) is Some || objects::lists(entries, p) || exists|i: int|
        0 <= i < ups.len() && (#[trigger] ups[i]) is Entry && ups[i].spec_path() == p
}

/// The thumbnail that is to be loaded for the `k`th update that waited.
pub open spec fn late_request(
    before: Objects,
    after: Objects,
    entries: Seq<Arc<Entry>>,
    ups: Seq<Update>,
    k: int,
) -> Option<ThumbRequest> {
    match ups[k] {
        Update::Entry(e) if !known(before, entries, ups.take(k), e.abs_path@) => match before.registers(
            e,
            true,
        ).1 {
            Some((priority, from_event)) => Some(
                ThumbRequest { id: after.id_of(e.abs_path@)->0, priority, from_event },
            ),
            None => None,
        },
        _ => None,
    }
}

/// The paths after a number of updates.
pub open spec fn paths_with_all(paths: Set<Seq<Seq<u8>>>, ups: Seq<Update>) -> Set<Seq<Seq<u8>>>
    decreases ups.len(),
{
    if ups.len() == 0 {
        paths
    } else {
        Search::paths_with(paths_with_all(paths, ups.drop_last()), ups.last())
    }
}

/// The selected paths after all of the updates, when none of them changes an
/// entry.
pub open spec fn chosen_with_all(paths: Set<Seq<Seq<u8>>>, ups: Seq<Update>) -> Set<Seq<Seq<u8>>>
    decreases ups.len(),
{
    if ups.len() == 0 {
        paths
    } else {
        Search::chosen_with(chosen_with_all(paths, ups.drop_last()), ups.last())
    }
}

/// Of the changes that have waited, the last one about a path decides whether it is
/// shown. What was removed is no longer selected, and nothing else changes.
pub proof fn last_change_decides(
    paths: Set<Seq<Seq<u8>>>,
    ups: Seq<Update>,
    k: int,
    p: Seq<Seq<u8>>,
)
    requires
        -1 <= k < ups.len(),
        k >= 0 ==> ups[k].spec_path() == p,
        forall|i: int| k < i < ups.len() ==> (#[trigger] ups[i]).spec_path() != p,
    ensures
        paths_with_all(paths, ups).contains(p) == (if k >= 0 {
            ups[k] is Entry
        } else {
            paths.contains(p)
        }),
        chosen_with_all(paths, ups).contains(p) ==> paths.contains(p),
        k >= 0 && ups[k] is Removed ==> !chosen_with_all(paths, ups).contains(p),
        k == -1 ==> chosen_with_all(paths, ups).contains(p) == paths.contains(p),
    decreases ups.len(),
{
    if ups.len() > 0 {
        let front = ups.drop_last();
        assert forall|i: int| k < i < front.len() implies (#[trigger] front[i]).spec_path() != p by {
            assert(front[i] == ups[i]);
        }
        if k < front.len() {
            if k >= 0 {
                assert(front[k] == ups[k]);
            }
            assert(ups[ups.len() - 1].spec_path() != p);
            last_change_decides(paths, front, k, p);
        } else {
            chosen_only_shrinks(paths, front);
        }
    }
}

proof fn chosen_only_shrinks(paths: Set<Seq<Seq<u8>>>, ups: Seq<Update>)
    ensures
        chosen_with_all(paths, ups).subset_of(paths),
    decreases ups.len(),
{
    if ups.len() > 0 {
        chosen_only_shrinks(paths, ups.drop_last());
    }
}

proof fn known_grows(
    o: Objects,
    entries: Seq<Arc<Entry>>,
    ups: Seq<Update>,
    n: int,
    q: Seq<Seq<u8>>,
)
    requires
        0 <= n < ups.len(),
    ensures
        known(o, entries, ups.take(n + 1), q) <==> known(o, entries, ups.take(n), q) || (ups[n] is Entry
            && ups[n].spec_path() == q),
{
    let a = ups.take(n);
    let b = ups.take(n + 1);
    if ups[n] is Entry && ups[n].spec_path() == q {
        assert(b[n] is Entry && b[n].spec_path() == q);
    }
    if exists|i: int| 0 <= i < a.len() && (#[trigger] a[i]) is Entry && a[i].spec_path() == q {
        let i = choose|i: int|
            0 <= i < a.len() && (#[trigger] a[i]) is Entry && a[i].spec_path() == q;
        assert(b[i] == a[i]);
    }
    if exists|i: int| 0 <= i < b.len() && (#[trigger] b[i]) is Entry && b[i].spec_path() == q {
        let i = choose|i: int|
            0 <= i < b.len() && (#[trigger] b[i]) is Entry && b[i].spec_path() == q;
        if i < n {
            assert(a[i] == b[i]);
        }
    }
}

/// Registers results. What is in use already is preferred, so that no other tab
/// is affected.
fn adopt_all(entries: &Vec<Arc<Entry>>, all: &mut Objects) -> (r: (
    Vec<Arc<Entry>>,
    Vec<Option<ThumbRequest>>,
))
    requires
        old(all).valid(),
        objects::all_sound(entries@),
        objects::apart(entries@),
        old(all).slots@.len() + entries@.len() < usize::MAX,
    ensures
        final(all).valid(),
        final(all).config == old(all).config,
        old(all).slots@.len() <= final(all).slots@.len() <= old(all).slots@.len() + entries@.len(),
        r.0@ == adopted(entries@, *old(all)),
        rows::in_use(r.0@, *final(all)),
        rows::kept(*old(all), *final(all)),
        ids_kept(*old(all), *final(all)),
        r.1@.len() == entries@.len(),
        forall|i: int|
            0 <= i < entries@.len() ==> #[trigger] r.1@[i] == adoption(
                *old(all),
                *final(all),
                entries@[i],
            ),
        forall|i: int|
            0 <= i < r.0@.len() ==> (#[trigger] r.0@[i]).ready() && r.0@[i].abs_path@
                == entries@[i].abs_path@,
        forall|p: Seq<Seq<u8>>|
            path::valid_parts(p) && !objects::lists(entries@, p) ==> #[trigger] final(all).entry_of(p)
                == old(all).entry_of(p),
        adopted_all(*old(all), entries@, *final(all)),
{
    let mut r: Vec<Arc<Entry>> = Vec::new();
    let mut queue: Vec<Option<ThumbRequest>> = Vec::new();
    let ghost before = *all;
    let mut i: usize = 0;
    while i < entries.len()
        invariant
            before == *old(all),
            adopted_all(before, entries@.take(i as int), *all),
            before.valid(),
            all.valid(),
            all.config == before.config,
            objects::all_sound(entries@),
            objects::apart(entries@),
            before.slots@.len() + entries@.len() < usize::MAX,
            before.slots@.len() <= all.slots@.len() <= before.slots@.len() + i,
            i <= entries@.len(),
            r@ == adopted(entries@, before).take(i as int),
            r@.len() == i,
            rows::in_use(r@, *all),
            rows::kept(before, *all),
            ids_kept(before, *all),
            queue@.len() == i,
            forall|k: int|
                0 <= k < i ==> #[trigger] queue@[k] == adoption(before, *all, entries@[k]),
            forall|k: int|
                0 <= k < i ==> (#[trigger] r@[k]).ready() && r@[k].abs_path@ == entries@[k].abs_path@,
            forall|k: int|
                i <= k < entries@.len() ==> all.entry_of((#[trigger] entries@[k]).abs_path@)
                    == before.entry_of(entries@[k].abs_path@),
            forall|p: Seq<Seq<u8>>|
                path::valid_parts(p) && !objects::lists(entries@, p) ==> #[trigger] all.entry_of(p)
                    == before.entry_of(p),
        decreases entries@.len() - i,
    {
        let ghost here = *all;
        let ghost shown = r@;
        let e = entries[i].clone();
        assert(e == entries@[i as int] && e.ready() && e.abs_path.valid());
        let (x, q) = all.adopt(e);
        r.push(x);
        let ghost queued = queue@;
        queue.push(
            match q {
                Some((id, priority)) => Some(ThumbRequest { id, priority, from_event: false }),
                None => None,
            },
        );
        proof {
            let p = entries@[i as int].abs_path@;
            assert(entries@.take(i + 1).drop_last() =~= entries@.take(i as int));
            assert(entries@.take(i + 1).last() == entries@[i as int]);
            assert(adopted_all(before, entries@.take(i + 1).drop_last(), here));
            assert(here.adopted(entries@.take(i + 1).last(), false, *all));
            assert(adopted_all(before, entries@.take(i + 1), *all));
            assert(objects::lists(entries@, p));
            assert(r@ =~= adopted(entries@, before).take(i + 1));
            assert forall|k: int| 0 <= k < entries@.len() && k != i implies (
            #[trigger] entries@[k]).abs_path@ != p && path::valid_parts(
                entries@[k].abs_path@,
            ) by {
                assert(entries@[k].abs_path.valid());
                if k < i {
                    assert(entries@[k].abs_path@ != entries@[i as int].abs_path@);
                } else {
                    assert(entries@[i as int].abs_path@ != entries@[k].abs_path@);
                }
            }
            assert forall|k: int| 0 <= k < r@.len() implies all.entry_of(
                (#[trigger] r@[k]).abs_path@,
            ) == Some(r@[k]) by {
                if k < i {
                    assert(shown[k] == r@[k]);
                    assert(here.entry_of(shown[k].abs_path@) == Some(shown[k]));
                    assert(entries@[k].abs_path@ != p);
                }
            }
            assert forall|y: Seq<Seq<u8>>|
                path::valid_parts(y) && before.id_of(y) is Some implies #[trigger] all.id_of(y)
                == before.id_of(y) by {
                assert(here.id_of(y) == before.id_of(y));
                assert(before.object(before.id_of(y)->0) is Some);
            }
            assert forall|k: int| 0 <= k < i + 1 implies #[trigger] queue@[k] == adoption(
                before,
                *all,
                entries@[k],
            ) by {
                if k < i {
                    assert(queue@[k] == queued[k]);
                    assert(entries@[k].abs_path@ != p);
                    assert(all.id_of(entries@[k].abs_path@) == here.id_of(entries@[k].abs_path@));
                } else {
                    assert(here.entry_of(p) == before.entry_of(p));
                    if before.entry_of(p) is None {
                        assert(before.id_of(p) is None) by {
                            if let Some(x) = before.id_of(p) {
                                assert(before.object(x) is Some);
                            }
                        }
                        assert(here.id_of(p) is None) by {
                            if let Some(x) = here.id_of(p) {
                                assert(here.object(x) is Some);
                            }
                        }
                    }
                }
            }
            assert forall|k: int| 0 <= k < i + 1 implies (#[trigger] r@[k]).ready()
                && r@[k].abs_path@ == entries@[k].abs_path@ by {
                if k < i {
                    assert(shown[k] == r@[k]);
                }
            }
            assert forall|k: int| i + 1 <= k < entries@.len() implies all.entry_of(
                (#[trigger] entries@[k]).abs_path@,
            ) == before.entry_of(entries@[k].abs_path@) by {
                assert(entries@[k].abs_path@ != p);
            }
            assert forall|y: Seq<Seq<u8>>|
                path::valid_parts(y) && before.entry_of(y) is Some implies
                #[trigger] all.entry_of(y) == before.entry_of(y) by {
                assert(here.entry_of(y) == before.entry_of(y));
            }
        }
        i += 1;
    }
    assert(r@ =~= adopted(entries@, before));
    assert(entries@.take(i as int) =~= entries@);
    (r, queue)
}

impl Search {
    proof fn grown(self, next: Contents, entries: Seq<Arc<Entry>>, o: Objects)
        requires
            rows::sound(self.contents, o),
            next.valid(),
            !next.stale,
            next.list@.to_multiset() == self.contents.list@.to_multiset().add(
                contents::all_unselected(entries).to_multiset(),
            ),
            objects::apart(entries),
            rows::in_use(entries, o),
            rows::path_set(self.contents.list@).disjoint(rows::entry_paths(entries)),
        ensures
            rows::sound(next, o),
            rows::path_set(next.list@) == rows::path_set(self.contents.list@).union(
                rows::entry_paths(entries),
            ),
            rows::chosen(next.list@) == rows::chosen(self.contents.list@),
    {
        let list = self.contents.list@;
        rows::joined_rows(list, entries, o);
        contents::multiset_of_concat(list, contents::all_unselected(entries));
        rows::permuted_rows(next.list@, list + contents::all_unselected(entries), o);
    }

    /// Adds entries of the directory of the tab itself.
    pub(crate) fn apply_flat_snapshot(&mut self, entries: Vec<Arc<Entry>>, Ghost(o): Ghost<Objects>)
        requires
            old(self).ok(o),
            objects::apart(entries@),
            rows::in_use(entries@, o),
            forall|i: int| 0 <= i < entries@.len() ==> (#[trigger] entries@[i]).ready(),
            rows::path_set(old(self).contents.list@).disjoint(rows::entry_paths(entries@)),
            all_under(old(self).path@, rows::entry_paths(entries@)),
        ensures
            final(self).ok(o),
            final(self).path == old(self).path,
            final(self).state == old(self).state,
            final(self).original == old(self).original,
            final(self).contents.sort == old(self).contents.sort,
            final(self).contents.filter == old(self).contents.filter,
            rows::path_set(final(self).contents.list@) == rows::path_set(
                old(self).contents.list@,
            ).union(rows::entry_paths(entries@)),
            rows::chosen(final(self).contents.list@) == rows::chosen(old(self).contents.list@),
    {
        let ghost start = *self;
        let ghost given = entries@;
        self.contents.add_flat_elements_for_search(entries);
        proof {
            start.grown(self.contents, given, o);
        }
    }

    /// Takes results in. Updates that have waited for the last of them are
    /// applied then, but none of them changes an entry.
    pub fn apply_search_snapshot(&mut self, snap: SearchSnapshot, all: &mut Objects) -> (r: Vec<
        Option<ThumbRequest>,
    >)
        requires
            old(self).ok(*old(all)),
            old(all).valid(),
            old(self).state matches SearchState::Loading(id, pending) && id == snap.id
                && old(all).slots@.len() + snap.entries@.len() + pending@.len() < usize::MAX,
            results_fit(
                old(self).path@,
                rows::path_set(old(self).contents.list@),
                snap.entries@,
            ),
        ensures
            final(all).valid(),
            final(all).config == old(all).config,
            rows::kept(*old(all), *final(all)),
            taken_in(
                *old(all),
                snap.entries@,
                if snap.finished {
                    old(self).state->Loading_1@
                } else {
                    Seq::empty()
                },
                *final(all),
            ),
            final(self).ok(*final(all)),
            final(self).path == old(self).path,
            final(self).original == old(self).original,
            final(self).contents.sort == old(self).contents.sort,
            final(self).contents.filter == old(self).contents.filter,
            forall|i: int|
                0 <= i < snap.entries@.len() ==> i < r@.len() && #[trigger] r@[i] == adoption(
                    *old(all),
                    *final(all),
                    snap.entries@[i],
                ),
            ({
                let ups = old(self).state->Loading_1@;
                let n = snap.entries@.len();
                if snap.finished {
                    r@.len() == n + ups.len() && forall|k: int|
                        0 <= k < ups.len() ==> r@[n + k] == #[trigger] late_request(
                            *old(all),
                            *final(all),
                            snap.entries@,
                            ups,
                            k,
                        )
                } else {
                    r@.len() == n
                }
            }),
            ({
                let shown = rows::path_set(old(self).contents.list@).union(
                    rows::entry_paths(snap.entries@),
                );
                if snap.finished {
                    &&& final(self).state == SearchState::Done(snap.id)
                    &&& rows::path_set(final(self).contents.list@) == paths_with_all(
                        shown,
                        old(self).state->Loading_1@,
                    )
                    &&& rows::chosen(final(self).contents.list@) == chosen_with_all(
                        rows::chosen(old(self).contents.list@),
                        old(self).state->Loading_1@,
                    )
                } else {
                    &&& final(self).state == old(self).state
                    &&& rows::path_set(final(self).contents.list@) == shown
                    &&& rows::chosen(final(self).contents.list@) == rows::chosen(
                        old(self).contents.list@,
                    )
                }
            }),
    {
        let ghost start = *self;
        let ghost before = *all;
        let (entries, mut queue) = adopt_all(&snap.entries, all);
        let ghost mid = *all;
        let ghost given = entries@;
        proof {
            rows::kept_is_synced(self.contents.list@, before, mid);
            let old_paths = rows::path_set(start.contents.list@);
            assert(rows::entry_paths(given) =~= rows::entry_paths(snap.entries@)) by {
                assert forall|q: Seq<Seq<u8>>| rows::entry_paths(given).contains(q)
                    == rows::entry_paths(snap.entries@).contains(q) by {
                    if rows::entry_paths(given).contains(q) {
                        let i = choose|i: int|
                            0 <= i < given.len() && (#[trigger] given[i]).abs_path@ == q;
                        assert(snap.entries@[i].abs_path@ == q);
                    }
                    if rows::entry_paths(snap.entries@).contains(q) {
                        let i = choose|i: int|
                            0 <= i < snap.entries@.len() && (
                            #[trigger] snap.entries@[i]).abs_path@ == q;
                        assert(given[i].abs_path@ == q);
                    }
                }
            }
            assert forall|i: int, j: int| 0 <= i < j < given.len() implies (
            #[trigger] given[i]).abs_path@ != (#[trigger] given[j]).abs_path@ by {
                assert(snap.entries@[i].abs_path@ != snap.entries@[j].abs_path@);
            }
            assert forall|q: Seq<Seq<u8>>| rows::entry_paths(given).contains(q) implies under(
                start.path@,
                q,
            ) && !old_paths.contains(q) by {
                let i = choose|i: int|
                    0 <= i < snap.entries@.len() && (#[trigger] snap.entries@[i]).abs_path@ == q;
                assert(rows::entry_paths(snap.entries@).contains(q));
            }
            assert(old_paths.disjoint(rows::entry_paths(given)));
        }
        self.contents.apply_search_snapshot(entries);
        proof {
            start.grown(self.contents, given, mid);
        }
        assert(noted_all(mid, Seq::empty(), mid));
        if !snap.finished {
            return queue;
        }
        let mut taken = SearchState::Unloaded;
        std::mem::swap(&mut taken, &mut self.state);
        match taken {
            SearchState::Loading(id, pending) => {
                let ghost shown = rows::path_set(self.contents.list@);
                let ghost marked = rows::chosen(self.contents.list@);
                let ghost ups = pending@;
                let mut waiting = pending;
                let ghost mut n: int = 0;
                let ghost found = snap.entries@;
                proof {
                    assert(ups.take(0) =~= Seq::empty());
                    assert forall|q: Seq<Seq<u8>>| path::valid_parts(q) implies (
                    #[trigger] all.entry_of(q) is Some <==> known(before, found, ups.take(0), q)) by {
                        if objects::lists(found, q) {
                            let i = choose|i: int|
                                0 <= i < found.len() && (#[trigger] found[i]).abs_path@ == q;
                            assert(given[i].abs_path@ == q);
                            assert(mid.entry_of(given[i].abs_path@) == Some(given[i]));
                        }
                    }
                }
                while waiting.len() > 0
                    invariant
                        before.valid(),
                        all.valid(),
                        all.config == before.config,
                        rows::kept(before, *all),
                        self.ok(*all),
                        self.path == start.path,
                        self.state is Unloaded,
                        self.original == start.original,
                        self.contents.sort == start.contents.sort,
                        self.contents.filter == start.contents.filter,
                        0 <= n <= ups.len(),
                        waiting@ == ups.skip(n),
                        all.slots@.len() + ups.len() - n < usize::MAX,
                        forall|i: int| 0 <= i < ups.len() ==> start.takes(#[trigger] ups[i]),
                        rows::path_set(self.contents.list@) == paths_with_all(shown, ups.take(n)),
                        rows::chosen(self.contents.list@) == chosen_with_all(marked, ups.take(n)),
                        noted_all(mid, ups.take(n), *all),
                        before.valid(),
                        ids_kept(before, *all),
                        found == snap.entries@,
                        forall|q: Seq<Seq<u8>>|
                            path::valid_parts(q) ==> (#[trigger] all.entry_of(q) is Some <==> known(
                                before,
                                found,
                                ups.take(n),
                                q,
                            )),
                        queue@.len() == found.len() + n,
                        forall|i: int|
                            0 <= i < found.len() ==> #[trigger] queue@[i] == adoption(
                                before,
                                *all,
                                found[i],
                            ),
                        forall|k: int|
                            0 <= k < n ==> queue@[found.len() + k] == #[trigger] late_request(
                                before,
                                *all,
                                found,
                                ups,
                                k,
                            ),
                        objects::all_sound(found),
                    decreases waiting@.len(),
                {
                    let ghost here = *all;
                    let up = waiting.remove(0);
                    proof {
                        assert(up == ups[n]);
                        assert(waiting@ =~= ups.skip(n + 1));
                        assert(ups.take(n + 1).drop_last() =~= ups.take(n));
                    }
                    let ghost queued = queue@;
                    let thumb = self.apply_search_update_inner(up, false, all);
                    queue.push(thumb);
                    proof {
                        let p = ups[n].spec_path();
                        assert(start.takes(ups[n]));
                        assert(noted_all(mid, ups.take(n + 1).drop_last(), here));
                        assert(ups.take(n + 1).last() == ups[n]);
                        assert(noted(here, *all, ups.take(n + 1).last(), false));
                        assert(noted_all(mid, ups.take(n + 1), *all));
                        assert forall|q: Seq<Seq<u8>>|
                            path::valid_parts(q) && before.entry_of(q) is Some implies
                            #[trigger] all.entry_of(q) == before.entry_of(q) by {
                            assert(here.entry_of(q) == before.entry_of(q));
                        }
                        assert forall|q: Seq<Seq<u8>>|
                            path::valid_parts(q) && before.id_of(q) is Some implies
                            #[trigger] all.id_of(q) == before.id_of(q) by {
                            assert(here.id_of(q) == before.id_of(q));
                        }
                        assert forall|q: Seq<Seq<u8>>| path::valid_parts(q) implies (
                        #[trigger] all.entry_of(q) is Some <==> known(
                            before,
                            found,
                            ups.take(n + 1),
                            q,
                        )) by {
                            assert(here.entry_of(q) is Some <==> known(
                                before,
                                found,
                                ups.take(n),
                                q,
                            ));
                            known_grows(before, found, ups, n, q);
                        }
                        assert forall|i: int| 0 <= i < found.len() implies #[trigger] queue@[i]
                            == adoption(before, *all, found[i]) by {
                            assert(queue@[i] == queued[i]);
                            let q = found[i].abs_path@;
                            assert(found[i].abs_path.valid());
                            assert(objects::lists(found, q));
                            assert(here.entry_of(q) is Some);
                            assert(all.id_of(q) == here.id_of(q));
                        }
                        assert forall|k: int| 0 <= k < n implies queue@[found.len() + k]
                            == #[trigger] late_request(before, *all, found, ups, k) by {
                            assert(queue@[found.len() + k] == queued[found.len() + k]);
                            assert(queued[found.len() + k] == late_request(
                                before,
                                here,
                                found,
                                ups,
                                k,
                            ));
                            let q = ups[k].spec_path();
                            assert(start.takes(ups[k]));
                            if ups[k] is Entry {
                                assert(ups.take(n)[k] == ups[k]);
                                assert(known(before, found, ups.take(n), q));
                                assert(here.entry_of(q) is Some);
                                assert(all.id_of(q) == here.id_of(q));
                            }
                        }
                        if ups[n] is Entry {
                            assert(here.entry_of(p) is Some <==> known(
                                before,
                                found,
                                ups.take(n),
                                p,
                            ));
                            if here.entry_of(p) is None {
                                assert(here.id_of(p) is None) by {
                                    if let Some(x) = here.id_of(p) {
                                        assert(here.object(x) is Some);
                                    }
                                }
                                assert(before.id_of(p) is None) by {
                                    if let Some(x) = before.id_of(p) {
                                        assert(before.object(x) is Some);
                                    }
                                }
                            }
                        }
                        assert(queue@[found.len() + n] == late_request(
                            before,
                            *all,
                            found,
                            ups,
                            n,
                        ));
                        n = n + 1;
                    }
                }
                assert(ups.take(n) =~= ups);
                self.state = SearchState::Done(id);
            },
            _ => {},
        }
        queue
    }

    /// Changes the order of the rows.
    pub(crate) fn update_settings(&mut self, sort: SortSettings, Ghost(o): Ghost<Objects>)
        requires
            old(self).ok(o),
        ensures
            final(self).ok(o),
            final(self).path == old(self).path,
            final(self).state == old(self).state,
            final(self).original == old(self).original,
            final(self).contents.sort == sort,
            final(self).contents.filter == old(self).contents.filter,
            final(self).contents.list@.to_multiset() == old(self).contents.list@.to_multiset(),
            rows::path_set(final(self).contents.list@) == rows::path_set(old(self).contents.list@),
    {
        let ghost list = self.contents.list@;
        self.contents.sort(sort);
        proof {
            rows::permuted_rows(self.contents.list@, list, o);
        }
    }

    /// Shows the entries that are in use now, and puts them in order again.
    pub(crate) fn refresh(&mut self, all: &Objects)
        requires
            all.valid(),
            old(self).contents.valid(),
            !old(self).contents.stale,
            contents::distinct_paths(old(self).contents.list@),
            forall|i: int|
                0 <= i < old(self).contents.list@.len() ==> {
                    let p = (#[trigger] old(self).contents.list@[i]).entry.abs_path@;
                    path::valid_parts(p) && all.entry_of(p) is Some
                },
            all_under(old(self).path@, rows::path_set(old(self).contents.list@)),
            old(self).state matches SearchState::Loading(_, pending) ==> forall|i: int|
                0 <= i < pending@.len() ==> old(self).takes(#[trigger] pending@[i]),
        ensures
            final(self).ok(*all),
            final(self).path == old(self).path,
            final(self).state == old(self).state,
            final(self).original == old(self).original,
            final(self).contents.sort == old(self).contents.sort,
            final(self).contents.filter == old(self).contents.filter,
            rows::path_set(final(self).contents.list@) == rows::path_set(old(self).contents.list@),
            rows::chosen(final(self).contents.list@) == rows::chosen(old(self).contents.list@),
            final(self).contents.list@.to_multiset() == refreshed(
                old(self).contents.list@,
                *all,
            ).to_multiset(),
    {
        let ghost list = self.contents.list@;
        let ghost start = *self;
        let mut i: usize = 0;
        while i < self.contents.list.len()
            invariant
                all.valid(),
                start == *old(self),
                list == start.contents.list@,
                self.path == start.path,
                self.state == start.state,
                self.original == start.original,
                self.contents.sort == start.contents.sort,
                self.contents.filter == start.contents.filter,
                self.contents.stale == start.contents.stale,
                self.contents.list@.len() == list.len(),
                i <= list.len(),
                forall|k: int|
                    0 <= k < list.len() ==> {
                        let p = (#[trigger] list[k]).entry.abs_path@;
                        path::valid_parts(p) && all.entry_of(p) is Some
                    },
                forall|k: int|
                    0 <= k < i ==> #[trigger] self.contents.list@[k] == refreshed(list, *all)[k],
                forall|k: int| i <= k < list.len() ==> #[trigger] self.contents.list@[k] == list[k],
            decreases list.len() - i,
        {
            assert(self.contents.list@[i as int] == list[i as int]);
            let item = self.contents.list[i].copy();
            if let Some(e) = all.find_entry(&item.entry.abs_path) {
                self.contents.list.set(i, Item { entry: e, selected: item.selected });
            }
            i += 1;
        }
        let ghost now = refreshed(list, *all);
        proof {
            assert(self.contents.list@ =~= now);
            assert forall|k: int| 0 <= k < now.len() implies (#[trigger] now[k]).entry.abs_path@
                == list[k].entry.abs_path@ && now[k].entry.ready() by {
                let p = list[k].entry.abs_path@;
                let id = all.id_of(p)->0;
                assert(all.object(id) matches Some(o) && o.entry.abs_path@ == p);
                assert(all.slots@[id as int] is Some);
            }
            assert forall|a: int, b: int| 0 <= a < b < now.len() implies (
            #[trigger] now[a]).entry.abs_path@ != (#[trigger] now[b]).entry.abs_path@ by {
                assert(list[a].entry.abs_path@ != list[b].entry.abs_path@);
            }
            assert forall|q: Seq<Seq<u8>>| rows::path_set(now).contains(q) == rows::path_set(
                list,
            ).contains(q) by {
                if contents::has_path(now, q) {
                    let k = choose|k: int|
                        0 <= k < now.len() && (#[trigger] now[k]).entry.abs_path@ == q;
                    assert(list[k].entry.abs_path@ == q);
                }
                if contents::has_path(list, q) {
                    let k = choose|k: int|
                        0 <= k < list.len() && (#[trigger] list[k]).entry.abs_path@ == q;
                    assert(now[k].entry.abs_path@ == q);
                }
            }
            assert(rows::path_set(now) =~= rows::path_set(list));
            assert forall|q: Seq<Seq<u8>>| rows::chosen(now).contains(q) == rows::chosen(
                list,
            ).contains(q) by {
                if rows::chosen(now).contains(q) {
                    let k = choose|k: int|
                        0 <= k < now.len() && (#[trigger] now[k]).entry.abs_path@ == q
                            && now[k].selected;
                    assert(list[k].entry.abs_path@ == q && list[k].selected);
                }
                if rows::chosen(list).contains(q) {
                    let k = choose|k: int|
                        0 <= k < list.len() && (#[trigger] list[k]).entry.abs_path@ == q
                            && list[k].selected;
                    assert(now[k].entry.abs_path@ == q && now[k].selected);
                }
            }
            assert(rows::chosen(now) =~= rows::chosen(list));
        }
        self.re_sort();
        proof {
            rows::permuted_rows(self.contents.list@, now, *all);
        }
    }
}

/// Rows with the entries that are in use now.
pub open spec fn refreshed(list: Seq<Item>, o: Objects) -> Seq<Item> {
    Seq::new(
        list.len(),
        |i: int| Item { entry: o.entry_of(list[i].entry.abs_path@)->0, selected: list[i].selected },
    )
}

/// What a search does with a change below its directory: what is new gets a row, what
/// has changed gets its row changed if it may, and what was removed loses its row.
pub proof fn search_rows_follow(
    up: Update,
    found: Option<Arc<Entry>>,
    shown: bool,
    allow_mutation: bool,
)
    requires
        shown ==> found is Some,
    ensures
        ({
            let r = Search::step(up, found, shown, allow_mutation);
            match up {
                Update::Entry(e) => {
                    &&& !shown ==> r is Some && r->0 is Insert
                    &&& !shown && found is None ==> r == Some(PartiallyAppliedUpdate::Insert(e))
                    &&& shown && found->0.same_as(&e) ==> r is None
                    &&& shown && !found->0.same_as(&e) && allow_mutation ==> r == Some(
                        PartiallyAppliedUpdate::Mutate(found->0, e),
                    )
                    &&& shown && !allow_mutation ==> r is None
                },
                Update::Removed(_) => if shown {
                    r == Some(PartiallyAppliedUpdate::Delete(found->0))
                } else {
                    r is None
                },
            }
        }),
{
}

/// The thumbnail of a file that is new to a search is loaded, and so is that of one that
/// has changed where the search may change it. Nothing is loaded for what was removed.
pub proof fn new_results_are_loaded(
    before: Objects,
    after: Objects,
    e: Arc<Entry>,
    up: Update,
    changes: bool,
    id: u64,
)
    requires
        before.config.enabled,
        e.kind is File,
        after.id_of(e.abs_path@) == Some(id),
    ensures
        before.id_of(e.abs_path@) is None ==> (request(
            before,
            after,
            Update::Entry(e),
            changes,
        ) matches Some(r) && r.id == id && r.from_event) && (adoption(
            before,
            after,
            e,
        ) matches Some(r) && r.id == id && !r.from_event),
        before.entry_of(e.abs_path@) matches Some(x) ==> {
            &&& request(before, after, Update::Entry(e), changes) is Some <==> changes
                && !x.same_as(&e)
            &&& adoption(before, after, e) is None
        },
        up is Removed ==> request(before, after, up, changes) is None,
{
}

/// A search that has started is concerned by what is in subdirectories of its directory,
/// and not by what is directly inside it or elsewhere.
pub proof fn searches_go_deeper(s: Search, up: Update, name: Seq<u8>, below: Seq<Seq<u8>>)
    requires
        below.len() > 0,
    ensures
        s.state is Unloaded ==> !s.overlaps(&up),
        up.spec_path() == s.path@.push(name) ==> !s.overlaps(&up),
        !s.path@.is_prefix_of(up.spec_path()) ==> !s.overlaps(&up),
        up.spec_path() == s.path@.push(name) + below ==> (s.overlaps(&up) <==> !(s.state
            is Unloaded)),
{
    update::deeper_is_in_a_subdirectory(s.path@, name, below, up.spec_path());
}

} // verus!
