//! What tabs show of the directory they are open in. All tabs of a directory
//! share one watch and show the same entries, each in its own order.
use std::sync::Arc;

use vstd::prelude::*;

use crate::contents::{self, Contents, Item, PartiallyAppliedUpdate};
use crate::entry::Entry;
use crate::flat::{DirState, FlatDir};
use crate::objects::{self, Objects};
use crate::pane::TabId;
use crate::path;
use crate::rows;
use crate::search::{self, Search};
use crate::update::{self, Update};

verus! {

/// Whether a path is directly inside a directory.
pub open spec fn child_of(dir: Seq<Seq<u8>>, p: Seq<Seq<u8>>) -> bool {
    p.len() > 0 && p.drop_last() == dir
}

/// The paths that are directly inside a directory.
pub open spec fn children(dir: Seq<Seq<u8>>, paths: Set<Seq<Seq<u8>>>) -> Set<Seq<Seq<u8>>> {
    Set::new(|p: Seq<Seq<u8>>| paths.contains(p) && child_of(dir, p))
}

pub open spec fn all_children(dir: Seq<Seq<u8>>, paths: Set<Seq<Seq<u8>>>) -> bool {
    forall|p: Seq<Seq<u8>>| #[trigger] paths.contains(p) ==> child_of(dir, p)
}

/// The rows of a tab, and its search, if there is one.
pub struct FlatTab {
    pub id: TabId,
    pub contents: Contents,
    pub search: Option<Search>,
}

/// A directory and the tabs that are open in it.
pub struct OpenDir {
    pub flat: FlatDir,
    pub tabs: Vec<FlatTab>,
}

pub proof fn children_are_under(dir: Seq<Seq<u8>>, p: Seq<Seq<u8>>)
    requires
        child_of(dir, p),
    ensures
        search::under(dir, p),
        !update::below_subdir(p, dir),
{
    assert(p.drop_last().len() < p.len());
    assert(dir =~= p.take(dir.len() as int));
}

/// Rows for other paths do not notice a change to one.
pub proof fn search_unaffected(s: Search, before: Objects, after: Objects, p: Seq<Seq<u8>>)
    requires
        before.valid(),
        s.ok(before),
        rows::same_but(before, after, p),
        !rows::path_set(s.contents.list@).contains(p),
    ensures
        s.ok(after),
{
    rows::stays_synced(s.contents.list@, before, after, p);
}

impl FlatTab {
    /// The paths that are shown. Stale rows are those of another directory.
    pub open spec fn flat_paths(self) -> Set<Seq<Seq<u8>>> {
        if self.contents.stale {
            Set::empty()
        } else {
            rows::path_set(self.contents.list@)
        }
    }

    pub open spec fn search_paths(self) -> Set<Seq<Seq<u8>>> {
        match self.search {
            Some(s) => rows::path_set(s.contents.list@),
            None => Set::empty(),
        }
    }

    /// The rows are in order and up to date, and a search shows all of them and
    /// more.
    pub open spec fn ok(self, dir: Seq<Seq<u8>>, o: Objects) -> bool {
        &&& self.contents.valid()
        &&& self.contents.query() is None
        &&& !self.contents.stale ==> rows::sound(self.contents, o) && all_children(
            dir,
            self.flat_paths(),
        )
        &&& self.search matches Some(s) ==> {
            &&& s.path@ == dir
            &&& s.ok(o)
            &&& s.contents.query() is Some
            &&& children(dir, rows::path_set(s.contents.list@)) == self.flat_paths()
            &&& s.state is Unloaded ==> all_children(dir, rows::path_set(s.contents.list@))
        }
    }

    /// Whether it is the same tab with the same settings.
    pub open spec fn same_tab(self, other: FlatTab) -> bool {
        &&& self.id == other.id
        &&& self.contents.sort == other.contents.sort
        &&& match (self.search, other.search) {
            (Some(a), Some(b)) => a.path == b.path && a.state == b.state && a.original == b.original
                && a.contents.query() == b.contents.query(),
            (None, None) => true,
            _ => false,
        }
    }

    /// How the rows of the search change with an update.
    pub open spec fn search_applied(self, update: PartiallyAppliedUpdate, next: FlatTab) -> bool {
        match (self.search, next.search) {
            (Some(a), Some(b)) => rows::applied(update, a.contents, b.contents),
            (None, None) => true,
            _ => false,
        }
    }

    /// Whether what was selected still is after more entries were read. The first
    /// part replaces what was there.
    pub open spec fn selection_kept(self, initial: bool, next: FlatTab) -> bool {
        &&& rows::chosen(next.contents.list@) == (if initial {
            Set::empty()
        } else {
            rows::chosen(self.contents.list@)
        })
        &&& next.search_chosen() == self.search_chosen()
    }

    /// The paths that are selected in the search.
    pub open spec fn search_chosen(self) -> Set<Seq<Seq<u8>>> {
        match self.search {
            Some(s) => rows::chosen(s.contents.list@),
            None => Set::empty(),
        }
    }

    pub proof fn unaffected(self, dir: Seq<Seq<u8>>, before: Objects, after: Objects, p: Seq<Seq<u8>>)
        requires
            before.valid(),
            self.ok(dir, before),
            rows::same_but(before, after, p),
            !self.flat_paths().contains(p),
            !self.search_paths().contains(p),
        ensures
            self.ok(dir, after),
    {
        if !self.contents.stale {
            rows::stays_synced(self.contents.list@, before, after, p);
        }
        if let Some(s) = self.search {
            search_unaffected(s, before, after, p);
        }
    }

    pub proof fn kept(self, dir: Seq<Seq<u8>>, before: Objects, after: Objects)
        requires
            before.valid(),
            self.ok(dir, before),
            rows::kept(before, after),
        ensures
            self.ok(dir, after),
    {
        if !self.contents.stale {
            rows::kept_is_synced(self.contents.list@, before, after);
        }
        if let Some(s) = self.search {
            rows::kept_is_synced(s.contents.list@, before, after);
        }
    }

    /// Applies a change in the tab's directory.
    pub(crate) fn finish_update(
        &mut self,
        partial: &PartiallyAppliedUpdate,
        Ghost(dir): Ghost<Seq<Seq<u8>>>,
        Ghost(before): Ghost<Objects>,
        Ghost(after): Ghost<Objects>,
    )
        requires
            old(self).ok(dir, before),
            !old(self).contents.stale,
            rows::tells(*partial, before, after),
            child_of(dir, partial.spec_entry().abs_path@),
            old(self).flat_paths().contains(partial.spec_entry().abs_path@) == !(partial is Insert),
        ensures
            final(self).ok(dir, after),
            final(self).same_tab(*old(self)),
            !final(self).contents.stale,
            old(self).contents.after_update(partial, final(self).contents.list@),
            final(self).flat_paths() == rows::paths_after(*partial, old(self).flat_paths()),
            final(self).search is Some ==> final(self).search_paths() == rows::paths_after(
                *partial,
                old(self).search_paths(),
            ),
            old(self).search_applied(*partial, *final(self)),
    {
        let ghost start = *self;
        let ghost p = partial.spec_entry().abs_path@;
        rows::apply(&mut self.contents, partial.copy(), Ghost(before), Ghost(after));
        proof {
            children_are_under(dir, p);
        }
        match &mut self.search {
            Some(s) => {
                assert(rows::path_set(s.contents.list@).contains(p) == children(
                    dir,
                    rows::path_set(s.contents.list@),
                ).contains(p));
                s.finish_flat_update(partial.copy(), Ghost(before), Ghost(after));
            },
            None => {},
        }
        proof {
            if self.search is Some {
                assert(children(dir, self.search_paths()) =~= self.flat_paths());
            }
        }
    }

    /// Applies a change in another directory, which a search may show.
    pub(crate) fn handle_search_subdir_flat_update(
        &mut self,
        partial: &PartiallyAppliedUpdate,
        Ghost(dir): Ghost<Seq<Seq<u8>>>,
        Ghost(before): Ghost<Objects>,
        Ghost(after): Ghost<Objects>,
    )
        requires
            old(self).ok(dir, before),
            rows::tells(*partial, before, after),
            !(partial is Insert),
            partial.spec_entry().abs_path@.len() > 0,
            !child_of(dir, partial.spec_entry().abs_path@),
        ensures
            final(self).ok(dir, after),
            final(self).same_tab(*old(self)),
            final(self).contents == old(self).contents,
            final(self).search is Some ==> final(self).search_paths() == rows::paths_after(
                *partial,
                old(self).search_paths(),
            ),
            old(self).search_applied(*partial, *final(self)),
    {
        let ghost p = partial.spec_entry().abs_path@;
        proof {
            if !self.contents.stale {
                assert(!self.flat_paths().contains(p));
                rows::stays_synced(self.contents.list@, before, after, p);
            }
        }
        match &mut self.search {
            Some(s) => {
                s.handle_subdir_flat_update(partial, Ghost(before), Ghost(after));
            },
            None => {},
        }
        proof {
            if self.search is Some {
                assert(children(dir, self.search_paths()) =~= self.flat_paths());
            }
        }
    }
}

/// Whether an update is for something directly inside a directory.
pub open spec fn fits(dir: Seq<Seq<u8>>, up: Update) -> bool {
    &&& child_of(dir, up.spec_path())
    &&& path::valid_parts(up.spec_path())
    &&& up matches Update::Entry(e) ==> e.ready()
}

/// Whether two lists are the same tabs with the same settings.
pub open spec fn same_tabs(a: Seq<FlatTab>, b: Seq<FlatTab>) -> bool {
    a.len() == b.len() && forall|i: int| 0 <= i < a.len() ==> (#[trigger] a[i]).same_tab(b[i])
}

impl OpenDir {
    /// The paths that every tab shows.
    pub open spec fn paths(self) -> Set<Seq<Seq<u8>>> {
        if self.tabs@.len() > 0 {
            self.tabs@[0].flat_paths()
        } else {
            Set::empty()
        }
    }

    /// Whether updates are applied at once.
    pub open spec fn loaded(self) -> bool {
        self.flat.state is Loaded
    }

    /// All tabs show the same, in order and up to date.
    pub open spec fn ok(self, o: Objects) -> bool {
        &&& path::valid_parts(self.flat.path@)
        &&& forall|i: int|
            0 <= i < self.tabs@.len() ==> (#[trigger] self.tabs@[i]).ok(self.flat.path@, o)
                && self.tabs@[i].flat_paths() == self.paths()
        &&& match self.flat.state {
            DirState::Loaded(_) => forall|i: int|
                0 <= i < self.tabs@.len() ==> !(#[trigger] self.tabs@[i]).contents.stale,
            DirState::Loading { pending_updates, .. } => forall|i: int|
                0 <= i < pending_updates@.len() ==> fits(
                    self.flat.path@,
                    #[trigger] pending_updates@[i],
                ),
            _ => self.paths() == Set::<Seq<Seq<u8>>>::empty(),
        }
    }

    pub proof fn unaffected(self, before: Objects, after: Objects, p: Seq<Seq<u8>>)
        requires
            before.valid(),
            self.ok(before),
            rows::same_but(before, after, p),
            forall|i: int|
                0 <= i < self.tabs@.len() ==> !(#[trigger] self.tabs@[i]).flat_paths().contains(p)
                    && !self.tabs@[i].search_paths().contains(p),
        ensures
            self.ok(after),
    {
        assert forall|i: int| 0 <= i < self.tabs@.len() implies (#[trigger] self.tabs@[i]).ok(
            self.flat.path@,
            after,
        ) by {
            self.tabs@[i].unaffected(self.flat.path@, before, after, p);
        }
    }

    pub proof fn kept(self, before: Objects, after: Objects)
        requires
            before.valid(),
            self.ok(before),
            rows::kept(before, after),
        ensures
            self.ok(after),
    {
        assert forall|i: int| 0 <= i < self.tabs@.len() implies (#[trigger] self.tabs@[i]).ok(
            self.flat.path@,
            after,
        ) by {
            self.tabs@[i].kept(self.flat.path@, before, after);
        }
    }

    /// Applies a change in the directory to all of its tabs.
    pub(crate) fn finish_update(
        &mut self,
        partial: &PartiallyAppliedUpdate,
        Ghost(before): Ghost<Objects>,
        Ghost(after): Ghost<Objects>,
    )
        requires
            old(self).ok(before),
            old(self).loaded(),
            rows::tells(*partial, before, after),
            child_of(old(self).flat.path@, partial.spec_entry().abs_path@),
            old(self).tabs@.len() > 0,
            old(self).paths().contains(partial.spec_entry().abs_path@) == !(partial is Insert),
        ensures
            final(self).ok(after),
            final(self).flat == old(self).flat,
            same_tabs(final(self).tabs@, old(self).tabs@),
            final(self).paths() == rows::paths_after(*partial, old(self).paths()),
            forall|i: int|
                0 <= i < old(self).tabs@.len() ==> old(self).tabs@[i].contents.after_update(
                    partial,
                    (#[trigger] final(self).tabs@[i]).contents.list@,
                ) && old(self).tabs@[i].search_applied(*partial, final(self).tabs@[i]),
    {
        let ghost start = *self;
        let ghost dir = self.flat.path@;
        let mut i: usize = 0;
        while i < self.tabs.len()
            invariant
                start == *old(self),
                start.ok(before),
                start.loaded(),
                dir == start.flat.path@,
                rows::tells(*partial, before, after),
                child_of(dir, partial.spec_entry().abs_path@),
                start.tabs@.len() > 0,
                start.paths().contains(partial.spec_entry().abs_path@) == !(partial is Insert),
                self.flat == start.flat,
                self.tabs@.len() == start.tabs@.len(),
                i <= self.tabs@.len(),
                forall|k: int|
                    0 <= k < i ==> (#[trigger] self.tabs@[k]).ok(dir, after)
                        && !self.tabs@[k].contents.stale && self.tabs@[k].same_tab(start.tabs@[k])
                        && self.tabs@[k].flat_paths() == rows::paths_after(*partial, start.paths())
                        && start.tabs@[k].contents.after_update(
                        partial,
                        self.tabs@[k].contents.list@,
                    ) && start.tabs@[k].search_applied(*partial, self.tabs@[k]),
                forall|k: int| i <= k < self.tabs@.len() ==> #[trigger] self.tabs@[k] == start.tabs@[k],
            decreases self.tabs@.len() - i,
        {
            assert(start.tabs@[i as int].ok(dir, before));
            assert(self.tabs@[i as int] == start.tabs@[i as int]);
            let ghost here = self.tabs@;
            self.tabs[i].finish_update(partial, Ghost(dir), Ghost(before), Ghost(after));
            assert forall|k: int| 0 <= k < here.len() && k != i implies #[trigger] self.tabs@[k]
                == here[k] by {}
            i += 1;
        }
    }

    /// Applies a change in another directory to the searches in this one.
    pub(crate) fn pass_on(
        &mut self,
        partial: &PartiallyAppliedUpdate,
        Ghost(before): Ghost<Objects>,
        Ghost(after): Ghost<Objects>,
    )
        requires
            old(self).ok(before),
            rows::tells(*partial, before, after),
            !(partial is Insert),
            partial.spec_entry().abs_path@.len() > 0,
            !child_of(old(self).flat.path@, partial.spec_entry().abs_path@),
        ensures
            final(self).ok(after),
            final(self).flat == old(self).flat,
            same_tabs(final(self).tabs@, old(self).tabs@),
            final(self).paths() == old(self).paths(),
            forall|i: int|
                0 <= i < old(self).tabs@.len() ==> {
                    let tab = #[trigger] final(self).tabs@[i];
                    &&& tab.contents == old(self).tabs@[i].contents
                    &&& tab.search is Some ==> tab.search_paths() == rows::paths_after(
                        *partial,
                        old(self).tabs@[i].search_paths(),
                    )
                    &&& old(self).tabs@[i].search_applied(*partial, tab)
                },
    {
        let ghost start = *self;
        let ghost dir = self.flat.path@;
        let mut i: usize = 0;
        while i < self.tabs.len()
            invariant
                start == *old(self),
                start.ok(before),
                dir == start.flat.path@,
                rows::tells(*partial, before, after),
                !(partial is Insert),
                partial.spec_entry().abs_path@.len() > 0,
                !child_of(dir, partial.spec_entry().abs_path@),
                self.flat == start.flat,
                self.tabs@.len() == start.tabs@.len(),
                i <= self.tabs@.len(),
                forall|k: int|
                    0 <= k < i ==> (#[trigger] self.tabs@[k]).ok(dir, after) && self.tabs@[k].contents
                        == start.tabs@[k].contents && self.tabs@[k].same_tab(start.tabs@[k]) && (
                    self.tabs@[k].search is Some ==> self.tabs@[k].search_paths()
                        == rows::paths_after(*partial, start.tabs@[k].search_paths()))
                        && start.tabs@[k].search_applied(*partial, self.tabs@[k]),
                forall|k: int| i <= k < self.tabs@.len() ==> #[trigger] self.tabs@[k] == start.tabs@[k],
            decreases self.tabs@.len() - i,
        {
            assert(start.tabs@[i as int].ok(dir, before));
            assert(self.tabs@[i as int] == start.tabs@[i as int]);
            let ghost here = self.tabs@;
            self.tabs[i].handle_search_subdir_flat_update(
                partial,
                Ghost(dir),
                Ghost(before),
                Ghost(after),
            );
            assert forall|k: int| 0 <= k < here.len() && k != i implies #[trigger] self.tabs@[k]
                == here[k] by {}
            i += 1;
        }
        proof {
            assert forall|k: int| 0 <= k < self.tabs@.len() implies (
            #[trigger] self.tabs@[k]).flat_paths() == start.paths() by {
                assert(start.tabs@[k].flat_paths() == start.paths());
            }
            assert(self.tabs@.len() > 0 ==> self.tabs@[0].flat_paths() == start.paths());
            assert forall|k: int|
                0 <= k < self.tabs@.len() && start.loaded() implies !(
            #[trigger] self.tabs@[k]).contents.stale by {
                assert(!start.tabs@[k].contents.stale);
            }
        }
    }
}

/// Whether entries that were read make sense for a directory: they are directly
/// inside it, and each is listed once.
pub open spec fn readable(dir: Seq<Seq<u8>>, entries: Seq<Arc<Entry>>) -> bool {
    &&& objects::all_sound(entries)
    &&& objects::apart(entries)
    &&& all_children(dir, rows::entry_paths(entries))
}

fn copy_entries(entries: &Vec<Arc<Entry>>) -> (r: Vec<Arc<Entry>>)
    ensures
        r@ == entries@,
{
    let mut r: Vec<Arc<Entry>> = Vec::new();
    let mut i: usize = 0;
    while i < entries.len()
        invariant
            i <= entries@.len(),
            r@ == entries@.take(i as int),
        decreases entries@.len() - i,
    {
        r.push(entries[i].clone());
        assert(r@ =~= entries@.take(i + 1));
        i += 1;
    }
    assert(r@ =~= entries@);
    r
}

impl FlatTab {
    /// Adds a part of the directory's entries. The first part replaces stale
    /// rows.
    pub(crate) fn apply_snapshot_inner(
        &mut self,
        initial: bool,
        entries: &Vec<Arc<Entry>>,
        Ghost(dir): Ghost<Seq<Seq<u8>>>,
        Ghost(o): Ghost<Objects>,
    )
        requires
            old(self).ok(dir, o),
            objects::apart(entries@),
            rows::in_use(entries@, o),
            forall|i: int| 0 <= i < entries@.len() ==> (#[trigger] entries@[i]).ready(),
            all_children(dir, rows::entry_paths(entries@)),
            old(self).flat_paths().disjoint(rows::entry_paths(entries@)),
            if initial {
                old(self).flat_paths() == Set::<Seq<Seq<u8>>>::empty()
            } else {
                !old(self).contents.stale
            },
        ensures
            final(self).ok(dir, o),
            final(self).same_tab(*old(self)),
            !final(self).contents.stale,
            final(self).flat_paths() == old(self).flat_paths().union(rows::entry_paths(entries@)),
            rows::chosen(final(self).contents.list@) == (if initial {
                Set::empty()
            } else {
                rows::chosen(old(self).contents.list@)
            }),
            final(self).search is Some ==> final(self).search_paths()
                == old(self).search_paths().union(rows::entry_paths(entries@)),
            final(self).search_chosen() == old(self).search_chosen(),
    {
        let ghost start = *self;
        let ghost new = rows::entry_paths(entries@);
        match &mut self.search {
            Some(s) => {
                proof {
                    let paths = rows::path_set(s.contents.list@);
                    assert forall|p: Seq<Seq<u8>>| new.contains(p) implies !paths.contains(p)
                        && search::under(dir, p) by {
                        children_are_under(dir, p);
                        assert(children(dir, paths).contains(p) == paths.contains(p));
                    }
                    assert(paths.disjoint(new));
                }
                s.apply_flat_snapshot(copy_entries(entries), Ghost(o));
            },
            None => {},
        }
        self.contents.apply_snapshot(initial, copy_entries(entries));
        proof {
            let kept = if initial {
                Seq::<Item>::empty()
            } else {
                start.contents.list@
            };
            if initial {
                assert(rows::path_set(kept) =~= Set::empty());
                assert(rows::chosen(kept) =~= Set::empty());
                kept.to_multiset_ensures();
                assert(kept.to_multiset() =~= vstd::multiset::Multiset::empty());
            }
            rows::joined_rows(kept, entries@, o);
            contents::multiset_of_concat(kept, contents::all_unselected(entries@));
            rows::permuted_rows(
                self.contents.list@,
                kept + contents::all_unselected(entries@),
                o,
            );
            assert(self.flat_paths() =~= start.flat_paths().union(new));
            if self.search is Some {
                assert(children(dir, self.search_paths()) =~= self.flat_paths());
            }
        }
    }

    /// Shows the entries that are in use now in the search, in order.
    pub(crate) fn search_sort_after_snapshot(
        &mut self,
        all: &Objects,
        Ghost(dir): Ghost<Seq<Seq<u8>>>,
        Ghost(before): Ghost<Objects>,
        Ghost(entries): Ghost<Seq<Arc<Entry>>>,
    )
        requires
            before.valid(),
            all.valid(),
            old(self).ok(dir, before),
            rows::same_outside(before, *all, entries),
            forall|i: int|
                0 <= i < entries.len() ==> all.entry_of((#[trigger] entries[i]).abs_path@) is Some,
            old(self).flat_paths().disjoint(rows::entry_paths(entries)),
        ensures
            final(self).ok(dir, *all),
            final(self).same_tab(*old(self)),
            final(self).contents == old(self).contents,
            final(self).search_paths() == old(self).search_paths(),
            final(self).search_chosen() == old(self).search_chosen(),
    {
        proof {
            if !self.contents.stale {
                rows::outside_is_synced(self.contents.list@, before, *all, entries);
            }
        }
        match &mut self.search {
            Some(s) => {
                proof {
                    let list = s.contents.list@;
                    assert forall|i: int| 0 <= i < list.len() implies {
                        let p = (#[trigger] list[i]).entry.abs_path@;
                        path::valid_parts(p) && all.entry_of(p) is Some
                    } by {
                        rows::valid_row(list, before, i);
                        let p = list[i].entry.abs_path@;
                        assert(before.entry_of(p) == Some(list[i].entry));
                        if objects::lists(entries, p) {
                            let k = choose|k: int|
                                0 <= k < entries.len() && (#[trigger] entries[k]).abs_path@ == p;
                            assert(all.entry_of(entries[k].abs_path@) is Some);
                        }
                    }
                }
                s.refresh(all);
            },
            None => {},
        }
    }
}

impl OpenDir {
    /// Whether a part of the contents comes in its turn: the first one before
    /// anything is shown, and others after that.
    pub open spec fn in_turn(self, initial: bool, entries: Seq<Arc<Entry>>) -> bool {
        if initial {
            self.paths() == Set::<Seq<Seq<u8>>>::empty()
        } else {
            &&& self.paths().disjoint(rows::entry_paths(entries))
            &&& forall|i: int|
                0 <= i < self.tabs@.len() ==> !(#[trigger] self.tabs@[i]).contents.stale
        }
    }

    /// Adds a part of the directory's entries to all of its tabs.
    pub(crate) fn apply_snapshot(
        &mut self,
        initial: bool,
        entries: &Vec<Arc<Entry>>,
        Ghost(o): Ghost<Objects>,
    )
        requires
            old(self).ok(o),
            old(self).flat.state is Loading,
            objects::apart(entries@),
            rows::in_use(entries@, o),
            forall|i: int| 0 <= i < entries@.len() ==> (#[trigger] entries@[i]).ready(),
            all_children(old(self).flat.path@, rows::entry_paths(entries@)),
            old(self).in_turn(initial, entries@),
            old(self).tabs@.len() > 0,
        ensures
            final(self).ok(o),
            final(self).flat == old(self).flat,
            same_tabs(final(self).tabs@, old(self).tabs@),
            final(self).paths() == old(self).paths().union(rows::entry_paths(entries@)),
            forall|i: int|
                0 <= i < old(self).tabs@.len() ==> {
                    let tab = #[trigger] final(self).tabs@[i];
                    &&& !tab.contents.stale
                    &&& tab.search is Some ==> tab.search_paths()
                        == old(self).tabs@[i].search_paths().union(rows::entry_paths(entries@))
                    &&& old(self).tabs@[i].selection_kept(initial, tab)
                },
    {
        let ghost start = *self;
        let ghost dir = self.flat.path@;
        let ghost new = rows::entry_paths(entries@);
        let mut i: usize = 0;
        while i < self.tabs.len()
            invariant
                start == *old(self),
                start.ok(o),
                dir == start.flat.path@,
                new == rows::entry_paths(entries@),
                objects::apart(entries@),
                rows::in_use(entries@, o),
                forall|k: int| 0 <= k < entries@.len() ==> (#[trigger] entries@[k]).ready(),
                all_children(dir, new),
                start.in_turn(initial, entries@),
                self.flat == start.flat,
                self.tabs@.len() == start.tabs@.len(),
                i <= self.tabs@.len(),
                forall|k: int|
                    0 <= k < i ==> {
                        let tab = #[trigger] self.tabs@[k];
                        &&& tab.ok(dir, o)
                        &&& !tab.contents.stale
                        &&& tab.same_tab(start.tabs@[k])
                        &&& tab.flat_paths() == start.paths().union(new)
                        &&& tab.search is Some ==> tab.search_paths()
                            == start.tabs@[k].search_paths().union(new)
                        &&& start.tabs@[k].selection_kept(initial, tab)
                    },
                forall|k: int| i <= k < self.tabs@.len() ==> #[trigger] self.tabs@[k] == start.tabs@[k],
            decreases self.tabs@.len() - i,
        {
            assert(start.tabs@[i as int].ok(dir, o));
            assert(self.tabs@[i as int] == start.tabs@[i as int]);
            assert(start.tabs@[i as int].flat_paths() == start.paths());
            let ghost here = self.tabs@;
            self.tabs[i].apply_snapshot_inner(initial, entries, Ghost(dir), Ghost(o));
            assert forall|k: int| 0 <= k < here.len() && k != i implies #[trigger] self.tabs@[k]
                == here[k] by {}
            i += 1;
        }
    }

    /// Puts the searches in order again after entries elsewhere have changed.
    pub(crate) fn search_sort_after_snapshot(
        &mut self,
        all: &Objects,
        Ghost(before): Ghost<Objects>,
        Ghost(entries): Ghost<Seq<Arc<Entry>>>,
    )
        requires
            before.valid(),
            all.valid(),
            old(self).ok(before),
            rows::same_outside(before, *all, entries),
            forall|i: int|
                0 <= i < entries.len() ==> all.entry_of((#[trigger] entries[i]).abs_path@) is Some,
            old(self).paths().disjoint(rows::entry_paths(entries)),
        ensures
            final(self).ok(*all),
            final(self).flat == old(self).flat,
            same_tabs(final(self).tabs@, old(self).tabs@),
            final(self).paths() == old(self).paths(),
            forall|i: int|
                0 <= i < old(self).tabs@.len() ==> (#[trigger] final(self).tabs@[i]).contents
                    == old(self).tabs@[i].contents && final(self).tabs@[i].search_paths()
                    == old(self).tabs@[i].search_paths() && final(self).tabs@[i].search_chosen()
                    == old(self).tabs@[i].search_chosen(),
    {
        let ghost start = *self;
        let ghost dir = self.flat.path@;
        let mut i: usize = 0;
        while i < self.tabs.len()
            invariant
                start == *old(self),
                start.ok(before),
                dir == start.flat.path@,
                before.valid(),
                all.valid(),
                rows::same_outside(before, *all, entries),
                forall|k: int|
                    0 <= k < entries.len() ==> all.entry_of((#[trigger] entries[k]).abs_path@)
                        is Some,
                start.paths().disjoint(rows::entry_paths(entries)),
                self.flat == start.flat,
                self.tabs@.len() == start.tabs@.len(),
                i <= self.tabs@.len(),
                forall|k: int|
                    0 <= k < i ==> {
                        let tab = #[trigger] self.tabs@[k];
                        &&& tab.ok(dir, *all)
                        &&& tab.same_tab(start.tabs@[k])
                        &&& tab.contents == start.tabs@[k].contents
                        &&& tab.search_paths() == start.tabs@[k].search_paths()
                        &&& tab.search_chosen() == start.tabs@[k].search_chosen()
                    },
                forall|k: int| i <= k < self.tabs@.len() ==> #[trigger] self.tabs@[k] == start.tabs@[k],
            decreases self.tabs@.len() - i,
        {
            assert(start.tabs@[i as int].ok(dir, before));
            assert(self.tabs@[i as int] == start.tabs@[i as int]);
            assert(start.tabs@[i as int].flat_paths() == start.paths());
            let ghost here = self.tabs@;
            self.tabs[i].search_sort_after_snapshot(
                all,
                Ghost(dir),
                Ghost(before),
                Ghost(entries),
            );
            assert forall|k: int| 0 <= k < here.len() && k != i implies #[trigger] self.tabs@[k]
                == here[k] by {}
            i += 1;
        }
        proof {
            assert forall|k: int| 0 <= k < self.tabs@.len() implies (
            #[trigger] self.tabs@[k]).flat_paths() == start.paths() by {
                assert(start.tabs@[k].flat_paths() == start.paths());
            }
            assert(self.tabs@.len() > 0 ==> self.tabs@[0].flat_paths() == start.paths());
            assert forall|k: int|
                0 <= k < self.tabs@.len() && start.loaded() implies !(
            #[trigger] self.tabs@[k]).contents.stale by {
                assert(!start.tabs@[k].contents.stale);
            }
        }
    }
}

/// Rows that arrive later leave the selection as it is.
pub proof fn later_rows_keep_the_selection(was: FlatTab, now: FlatTab, p: Seq<Seq<u8>>)
    requires
        was.selection_kept(false, now),
    ensures
        rows::chosen(now.contents.list@).contains(p) <==> rows::chosen(
            was.contents.list@,
        ).contains(p),
        now.search_chosen().contains(p) <==> was.search_chosen().contains(p),
{
}

} // verus!
