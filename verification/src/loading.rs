//! Reading directories and searching them, and what tabs show meanwhile.
use vstd::prelude::*;

use crate::collections;
use crate::contents::{self, Contents, Item};
use crate::filter::{self, FilterChange};
use crate::flat::{DirState, WatchedDir};
use crate::flat_tab::{self, FlatTab};
use crate::opened::{self, OpenDirs};
use crate::pane::TabId;
use crate::path::{self, FilePath};
use crate::rows;
use crate::search::{self, Search, SearchState};
use crate::settings::SortSettings;

verus! {

/// What is no longer watched after a directory was unloaded.
pub struct Ended {
    pub watch: Option<WatchedDir>,
    /// The number of the search in each tab.
    pub searches: Vec<Option<u64>>,
}

impl OpenDirs {
    /// Whether a directory or the search in it is still being read.
    pub open spec fn loading(self, d: int, t: int) -> bool {
        ||| self.dirs@[d].flat.state is Initializating
        ||| self.dirs@[d].flat.state is Loading
        ||| self.dirs@[d].tabs@[t].search matches Some(s) && s.state is Loading
    }

    /// Whether everything that a tab shows has been read.
    pub open spec fn loaded(self, d: int, t: int) -> bool {
        &&& self.dirs@[d].flat.state is Loaded
        &&& self.dirs@[d].tabs@[t].search matches Some(s) ==> s.state is Done
    }

    pub fn tab_loading(&self, id: TabId) -> (r: bool)
        ensures
            (forall|d: int, t: int| !(#[trigger] self.tab_is(d, t, id))) ==> !r,
            forall|d: int, t: int| #[trigger]
                self.first_tab(d, t, id) ==> r == self.loading(d, t),
    {
        match self.find_tab(id) {
            Some((d, t)) => {
                proof {
                    assert forall|i: int, j: int| #[trigger] self.first_tab(i, j, id) implies i == d
                        && j == t by {
                        self.one_first_tab(d as int, t as int, i, j, id);
                    }
                }
                let search = match &self.dirs[d].tabs[t].search {
                    Some(s) => s.loading(),
                    None => false,
                };
                self.dirs[d].flat.state.loading() || search
            },
            None => false,
        }
    }

    pub fn tab_loaded(&self, id: TabId) -> (r: bool)
        ensures
            (forall|d: int, t: int| !(#[trigger] self.tab_is(d, t, id))) ==> !r,
            forall|d: int, t: int| #[trigger] self.first_tab(d, t, id) ==> r == self.loaded(d, t),
    {
        match self.find_tab(id) {
            Some((d, t)) => {
                proof {
                    assert forall|i: int, j: int| #[trigger] self.first_tab(i, j, id) implies i == d
                        && j == t by {
                        self.one_first_tab(d as int, t as int, i, j, id);
                    }
                }
                let search = match &self.dirs[d].tabs[t].search {
                    Some(s) => s.loaded(),
                    None => true,
                };
                self.dirs[d].flat.state.loaded() && search
            },
            None => false,
        }
    }

    /// Starts to read the directory of a tab, and to search in it, as far as that
    /// has not been done. `watch` and `search` are the numbers for that. Returns
    /// which of the two was started.
    pub fn load(&mut self, id: TabId, watch: u64, search: u64, now: u64) -> (r: (bool, bool))
        requires
            old(self).valid(),
        ensures
            final(self).valid(),
            final(self).cache == old(self).cache,
            final(self).objects == old(self).objects,
            (forall|d: int, t: int| !(#[trigger] old(self).tab_is(d, t, id))) ==> *final(self)
                == *old(self) && r == (false, false),
            forall|d: int, t: int| #[trigger]
                old(self).first_tab(d, t, id) ==> {
                    let was = old(self).dirs@[d];
                    let next = final(self).dirs@[d];
                    let tab = was.tabs@[t];
                    &&& r.0 == was.flat.state is Unloaded
                    &&& r.1 == (tab.search matches Some(s) && s.state is Unloaded)
                    &&& final(self).dirs@ == old(self).dirs@.update(d, next)
                    &&& next.flat.path == was.flat.path
                    &&& next.flat.state == (if r.0 {
                        DirState::Initializating {
                            watch: WatchedDir { path: was.flat.path, cancel: watch },
                            start: now,
                        }
                    } else {
                        was.flat.state
                    })
                    &&& next.tabs@ == was.tabs@.update(t, next.tabs@[t])
                    &&& next.tabs@[t].id == tab.id
                    &&& next.tabs@[t].contents == tab.contents
                    &&& if r.1 {
                        &&& next.tabs@[t].search matches Some(s)
                        &&& s.path == tab.search->0.path
                        &&& s.contents == tab.search->0.contents
                        &&& s.original == tab.search->0.original
                        &&& s.state matches SearchState::Loading(n, pending)
                        &&& n == search
                        &&& pending@.len() == 0
                    } else {
                        next.tabs@[t].search == tab.search
                    }
                },
    {
        let ghost start = *self;
        match self.find_tab(id) {
            Some((d, t)) => {
                let ghost was = self.dirs@[d as int];
                proof {
                    assert forall|i: int, j: int| #[trigger]
                        start.first_tab(i, j, id) implies i == d && j == t by {
                        start.one_first_tab(d as int, t as int, i, j, id);
                    }
                    assert(was.ok(self.objects));
                    assert(was.tabs@[t as int].ok(was.flat.path@, self.objects));
                }
                let flat = self.dirs[d].flat.start_load(watch, now);
                let mut started = false;
                match &mut self.dirs[d].tabs[t].search {
                    Some(s) => {
                        started = s.start_load(search);
                    },
                    None => {},
                }
                proof {
                    let next = self.dirs@[d as int];
                    assert(next.tabs@ =~= was.tabs@.update(t as int, next.tabs@[t as int]));
                    assert(self.dirs@ =~= start.dirs@.update(d as int, next));
                    assert(next.tabs@[t as int].ok(next.flat.path@, self.objects));
                    assert forall|i: int| 0 <= i < next.tabs@.len() implies (
                    #[trigger] next.tabs@[i]).ok(next.flat.path@, self.objects)
                        && next.tabs@[i].flat_paths() == was.paths() && (was.loaded()
                        ==> !next.tabs@[i].contents.stale) by {
                        assert(was.tabs@[i].ok(was.flat.path@, self.objects));
                        assert(was.tabs@[i].flat_paths() == was.paths());
                    }
                    assert(next.tabs@[0].flat_paths() == was.paths());
                    assert(next.ok(self.objects));
                    start.same_shape_valid(*self);
                }
                (flat, started)
            },
            None => (false, false),
        }
    }

    /// What a tab is after its directory was unloaded.
    pub open spec fn emptied(was: FlatTab, now: FlatTab, ended: Option<u64>) -> bool {
        &&& now.id == was.id
        &&& now.contents.list@.len() == 0
        &&& !now.contents.stale
        &&& now.contents.sort == was.contents.sort
        &&& match (was.search, now.search) {
            (Some(a), Some(b)) => {
                &&& b.path == a.path
                &&& b.original == a.original
                &&& b.contents.query() == a.contents.query()
                &&& b.contents.list@.len() == 0
                &&& b.state is Unloaded
                &&& ended == match a.state {
                    SearchState::Unloaded => None,
                    SearchState::Loading(n, _) => Some(n),
                    SearchState::Done(n) => Some(n),
                }
            },
            (None, None) => ended is None,
            _ => false,
        }
    }

    /// Drops everything that the tabs of a directory show, so that it is read
    /// again.
    pub fn unload(&mut self, dir: &FilePath) -> (r: Ended)
        requires
            old(self).valid(),
        ensures
            final(self).valid(),
            final(self).cache == old(self).cache,
            final(self).objects == old(self).objects,
            !old(self).opens(dir@) ==> *final(self) == *old(self) && r.watch is None
                && r.searches@.len() == 0,
            forall|d: int|
                0 <= d < old(self).dirs@.len() && (#[trigger] old(self).dirs@[d]).flat.path@ == dir@
                    ==> {
                    let was = old(self).dirs@[d];
                    let now = final(self).dirs@[d];
                    &&& final(self).dirs@ == old(self).dirs@.update(d, now)
                    &&& now.flat.path == was.flat.path
                    &&& now.flat.state is Unloaded
                    &&& r.watch == was.flat.state.spec_watched()
                    &&& now.tabs@.len() == was.tabs@.len()
                    &&& r.searches@.len() == was.tabs@.len()
                    &&& forall|i: int|
                        0 <= i < was.tabs@.len() ==> OpenDirs::emptied(
                            was.tabs@[i],
                            #[trigger] now.tabs@[i],
                            r.searches@[i],
                        )
                },
    {
        let ghost start = *self;
        let d = match self.find_dir(dir) {
            Some(d) => d,
            None => {
                return Ended { watch: None, searches: Vec::new() };
            },
        };
        let ghost was = self.dirs@[d as int];
        assert(was.ok(self.objects));
        let watch = self.dirs[d].flat.unload();
        let mut searches: Vec<Option<u64>> = Vec::new();
        let mut t: usize = 0;
        assert(self.dirs@[d as int].tabs@ == was.tabs@);
        assert forall|k: int| 0 <= k < start.dirs@.len() && k != d implies #[trigger] self.dirs@[k]
            == start.dirs@[k] by {}
        while t < self.dirs[d].tabs.len()
            invariant
                start == *old(self),
                d < start.dirs@.len(),
                was == start.dirs@[d as int],
                was.ok(start.objects),
                self.cache == start.cache,
                self.objects == start.objects,
                self.dirs@.len() == start.dirs@.len(),
                forall|k: int|
                    0 <= k < start.dirs@.len() && k != d ==> #[trigger] self.dirs@[k]
                        == start.dirs@[k],
                self.dirs@[d as int].flat.path == was.flat.path,
                self.dirs@[d as int].flat.state is Unloaded,
                self.dirs@[d as int].tabs@.len() == was.tabs@.len(),
                t <= was.tabs@.len(),
                searches@.len() == t,
                forall|i: int|
                    0 <= i < t ==> {
                        let tab = #[trigger] self.dirs@[d as int].tabs@[i];
                        &&& OpenDirs::emptied(was.tabs@[i], tab, searches@[i])
                        &&& tab.ok(was.flat.path@, start.objects)
                        &&& tab.flat_paths() == Set::<Seq<Seq<u8>>>::empty()
                    },
                forall|i: int|
                    t <= i < was.tabs@.len() ==> #[trigger] self.dirs@[d as int].tabs@[i]
                        == was.tabs@[i],
            decreases was.tabs@.len() - t,
        {
            let ghost here = self.dirs@;
            assert(self.dirs@[d as int].tabs@[t as int] == was.tabs@[t as int]);
            assert(was.tabs@[t as int].ok(was.flat.path@, start.objects));
            searches.push(self.unload_tab(d, t));
            proof {
                let tab = self.dirs@[d as int].tabs@[t as int];
                assert(rows::path_set(tab.contents.list@) =~= Set::empty());
                if let Some(s) = tab.search {
                    assert(rows::path_set(s.contents.list@) =~= Set::empty());
                    assert(flat_tab::children(
                        was.flat.path@,
                        rows::path_set(s.contents.list@),
                    ) =~= Set::empty());
                }
                assert(tab.ok(was.flat.path@, start.objects));
                assert forall|i: int| 0 <= i < was.tabs@.len() && i != t implies
                    #[trigger] self.dirs@[d as int].tabs@[i] == here[d as int].tabs@[i] by {}
            }
            t += 1;
        }
        proof {
            let now = self.dirs@[d as int];
            assert(now.paths() == Set::<Seq<Seq<u8>>>::empty());
            assert(now.ok(self.objects));
            assert(self.dirs@ =~= start.dirs@.update(d as int, now));
            start.same_shape_valid(*self);
            assert forall|k: int|
                0 <= k < start.dirs@.len() && (#[trigger] start.dirs@[k]).flat.path@ == dir@ implies k
                == d by {
                if k < d {
                    assert(start.dirs@[k].flat.path@ != start.dirs@[d as int].flat.path@);
                }
                if k > d {
                    assert(start.dirs@[d as int].flat.path@ != start.dirs@[k].flat.path@);
                }
            }
        }
        Ended { watch, searches }
    }

    fn unload_tab(&mut self, d: usize, t: usize) -> (r: Option<u64>)
        requires
            old(self).has_tab(d as int, t as int),
        ensures
            final(self).cache == old(self).cache,
            final(self).objects == old(self).objects,
            final(self).dirs@ == old(self).dirs@.update(d as int, final(self).dirs@[d as int]),
            final(self).dirs@[d as int].flat == old(self).dirs@[d as int].flat,
            final(self).dirs@[d as int].tabs@ == old(self).dirs@[d as int].tabs@.update(
                t as int,
                final(self).dirs@[d as int].tabs@[t as int],
            ),
            OpenDirs::emptied(
                old(self).dirs@[d as int].tabs@[t as int],
                final(self).dirs@[d as int].tabs@[t as int],
                r,
            ),
            final(self).dirs@[d as int].tabs@[t as int].contents.valid(),
            final(self).dirs@[d as int].tabs@[t as int].contents.filter == old(
                self,
            ).dirs@[d as int].tabs@[t as int].contents.filter,
            final(self).dirs@[d as int].tabs@[t as int].search matches Some(s)
                ==> s.contents.valid() && !s.contents.stale,
    {
        let ghost start = *self;
        let sort = self.dirs[d].tabs[t].contents.sort;
        let mut ended: Option<u64> = None;
        match &mut self.dirs[d].tabs[t].search {
            Some(s) => {
                ended = s.unload(sort);
            },
            None => {},
        }
        self.dirs[d].tabs[t].contents.clear(sort);
        proof {
            let now = self.dirs@[d as int];
            assert(now.tabs@ =~= start.dirs@[d as int].tabs@.update(t as int, now.tabs@[t as int]));
            assert(self.dirs@ =~= start.dirs@.update(d as int, now));
        }
        ended
    }

    /// Changes the order in which a tab shows entries.
    pub fn update_sort(&mut self, id: TabId, sort: SortSettings)
        requires
            old(self).valid(),
        ensures
            final(self).valid(),
            final(self).cache == old(self).cache,
            final(self).objects == old(self).objects,
            (forall|d: int, t: int| !(#[trigger] old(self).tab_is(d, t, id))) ==> *final(self)
                == *old(self),
            forall|d: int, t: int| #[trigger]
                old(self).first_tab(d, t, id) ==> {
                    let was = old(self).dirs@[d].tabs@[t];
                    let now = final(self).dirs@[d].tabs@[t];
                    &&& final(self).dirs@ == old(self).dirs@.update(d, final(self).dirs@[d])
                    &&& final(self).dirs@[d].flat == old(self).dirs@[d].flat
                    &&& final(self).dirs@[d].tabs@ == old(self).dirs@[d].tabs@.update(t, now)
                    &&& now.id == was.id
                    &&& now.contents.sort == sort
                    &&& now.flat_paths() == was.flat_paths()
                    &&& !was.contents.stale ==> now.contents.list@.to_multiset()
                        == was.contents.list@.to_multiset()
                    &&& match (was.search, now.search) {
                        (Some(a), Some(b)) => {
                            &&& b.path == a.path
                            &&& b.state == a.state
                            &&& b.original == a.original
                            &&& b.contents.sort == sort
                            &&& b.contents.query() == a.contents.query()
                            &&& b.contents.list@.to_multiset() == a.contents.list@.to_multiset()
                        },
                        (None, None) => true,
                        _ => false,
                    }
                },
    {
        let ghost start = *self;
        match self.find_tab(id) {
            Some((d, t)) => {
                let ghost was = self.dirs@[d as int];
                let ghost tab = was.tabs@[t as int];
                proof {
                    assert forall|i: int, j: int| #[trigger]
                        start.first_tab(i, j, id) implies i == d && j == t by {
                        start.one_first_tab(d as int, t as int, i, j, id);
                    }
                    assert(was.ok(self.objects));
                    assert(tab.ok(was.flat.path@, self.objects));
                }
                self.dirs[d].tabs[t].contents.sort(sort);
                match &mut self.dirs[d].tabs[t].search {
                    Some(s) => {
                        s.update_settings(sort, Ghost(start.objects));
                    },
                    None => {},
                }
                proof {
                    let next = self.dirs@[d as int];
                    let now = next.tabs@[t as int];
                    assert(next.tabs@ =~= was.tabs@.update(t as int, now));
                    assert(self.dirs@ =~= start.dirs@.update(d as int, next));
                    if tab.contents.stale {
                        assert(rows::path_set(now.contents.list@) =~= Set::empty());
                    } else {
                        rows::permuted_rows(now.contents.list@, tab.contents.list@, self.objects);
                    }
                    start.tab_changed(*self, d as int, t as int);
                }
            },
            None => {},
        }
    }

    /// Starts a search in a tab, or changes what is searched for. `number` is for
    /// a new search. Returns how what is shown changes, if it does.
    pub fn search(&mut self, id: TabId, query: String, number: u64) -> (r: Option<FilterChange>)
        requires
            old(self).valid(),
        ensures
            final(self).valid(),
            final(self).cache == old(self).cache,
            final(self).objects == old(self).objects,
            (forall|d: int, t: int| !(#[trigger] old(self).tab_is(d, t, id))) ==> *final(self)
                == *old(self) && r is None,
            forall|d: int, t: int| #[trigger]
                old(self).first_tab(d, t, id) ==> {
                    let was = old(self).dirs@[d].tabs@[t];
                    let now = final(self).dirs@[d].tabs@[t];
                    &&& final(self).dirs@ == old(self).dirs@.update(d, final(self).dirs@[d])
                    &&& final(self).dirs@[d].flat == old(self).dirs@[d].flat
                    &&& final(self).dirs@[d].tabs@ == old(self).dirs@[d].tabs@.update(t, now)
                    &&& now.id == was.id
                    &&& now.contents == was.contents
                    &&& now.search matches Some(b)
                    &&& b.original@ == query@
                    &&& match was.search {
                        Some(a) => {
                            &&& b.path == a.path
                            &&& b.state == a.state
                            &&& b.contents.list == a.contents.list
                            &&& b.contents.sort == a.contents.sort
                            &&& r == filter::spec_search_change(
                                a.contents.query()->0,
                                search::query_of(query@),
                            )
                            &&& b.contents.query() == (if r is Some {
                                Some(search::query_of(query@))
                            } else {
                                a.contents.query()
                            })
                        },
                        None => {
                            &&& r is None
                            &&& b.path == old(self).dirs@[d].flat.path
                            &&& b.state matches SearchState::Loading(n, pending)
                            &&& n == number
                            &&& pending@.len() == 0
                            &&& b.contents.list@ == contents::cloned_rows(&was.contents)
                            &&& b.contents.sort == was.contents.sort
                            &&& b.contents.query() == Some(search::query_of(query@))
                        },
                    }
                },
    {
        let ghost start = *self;
        let (d, t) = match self.find_tab(id) {
            Some(x) => x,
            None => {
                return None;
            },
        };
        let ghost was = self.dirs@[d as int];
        let ghost tab = was.tabs@[t as int];
        let ghost dir = was.flat.path@;
        proof {
            assert forall|i: int, j: int| #[trigger] start.first_tab(i, j, id) implies i == d && j
                == t by {
                start.one_first_tab(d as int, t as int, i, j, id);
            }
            assert(was.ok(self.objects));
            assert(tab.ok(dir, self.objects));
        }
        let mut r: Option<FilterChange> = None;
        if self.dirs[d].tabs[t].search.is_some() {
            match &mut self.dirs[d].tabs[t].search {
                Some(s) => {
                    r = s.set_query(query.as_str());
                },
                None => {},
            }
        } else {
            let p = self.dirs[d].flat.path.clone();
            proof {
                assert forall|q: Seq<Seq<u8>>| #[trigger]
                    tab.flat_paths().contains(q) implies search::under(dir, q) by {
                    flat_tab::children_are_under(dir, q);
                }
            }
            let mut s = Search::new(
                p,
                &self.dirs[d].tabs[t].contents,
                query,
                Ghost(start.objects),
            );
            let _ = s.start_load(number);
            self.dirs[d].tabs[t].search = Some(s);
            proof {
                let b = self.dirs@[d as int].tabs@[t as int].search->0;
                let paths = rows::path_set(b.contents.list@);
                assert(paths == tab.flat_paths());
                assert(flat_tab::children(dir, paths) =~= tab.flat_paths());
            }
        }
        proof {
            let next = self.dirs@[d as int];
            let now = next.tabs@[t as int];
            assert(next.tabs@ =~= was.tabs@.update(t as int, now));
            assert(self.dirs@ =~= start.dirs@.update(d as int, next));
            assert(now.ok(dir, self.objects));
            start.tab_changed(*self, d as int, t as int);
        }
        r
    }

    /// Ends the search in a tab. Returns whether there was one.
    pub fn close_search(&mut self, id: TabId) -> (r: bool)
        requires
            old(self).valid(),
        ensures
            final(self).valid(),
            final(self).cache == old(self).cache,
            final(self).objects == old(self).objects,
            (forall|d: int, t: int| !(#[trigger] old(self).tab_is(d, t, id))) ==> *final(self)
                == *old(self) && !r,
            forall|d: int, t: int| #[trigger]
                old(self).first_tab(d, t, id) ==> {
                    let was = old(self).dirs@[d].tabs@[t];
                    &&& r == was.search is Some
                    &&& final(self).dirs@ == old(self).dirs@.update(d, final(self).dirs@[d])
                    &&& final(self).dirs@[d].flat == old(self).dirs@[d].flat
                    &&& final(self).dirs@[d].tabs@ == old(self).dirs@[d].tabs@.update(
                        t,
                        (FlatTab { search: None, ..was }),
                    )
                },
    {
        let ghost start = *self;
        match self.find_tab(id) {
            Some((d, t)) => {
                proof {
                    assert forall|i: int, j: int| #[trigger]
                        start.first_tab(i, j, id) implies i == d && j == t by {
                        start.one_first_tab(d as int, t as int, i, j, id);
                    }
                }
                self.close_search_at(d, t)
            },
            None => false,
        }
    }
}

/// Whether rows show a path.
fn has_row(list: &Vec<Item>, p: &FilePath) -> (r: bool)
    ensures
        r == contents::has_path(list@, p@),
{
    let mut i: usize = 0;
    while i < list.len()
        invariant
            i <= list@.len(),
            forall|k: int| 0 <= k < i ==> (#[trigger] list@[k]).entry.abs_path@ != p@,
        decreases list@.len() - i,
    {
        if list[i].entry.abs_path.same(p) {
            return true;
        }
        i += 1;
    }
    false
}

impl FlatTab {
    /// Whether a tab holds an entry, in view or not.
    pub open spec fn holds(self, p: Seq<Seq<u8>>) -> bool {
        contents::has_path(self.contents.list@, p) || (self.search matches Some(s)
            && contents::has_path(s.contents.list@, p))
    }

    fn is_holding(&self, p: &FilePath) -> (r: bool)
        ensures
            r == self.holds(p@),
    {
        if has_row(&self.contents.list, p) {
            return true;
        }
        match &self.search {
            Some(s) => has_row(&s.contents.list, p),
            None => false,
        }
    }
}

impl OpenDirs {
    /// Whether a tab or a directory that is kept holds an entry.
    pub open spec fn held(self, p: Seq<Seq<u8>>) -> bool {
        ||| exists|d: int, t: int|
            self.has_tab(d, t) && (#[trigger] self.dirs@[d].tabs@[t]).holds(p)
        ||| exists|c: int|
            0 <= c < self.cache.dirs@.len() && contents::has_path(
                (#[trigger] self.cache.dirs@[c]).contents.list@,
                p,
            )
    }

    fn is_held(&self, p: &FilePath) -> (r: bool)
        ensures
            r == self.held(p@),
    {
        let mut d: usize = 0;
        while d < self.dirs.len()
            invariant
                d <= self.dirs@.len(),
                forall|i: int, j: int|
                    i < d && self.has_tab(i, j) ==> !(#[trigger] self.dirs@[i].tabs@[j]).holds(p@),
            decreases self.dirs@.len() - d,
        {
            let mut t: usize = 0;
            while t < self.dirs[d].tabs.len()
                invariant
                    d < self.dirs@.len(),
                    t <= self.dirs@[d as int].tabs@.len(),
                    forall|i: int, j: int|
                        (i < d || (i == d && j < t)) && self.has_tab(i, j) ==> !(
                        #[trigger] self.dirs@[i].tabs@[j]).holds(p@),
                decreases self.dirs@[d as int].tabs@.len() - t,
            {
                if self.dirs[d].tabs[t].is_holding(p) {
                    assert(self.has_tab(d as int, t as int));
                    return true;
                }
                t += 1;
            }
            d += 1;
        }
        let mut c: usize = 0;
        while c < self.cache.dirs.len()
            invariant
                c <= self.cache.dirs@.len(),
                forall|i: int, j: int|
                    self.has_tab(i, j) ==> !(#[trigger] self.dirs@[i].tabs@[j]).holds(p@),
                forall|k: int|
                    0 <= k < c ==> !contents::has_path(
                        (#[trigger] self.cache.dirs@[k]).contents.list@,
                        p@,
                    ),
            decreases self.cache.dirs@.len() - c,
        {
            if has_row(&self.cache.dirs[c].contents.list, p) {
                return true;
            }
            c += 1;
        }
        false
    }

    /// Forgets the entry with a number if nothing holds it any more. Returns
    /// whether it did.
    pub fn forget(&mut self, id: u64) -> (r: bool)
        requires
            old(self).valid(),
        ensures
            final(self).valid(),
            final(self).dirs == old(self).dirs,
            final(self).cache == old(self).cache,
            r == (old(self).objects.object(id) matches Some(o) && !old(self).held(
                o.entry.abs_path@,
            )),
            !r ==> *final(self) == *old(self),
            r ==> {
                let p = old(self).objects.object(id)->0.entry.abs_path@;
                &&& final(self).objects.slots@ == old(self).objects.slots@.update(id as int, None)
                &&& final(self).objects.config == old(self).objects.config
                &&& final(self).objects.id_of(p) == (if old(self).objects.id_of(p) == Some(id) {
                    None
                } else {
                    old(self).objects.id_of(p)
                })
                &&& forall|q: Seq<Seq<u8>>|
                    path::valid_parts(q) && q != p ==> #[trigger] final(self).objects.id_of(q)
                        == old(self).objects.id_of(q)
                &&& forall|q: Seq<Seq<u8>>|
                    path::valid_parts(q) && q != p ==> #[trigger] final(self).objects.entry_of(q)
                        == old(self).objects.entry_of(q)
                &&& collections::queued(final(self).objects.unload) == (if old(self).objects.id_of(p)
                    == Some(id) && old(self).objects.config.unload_low {
                    collections::without(collections::queued(old(self).objects.unload), id)
                } else {
                    collections::queued(old(self).objects.unload)
                })
            },
    {
        let ghost start = *self;
        if id >= self.objects.slots.len() as u64 {
            return false;
        }
        let held = match &self.objects.slots[id as usize] {
            Some(o) => self.is_held(&o.entry.abs_path),
            None => true,
        };
        if held {
            return false;
        }
        let ghost p = self.objects.object(id)->0.entry.abs_path@;
        self.objects.dispose(id);
        proof {
            assert forall|q: Seq<Seq<u8>>| path::valid_parts(q) && q != p implies
                #[trigger] self.objects.entry_of(q) == start.objects.entry_of(q) by {
                assert(self.objects.id_of(q) == start.objects.id_of(q));
                if let Some(i) = start.objects.id_of(q) {
                    assert(start.objects.object(i) matches Some(o) && o.entry.abs_path@ == q);
                    assert(i != id);
                    assert(self.objects.slots@[i as int] == start.objects.slots@[i as int]);
                }
            }
            assert(rows::same_but(start.objects, self.objects, p));
            assert forall|d: int| 0 <= d < self.dirs@.len() implies (#[trigger] self.dirs@[d]).ok(
                self.objects,
            ) && self.dirs@[d].tabs@.len() > 0 by {
                let dir = self.dirs@[d];
                assert(dir.ok(start.objects));
                assert forall|t: int| 0 <= t < dir.tabs@.len() implies !(
                #[trigger] dir.tabs@[t]).flat_paths().contains(p)
                    && !dir.tabs@[t].search_paths().contains(p) by {
                    assert(start.has_tab(d, t));
                    assert(!start.dirs@[d].tabs@[t].holds(p));
                }
                dir.unaffected(start.objects, self.objects, p);
            }
            assert forall|c: int| 0 <= c < self.cache.dirs@.len() implies opened::cached_ok(
                #[trigger] self.cache.dirs@[c],
                self.objects,
            ) by {
                assert(opened::cached_ok(start.cache.dirs@[c], start.objects));
                assert(!contents::has_path(start.cache.dirs@[c].contents.list@, p));
                rows::stays_synced(
                    start.cache.dirs@[c].contents.list@,
                    start.objects,
                    self.objects,
                    p,
                );
            }
            start.same_shape_valid(*self);
        }
        true
    }

    /// Opens a tab with the same directory, order and search as another one. The
    /// search starts anew.
    pub fn clone_tab(&mut self, source: TabId, id: TabId)
        requires
            old(self).valid(),
        ensures
            final(self).valid(),
            final(self).cache == old(self).cache,
            final(self).objects == old(self).objects,
            (forall|d: int, t: int| !(#[trigger] old(self).tab_is(d, t, source))) ==> *final(self)
                == *old(self),
            forall|d: int, t: int| #[trigger]
                old(self).first_tab(d, t, source) ==> {
                    let was = old(self).dirs@[d].tabs@[t];
                    let new = final(self).dirs@[d].tabs@.last();
                    &&& final(self).dirs@ == old(self).dirs@.update(d, final(self).dirs@[d])
                    &&& final(self).dirs@[d].flat == old(self).dirs@[d].flat
                    &&& final(self).dirs@[d].tabs@ == old(self).dirs@[d].tabs@.push(new)
                    &&& new.id == id
                    &&& !new.contents.stale
                    &&& new.contents.sort == was.contents.sort
                    &&& new.contents.list@ == contents::cloned_rows(&was.contents)
                    &&& match (was.search, new.search) {
                        (Some(a), Some(b)) => {
                            &&& b.path == a.path
                            &&& b.state is Unloaded
                            &&& b.original@ == a.original@
                            &&& b.contents.query() == a.contents.query()
                            &&& b.contents.sort == was.contents.sort
                            &&& b.contents.list@ == new.contents.list@
                        },
                        (None, None) => true,
                        _ => false,
                    }
                },
    {
        let ghost start = *self;
        match self.find_tab(source) {
            Some((d, t)) => {
                let ghost was = self.dirs@[d as int];
                let ghost tab = was.tabs@[t as int];
                let ghost dir = was.flat.path@;
                proof {
                    assert forall|i: int, j: int| #[trigger]
                        start.first_tab(i, j, source) implies i == d && j == t by {
                        start.one_first_tab(d as int, t as int, i, j, source);
                    }
                    assert(was.ok(self.objects));
                    assert(tab.ok(dir, self.objects));
                }
                let sort = self.dirs[d].tabs[t].contents.sort;
                let mut contents = Contents::new(sort);
                contents.clone_from(&self.dirs[d].tabs[t].contents, sort);
                proof {
                    crate::places::cloned_rows_are_sound(tab.contents, contents, self.objects);
                    assert forall|q: Seq<Seq<u8>>| #[trigger]
                        tab.flat_paths().contains(q) implies search::under(dir, q) by {
                        flat_tab::children_are_under(dir, q);
                    }
                }
                let search = match &self.dirs[d].tabs[t].search {
                    Some(s) => Some(s.clone_for(&contents, Ghost(start.objects))),
                    None => None,
                };
                let ghost new = FlatTab { id, contents, search };
                proof {
                    assert(new.flat_paths() == was.paths());
                    if let Some(b) = new.search {
                        assert(b.contents.list@ =~= new.contents.list@);
                        assert(flat_tab::children(dir, new.search_paths()) =~= new.flat_paths());
                    }
                    assert(new.ok(dir, self.objects));
                }
                self.dirs[d].tabs.push(FlatTab { id, contents, search });
                proof {
                    let now = self.dirs@[d as int];
                    assert(now.tabs@ =~= was.tabs@.push(new));
                    assert(now.tabs@[0] == was.tabs@[0]);
                    assert forall|i: int| 0 <= i < now.tabs@.len() implies (
                    #[trigger] now.tabs@[i]).ok(now.flat.path@, self.objects)
                        && now.tabs@[i].flat_paths() == now.paths() && (was.loaded()
                        ==> !now.tabs@[i].contents.stale) by {
                        if i < was.tabs@.len() {
                            assert(now.tabs@[i] == was.tabs@[i]);
                        }
                    }
                    assert(now.ok(self.objects));
                    assert(self.dirs@ =~= start.dirs@.update(d as int, now));
                    start.same_shape_valid(*self);
                }
            },
            None => {},
        }
    }
}

/// All tabs that are open in a directory show the same.
pub proof fn tabs_agree(o: OpenDirs, d: int, i: int, j: int)
    requires
        o.valid(),
        o.has_tab(d, i),
        o.has_tab(d, j),
    ensures
        o.dirs@[d].tabs@[i].flat_paths() == o.dirs@[d].tabs@[j].flat_paths(),
{
    assert(o.dirs@[d].ok(o.objects));
    assert(o.dirs@[d].tabs@[i].flat_paths() == o.dirs@[d].paths());
    assert(o.dirs@[d].tabs@[j].flat_paths() == o.dirs@[d].paths());
}

/// Two tabs that are open in a directory and sorted alike show the same entries
/// in the same order.
pub proof fn tabs_sorted_alike(o: OpenDirs, d: int, i: int, j: int)
    requires
        o.valid(),
        o.has_tab(d, i),
        o.has_tab(d, j),
        !o.dirs@[d].tabs@[i].contents.stale,
        !o.dirs@[d].tabs@[j].contents.stale,
        o.dirs@[d].tabs@[i].contents.sort == o.dirs@[d].tabs@[j].contents.sort,
    ensures
        o.dirs@[d].tabs@[i].contents.list@.len() == o.dirs@[d].tabs@[j].contents.list@.len(),
        forall|k: int|
            0 <= k < o.dirs@[d].tabs@[i].contents.list@.len() ==> (
            #[trigger] o.dirs@[d].tabs@[i].contents.list@[k]).entry
                == o.dirs@[d].tabs@[j].contents.list@[k].entry,
{
    tabs_agree(o, d, i, j);
    assert(o.dirs@[d].tabs@[i].ok(o.dirs@[d].flat.path@, o.objects));
    assert(o.dirs@[d].tabs@[j].ok(o.dirs@[d].flat.path@, o.objects));
    rows::same_paths_same_rows(
        o.dirs@[d].tabs@[i].contents,
        o.dirs@[d].tabs@[j].contents,
        o.objects,
    );
}

/// A search shows all that its tab would show without it.
pub proof fn search_shows_more(o: OpenDirs, d: int, t: int)
    requires
        o.valid(),
        o.has_tab(d, t),
        o.dirs@[d].tabs@[t].search is Some,
    ensures
        o.dirs@[d].tabs@[t].flat_paths().subset_of(o.dirs@[d].tabs@[t].search_paths()),
{
    assert(o.dirs@[d].ok(o.objects));
    let tab = o.dirs@[d].tabs@[t];
    assert(tab.ok(o.dirs@[d].flat.path@, o.objects));
    assert forall|p: Seq<Seq<u8>>| tab.flat_paths().contains(p) implies tab.search_paths().contains(
        p,
    ) by {
        assert(flat_tab::children(o.dirs@[d].flat.path@, tab.search_paths()).contains(p));
    }
}

/// What is shown for one path is the same in every tab.
pub proof fn rows_agree(o: OpenDirs, d: int, t: int, i: int, e: int, u: int, j: int)
    requires
        o.valid(),
        o.has_tab(d, t),
        o.has_tab(e, u),
        !o.dirs@[d].tabs@[t].contents.stale,
        !o.dirs@[e].tabs@[u].contents.stale,
        0 <= i < o.dirs@[d].tabs@[t].contents.list@.len(),
        0 <= j < o.dirs@[e].tabs@[u].contents.list@.len(),
        o.dirs@[d].tabs@[t].contents.list@[i].entry.abs_path@
            == o.dirs@[e].tabs@[u].contents.list@[j].entry.abs_path@,
    ensures
        o.dirs@[d].tabs@[t].contents.list@[i].entry == o.dirs@[e].tabs@[u].contents.list@[j].entry,
{
    assert(o.dirs@[d].ok(o.objects));
    assert(o.dirs@[e].ok(o.objects));
    assert(o.dirs@[d].tabs@[t].ok(o.dirs@[d].flat.path@, o.objects));
    assert(o.dirs@[e].tabs@[u].ok(o.dirs@[e].flat.path@, o.objects));
    let a = o.dirs@[d].tabs@[t].contents.list@;
    let b = o.dirs@[e].tabs@[u].contents.list@;
    assert(o.objects.entry_of(a[i].entry.abs_path@) == Some(a[i].entry));
    assert(o.objects.entry_of(b[j].entry.abs_path@) == Some(b[j].entry));
}

/// A tab that is still loading is not loaded, and one that is loaded has nothing to
/// wait for.
pub proof fn loading_or_loaded(o: OpenDirs, d: int, t: int)
    ensures
        !(o.loading(d, t) && o.loaded(d, t)),
        o.dirs@[d].flat.state is Loaded && o.dirs@[d].tabs@[t].search is None ==> o.loaded(d, t),
        o.dirs@[d].flat.state is Unloaded ==> !o.loaded(d, t),
{
}

} // verus!
