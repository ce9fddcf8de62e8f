//! Opening, moving and closing tabs, as far as their directories go.
use std::sync::Arc;

use vstd::prelude::*;

use crate::cache::{self, CachedDir, DirCache};
use crate::contents::{self, Contents};
use crate::flat::{DirState, FlatDir, WatchedDir};
use crate::flat_tab::{self, FlatTab, OpenDir};
use crate::objects::Objects;
use crate::opened::{self, OpenDirs};
use crate::pane::TabId;
use crate::path::{self, FilePath};
use crate::rows;
use crate::settings::SortSettings;

verus! {

/// The directories that are no longer watched after a tab has left one.
pub struct Left {
    /// The one that the tab left, unless it has other tabs or is kept.
    pub ended: Option<WatchedDir>,
    /// Those that made room for it.
    pub dropped: Vec<CachedDir>,
}

/// Rows that are up to date are so for whoever clones them.
pub proof fn cloned_rows_are_sound(source: Contents, c: Contents, o: Objects)
    requires
        source.valid(),
        !source.stale ==> rows::sound(source, o),
        c.valid(),
        !c.stale,
        c.list@.to_multiset() == contents::cloned_rows(&source).to_multiset(),
    ensures
        rows::sound(c, o),
        rows::path_set(c.list@) == (if source.stale {
            Set::empty()
        } else {
            rows::path_set(source.list@)
        }),
{
    let a = source.list@;
    let b = contents::cloned_rows(&source);
    if source.stale {
        assert(rows::path_set(b) =~= Set::empty());
    } else {
        assert forall|i: int| 0 <= i < b.len() implies (#[trigger] b[i]).entry == a[i].entry by {}
        assert forall|i: int, j: int| 0 <= i < j < b.len() implies (
        #[trigger] b[i]).entry.abs_path@ != (#[trigger] b[j]).entry.abs_path@ by {
            assert(a[i].entry.abs_path@ != a[j].entry.abs_path@);
        }
        assert forall|i: int| 0 <= i < b.len() implies o.entry_of(
            (#[trigger] b[i]).entry.abs_path@,
        ) == Some(b[i].entry) by {
            assert(o.entry_of(a[i].entry.abs_path@) == Some(a[i].entry));
        }
        assert forall|q: Seq<Seq<u8>>| rows::path_set(a).contains(q) == rows::path_set(
            b,
        ).contains(q) by {
            if contents::has_path(a, q) {
                let i = choose|i: int| 0 <= i < a.len() && (#[trigger] a[i]).entry.abs_path@ == q;
                assert(b[i].entry.abs_path@ == q);
            }
            if contents::has_path(b, q) {
                let i = choose|i: int| 0 <= i < b.len() && (#[trigger] b[i]).entry.abs_path@ == q;
                assert(a[i].entry.abs_path@ == q);
            }
        }
        assert(rows::path_set(a) =~= rows::path_set(b));
    }
    rows::permuted_rows(c.list@, b, o);
}

impl OpenDirs {
    /// The place of an open directory.
    pub open spec fn opens(self, dir: Seq<Seq<u8>>) -> bool {
        exists|d: int| 0 <= d < self.dirs@.len() && (#[trigger] self.dirs@[d]).flat.path@ == dir
    }

    pub(crate) fn find_dir(&self, dir: &FilePath) -> (r: Option<usize>)
        ensures
            match r {
                Some(d) => d < self.dirs@.len() && self.dirs@[d as int].flat.path@ == dir@,
                None => !self.opens(dir@),
            },
    {
        let mut d: usize = 0;
        while d < self.dirs.len()
            invariant
                d <= self.dirs@.len(),
                forall|i: int| 0 <= i < d ==> (#[trigger] self.dirs@[i]).flat.path@ != dir@,
            decreases self.dirs@.len() - d,
        {
            if self.dirs[d].flat.path.same(dir) {
                return Some(d);
            }
            d += 1;
        }
        None
    }

    /// How a tab comes to a directory. It shows what other tabs show there, or
    /// what was kept, or else what it brings along.
    pub open spec fn placed(
        self,
        id: TabId,
        sort: SortSettings,
        dir: Arc<FilePath>,
        brought: Contents,
        next: OpenDirs,
    ) -> bool {
        &&& next.objects == self.objects
        &&& forall|d: int|
            0 <= d < self.dirs@.len() && (#[trigger] self.dirs@[d]).flat.path@ == dir@ ==> {
                let new = next.dirs@[d].tabs@.last();
                &&& next.cache == self.cache
                &&& next.dirs@ == self.dirs@.update(d, next.dirs@[d])
                &&& next.dirs@[d].flat == self.dirs@[d].flat
                &&& next.dirs@[d].tabs@ == self.dirs@[d].tabs@.push(new)
                &&& new.id == id
                &&& new.search is None
                &&& new.contents.sort == sort
                &&& !new.contents.stale
                &&& new.flat_paths() == self.dirs@[d].paths()
                &&& new.contents.list@.to_multiset() == contents::cloned_rows(
                    &self.dirs@[d].tabs@[0].contents,
                ).to_multiset()
            }
        &&& !self.opens(dir@) ==> {
            let last = next.dirs@.last();
            let new = last.tabs@[0];
            &&& next.dirs@ == self.dirs@.push(last)
            &&& last.tabs@.len() == 1
            &&& new.id == id
            &&& new.search is None
            &&& new.contents.sort == sort
            &&& forall|c: int|
                0 <= c < self.cache.dirs@.len() && (#[trigger] self.cache.dirs@[c]).dir@ == dir@ ==> {
                    let kept = self.cache.dirs@[c];
                    &&& next.cache.dirs@ == self.cache.dirs@.remove(c)
                    &&& last.flat == (FlatDir {
                        path: kept.dir,
                        state: DirState::Loaded(kept.watch),
                    })
                    &&& !new.contents.stale
                    &&& new.flat_paths() == rows::path_set(kept.contents.list@)
                    &&& new.contents.list@.to_multiset() == contents::cloned_rows(
                        &kept.contents,
                    ).to_multiset()
                }
            &&& !self.cache.keeps(dir@) ==> {
                &&& next.cache.dirs@ == self.cache.dirs@
                &&& last.flat == (FlatDir { path: dir, state: DirState::Unloaded })
                &&& new.contents == brought
            }
        }
    }

    /// Places a tab in a directory.
    fn place(&mut self, id: TabId, brought: Contents, dir: Arc<FilePath>)
        requires
            old(self).valid(),
            path::valid_parts(dir@),
            brought.valid(),
            brought.query() is None,
            brought.stale || brought.list@.len() == 0,
        ensures
            final(self).valid(),
            old(self).placed(id, brought.sort, dir, brought, *final(self)),
    {
        let ghost start = *self;
        let sort = brought.sort;
        let mut contents = brought;
        match self.find_dir(&dir) {
            Some(d) => {
                let ghost was = self.dirs@[d as int];
                assert(was.ok(self.objects));
                assert(was.tabs@[0].ok(was.flat.path@, self.objects));
                contents.clone_from(&self.dirs[d].tabs[0].contents, sort);
                proof {
                    cloned_rows_are_sound(was.tabs@[0].contents, contents, self.objects);
                }
                self.dirs[d].tabs.push(FlatTab { id, contents, search: None });
                proof {
                    let now = self.dirs@[d as int];
                    let new = now.tabs@.last();
                    assert(new.flat_paths() == was.paths());
                    assert(now.tabs@[0] == was.tabs@[0]);
                    assert forall|i: int| 0 <= i < now.tabs@.len() implies (
                    #[trigger] now.tabs@[i]).ok(now.flat.path@, self.objects)
                        && now.tabs@[i].flat_paths() == now.paths() && (was.loaded()
                        ==> !now.tabs@[i].contents.stale) by {
                        if i < was.tabs@.len() {
                            assert(now.tabs@[i] == was.tabs@[i]);
                        }
                    }
                    assert(now.ok(self.objects));
                    assert(now.tabs@ =~= was.tabs@.push(new));
                    assert(start.opens(dir@));
                    assert(self.dirs@ =~= start.dirs@.update(d as int, now));
                    start.same_shape_valid(*self);
                    assert forall|k: int|
                        0 <= k < start.dirs@.len() && (#[trigger] start.dirs@[k]).flat.path@ == dir@
                        implies k == d by {
                        if k < d {
                            assert(start.dirs@[k].flat.path@ != start.dirs@[d as int].flat.path@);
                        }
                        if k > d {
                            assert(start.dirs@[d as int].flat.path@ != start.dirs@[k].flat.path@);
                        }
                    }
                }
            },
            None => match self.cache.take(&dir) {
                Some(cached) => {
                    let ghost c = choose|c: int|
                        0 <= c < start.cache.dirs@.len() && (#[trigger] start.cache.dirs@[c]).dir@
                            == dir@ && cached == start.cache.dirs@[c] && self.cache.dirs@
                            == start.cache.dirs@.remove(c);
                    assert(opened::cached_ok(start.cache.dirs@[c], start.objects));
                    let ghost kept = cached;
                    contents.clone_from(&cached.contents, sort);
                    proof {
                        cloned_rows_are_sound(kept.contents, contents, self.objects);
                    }
                    let mut tabs: Vec<FlatTab> = Vec::new();
                    tabs.push(FlatTab { id, contents, search: None });
                    let flat = FlatDir { path: cached.dir, state: DirState::Loaded(cached.watch) };
                    self.dirs.push(OpenDir { flat, tabs });
                    proof {
                        let last = self.dirs@.last();
                        assert(last.ok(self.objects));
                        assert(self.dirs@ =~= start.dirs@.push(last));
                        assert(start.cache.keeps(dir@));
                        assert forall|i: int| 0 <= i < self.cache.dirs@.len() implies
                            #[trigger] self.cache.dirs@[i] == start.cache.dirs@[if i < c {
                            i
                        } else {
                            i + 1
                        }] by {}
                        start.one_more_valid(*self);
                        assert forall|k: int|
                            0 <= k < start.cache.dirs@.len() && (
                            #[trigger] start.cache.dirs@[k]).dir@ == dir@ implies k == c by {
                            if k < c {
                                assert(start.cache.dirs@[k].dir@ != start.cache.dirs@[c].dir@);
                            }
                            if k > c {
                                assert(start.cache.dirs@[c].dir@ != start.cache.dirs@[k].dir@);
                            }
                        }
                    }
                },
                None => {
                    let ghost given = contents;
                    let mut tabs: Vec<FlatTab> = Vec::new();
                    tabs.push(FlatTab { id, contents, search: None });
                    self.dirs.push(OpenDir { flat: FlatDir::new(dir), tabs });
                    proof {
                        let last = self.dirs@.last();
                        let new = last.tabs@[0];
                        assert(new.flat_paths() =~= Set::empty());
                        if !given.stale {
                            assert(rows::sound(given, self.objects));
                        }
                        assert(last.ok(self.objects));
                        assert(self.dirs@ =~= start.dirs@.push(last));
                        start.one_more_valid(*self);
                    }
                },
            },
        }
    }

    proof fn one_more_valid(self, next: OpenDirs)
        requires
            self.valid(),
            next.objects == self.objects,
            next.cache.valid(),
            next.dirs@.len() > 0,
            next.dirs@ == self.dirs@.push(next.dirs@.last()),
            next.dirs@.last().ok(next.objects),
            next.dirs@.last().tabs@.len() > 0,
            !self.opens(next.dirs@.last().flat.path@),
            !next.cache.keeps(next.dirs@.last().flat.path@),
            forall|i: int|
                0 <= i < next.cache.dirs@.len() ==> self.cache.dirs@.contains(
                    #[trigger] next.cache.dirs@[i],
                ),
        ensures
            next.valid(),
    {
        let n = self.dirs@.len() as int;
        assert forall|k: int| 0 <= k < next.dirs@.len() implies (#[trigger] next.dirs@[k]).ok(
            next.objects,
        ) && next.dirs@[k].tabs@.len() > 0 by {
            if k < n {
                assert(next.dirs@[k] == self.dirs@[k]);
            }
        }
        assert forall|i: int, j: int| 0 <= i < j < next.dirs@.len() implies (
        #[trigger] next.dirs@[i]).flat.path@ != (#[trigger] next.dirs@[j]).flat.path@ by {
            assert(next.dirs@[i] == self.dirs@[i]);
            if j < n {
                assert(next.dirs@[j] == self.dirs@[j]);
            }
        }
        assert forall|c: int| 0 <= c < next.cache.dirs@.len() implies opened::cached_ok(
            #[trigger] next.cache.dirs@[c],
            next.objects,
        ) by {
            let k = self.cache.dirs@.index_of(next.cache.dirs@[c]);
            assert(self.cache.dirs@.contains(next.cache.dirs@[c]));
            assert(opened::cached_ok(self.cache.dirs@[k], self.objects));
        }
        assert forall|c: int, j: int|
            0 <= c < next.cache.dirs@.len() && 0 <= j < next.dirs@.len() implies (
        #[trigger] next.cache.dirs@[c]).dir@ != (#[trigger] next.dirs@[j]).flat.path@ by {
            let k = self.cache.dirs@.index_of(next.cache.dirs@[c]);
            assert(self.cache.dirs@.contains(next.cache.dirs@[c]));
            if j < n {
                assert(self.cache.dirs@[k].dir@ != self.dirs@[j].flat.path@);
            }
        }
    }

    /// Opens a tab in a directory.
    pub fn open(&mut self, id: TabId, dir: Arc<FilePath>, sort: SortSettings)
        requires
            old(self).valid(),
            path::valid_parts(dir@),
        ensures
            final(self).valid(),
            exists|brought: Contents|
                brought.list@.len() == 0 && !brought.stale && #[trigger] old(self).placed(
                    id,
                    sort,
                    dir,
                    brought,
                    *final(self),
                ),
    {
        let contents = Contents::new(sort);
        let ghost brought = contents;
        let ghost start = *self;
        self.place(id, contents, dir);
        assert(start.placed(id, sort, dir, brought, *self));
    }
}

impl OpenDirs {
    pub open spec fn tab_is(self, d: int, t: int, id: TabId) -> bool {
        self.has_tab(d, t) && self.dirs@[d].tabs@[t].id == id
    }

    /// The first tab with an id.
    pub open spec fn first_tab(self, d: int, t: int, id: TabId) -> bool {
        &&& self.tab_is(d, t, id)
        &&& forall|i: int, j: int| #[trigger]
            self.tab_is(i, j, id) ==> d < i || (d == i && t <= j)
    }

    pub(crate) fn find_tab(&self, id: TabId) -> (r: Option<(usize, usize)>)
        ensures
            match r {
                Some((d, t)) => self.first_tab(d as int, t as int, id),
                None => forall|d: int, t: int| !(#[trigger] self.tab_is(d, t, id)),
            },
    {
        let mut d: usize = 0;
        while d < self.dirs.len()
            invariant
                d <= self.dirs@.len(),
                forall|i: int, j: int| #[trigger] self.tab_is(i, j, id) ==> i >= d,
            decreases self.dirs@.len() - d,
        {
            let mut t: usize = 0;
            while t < self.dirs[d].tabs.len()
                invariant
                    d < self.dirs@.len(),
                    t <= self.dirs@[d as int].tabs@.len(),
                    forall|i: int, j: int| #[trigger]
                        self.tab_is(i, j, id) ==> i > d || (i == d && j >= t),
                decreases self.dirs@[d as int].tabs@.len() - t,
            {
                if self.dirs[d].tabs[t].id == id {
                    assert(self.tab_is(d as int, t as int, id));
                    return Some((d, t));
                }
                assert(!self.tab_is(d as int, t as int, id));
                t += 1;
            }
            d += 1;
        }
        None
    }

    pub proof fn one_first_tab(self, d: int, t: int, i: int, j: int, id: TabId)
        requires
            self.first_tab(d, t, id),
            self.first_tab(i, j, id),
        ensures
            i == d,
            j == t,
    {
        assert(self.tab_is(d, t, id));
        assert(self.tab_is(i, j, id));
    }

    /// Whether a tab is gone, and its directory with it if it was the last one.
    pub open spec fn without_tab(self, d: int, t: int, next: OpenDirs) -> bool {
        &&& next.objects == self.objects
        &&& if self.dirs@[d].tabs@.len() > 1 {
            &&& next.dirs@ == self.dirs@.update(d, next.dirs@[d])
            &&& next.dirs@[d].flat == self.dirs@[d].flat
            &&& next.dirs@[d].tabs@ == self.dirs@[d].tabs@.remove(t)
        } else {
            next.dirs@ == self.dirs@.remove(d)
        }
    }

    /// Takes a tab out, and its directory if it was the last one.
    fn take_tab(&mut self, d: usize, t: usize) -> (r: (FlatTab, Option<FlatDir>))
        requires
            old(self).valid(),
            old(self).has_tab(d as int, t as int),
        ensures
            final(self).valid(),
            old(self).without_tab(d as int, t as int, *final(self)),
            final(self).cache == old(self).cache,
            r.0 == old(self).dirs@[d as int].tabs@[t as int],
            r.1 == (if old(self).dirs@[d as int].tabs@.len() > 1 {
                None
            } else {
                Some(old(self).dirs@[d as int].flat)
            }),
    {
        let ghost start = *self;
        let ghost was = self.dirs@[d as int];
        assert(was.ok(self.objects));
        if self.dirs[d].tabs.len() > 1 {
            let tab = self.dirs[d].tabs.remove(t);
            proof {
                let now = self.dirs@[d as int];
                assert(self.dirs@ =~= start.dirs@.update(d as int, now));
                assert forall|i: int| 0 <= i < now.tabs@.len() implies (
                #[trigger] now.tabs@[i]).ok(now.flat.path@, self.objects)
                    && now.tabs@[i].flat_paths() == was.paths() && (was.loaded()
                    ==> !now.tabs@[i].contents.stale) by {
                    let k = if i < t { i } else { i + 1 };
                    assert(now.tabs@[i] == was.tabs@[k]);
                    assert(was.tabs@[k].flat_paths() == was.paths());
                }
                assert(now.tabs@[0].flat_paths() == was.paths());
                assert(now.ok(self.objects));
                start.same_shape_valid(*self);
            }
            (tab, None)
        } else {
            let dir = self.dirs.remove(d);
            proof {
                start.one_less_valid(*self, d as int);
            }
            let mut tabs = dir.tabs;
            let tab = tabs.remove(t);
            (tab, Some(dir.flat))
        }
    }

    proof fn one_less_valid(self, next: OpenDirs, d: int)
        requires
            self.valid(),
            0 <= d < self.dirs@.len(),
            next.objects == self.objects,
            next.cache == self.cache,
            next.dirs@ == self.dirs@.remove(d),
        ensures
            next.valid(),
            !next.opens(self.dirs@[d].flat.path@),
            !next.cache.keeps(self.dirs@[d].flat.path@),
    {
        assert forall|k: int| 0 <= k < next.dirs@.len() implies #[trigger] next.dirs@[k]
            == self.dirs@[if k < d { k } else { k + 1 }] by {}
        assert forall|i: int, j: int| 0 <= i < j < next.dirs@.len() implies (
        #[trigger] next.dirs@[i]).flat.path@ != (#[trigger] next.dirs@[j]).flat.path@ by {
            let a = if i < d { i } else { i + 1 };
            let b = if j < d { j } else { j + 1 };
            assert(self.dirs@[a].flat.path@ != self.dirs@[b].flat.path@);
        }
        assert forall|c: int, j: int|
            0 <= c < next.cache.dirs@.len() && 0 <= j < next.dirs@.len() implies (
        #[trigger] next.cache.dirs@[c]).dir@ != (#[trigger] next.dirs@[j]).flat.path@ by {
            let b = if j < d { j } else { j + 1 };
            assert(self.cache.dirs@[c].dir@ != self.dirs@[b].flat.path@);
        }
        assert forall|k: int| 0 <= k < next.dirs@.len() implies (
        #[trigger] next.dirs@[k]).flat.path@ != self.dirs@[d].flat.path@ by {
            if k < d {
                assert(self.dirs@[k].flat.path@ != self.dirs@[d].flat.path@);
            } else {
                assert(self.dirs@[d].flat.path@ != self.dirs@[k + 1].flat.path@);
            }
        }
        assert forall|c: int| 0 <= c < next.cache.dirs@.len() implies (
        #[trigger] next.cache.dirs@[c]).dir@ != self.dirs@[d].flat.path@ by {
            assert(self.cache.dirs@[c].dir@ != self.dirs@[d].flat.path@);
        }
    }

    /// What becomes of a directory that its last tab has left: it is kept if it
    /// has been read, and no longer watched otherwise.
    pub open spec fn kept_or_ended(
        self,
        flat: Option<FlatDir>,
        shown: Contents,
        next: DirCache,
        r: Left,
    ) -> bool {
        match flat {
            Some(f) => match f.state {
                DirState::Loaded(watch) => {
                    let new = next.dirs@.last();
                    &&& r.ended is None
                    &&& next.dirs@ == cache::with_room(self.cache.dirs@).push(new)
                    &&& r.dropped@ + cache::with_room(self.cache.dirs@) == self.cache.dirs@
                    &&& new.dir == f.path
                    &&& new.watch == watch
                    &&& new.contents.sort == shown.sort
                    &&& rows::path_set(new.contents.list@) == rows::path_set(shown.list@)
                    &&& new.contents.list@ == contents::cloned_rows(&shown)
                },
                _ => {
                    &&& r.ended == f.state.spec_watched()
                    &&& r.dropped@.len() == 0
                    &&& next.dirs@ == self.cache.dirs@
                },
            },
            None => r.ended is None && r.dropped@.len() == 0 && next.dirs@ == self.cache.dirs@,
        }
    }

    fn keep_or_end(&mut self, flat: Option<FlatDir>, shown: &Contents) -> (r: Left)
        requires
            old(self).valid(),
            shown.valid(),
            flat matches Some(f) ==> {
                &&& path::valid_parts(f.path@)
                &&& !old(self).opens(f.path@)
                &&& !old(self).cache.keeps(f.path@)
                &&& f.state is Loaded ==> rows::sound(*shown, old(self).objects)
                    && flat_tab::all_children(f.path@, rows::path_set(shown.list@))
            },
        ensures
            final(self).valid(),
            final(self).objects == old(self).objects,
            final(self).dirs == old(self).dirs,
            old(self).kept_or_ended(flat, *shown, final(self).cache, r),
    {
        let ghost start = *self;
        match flat {
            Some(f) => {
                let dir = f.path.clone();
                match f.state {
                    DirState::Loaded(watch) => {
                        let mut contents = Contents::new(shown.sort);
                        contents.clone_from(shown, shown.sort);
                        proof {
                            cloned_rows_are_sound(*shown, contents, self.objects);
                        }
                        let new = CachedDir { dir, watch, contents };
                        let ghost given = new;
                        let dropped = self.cache.cache_open_dir(new);
                        proof {
                            let left = cache::with_room(start.cache.dirs@);
                            let now = self.cache.dirs@;
                            assert(now.last() == given);
                            assert forall|c: int| 0 <= c < now.len() implies opened::cached_ok(
                                #[trigger] now[c],
                                self.objects,
                            ) && (c < now.len() - 1 ==> start.cache.dirs@.contains(now[c])) by {
                                if c < now.len() - 1 {
                                    assert(now[c] == left[c]);
                                    let k = c + (start.cache.dirs@.len() - left.len());
                                    assert(start.cache.dirs@[k] == left[c]);
                                    assert(opened::cached_ok(
                                        start.cache.dirs@[k],
                                        start.objects,
                                    ));
                                }
                            }
                            assert forall|c: int, j: int|
                                0 <= c < now.len() && 0 <= j < self.dirs@.len() implies (
                            #[trigger] now[c]).dir@ != (#[trigger] self.dirs@[j]).flat.path@ by {
                                if c < now.len() - 1 {
                                    assert(start.cache.dirs@.contains(now[c]));
                                    let k = start.cache.dirs@.index_of(now[c]);
                                    assert(start.cache.dirs@[k].dir@ != start.dirs@[j].flat.path@);
                                } else {
                                    assert(start.dirs@[j].flat.path@ != given.dir@);
                                }
                            }
                        }
                        Left { ended: None, dropped }
                    },
                    DirState::Unloaded => Left { ended: None, dropped: Vec::new() },
                    DirState::Initializating { watch, .. } => Left {
                        ended: Some(watch),
                        dropped: Vec::new(),
                    },
                    DirState::Loading { watch, .. } => Left {
                        ended: Some(watch),
                        dropped: Vec::new(),
                    },
                }
            },
            None => Left { ended: None, dropped: Vec::new() },
        }
    }

    /// The directory that leaves with a tab, if it is the last one there.
    pub open spec fn leaves_with(self, d: int) -> Option<FlatDir> {
        if self.dirs@[d].tabs@.len() > 1 {
            None
        } else {
            Some(self.dirs@[d].flat)
        }
    }

    /// Closes a tab.
    pub fn close(&mut self, id: TabId) -> (r: Left)
        requires
            old(self).valid(),
        ensures
            final(self).valid(),
            (forall|d: int, t: int| !(#[trigger] old(self).tab_is(d, t, id))) ==> *final(self)
                == *old(self) && r.ended is None && r.dropped@.len() == 0,
            forall|d: int, t: int| #[trigger]
                old(self).first_tab(d, t, id) ==> old(self).without_tab(d, t, *final(self)) && old(
                    self,
                ).kept_or_ended(
                    old(self).leaves_with(d),
                    old(self).dirs@[d].tabs@[t].contents,
                    final(self).cache,
                    r,
                ),
    {
        let ghost start = *self;
        match self.find_tab(id) {
            Some((d, t)) => {
                let ghost was = self.dirs@[d as int];
                proof {
                    assert(was.ok(self.objects));
                    assert(was.tabs@[t as int].ok(was.flat.path@, self.objects));
                    assert forall|i: int, j: int| #[trigger] start.first_tab(i, j, id) implies i == d
                        && j == t by {
                        start.one_first_tab(d as int, t as int, i, j, id);
                    }
                }
                let (tab, flat) = self.take_tab(d, t);
                proof {
                    if flat is Some {
                        start.one_less_valid(*self, d as int);
                    }
                }
                self.keep_or_end(flat, &tab.contents)
            },
            None => Left { ended: None, dropped: Vec::new() },
        }
    }

    /// How a tab goes to another directory, from the `d`th.
    pub open spec fn moved(
        self,
        d: int,
        t: int,
        dir: Arc<FilePath>,
        sort: SortSettings,
        allow_stale: bool,
        next: OpenDirs,
        r: Left,
    ) -> bool {
        let was = self.dirs@[d].tabs@[t];
        let stale = allow_stale && was.search is None;
        exists|left: OpenDirs, there: OpenDirs, brought: Contents|
            {
                &&& self.without_tab(d, t, left)
                &&& left.cache == self.cache
                &&& brought.sort == sort
                &&& if stale {
                    brought.stale && brought.list@ == was.contents.list@
                } else {
                    !brought.stale && brought.list@.len() == 0
                }
                &&& #[trigger] left.placed(was.id, sort, dir, brought, there)
                &&& #[trigger] there.kept_or_ended(
                    self.leaves_with(d),
                    was.contents,
                    next.cache,
                    r,
                )
                &&& next.dirs == there.dirs
                &&& next.objects == there.objects
            }
    }

    /// Takes a tab to another directory and ends its search. Old rows may stay
    /// in view until the new ones come, where `allow_stale` says so. Returns
    /// whether anything changed.
    pub fn change_location_flat(
        &mut self,
        id: TabId,
        dir: Arc<FilePath>,
        sort: SortSettings,
        allow_stale: bool,
    ) -> (r: (bool, Left))
        requires
            old(self).valid(),
            path::valid_parts(dir@),
        ensures
            final(self).valid(),
            (forall|d: int, t: int| !(#[trigger] old(self).tab_is(d, t, id))) ==> *final(self)
                == *old(self) && !r.0 && r.1.ended is None && r.1.dropped@.len() == 0,
            forall|d: int, t: int| #[trigger]
                old(self).first_tab(d, t, id) ==> {
                    let was = old(self).dirs@[d].tabs@[t];
                    if old(self).dirs@[d].flat.path@ == dir@ {
                        &&& r.0 == was.search is Some
                        &&& r.1.ended is None
                        &&& r.1.dropped@.len() == 0
                        &&& final(self).cache == old(self).cache
                        &&& final(self).objects == old(self).objects
                        &&& final(self).dirs@ == old(self).dirs@.update(d, final(self).dirs@[d])
                        &&& final(self).dirs@[d].flat == old(self).dirs@[d].flat
                        &&& final(self).dirs@[d].tabs@ == old(self).dirs@[d].tabs@.update(
                            t,
                            (FlatTab { search: None, ..was }),
                        )
                    } else {
                        r.0 && old(self).moved(d, t, dir, sort, allow_stale, *final(self), r.1)
                    }
                },
    {
        let ghost start = *self;
        let nothing = Left { ended: None, dropped: Vec::new() };
        let (d, t) = match self.find_tab(id) {
            Some(x) => x,
            None => {
                return (false, nothing);
            },
        };
        let ghost was = self.dirs@[d as int];
        proof {
            assert(was.ok(self.objects));
            assert(was.tabs@[t as int].ok(was.flat.path@, self.objects));
            assert forall|i: int, j: int| #[trigger] start.first_tab(i, j, id) implies i == d && j
                == t by {
                start.one_first_tab(d as int, t as int, i, j, id);
            }
        }
        if self.dirs[d].flat.path.same(&dir) {
            let searched = self.close_search_at(d, t);
            return (searched, nothing);
        }
        let (tab, flat) = self.take_tab(d, t);
        let ghost left = *self;
        proof {
            if flat is Some {
                start.one_less_valid(*self, d as int);
            }
        }
        let contents = if allow_stale && tab.search.is_none() {
            let mut c = tab.contents.copy();
            c.mark_stale(sort);
            c
        } else {
            Contents::new(sort)
        };
        let ghost brought = contents;
        self.place(tab.id, contents, dir);
        let ghost there = *self;
        proof {
            assert(left.placed(tab.id, sort, dir, brought, there));
            if flat is Some {
                left.placed_elsewhere(tab.id, sort, dir, brought, there, was.flat.path@);
            }
        }
        let r = self.keep_or_end(flat, &tab.contents);
        assert(there.kept_or_ended(flat, tab.contents, self.cache, r));
        (true, r)
    }

    /// Going to one directory leaves others as open or closed as they were.
    proof fn placed_elsewhere(
        self,
        id: TabId,
        sort: SortSettings,
        dir: Arc<FilePath>,
        brought: Contents,
        next: OpenDirs,
        other: Seq<Seq<u8>>,
    )
        requires
            self.valid(),
            next.valid(),
            self.placed(id, sort, dir, brought, next),
            other != dir@,
            !self.opens(other),
            !self.cache.keeps(other),
        ensures
            !next.opens(other),
            !next.cache.keeps(other),
    {
        if self.opens(dir@) {
            let d = choose|d: int|
                0 <= d < self.dirs@.len() && (#[trigger] self.dirs@[d]).flat.path@ == dir@;
            assert forall|k: int| 0 <= k < next.dirs@.len() implies (
            #[trigger] next.dirs@[k]).flat.path@ != other by {
                assert(self.dirs@[k].flat.path@ != other);
                assert(k != d ==> next.dirs@[k] == self.dirs@[k]);
            }
        } else {
            let n = self.dirs@.len() as int;
            assert forall|k: int| 0 <= k < next.dirs@.len() implies (
            #[trigger] next.dirs@[k]).flat.path@ != other by {
                if k < n {
                    assert(next.dirs@[k] == self.dirs@[k]);
                } else {
                    if self.cache.keeps(dir@) {
                        let c = choose|c: int|
                            0 <= c < self.cache.dirs@.len() && (#[trigger] self.cache.dirs@[c]).dir@
                                == dir@;
                        assert(next.dirs@[k].flat.path == self.cache.dirs@[c].dir);
                    }
                }
            }
            if self.cache.keeps(dir@) {
                let c = choose|c: int|
                    0 <= c < self.cache.dirs@.len() && (#[trigger] self.cache.dirs@[c]).dir@ == dir@;
                assert(next.cache.dirs@ == self.cache.dirs@.remove(c));
                assert forall|i: int| 0 <= i < next.cache.dirs@.len() implies (
                #[trigger] next.cache.dirs@[i]).dir@ != other by {
                    let k = if i < c { i } else { i + 1 };
                    assert(next.cache.dirs@[i] == self.cache.dirs@[k]);
                }
            }
        }
    }

    /// Ends the search in a tab. Returns whether there was one.
    pub(crate) fn close_search_at(&mut self, d: usize, t: usize) -> (r: bool)
        requires
            old(self).valid(),
            old(self).has_tab(d as int, t as int),
        ensures
            final(self).valid(),
            final(self).cache == old(self).cache,
            final(self).objects == old(self).objects,
            r == old(self).dirs@[d as int].tabs@[t as int].search is Some,
            final(self).dirs@ == old(self).dirs@.update(d as int, final(self).dirs@[d as int]),
            final(self).dirs@[d as int].flat == old(self).dirs@[d as int].flat,
            final(self).dirs@[d as int].tabs@ == old(self).dirs@[d as int].tabs@.update(
                t as int,
                (FlatTab { search: None, ..old(self).dirs@[d as int].tabs@[t as int] }),
            ),
    {
        let ghost start = *self;
        let ghost was = self.dirs@[d as int];
        assert(was.ok(self.objects));
        assert(was.tabs@[t as int].ok(was.flat.path@, self.objects));
        let r = self.dirs[d].tabs[t].search.is_some();
        self.dirs[d].tabs[t].search = None;
        proof {
            let now = self.dirs@[d as int];
            assert(now.tabs@ =~= was.tabs@.update(
                t as int,
                (FlatTab { search: None, ..was.tabs@[t as int] }),
            ));
            assert(self.dirs@ =~= start.dirs@.update(d as int, now));
            start.tab_changed(*self, d as int, t as int);
        }
        r
    }

    /// Changing one tab so that it is still in order and shows the same keeps
    /// everything in order.
    pub proof fn tab_changed(self, next: OpenDirs, d: int, t: int)
        requires
            self.valid(),
            self.has_tab(d, t),
            next.objects == self.objects,
            next.cache == self.cache,
            next.dirs@ == self.dirs@.update(d, next.dirs@[d]),
            next.dirs@[d].flat == self.dirs@[d].flat,
            next.dirs@[d].tabs@ == self.dirs@[d].tabs@.update(t, next.dirs@[d].tabs@[t]),
            next.dirs@[d].tabs@[t].ok(self.dirs@[d].flat.path@, self.objects),
            next.dirs@[d].tabs@[t].flat_paths() == self.dirs@[d].tabs@[t].flat_paths(),
            self.dirs@[d].loaded() ==> !next.dirs@[d].tabs@[t].contents.stale,
        ensures
            next.valid(),
    {
        let was = self.dirs@[d];
        let now = next.dirs@[d];
        assert(was.ok(self.objects));
        assert forall|i: int| 0 <= i < now.tabs@.len() implies (#[trigger] now.tabs@[i]).ok(
            now.flat.path@,
            self.objects,
        ) && now.tabs@[i].flat_paths() == was.paths() && (was.loaded()
            ==> !now.tabs@[i].contents.stale) by {
            assert(was.tabs@[i].ok(was.flat.path@, self.objects));
            assert(was.tabs@[i].flat_paths() == was.paths());
        }
        assert(now.tabs@[0].flat_paths() == was.paths());
        assert(now.ok(self.objects));
        self.same_shape_valid(next);
    }
}

/// A directory that is left once it was loaded is kept, and the watch on it goes on. One
/// that was not loaded is not kept, and its watch ends.
pub proof fn left_directories_are_kept(
    o: OpenDirs,
    flat: FlatDir,
    shown: Contents,
    next: DirCache,
    r: Left,
)
    requires
        o.kept_or_ended(Some(flat), shown, next, r),
    ensures
        flat.state is Loaded ==> next.keeps(flat.path@) && r.ended is None,
        !(flat.state is Loaded) ==> next.dirs@ == o.cache.dirs@ && r.ended
            == flat.state.spec_watched(),
        flat.state is Loaded && !shown.stale ==> rows::path_set(next.dirs@.last().contents.list@)
            == rows::path_set(shown.list@) && next.dirs@.last().dir == flat.path,
{
    if flat.state is Loaded {
        let i = next.dirs@.len() - 1;
        assert(next.dirs@[i].dir@ == flat.path@);
    }
}

/// A directory that was kept is shown again without being read again.
pub proof fn kept_directories_are_shown_again(
    o: OpenDirs,
    id: TabId,
    sort: SortSettings,
    dir: Arc<FilePath>,
    brought: Contents,
    next: OpenDirs,
    c: int,
)
    requires
        o.placed(id, sort, dir, brought, next),
        !o.opens(dir@),
        0 <= c < o.cache.dirs@.len(),
        o.cache.dirs@[c].dir@ == dir@,
    ensures
        next.dirs@.last().flat.state is Loaded,
        next.dirs@.last().tabs@[0].id == id,
        next.dirs@.last().tabs@[0].flat_paths() == rows::path_set(
            o.cache.dirs@[c].contents.list@,
        ),
        next.cache.dirs@ == o.cache.dirs@.remove(c),
{
}

/// A directory is left with its last tab, and not before.
pub proof fn last_tab_leaves(o: OpenDirs, d: int)
    ensures
        o.dirs@[d].tabs@.len() == 1 ==> o.leaves_with(d) == Some(o.dirs@[d].flat),
        o.dirs@[d].tabs@.len() > 1 ==> o.leaves_with(d) is None,
{
}

/// Once a tab is gone from a directory the others stay, and nothing else changes.
pub proof fn other_tabs_stay(o: OpenDirs, d: int, t: int, next: OpenDirs, i: int, j: int)
    requires
        o.without_tab(d, t, next),
        o.has_tab(d, t),
        o.has_tab(i, j),
        i != d || j != t,
    ensures
        exists|k: int, m: int|
            next.has_tab(k, m) && #[trigger] next.dirs@[k].tabs@[m] == o.dirs@[i].tabs@[j]
                && next.dirs@[k].flat == o.dirs@[i].flat,
{
    let tabs = o.dirs@[d].tabs@;
    if tabs.len() > 1 {
        let m = if i == d && j > t {
            j - 1
        } else {
            j
        };
        assert(next.dirs@[i].tabs@[m] == o.dirs@[i].tabs@[j]);
        assert(next.has_tab(i, m));
    } else {
        let k = if i > d {
            i - 1
        } else {
            i
        };
        assert(next.dirs@[k] == o.dirs@[i]);
        assert(next.dirs@[k].tabs@[j] == o.dirs@[i].tabs@[j]);
        assert(next.has_tab(k, j));
    }
}

} // verus!
