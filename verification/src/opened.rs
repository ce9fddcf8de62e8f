//! All directories that tabs are open in, and the entries that they show.
use std::sync::Arc;

use vstd::prelude::*;

use crate::cache::{CachedDir, DirCache};
use crate::contents::PartiallyAppliedUpdate;
use crate::entry::Entry;
use crate::existing::{self, decide, liststore_entry_for_update, Effect};
use crate::flat::{Delayed, DirState};
use crate::flat_tab::{self, OpenDir};
use crate::objects::{self, EntryObjectSnapshot, Objects};
use crate::path::{self, FilePath};
use crate::rows;
use crate::search::{
    self, Search, SearchSnapshot, SearchState, SearchUpdate, ThumbRequest,
};
use crate::snapshot::DirSnapshot;
use crate::thumbs::{ThumbConfig, ThumbPriority};
use crate::update::{self, Update};

verus! {

/// The directories that tabs are open in, those that are kept for later, and
/// all entries that are in use.
pub struct OpenDirs {
    pub dirs: Vec<OpenDir>,
    pub cache: DirCache,
    pub objects: Objects,
}

/// Whether all directories are in order.
pub open spec fn dirs_ok(dirs: Seq<OpenDir>, o: Objects) -> bool {
    forall|k: int| 0 <= k < dirs.len() ==> (#[trigger] dirs[k]).ok(o) && dirs[k].tabs@.len() > 0
}

/// Whether no directory is listed twice.
pub open spec fn dirs_apart(dirs: Seq<OpenDir>) -> bool {
    forall|i: int, j: int|
        0 <= i < j < dirs.len() ==> (#[trigger] dirs[i]).flat.path@ != (
        #[trigger] dirs[j]).flat.path@
}

/// Whether the rows of a directory that is kept are in order and up to date.
pub open spec fn cached_ok(c: CachedDir, o: Objects) -> bool {
    &&& rows::sound(c.contents, o)
    &&& c.contents.query() is None
    &&& flat_tab::all_children(c.dir@, rows::path_set(c.contents.list@))
}

pub open spec fn cache_ok(cached: Seq<CachedDir>, o: Objects) -> bool {
    forall|c: int| 0 <= c < cached.len() ==> cached_ok(#[trigger] cached[c], o)
}

/// Whether a directory that is kept is not open.
pub open spec fn not_open(cached: Seq<CachedDir>, dirs: Seq<OpenDir>) -> bool {
    forall|c: int, k: int|
        0 <= c < cached.len() && 0 <= k < dirs.len() ==> (#[trigger] cached[c]).dir@ != (
        #[trigger] dirs[k]).flat.path@
}

/// Whether two lists are the same directories with the same tabs.
pub open spec fn same_dirs(a: Seq<OpenDir>, b: Seq<OpenDir>) -> bool {
    a.len() == b.len() && forall|k: int|
        0 <= k < a.len() ==> (#[trigger] a[k]).flat == b[k].flat && flat_tab::same_tabs(
            a[k].tabs@,
            b[k].tabs@,
        )
}

impl OpenDirs {
    pub open spec fn valid(self) -> bool {
        &&& self.objects.valid()
        &&& self.cache.valid()
        &&& dirs_ok(self.dirs@, self.objects)
        &&& dirs_apart(self.dirs@)
        &&& cache_ok(self.cache.dirs@, self.objects)
        &&& not_open(self.cache.dirs@, self.dirs@)
    }

    pub fn new(config: ThumbConfig) -> (r: OpenDirs)
        ensures
            r.valid(),
            r.dirs@.len() == 0,
            r.cache.dirs@.len() == 0,
            r.objects.config == config,
            forall|p: Seq<Seq<u8>>| #[trigger] r.objects.id_of(p) is None,
    {
        OpenDirs { dirs: Vec::new(), cache: DirCache::new(), objects: Objects::new(config) }
    }

    /// The place of the directory that an update concerns.
    pub open spec fn concerned(self, k: int, up: Update) -> bool {
        0 <= k < self.dirs@.len() && self.dirs@[k].flat.concerns(&up)
    }

    fn find_concerned(&self, up: &Update) -> (r: Option<usize>)
        ensures
            match r {
                Some(k) => self.concerned(k as int, *up),
                None => forall|k: int| !(#[trigger] self.concerned(k, *up)),
            },
    {
        let mut k: usize = 0;
        while k < self.dirs.len()
            invariant
                k <= self.dirs@.len(),
                forall|i: int| 0 <= i < k ==> !(#[trigger] self.concerned(i, *up)),
            decreases self.dirs@.len() - k,
        {
            if self.dirs[k].flat.matches_flat_update(up) {
                assert(self.concerned(k as int, *up));
                return Some(k);
            }
            assert(!self.concerned(k as int, *up));
            k += 1;
        }
        None
    }

    /// Applies what is left of an update to all directories but the `skip`th,
    /// whose own rows have been dealt with.
    fn pass_on(
        &mut self,
        skip: usize,
        partial: &Option<PartiallyAppliedUpdate>,
        Ghost(before): Ghost<Objects>,
    )
        requires
            before.valid(),
            old(self).objects.valid(),
            dirs_apart(old(self).dirs@),
            forall|k: int|
                0 <= k < old(self).dirs@.len() ==> (#[trigger] old(self).dirs@[k]).tabs@.len() > 0
                    && old(self).dirs@[k].ok(
                    if k == skip {
                        old(self).objects
                    } else {
                        before
                    },
                ),
            partial matches Some(u) ==> {
                &&& rows::tells(*u, before, old(self).objects)
                &&& !(u is Insert)
                &&& u.spec_entry().abs_path@.len() > 0
                &&& forall|k: int|
                    0 <= k < old(self).dirs@.len() && k != skip ==> !flat_tab::child_of(
                        (#[trigger] old(self).dirs@[k]).flat.path@,
                        u.spec_entry().abs_path@,
                    )
            },
            partial is None ==> rows::kept(before, old(self).objects),
        ensures
            final(self).cache == old(self).cache,
            final(self).objects == old(self).objects,
            dirs_ok(final(self).dirs@, final(self).objects),
            same_dirs(final(self).dirs@, old(self).dirs@),
            skip < old(self).dirs@.len() ==> final(self).dirs@[skip as int]
                == old(self).dirs@[skip as int],
            forall|k: int|
                0 <= k < old(self).dirs@.len() && k != skip ==> passed_on(
                    *partial,
                    old(self).dirs@[k],
                    #[trigger] final(self).dirs@[k],
                ),
    {
        let ghost start = *self;
        let mut k: usize = 0;
        while k < self.dirs.len()
            invariant
                start == *old(self),
                self.objects == start.objects,
                self.cache == start.cache,
                before.valid(),
                start.objects.valid(),
                dirs_apart(start.dirs@),
                self.dirs@.len() == start.dirs@.len(),
                k <= self.dirs@.len(),
                forall|i: int|
                    0 <= i < start.dirs@.len() ==> (#[trigger] start.dirs@[i]).tabs@.len() > 0
                        && start.dirs@[i].ok(
                        if i == skip {
                            start.objects
                        } else {
                            before
                        },
                    ),
                partial matches Some(u) ==> {
                    &&& rows::tells(*u, before, start.objects)
                    &&& !(u is Insert)
                    &&& u.spec_entry().abs_path@.len() > 0
                    &&& forall|i: int|
                        0 <= i < start.dirs@.len() && i != skip ==> !flat_tab::child_of(
                            (#[trigger] start.dirs@[i]).flat.path@,
                            u.spec_entry().abs_path@,
                        )
                },
                partial is None ==> rows::kept(before, start.objects),
                forall|i: int|
                    0 <= i < k ==> {
                        let d = #[trigger] self.dirs@[i];
                        &&& d.ok(self.objects)
                        &&& d.flat == start.dirs@[i].flat
                        &&& flat_tab::same_tabs(d.tabs@, start.dirs@[i].tabs@)
                        &&& if i == skip {
                            d == start.dirs@[i]
                        } else {
                            passed_on(*partial, start.dirs@[i], d)
                        }
                    },
                forall|i: int| k <= i < self.dirs@.len() ==> #[trigger] self.dirs@[i] == start.dirs@[i],
            decreases self.dirs@.len() - k,
        {
            assert(self.dirs@[k as int] == start.dirs@[k as int]);
            let ghost here = self.dirs@;
            if k != skip {
                match partial {
                    Some(u) => {
                        self.dirs[k].pass_on(u, Ghost(before), Ghost(start.objects));
                        assert forall|i: int|
                            0 <= i < here.len() && i != k implies #[trigger] self.dirs@[i] == here[i] by {}
                    },
                    None => {
                        proof {
                            start.dirs@[k as int].kept(before, start.objects);
                        }
                    },
                }
            }
            k += 1;
        }
    }
}

impl OpenDirs {
    /// What an update for the `k`th directory comes to, when it has been read.
    pub open spec fn flat_effect(self, k: int, up: Update, inode: Option<u64>) -> Effect {
        let d = self.dirs@[k];
        let found = existing::subject(self.objects, d.tabs@[0].contents.list@, up, inode);
        existing::effect(up, found, found matches Some(x) && d.paths().contains(x.abs_path@))
    }

    /// How the entries in use and the thumbnails that are to be loaded change.
    pub open spec fn entries_after(self, up: Update, next: OpenDirs, r: Option<ThumbRequest>) -> bool {
        match up {
            Update::Entry(e) => {
                let p = e.abs_path@;
                &&& self.objects.registered(e, true, next.objects)
                &&& rows::same_but(self.objects, next.objects, p)
                &&& next.objects.entry_of(p) == (match self.objects.entry_of(p) {
                    Some(x) if x.same_as(&e) => Some(x),
                    _ => Some(e),
                })
                &&& match self.objects.registers(e, true).1 {
                    Some((priority, from_event)) => next.objects.id_of(p) matches Some(id) && r
                        == Some(ThumbRequest { id, priority, from_event }),
                    None => r is None,
                }
            },
            Update::Removed(_) => next.objects == self.objects && r is None,
        }
    }

    /// How an update for the `k`th directory is applied.
    pub open spec fn flat_updated(
        self,
        k: int,
        up: Update,
        inode: Option<u64>,
        next: OpenDirs,
        r: Option<ThumbRequest>,
    ) -> bool {
        let e = self.flat_effect(k, up, inode);
        &&& self.entries_after(up, next, r)
        &&& next.cache == self.cache
        &&& same_dirs(next.dirs@, self.dirs@)
        &&& match e.own {
            Some(u) => {
                &&& next.dirs@[k].paths() == rows::paths_after(u, self.dirs@[k].paths())
                &&& forall|i: int|
                    0 <= i < self.dirs@[k].tabs@.len()
                        ==> self.dirs@[k].tabs@[i].contents.after_update(
                        &u,
                        (#[trigger] next.dirs@[k].tabs@[i]).contents.list@,
                    ) && self.dirs@[k].tabs@[i].search_applied(u, next.dirs@[k].tabs@[i])
            },
            None => next.dirs@[k] == self.dirs@[k],
        }
        &&& forall|j: int|
            0 <= j < self.dirs@.len() && j != k ==> passed_on(
                e.searches,
                self.dirs@[j],
                #[trigger] next.dirs@[j],
            )
    }

    proof fn cache_stays_ok(self, before: Objects, after: Objects, p: Seq<Seq<u8>>)
        requires
            before.valid(),
            cache_ok(self.cache.dirs@, before),
            rows::same_but(before, after, p),
            forall|c: int|
                0 <= c < self.cache.dirs@.len() ==> !flat_tab::child_of(
                    (#[trigger] self.cache.dirs@[c]).dir@,
                    p,
                ),
        ensures
            cache_ok(self.cache.dirs@, after),
    {
        assert forall|c: int| 0 <= c < self.cache.dirs@.len() implies cached_ok(
            #[trigger] self.cache.dirs@[c],
            after,
        ) by {
            let d = self.cache.dirs@[c];
            assert(cached_ok(d, before));
            assert(!rows::path_set(d.contents.list@).contains(p));
            rows::stays_synced(d.contents.list@, before, after, p);
        }
    }

    fn flat_update(&mut self, k: usize, up: Update, inode: Option<u64>) -> (r: Option<ThumbRequest>)
        requires
            old(self).valid(),
            k < old(self).dirs@.len(),
            old(self).dirs@[k as int].loaded(),
            flat_tab::fits(old(self).dirs@[k as int].flat.path@, up),
            old(self).objects.slots@.len() < usize::MAX,
        ensures
            final(self).valid(),
            old(self).flat_updated(k as int, up, inode, *final(self), r),
    {
        let ghost start = *self;
        let ghost before = self.objects;
        let ghost given = up;
        let ghost dir = self.dirs@[k as int].flat.path@;
        assert(self.dirs@[k as int].ok(before));
        assert(self.dirs@[k as int].tabs@[0].ok(dir, before));
        let found = liststore_entry_for_update(
            &self.dirs[k].tabs[0].contents,
            &self.objects,
            &up,
            inode,
        );
        let ghost f = found;
        let (effect, thumb) = decide(&mut self.objects, up, found);
        let ghost p = match f.entry() {
            Some(x) => x.abs_path@,
            None => given.spec_path(),
        };
        proof {
            assert(effect == start.flat_effect(k as int, given, inode));
            if let Some(x) = f.entry() {
                if f is Present {
                    assert(start.dirs@[k as int].paths().contains(x.abs_path@));
                }
            }
            assert(flat_tab::child_of(dir, p));
            assert(effect.own matches Some(u) ==> u.spec_entry().abs_path@ == p);
            assert(effect.searches matches Some(u) ==> u.spec_entry().abs_path@ == p);
            assert(rows::same_but(before, self.objects, p));
            assert forall|j: int| 0 <= j < self.dirs@.len() && j != k implies !flat_tab::child_of(
                (#[trigger] self.dirs@[j]).flat.path@,
                p,
            ) by {
                assert(start.dirs@[j].flat.path@ != start.dirs@[k as int].flat.path@);
            }
            assert forall|c: int|
                0 <= c < self.cache.dirs@.len() implies !flat_tab::child_of(
                (#[trigger] self.cache.dirs@[c]).dir@,
                p,
            ) by {
                assert(start.cache.dirs@[c].dir@ != start.dirs@[k as int].flat.path@);
            }
            self.cache_stays_ok(before, self.objects, p);
        }
        match &effect.own {
            Some(u) => {
                self.dirs[k].finish_update(u, Ghost(before), Ghost(self.objects));
            },
            None => {
                proof {
                    self.dirs@[k as int].kept(before, self.objects);
                }
            },
        }
        let ghost mid = *self;
        proof {
            assert forall|j: int| 0 <= j < mid.dirs@.len() && j != k implies #[trigger] mid.dirs@[j]
                == start.dirs@[j] by {}
        }
        self.pass_on(k, &effect.searches, Ghost(before));
        proof {
            assert forall|j: int| 0 <= j < self.dirs@.len() implies (
            #[trigger] self.dirs@[j]).flat.path@ == start.dirs@[j].flat.path@ by {
                assert(self.dirs@[j].flat == mid.dirs@[j].flat);
                assert(mid.dirs@[j].flat == start.dirs@[j].flat);
            }
            assert(dirs_apart(self.dirs@)) by {
                assert forall|i: int, j: int| 0 <= i < j < self.dirs@.len() implies (
                #[trigger] self.dirs@[i]).flat.path@ != (#[trigger] self.dirs@[j]).flat.path@ by {
                    assert(start.dirs@[i].flat.path@ != start.dirs@[j].flat.path@);
                }
            }
            assert(not_open(self.cache.dirs@, self.dirs@)) by {
                assert forall|c: int, j: int|
                    0 <= c < self.cache.dirs@.len() && 0 <= j < self.dirs@.len() implies (
                #[trigger] self.cache.dirs@[c]).dir@ != (#[trigger] self.dirs@[j]).flat.path@ by {
                    assert(start.cache.dirs@[c].dir@ != start.dirs@[j].flat.path@);
                }
            }
        }
        thumb
    }
}

impl OpenDirs {
    /// What an update for a directory that is kept comes to. No other tab shows
    /// the same directory, so that searches hear of deletions too.
    pub open spec fn cached_effect(self, c: int, up: Update, inode: Option<u64>) -> Effect {
        let list = self.cache.dirs@[c].contents.list@;
        let found = existing::subject(self.objects, list, up, inode);
        let e = existing::effect(
            up,
            found,
            found matches Some(x) && rows::path_set(list).contains(x.abs_path@),
        );
        match e.own {
            Some(PartiallyAppliedUpdate::Delete(x)) => Effect { own: e.own, searches: e.own },
            _ => e,
        }
    }

    /// How an update for a directory that is kept is applied.
    pub open spec fn cached_updated(
        self,
        c: int,
        up: Update,
        inode: Option<u64>,
        next: OpenDirs,
        r: Option<ThumbRequest>,
    ) -> bool {
        let e = self.cached_effect(c, up, inode);
        let was = self.cache.dirs@[c];
        let now = next.cache.dirs@[c];
        &&& self.entries_after(up, next, r)
        &&& same_dirs(next.dirs@, self.dirs@)
        &&& next.cache.dirs@ == self.cache.dirs@.update(c, now)
        &&& now.dir == was.dir
        &&& now.watch == was.watch
        &&& now.contents.sort == was.contents.sort
        &&& match e.own {
            Some(u) => was.contents.after_update(&u, now.contents.list@),
            None => now == was,
        }
        &&& forall|j: int|
            0 <= j < self.dirs@.len() ==> passed_on(
                e.searches,
                self.dirs@[j],
                #[trigger] next.dirs@[j],
            )
    }

    fn cached_update(&mut self, c: usize, up: Update, inode: Option<u64>) -> (r: Option<
        ThumbRequest,
    >)
        requires
            old(self).valid(),
            c < old(self).cache.dirs@.len(),
            flat_tab::fits(old(self).cache.dirs@[c as int].dir@, up),
            old(self).objects.slots@.len() < usize::MAX,
        ensures
            final(self).valid(),
            old(self).cached_updated(c as int, up, inode, *final(self), r),
    {
        let ghost start = *self;
        let ghost before = self.objects;
        let ghost given = up;
        let ghost dir = self.cache.dirs@[c as int].dir@;
        assert(cached_ok(self.cache.dirs@[c as int], before));
        let found = liststore_entry_for_update(
            &self.cache.dirs[c].contents,
            &self.objects,
            &up,
            inode,
        );
        let ghost f = found;
        let (effect, thumb) = decide(&mut self.objects, up, found);
        let ghost p = match f.entry() {
            Some(x) => x.abs_path@,
            None => given.spec_path(),
        };
        let searches = match &effect.own {
            Some(PartiallyAppliedUpdate::Delete(x)) => Some(
                PartiallyAppliedUpdate::Delete(x.clone()),
            ),
            _ => match &effect.searches {
                Some(u) => Some(u.copy()),
                None => None,
            },
        };
        proof {
            assert(flat_tab::child_of(dir, p));
            assert(effect.own matches Some(u) ==> u.spec_entry().abs_path@ == p);
            assert(searches matches Some(u) ==> u.spec_entry().abs_path@ == p);
            assert(searches == start.cached_effect(c as int, given, inode).searches);
            assert(rows::same_but(before, self.objects, p));
            assert forall|j: int| 0 <= j < self.dirs@.len() implies !flat_tab::child_of(
                (#[trigger] self.dirs@[j]).flat.path@,
                p,
            ) by {
                assert(start.cache.dirs@[c as int].dir@ != start.dirs@[j].flat.path@);
            }
        }
        match effect.own {
            Some(u) => {
                rows::apply(
                    &mut self.cache.dirs[c].contents,
                    u,
                    Ghost(before),
                    Ghost(self.objects),
                );
            },
            None => {
                proof {
                    rows::kept_is_synced(
                        self.cache.dirs@[c as int].contents.list@,
                        before,
                        self.objects,
                    );
                }
            },
        }
        proof {
            let cached = self.cache.dirs@;
            assert(cached =~= start.cache.dirs@.update(c as int, cached[c as int]));
            assert(cached[c as int].dir == start.cache.dirs@[c as int].dir);
            assert(crate::cache::listed(cached) =~= crate::cache::listed(start.cache.dirs@));
            assert forall|i: int| 0 <= i < cached.len() implies (#[trigger] cached[i]).dir
                == start.cache.dirs@[i].dir by {}
            assert(self.cache.valid());
            assert forall|i: int| 0 <= i < cached.len() implies cached_ok(
                #[trigger] cached[i],
                self.objects,
            ) by {
                if i != c {
                    let d = start.cache.dirs@[i];
                    assert(cached_ok(d, before));
                    assert(d.dir@ != dir);
                    assert(!rows::path_set(d.contents.list@).contains(p));
                    rows::stays_synced(d.contents.list@, before, self.objects, p);
                }
            }
        }
        let none: usize = self.dirs.len();
        self.pass_on(none, &searches, Ghost(before));
        proof {
            assert(dirs_apart(self.dirs@)) by {
                assert forall|i: int, j: int| 0 <= i < j < self.dirs@.len() implies (
                #[trigger] self.dirs@[i]).flat.path@ != (#[trigger] self.dirs@[j]).flat.path@ by {
                    assert(start.dirs@[i].flat.path@ != start.dirs@[j].flat.path@);
                }
            }
            assert(not_open(self.cache.dirs@, self.dirs@)) by {
                assert forall|i: int, j: int|
                    0 <= i < self.cache.dirs@.len() && 0 <= j < self.dirs@.len() implies (
                #[trigger] self.cache.dirs@[i]).dir@ != (#[trigger] self.dirs@[j]).flat.path@ by {
                    assert(start.cache.dirs@[i].dir@ != start.dirs@[j].flat.path@);
                }
            }
        }
        thumb
    }

    /// How an update changes everything.
    pub open spec fn updated(
        self,
        up: Update,
        inode: Option<u64>,
        next: OpenDirs,
        r: Option<ThumbRequest>,
    ) -> bool {
        &&& forall|k: int| #[trigger]
            self.concerned(k, up) ==> match self.dirs@[k].flat.state {
                DirState::Loaded(_) => self.flat_updated(k, up, inode, next, r),
                DirState::Loading { watch, pending_updates, start } => {
                    &&& r is None
                    &&& next.cache == self.cache
                    &&& next.objects == self.objects
                    &&& next.dirs@ == self.dirs@.update(k, next.dirs@[k])
                    &&& next.dirs@[k].tabs == self.dirs@[k].tabs
                    &&& next.dirs@[k].flat.path == self.dirs@[k].flat.path
                    &&& next.dirs@[k].flat.state matches DirState::Loading {
                        watch: w,
                        pending_updates: q,
                        start: s,
                    }
                    &&& w == watch
                    &&& s == start
                    &&& q@ == pending_updates@.push(up)
                },
                _ => r is None && next.cache == self.cache && next.objects == self.objects
                    && next.dirs@ == self.dirs@,
            }
        &&& (forall|k: int| !(#[trigger] self.concerned(k, up))) ==> {
            &&& forall|c: int|
                0 <= c < self.cache.dirs@.len() && flat_tab::child_of(
                    (#[trigger] self.cache.dirs@[c]).dir@,
                    up.spec_path(),
                ) ==> self.cached_updated(c, up, inode, next, r)
            &&& (forall|c: int|
                0 <= c < self.cache.dirs@.len() ==> !flat_tab::child_of(
                    (#[trigger] self.cache.dirs@[c]).dir@,
                    up.spec_path(),
                )) ==> next == self && r is None
        }
    }

    /// Applies a change that the file system reported. `inode` is that of a file
    /// that was reported as removed, if it still exists.
    pub fn update(&mut self, up: Update, inode: Option<u64>) -> (r: Option<ThumbRequest>)
        requires
            old(self).valid(),
            path::valid_parts(up.spec_path()),
            up matches Update::Entry(e) ==> e.ready(),
            old(self).objects.slots@.len() < usize::MAX,
        ensures
            final(self).valid(),
            old(self).updated(up, inode, *final(self), r),
    {
        let ghost start = *self;
        match self.find_concerned(&up) {
            Some(k) => {
                proof {
                    assert forall|j: int| #[trigger] start.concerned(j, up) implies j == k by {
                        if j < k {
                            assert(start.dirs@[j].flat.path@ != start.dirs@[k as int].flat.path@);
                        }
                        if j > k {
                            assert(start.dirs@[k as int].flat.path@ != start.dirs@[j].flat.path@);
                        }
                    }
                }
                let ghost given = up;
                assert(self.dirs@[k as int].ok(self.objects));
                match self.dirs[k].flat.maybe_drop_or_delay(up) {
                    Delayed::Now(up) => {
                        assert(self.dirs@ =~= start.dirs@);
                        self.flat_update(k, up, inode)
                    },
                    Delayed::Waiting => {
                        proof {
                            let d = self.dirs@[k as int];
                            assert(d.ok(self.objects));
                            assert forall|j: int|
                                0 <= j < self.dirs@.len() && j != k implies #[trigger] self.dirs@[j]
                                == start.dirs@[j] by {}
                            start.same_shape_valid(*self);
                            assert(self.dirs@ =~= start.dirs@.update(k as int, d));
                        }
                        None
                    },
                    Delayed::Dropped => {
                        assert(self.dirs@ =~= start.dirs@);
                        None
                    },
                }
            },
            None => match up.path().parent() {
                Some(parent) => match self.cache.position(&parent) {
                    Some(c) => {
                        proof {
                            assert forall|i: int|
                                0 <= i < start.cache.dirs@.len() && flat_tab::child_of(
                                    (#[trigger] start.cache.dirs@[i]).dir@,
                                    up.spec_path(),
                                ) implies i == c by {
                                assert(start.cache.dirs@[c as int].dir@ == parent@);
                            }
                        }
                        self.cached_update(c, up, inode)
                    },
                    None => None,
                },
                None => None,
            },
        }
    }
}

/// What came of a part of a directory's contents.
pub struct Taken {
    /// The numbers of the entries.
    pub ids: Vec<u64>,
    /// The thumbnails that are to be loaded for them.
    pub queue: Vec<Option<(ThumbPriority, bool)>>,
    /// The updates that have waited for the last part, to be applied now.
    pub waiting: Vec<Update>,
}

/// The entries with the given numbers.
fn entries_of(ids: &Vec<u64>, all: &Objects) -> (r: Vec<Arc<Entry>>)
    requires
        all.valid(),
        forall|i: int| 0 <= i < ids@.len() ==> all.object(#[trigger] ids@[i]) is Some,
    ensures
        r@.len() == ids@.len(),
        forall|i: int|
            0 <= i < ids@.len() ==> #[trigger] r@[i] == all.object(ids@[i])->0.entry
                && r@[i].ready(),
{
    let mut r: Vec<Arc<Entry>> = Vec::new();
    let mut i: usize = 0;
    while i < ids.len()
        invariant
            all.valid(),
            forall|k: int| 0 <= k < ids@.len() ==> all.object(#[trigger] ids@[k]) is Some,
            i <= ids@.len(),
            r@.len() == i,
            forall|k: int|
                0 <= k < i ==> #[trigger] r@[k] == all.object(ids@[k])->0.entry && r@[k].ready(),
        decreases ids@.len() - i,
    {
        let id: u64 = ids[i];
        assert(all.object(ids@[i as int]) is Some);
        assert(id < all.slots@.len());
        let count: usize = all.slots.len();
        assert(all.slots@[id as int] is Some);
        if let Some(o) = &all.slots[id as usize] {
            r.push(o.entry.clone());
        }
        i += 1;
    }
    r
}

impl OpenDirs {
    /// Whether a watch is the one of the `k`th directory.
    pub open spec fn watched_as(self, k: int, id: u64) -> bool {
        0 <= k < self.dirs@.len() && (self.dirs@[k].flat.state.spec_watched() matches Some(w)
            && w.cancel == id)
    }

    /// The first directory with a watch.
    pub open spec fn first_watched(self, k: int, id: u64) -> bool {
        self.watched_as(k, id) && forall|j: int| 0 <= j < k ==> !(#[trigger] self.watched_as(j, id))
    }

    fn find_watch(&self, id: u64) -> (r: Option<usize>)
        ensures
            match r {
                Some(k) => self.first_watched(k as int, id),
                None => forall|k: int| !(#[trigger] self.watched_as(k, id)),
            },
    {
        let mut k: usize = 0;
        while k < self.dirs.len()
            invariant
                k <= self.dirs@.len(),
                forall|i: int| 0 <= i < k ==> !(#[trigger] self.watched_as(i, id)),
            decreases self.dirs@.len() - k,
        {
            if self.dirs[k].flat.matches(id) {
                assert(self.watched_as(k as int, id));
                return Some(k);
            }
            assert(!self.watched_as(k as int, id));
            k += 1;
        }
        None
    }

    /// Notes that a watch has started.
    pub fn mark_watching(&mut self, id: u64)
        requires
            old(self).valid(),
            forall|k: int| #[trigger]
                old(self).first_watched(k, id) ==> old(self).dirs@[k].flat.state is Initializating,
        ensures
            final(self).valid(),
            final(self).cache == old(self).cache,
            final(self).objects == old(self).objects,
            (forall|k: int| !(#[trigger] old(self).watched_as(k, id))) ==> *final(self) == *old(self),
            forall|k: int| #[trigger]
                old(self).first_watched(k, id) ==> {
                    let was = old(self).dirs@[k];
                    let now = final(self).dirs@[k];
                    &&& final(self).dirs@ == old(self).dirs@.update(k, now)
                    &&& now.tabs == was.tabs
                    &&& now.flat.path == was.flat.path
                    &&& now.flat.state matches DirState::Loading { watch, pending_updates, start }
                    &&& watch == was.flat.state->Initializating_watch
                    &&& start == was.flat.state->Initializating_start
                    &&& pending_updates@.len() == 0
                },
    {
        let ghost start = *self;
        match self.find_watch(id) {
            Some(k) => {
                assert(start.dirs@[k as int].ok(start.objects));
                self.dirs[k].flat.mark_watch_started();
                proof {
                    assert forall|j: int| #[trigger] start.first_watched(j, id) implies j == k by {
                        if j < k {
                            assert(!start.watched_as(j, id));
                        }
                        if k < j {
                            assert(!start.watched_as(k as int, id));
                        }
                    }
                    assert(self.dirs@ =~= start.dirs@.update(k as int, self.dirs@[k as int]));
                    assert(self.dirs@[k as int].ok(self.objects)) by {
                        let d = self.dirs@[k as int];
                        assert(d.tabs == start.dirs@[k as int].tabs);
                    }
                    start.same_shape_valid(*self);
                }
            },
            None => {},
        }
    }

    /// Whether a part of a directory's contents comes in its turn.
    pub open spec fn in_turn(self, snap: DirSnapshot) -> bool {
        forall|k: int| #[trigger]
            self.first_watched(k, snap.id.id) ==> {
                let d = self.dirs@[k];
                &&& d.flat.state is Loading
                &&& d.flat.path@ == snap.id.path@
                &&& flat_tab::readable(d.flat.path@, snap.entries@)
                &&& d.in_turn(snap.id.kind.spec_initial(), snap.entries@)
            }
    }

    /// How a part of the contents of the `k`th directory is taken in.
    pub open spec fn snapshot_applied(
        self,
        k: int,
        snap: DirSnapshot,
        next: OpenDirs,
        r: Taken,
    ) -> bool {
        let entries = snap.entries@;
        let was = self.dirs@[k];
        let now = next.dirs@[k];
        &&& next.cache == self.cache
        &&& self.objects.registered_all(entries, next.objects)
        &&& rows::same_outside(self.objects, next.objects, entries)
        &&& forall|i: int|
            0 <= i < entries.len() ==> next.objects.entry_of((#[trigger] entries[i]).abs_path@)
                == self.objects.entry_with(entries[i])
        &&& r.ids@.len() == entries.len()
        &&& r.queue@.len() == entries.len()
        &&& forall|i: int|
            0 <= i < entries.len() ==> next.objects.id_of((#[trigger] entries[i]).abs_path@) == Some(
                r.ids@[i],
            )
        &&& forall|i: int|
            0 <= i < entries.len() ==> #[trigger] r.queue@[i] == self.objects.registers(
                entries[i],
                false,
            ).1
        &&& now.paths() == was.paths().union(rows::entry_paths(entries))
        &&& flat_tab::same_tabs(now.tabs@, was.tabs@)
        &&& forall|i: int|
            0 <= i < was.tabs@.len() ==> {
                let tab = #[trigger] now.tabs@[i];
                &&& !tab.contents.stale
                &&& tab.search is Some ==> tab.search_paths()
                    == was.tabs@[i].search_paths().union(rows::entry_paths(entries))
                &&& was.tabs@[i].selection_kept(snap.id.kind.spec_initial(), tab)
            }
        &&& now.flat.path == was.flat.path
        &&& if snap.id.kind.spec_finished() {
            &&& now.flat.state == DirState::Loaded(was.flat.state->Loading_watch)
            &&& r.waiting == was.flat.state->pending_updates
        } else {
            now.flat.state == was.flat.state && r.waiting@.len() == 0
        }
        &&& next.dirs@.len() == self.dirs@.len()
        &&& forall|j: int|
            0 <= j < self.dirs@.len() && j != k ==> only_searches_sorted(
                self.dirs@[j],
                #[trigger] next.dirs@[j],
            )
    }

    /// Takes in a part of a directory's contents. Searches that show any of the
    /// entries are put in order if one has changed.
    pub fn apply_snapshot(&mut self, snap: DirSnapshot) -> (r: Taken)
        requires
            old(self).valid(),
            old(self).in_turn(snap),
            old(self).objects.slots@.len() + snap.entries@.len() < usize::MAX,
        ensures
            final(self).valid(),
            (forall|k: int| !(#[trigger] old(self).watched_as(k, snap.id.id))) ==> *final(self)
                == *old(self) && r.ids@.len() == 0 && r.queue@.len() == 0 && r.waiting@.len() == 0,
            forall|k: int| #[trigger]
                old(self).first_watched(k, snap.id.id) ==> old(self).snapshot_applied(
                    k,
                    snap,
                    *final(self),
                    r,
                ),
    {
        let ghost start = *self;
        let ghost before = self.objects;
        let ghost given = snap;
        let ghost new = rows::entry_paths(snap.entries@);
        let k = match self.find_watch(snap.id.id) {
            Some(k) => k,
            None => {
                return Taken { ids: Vec::new(), queue: Vec::new(), waiting: Vec::new() };
            },
        };
        let ghost dir = self.dirs@[k as int].flat.path@;
        let initial = snap.id.kind.initial();
        let finished = snap.id.kind.finished();
        let path = snap.id.path.clone();
        let (snap, queue) = EntryObjectSnapshot::from(snap, &mut self.objects);
        proof {
            assert(start.in_turn(given));
            assert forall|j: int| #[trigger] start.first_watched(j, given.id.id) implies j == k by {
                if j < k {
                    assert(!start.watched_as(j, given.id.id));
                }
                if k < j {
                    assert(!start.watched_as(k as int, given.id.id));
                }
            }
            assert(start.first_watched(k as int, given.id.id));
            assert(dir == path@);
            assert forall|i: int| 0 <= i < snap.entries@.len() implies self.objects.object(
                #[trigger] snap.entries@[i],
            ) is Some by {
                assert(given.entries@[i].abs_path.valid());
                assert(self.objects.id_of(given.entries@[i].abs_path@) == Some(snap.entries@[i]));
            }
        }
        let entries = entries_of(&snap.entries, &self.objects);
        proof {
            assert forall|i: int| 0 <= i < entries@.len() implies (
            #[trigger] entries@[i]).abs_path@ == given.entries@[i].abs_path@
                && self.objects.entry_of(entries@[i].abs_path@) == Some(entries@[i]) by {
                assert(given.entries@[i].abs_path.valid());
                assert(self.objects.id_of(given.entries@[i].abs_path@) == Some(snap.entries@[i]));
            }
            assert forall|i: int, j: int| 0 <= i < j < entries@.len() implies (
            #[trigger] entries@[i]).abs_path@ != (#[trigger] entries@[j]).abs_path@ by {
                assert(given.entries@[i].abs_path@ != given.entries@[j].abs_path@);
            }
            assert forall|q: Seq<Seq<u8>>| rows::entry_paths(entries@).contains(q) == new.contains(
                q,
            ) by {
                if rows::entry_paths(entries@).contains(q) {
                    let i = choose|i: int|
                        0 <= i < entries@.len() && (#[trigger] entries@[i]).abs_path@ == q;
                    assert(given.entries@[i].abs_path@ == q);
                }
                if new.contains(q) {
                    let i = choose|i: int|
                        0 <= i < given.entries@.len() && (#[trigger] given.entries@[i]).abs_path@
                            == q;
                    assert(entries@[i].abs_path@ == q);
                }
            }
            assert(rows::entry_paths(entries@) =~= new);
            assert forall|i: int| 0 <= i < given.entries@.len() implies self.objects.entry_of(
                (#[trigger] given.entries@[i]).abs_path@,
            ) is Some by {
                assert(entries@[i].abs_path@ == given.entries@[i].abs_path@);
            }
            start.dir_outside(k as int, self.objects, given.entries@);
            start.cache_outside(k as int, self.objects, given.entries@);
        }
        self.dirs[k].apply_snapshot(initial, &entries, Ghost(self.objects));
        let ghost mid = *self;
        assert forall|j: int| 0 <= j < mid.dirs@.len() && j != k implies #[trigger] mid.dirs@[j]
            == start.dirs@[j] by {}
        self.sort_others(k, &path, snap.had_search_updates, Ghost(before), Ghost(given.entries@));
        let waiting = if finished {
            let (waiting, _) = self.dirs[k].flat.take_loaded();
            waiting
        } else {
            Vec::new()
        };
        proof {
            let d = self.dirs@[k as int];
            assert(d.tabs == mid.dirs@[k as int].tabs);
            assert(d.ok(self.objects));
            assert forall|j: int| 0 <= j < self.dirs@.len() implies (
            #[trigger] self.dirs@[j]).flat.path == start.dirs@[j].flat.path by {}
            start.same_shape_valid(*self);
        }
        Taken { ids: snap.entries, queue, waiting }
    }

    /// Puts the searches of all other directories in order, if need be.
    fn sort_others(
        &mut self,
        k: usize,
        path: &FilePath,
        force: bool,
        Ghost(before): Ghost<Objects>,
        Ghost(entries): Ghost<Seq<Arc<Entry>>>,
    )
        requires
            before.valid(),
            old(self).objects.valid(),
            dirs_apart(old(self).dirs@),
            k < old(self).dirs@.len(),
            old(self).dirs@[k as int].flat.path@ == path@,
            old(self).dirs@[k as int].ok(old(self).objects),
            old(self).dirs@[k as int].tabs@.len() > 0,
            forall|j: int|
                0 <= j < old(self).dirs@.len() && j != k ==> (#[trigger] old(self).dirs@[j]).ok(before)
                    && old(self).dirs@[j].tabs@.len() > 0,
            objects::apart(entries),
            objects::all_sound(entries),
            flat_tab::all_children(path@, rows::entry_paths(entries)),
            rows::same_outside(before, old(self).objects, entries),
            forall|i: int|
                0 <= i < entries.len() ==> old(self).objects.entry_of(
                    (#[trigger] entries[i]).abs_path@,
                ) == before.entry_with(entries[i]),
            force == exists|i: int|
                0 <= i < entries.len() && before.registers(#[trigger] entries[i], false).0,
        ensures
            final(self).cache == old(self).cache,
            final(self).objects == old(self).objects,
            dirs_ok(final(self).dirs@, final(self).objects),
            final(self).dirs@.len() == old(self).dirs@.len(),
            final(self).dirs@[k as int] == old(self).dirs@[k as int],
            forall|j: int|
                0 <= j < old(self).dirs@.len() && j != k ==> only_searches_sorted(
                    old(self).dirs@[j],
                    #[trigger] final(self).dirs@[j],
                ),
    {
        let ghost start = *self;
        let ghost after = self.objects;
        let mut j: usize = 0;
        proof {
            if !force {
                assert forall|q: Seq<Seq<u8>>|
                    path::valid_parts(q) && before.entry_of(q) is Some implies
                    #[trigger] after.entry_of(q) == before.entry_of(q) by {
                    if objects::lists(entries, q) {
                        let i = choose|i: int|
                            0 <= i < entries.len() && (#[trigger] entries[i]).abs_path@ == q;
                        assert(!before.registers(entries[i], false).0);
                        assert(after.entry_of(entries[i].abs_path@) == before.entry_with(
                            entries[i],
                        ));
                    }
                }
            }
        }
        while j < self.dirs.len()
            invariant
                start == *old(self),
                after == start.objects,
                self.objects == after,
                self.cache == start.cache,
                before.valid(),
                after.valid(),
                dirs_apart(start.dirs@),
                k < start.dirs@.len(),
                start.dirs@[k as int].flat.path@ == path@,
                start.dirs@[k as int].ok(after),
                start.dirs@[k as int].tabs@.len() > 0,
                forall|i: int|
                    0 <= i < start.dirs@.len() && i != k ==> (#[trigger] start.dirs@[i]).ok(before)
                        && start.dirs@[i].tabs@.len() > 0,
                flat_tab::all_children(path@, rows::entry_paths(entries)),
                rows::same_outside(before, after, entries),
                forall|i: int|
                    0 <= i < entries.len() ==> after.entry_of((#[trigger] entries[i]).abs_path@)
                        == before.entry_with(entries[i]),
                !force ==> rows::kept(before, after),
                self.dirs@.len() == start.dirs@.len(),
                j <= self.dirs@.len(),
                forall|i: int|
                    0 <= i < j ==> (#[trigger] self.dirs@[i]).ok(after) && (if i == k {
                        self.dirs@[i] == start.dirs@[i]
                    } else {
                        only_searches_sorted(start.dirs@[i], self.dirs@[i])
                    }),
                forall|i: int| j <= i < self.dirs@.len() ==> #[trigger] self.dirs@[i] == start.dirs@[i],
            decreases self.dirs@.len() - j,
        {
            let ghost here = self.dirs@;
            assert(self.dirs@[j as int] == start.dirs@[j as int]);
            if j != k {
                let ghost d = start.dirs@[j as int];
                proof {
                    assert(d.flat.path@ != path@) by {
                        if j < k {
                            assert(start.dirs@[j as int].flat.path@ != start.dirs@[k as int].flat.path@);
                        } else {
                            assert(start.dirs@[k as int].flat.path@ != start.dirs@[j as int].flat.path@);
                        }
                    }
                    assert(d.tabs@[0].ok(d.flat.path@, before));
                    assert(flat_tab::all_children(d.flat.path@, d.paths()));
                    assert(d.paths().disjoint(rows::entry_paths(entries)));
                }
                if force && path.starts_with(&self.dirs[j].flat.path) {
                    self.dirs[j].search_sort_after_snapshot(
                        &self.objects,
                        Ghost(before),
                        Ghost(entries),
                    );
                    assert forall|i: int|
                        0 <= i < here.len() && i != j implies #[trigger] self.dirs@[i] == here[i] by {}
                } else {
                    proof {
                        if force {
                            d.not_above(before, after, entries, path@);
                        } else {
                            d.kept(before, after);
                        }
                    }
                }
            }
            j += 1;
        }
        proof {
            assert forall|i: int| 0 <= i < self.dirs@.len() implies (
            #[trigger] self.dirs@[i]).tabs@.len() > 0 by {
                if i != k {
                    assert(start.dirs@[i].tabs@.len() > 0);
                }
            }
        }
    }

    proof fn dir_outside(self, k: int, after: Objects, entries: Seq<Arc<Entry>>)
        requires
            self.valid(),
            0 <= k < self.dirs@.len(),
            rows::same_outside(self.objects, after, entries),
            self.dirs@[k].paths().disjoint(rows::entry_paths(entries)) || self.dirs@[k].paths()
                == Set::<Seq<Seq<u8>>>::empty(),
            flat_tab::all_children(self.dirs@[k].flat.path@, rows::entry_paths(entries)),
        ensures
            self.dirs@[k].ok(after),
    {
        let d = self.dirs@[k];
        let dir = d.flat.path@;
        assert(d.ok(self.objects));
        assert forall|i: int| 0 <= i < d.tabs@.len() implies (#[trigger] d.tabs@[i]).ok(
            dir,
            after,
        ) by {
            let t = d.tabs@[i];
            assert(t.ok(dir, self.objects));
            assert(t.flat_paths() == d.paths());
            if !t.contents.stale {
                assert(rows::path_set(t.contents.list@).disjoint(rows::entry_paths(entries)));
                rows::outside_is_synced(t.contents.list@, self.objects, after, entries);
            }
            if let Some(s) = t.search {
                let paths = rows::path_set(s.contents.list@);
                assert forall|q: Seq<Seq<u8>>| #[trigger] rows::entry_paths(entries).contains(
                    q,
                ) implies !paths.contains(q) by {
                    assert(flat_tab::children(dir, paths).contains(q) == paths.contains(q));
                }
                assert(paths.disjoint(rows::entry_paths(entries)));
                rows::outside_is_synced(s.contents.list@, self.objects, after, entries);
            }
        }
    }

    proof fn cache_outside(self, k: int, after: Objects, entries: Seq<Arc<Entry>>)
        requires
            self.valid(),
            0 <= k < self.dirs@.len(),
            rows::same_outside(self.objects, after, entries),
            flat_tab::all_children(self.dirs@[k].flat.path@, rows::entry_paths(entries)),
        ensures
            cache_ok(self.cache.dirs@, after),
    {
        assert forall|c: int| 0 <= c < self.cache.dirs@.len() implies cached_ok(
            #[trigger] self.cache.dirs@[c],
            after,
        ) by {
            let d = self.cache.dirs@[c];
            assert(cached_ok(d, self.objects));
            assert(d.dir@ != self.dirs@[k].flat.path@);
            let paths = rows::path_set(d.contents.list@);
            assert forall|q: Seq<Seq<u8>>| #[trigger] rows::entry_paths(entries).contains(
                q,
            ) implies !paths.contains(q) by {}
            assert(paths.disjoint(rows::entry_paths(entries)));
            rows::outside_is_synced(d.contents.list@, self.objects, after, entries);
        }
    }

    /// What stays the same directories stays in order, as far as their paths go.
    pub proof fn same_shape_valid(self, next: OpenDirs)
        requires
            self.valid(),
            next.objects.valid(),
            next.cache == self.cache,
            cache_ok(next.cache.dirs@, next.objects),
            next.dirs@.len() == self.dirs@.len(),
            dirs_ok(next.dirs@, next.objects),
            forall|k: int|
                0 <= k < self.dirs@.len() ==> (#[trigger] next.dirs@[k]).flat.path
                    == self.dirs@[k].flat.path,
        ensures
            next.valid(),
    {
        assert forall|i: int, j: int| 0 <= i < j < next.dirs@.len() implies (
        #[trigger] next.dirs@[i]).flat.path@ != (#[trigger] next.dirs@[j]).flat.path@ by {
            assert(self.dirs@[i].flat.path@ != self.dirs@[j].flat.path@);
        }
        assert forall|c: int, j: int|
            0 <= c < next.cache.dirs@.len() && 0 <= j < next.dirs@.len() implies (
        #[trigger] next.cache.dirs@[c]).dir@ != (#[trigger] next.dirs@[j]).flat.path@ by {
            assert(self.cache.dirs@[c].dir@ != self.dirs@[j].flat.path@);
        }
    }
}

impl OpenDir {
    /// A search shows nothing of a directory that is not below its own.
    proof fn not_above(
        self,
        before: Objects,
        after: Objects,
        entries: Seq<Arc<Entry>>,
        dir: Seq<Seq<u8>>,
    )
        requires
            before.valid(),
            self.ok(before),
            rows::same_outside(before, after, entries),
            flat_tab::all_children(dir, rows::entry_paths(entries)),
            self.paths().disjoint(rows::entry_paths(entries)),
            !self.flat.path@.is_prefix_of(dir),
        ensures
            self.ok(after),
    {
        let own = self.flat.path@;
        assert forall|i: int| 0 <= i < self.tabs@.len() implies (#[trigger] self.tabs@[i]).ok(
            own,
            after,
        ) by {
            let t = self.tabs@[i];
            assert(t.ok(own, before));
            assert(t.flat_paths() == self.paths());
            if !t.contents.stale {
                rows::outside_is_synced(t.contents.list@, before, after, entries);
            }
            if let Some(s) = t.search {
                let paths = rows::path_set(s.contents.list@);
                assert forall|q: Seq<Seq<u8>>| #[trigger] rows::entry_paths(entries).contains(
                    q,
                ) implies !paths.contains(q) by {
                    assert(flat_tab::child_of(dir, q));
                    if paths.contains(q) {
                        assert(search::under(own, q));
                        if own.len() == q.len() {
                            assert(own =~= q);
                        }
                        assert(own =~= q.drop_last().take(own.len() as int));
                        assert(own.is_prefix_of(dir));
                    }
                }
                assert(paths.disjoint(rows::entry_paths(entries)));
                rows::outside_is_synced(s.contents.list@, before, after, entries);
            }
        }
    }
}

/// What becomes of a directory when entries that its searches may show were read
/// elsewhere.
pub open spec fn only_searches_sorted(before: OpenDir, after: OpenDir) -> bool {
    &&& after.flat == before.flat
    &&& flat_tab::same_tabs(after.tabs@, before.tabs@)
    &&& after.paths() == before.paths()
    &&& forall|i: int|
        0 <= i < before.tabs@.len() ==> (#[trigger] after.tabs@[i]).contents
            == before.tabs@[i].contents && after.tabs@[i].search_paths()
            == before.tabs@[i].search_paths() && after.tabs@[i].search_chosen()
            == before.tabs@[i].search_chosen()
}

impl OpenDirs {
    pub open spec fn has_tab(self, d: int, t: int) -> bool {
        0 <= d < self.dirs@.len() && 0 <= t < self.dirs@[d].tabs@.len()
    }

    /// Whether a number is that of the search in a tab.
    pub open spec fn searching(self, d: int, t: int, id: u64) -> bool {
        &&& self.has_tab(d, t)
        &&& self.dirs@[d].flat.state.spec_watched() is Some
        &&& self.dirs@[d].tabs@[t].search matches Some(s)
        &&& s.has_id(id)
    }

    /// The first tab that a number is that of the search in.
    pub open spec fn first_searching(self, d: int, t: int, id: u64) -> bool {
        &&& self.searching(d, t, id)
        &&& forall|i: int, j: int| #[trigger]
            self.searching(i, j, id) ==> d < i || (d == i && t <= j)
    }

    fn find_search(&self, id: u64) -> (r: Option<(usize, usize)>)
        ensures
            match r {
                Some((d, t)) => self.first_searching(d as int, t as int, id),
                None => forall|d: int, t: int| !(#[trigger] self.searching(d, t, id)),
            },
    {
        let mut d: usize = 0;
        while d < self.dirs.len()
            invariant
                d <= self.dirs@.len(),
                forall|i: int, j: int| #[trigger] self.searching(i, j, id) ==> i >= d,
            decreases self.dirs@.len() - d,
        {
            let mut t: usize = 0;
            let watched = self.dirs[d].flat.state.watched();
            while t < self.dirs[d].tabs.len()
                invariant
                    d < self.dirs@.len(),
                    t <= self.dirs@[d as int].tabs@.len(),
                    watched == self.dirs@[d as int].flat.state.spec_watched() is Some,
                    forall|i: int, j: int| #[trigger]
                        self.searching(i, j, id) ==> i > d || (i == d && j >= t),
                decreases self.dirs@[d as int].tabs@.len() - t,
            {
                if let Some(s) = &self.dirs[d].tabs[t].search {
                    if watched && s.matches_update(id) {
                        assert(self.searching(d as int, t as int, id));
                        return Some((d, t));
                    }
                }
                assert(!self.searching(d as int, t as int, id));
                t += 1;
            }
            d += 1;
        }
        None
    }

    /// Whether another tab could show what an update for a search is about.
    pub open spec fn overlaps(self, i: int, j: int, up: Update) -> bool {
        &&& self.has_tab(i, j)
        &&& self.dirs@[i].flat.concerns(&up) || (self.dirs@[i].tabs@[j].search matches Some(s)
            && s.overlaps(&up))
    }

    /// Whether an update for the search in a tab could concern anything else.
    pub open spec fn shared(self, d: int, t: int, up: Update) -> bool {
        ||| exists|i: int, j: int| #[trigger] self.overlaps(i, j, up) && (i != d || j != t)
        ||| exists|c: int|
            0 <= c < self.cache.dirs@.len() && flat_tab::child_of(
                (#[trigger] self.cache.dirs@[c]).dir@,
                up.spec_path(),
            )
    }

    fn is_shared(&self, d: usize, t: usize, up: &Update) -> (r: bool)
        requires
            path::valid_parts(up.spec_path()),
        ensures
            r == self.shared(d as int, t as int, *up),
    {
        let mut i: usize = 0;
        while i < self.dirs.len()
            invariant
                i <= self.dirs@.len(),
                forall|a: int, b: int|
                    a < i && #[trigger] self.overlaps(a, b, *up) ==> a == d && b == t,
            decreases self.dirs@.len() - i,
        {
            let flat = self.dirs[i].flat.matches_flat_update(up);
            let mut j: usize = 0;
            while j < self.dirs[i].tabs.len()
                invariant
                    i < self.dirs@.len(),
                    j <= self.dirs@[i as int].tabs@.len(),
                    flat == self.dirs@[i as int].flat.concerns(up),
                    forall|a: int, b: int|
                        (a < i || (a == i && b < j)) && #[trigger] self.overlaps(a, b, *up) ==> a == d
                            && b == t,
                decreases self.dirs@[i as int].tabs@.len() - j,
            {
                if i != d || j != t {
                    let search = match &self.dirs[i].tabs[j].search {
                        Some(s) => s.overlaps_other_update(up),
                        None => false,
                    };
                    if flat || search {
                        assert(self.overlaps(i as int, j as int, *up));
                        return true;
                    }
                    assert(!self.overlaps(i as int, j as int, *up));
                }
                j += 1;
            }
            i += 1;
        }
        match up.path().parent() {
            Some(parent) => match self.cache.position(&parent) {
                Some(c) => {
                    assert(flat_tab::child_of(
                        self.cache.dirs@[c as int].dir@,
                        up.spec_path(),
                    ));
                    true
                },
                None => {
                    assert forall|c: int|
                        0 <= c < self.cache.dirs@.len() implies !flat_tab::child_of(
                        (#[trigger] self.cache.dirs@[c]).dir@,
                        up.spec_path(),
                    ) by {}
                    false
                },
            },
            None => false,
        }
    }

    /// Nothing else shows what an update is about that is not shared.
    proof fn unshared_is_elsewhere(self, d: int, t: int, up: Update, i: int, j: int)
        requires
            self.valid(),
            self.has_tab(d, t),
            self.has_tab(i, j),
            i != d || j != t,
            !self.shared(d, t, up),
            up.spec_path().len() > 0,
        ensures
            !self.dirs@[i].tabs@[j].flat_paths().contains(up.spec_path()),
            !self.dirs@[i].tabs@[j].search_paths().contains(up.spec_path()),
    {
        let p = up.spec_path();
        let dir = self.dirs@[i];
        let tab = dir.tabs@[j];
        assert(dir.ok(self.objects));
        assert(tab.ok(dir.flat.path@, self.objects));
        assert(!self.overlaps(i, j, up));
        if flat_tab::child_of(dir.flat.path@, p) {
            assert(dir.flat.state.spec_watched() is None);
            assert(tab.flat_paths() == dir.paths());
            assert(dir.paths() == Set::<Seq<Seq<u8>>>::empty());
            if let Some(s) = tab.search {
                let paths = rows::path_set(s.contents.list@);
                assert(flat_tab::children(dir.flat.path@, paths).contains(p) == paths.contains(p));
            }
        } else if let Some(s) = tab.search {
            if tab.search_paths().contains(p) {
                assert(search::under(dir.flat.path@, p));
                assert(update::below_subdir(p, dir.flat.path@));
            }
        }
    }

    /// How an update for the search in a tab is applied.
    pub open spec fn search_updated(
        self,
        d: int,
        t: int,
        up: Update,
        next: OpenDirs,
        r: Option<ThumbRequest>,
    ) -> bool {
        let was = self.dirs@[d].tabs@[t];
        let now = next.dirs@[d].tabs@[t];
        let p = up.spec_path();
        let mutate = !self.shared(d, t, up);
        &&& next.cache == self.cache
        &&& next.dirs@ == self.dirs@.update(d, next.dirs@[d])
        &&& next.dirs@[d].flat == self.dirs@[d].flat
        &&& next.dirs@[d].tabs@ == self.dirs@[d].tabs@.update(t, now)
        &&& now.id == was.id
        &&& now.contents == was.contents
        &&& now.search matches Some(s)
        &&& s.original == was.search->0.original
        &&& s.contents.sort == was.search->0.contents.sort
        &&& rows::same_but(self.objects, next.objects, p)
        &&& match was.search->0.state {
            SearchState::Loading(id, pending) => {
                &&& r is None
                &&& next.objects == self.objects
                &&& s.contents == was.search->0.contents
                &&& s.state matches SearchState::Loading(i, q)
                &&& i == id
                &&& q@ == pending@.push(up)
            },
            _ => {
                &&& s.state == was.search->0.state
                &&& r == search::request(
                    self.objects,
                    next.objects,
                    up,
                    mutate && was.search_paths().contains(p),
                )
                &&& now.search_paths() == Search::paths_with(was.search_paths(), up)
                &&& next.objects.entry_of(p) == (match up {
                    Update::Entry(e) => match self.objects.entry_of(p) {
                        Some(x) if !mutate || x.same_as(&e) || !was.search_paths().contains(
                            p,
                        ) => Some(x),
                        _ => Some(e),
                    },
                    Update::Removed(_) => self.objects.entry_of(p),
                })
                &&& was.search->0.stepped(up, self.objects, mutate, s.contents.list@)
                &&& search::noted(
                    self.objects,
                    next.objects,
                    up,
                    mutate && was.search_paths().contains(p),
                )
            },
        }
    }

    /// Applies a change that the watch of a search reported. It changes an entry
    /// only if nothing else could show that entry.
    pub fn search_update(&mut self, update: SearchUpdate) -> (r: Option<ThumbRequest>)
        requires
            old(self).valid(),
            old(self).objects.slots@.len() < usize::MAX,
            forall|d: int, t: int| #[trigger]
                old(self).searching(d, t, update.search_id)
                    ==> old(self).dirs@[d].tabs@[t].search->0.takes(update.update),
        ensures
            final(self).valid(),
            (forall|d: int, t: int| !(#[trigger] old(self).searching(d, t, update.search_id)))
                ==> *final(self) == *old(self) && r is None,
            forall|d: int, t: int| #[trigger]
                old(self).first_searching(d, t, update.search_id) ==> old(self).search_updated(
                    d,
                    t,
                    update.update,
                    *final(self),
                    r,
                ),
    {
        let ghost start = *self;
        let (d, t) = match self.find_search(update.search_id) {
            Some(x) => x,
            None => {
                return None;
            },
        };
        let ghost up = update.update;
        let ghost p = up.spec_path();
        let ghost dir = self.dirs@[d as int];
        assert(dir.ok(start.objects));
        assert(dir.tabs@[t as int].ok(dir.flat.path@, start.objects));
        assert(start.searching(d as int, t as int, update.search_id));
        let shared = self.is_shared(d, t, &update.update);
        let mut r: Option<ThumbRequest> = None;
        match &mut self.dirs[d].tabs[t].search {
            Some(s) => {
                r = s.apply_search_update(update.update, !shared, &mut self.objects);
            },
            None => {},
        }
        proof {
            let now = self.dirs@[d as int];
            assert(now.tabs@ =~= dir.tabs@.update(t as int, now.tabs@[t as int]));
            assert(self.dirs@ =~= start.dirs@.update(d as int, now));
            if shared || rows::kept(start.objects, self.objects) {
                assert forall|q: Seq<Seq<u8>>|
                    path::valid_parts(q) && start.objects.entry_of(q) is Some implies
                    #[trigger] self.objects.entry_of(q) == start.objects.entry_of(q) by {}
                assert(rows::kept(start.objects, self.objects));
            }
            start.search_update_keeps(d as int, t as int, up, *self, shared);
            assert forall|i: int, j: int| #[trigger]
                start.first_searching(i, j, update.search_id) implies i == d && j == t by {
                assert(start.searching(i, j, update.search_id));
            }
        }
        r
    }

    proof fn search_update_keeps(self, d: int, t: int, up: Update, next: OpenDirs, shared: bool)
        requires
            self.valid(),
            self.has_tab(d, t),
            self.dirs@[d].tabs@[t].search is Some,
            next.objects.valid(),
            next.cache == self.cache,
            next.dirs@ == self.dirs@.update(d, next.dirs@[d]),
            next.dirs@[d].flat == self.dirs@[d].flat,
            next.dirs@[d].tabs@ == self.dirs@[d].tabs@.update(t, next.dirs@[d].tabs@[t]),
            next.dirs@[d].tabs@[t].contents == self.dirs@[d].tabs@[t].contents,
            next.dirs@[d].tabs@[t].search matches Some(s) && s.ok(next.objects) && s.path
                == self.dirs@[d].tabs@[t].search->0.path && s.contents.query() is Some && !(
            s.state is Unloaded),
            next.dirs@[d].tabs@[t].search_paths() == self.dirs@[d].tabs@[t].search_paths()
                || next.dirs@[d].tabs@[t].search_paths() == Search::paths_with(
                self.dirs@[d].tabs@[t].search_paths(),
                up,
            ),
            self.dirs@[d].tabs@[t].search->0.takes(up),
            rows::same_but(self.objects, next.objects, up.spec_path()),
            shared == self.shared(d, t, up),
            shared ==> rows::kept(self.objects, next.objects),
        ensures
            next.valid(),
    {
        let p = up.spec_path();
        let dir = self.dirs@[d].flat.path@;
        assert(self.dirs@[d].ok(self.objects));
        assert(self.dirs@[d].tabs@[t].ok(dir, self.objects));
        assert(p.len() > 0) by {
            if p.len() == 0 {
                assert(p =~= dir);
            }
        }
        assert forall|i: int, j: int|
            self.has_tab(i, j) && (i != d || j != t) implies #[trigger] self.dirs@[i].tabs@[j].ok(
            self.dirs@[i].flat.path@,
            next.objects,
        ) by {
            let tab = self.dirs@[i].tabs@[j];
            assert(self.dirs@[i].ok(self.objects));
            assert(tab.ok(self.dirs@[i].flat.path@, self.objects));
            if shared {
                tab.kept(self.dirs@[i].flat.path@, self.objects, next.objects);
            } else {
                self.unshared_is_elsewhere(d, t, up, i, j);
                tab.unaffected(self.dirs@[i].flat.path@, self.objects, next.objects, p);
            }
        }
        let tab = next.dirs@[d].tabs@[t];
        assert(tab.ok(dir, next.objects)) by {
            let was = self.dirs@[d].tabs@[t];
            assert(!flat_tab::child_of(dir, p));
            if !was.contents.stale {
                assert(!was.flat_paths().contains(p));
                rows::stays_synced(was.contents.list@, self.objects, next.objects, p);
            }
            assert(flat_tab::children(dir, tab.search_paths()) =~= flat_tab::children(
                dir,
                was.search_paths(),
            ));
        }
        assert forall|i: int| 0 <= i < next.dirs@.len() implies (#[trigger] next.dirs@[i]).ok(
            next.objects,
        ) && next.dirs@[i].tabs@.len() > 0 by {
            let was = self.dirs@[i];
            let now = next.dirs@[i];
            assert(was.ok(self.objects) && was.tabs@.len() > 0);
            assert forall|j: int| 0 <= j < now.tabs@.len() implies (#[trigger] now.tabs@[j]).ok(
                now.flat.path@,
                next.objects,
            ) && now.tabs@[j].flat_paths() == was.paths() && now.tabs@[j].contents.stale
                == was.tabs@[j].contents.stale by {
                assert(was.tabs@[j].flat_paths() == was.paths());
                if i != d || j != t {
                    assert(self.has_tab(i, j));
                    assert(now.tabs@[j] == self.dirs@[i].tabs@[j]);
                }
            }
            assert(now.tabs@[0].flat_paths() == was.paths());
            if was.loaded() {
                assert forall|j: int| 0 <= j < now.tabs@.len() implies !(
                #[trigger] now.tabs@[j]).contents.stale by {
                    assert(!was.tabs@[j].contents.stale);
                }
            }
        }
        assert forall|c: int| 0 <= c < self.cache.dirs@.len() implies cached_ok(
            #[trigger] self.cache.dirs@[c],
            next.objects,
        ) by {
            let cached = self.cache.dirs@[c];
            assert(cached_ok(cached, self.objects));
            if shared {
                rows::kept_is_synced(cached.contents.list@, self.objects, next.objects);
            } else {
                assert(!flat_tab::child_of(cached.dir@, p));
                assert(!rows::path_set(cached.contents.list@).contains(p));
                rows::stays_synced(cached.contents.list@, self.objects, next.objects, p);
            }
        }
        self.same_shape_valid(next);
    }
}

impl OpenDirs {
    /// The first tab whose search waits for results with the given number.
    pub open spec fn awaits(self, d: int, t: int, id: u64) -> bool {
        &&& self.has_tab(d, t)
        &&& self.dirs@[d].tabs@[t].search matches Some(s)
        &&& s.state matches SearchState::Loading(i, _)
        &&& i == id
    }

    pub open spec fn first_awaiting(self, d: int, t: int, id: u64) -> bool {
        &&& self.awaits(d, t, id)
        &&& forall|i: int, j: int| #[trigger]
            self.awaits(i, j, id) ==> d < i || (d == i && t <= j)
    }

    fn find_awaiting(&self, id: u64) -> (r: Option<(usize, usize)>)
        ensures
            match r {
                Some((d, t)) => self.first_awaiting(d as int, t as int, id),
                None => forall|d: int, t: int| !(#[trigger] self.awaits(d, t, id)),
            },
    {
        let mut d: usize = 0;
        while d < self.dirs.len()
            invariant
                d <= self.dirs@.len(),
                forall|i: int, j: int| #[trigger] self.awaits(i, j, id) ==> i >= d,
            decreases self.dirs@.len() - d,
        {
            let mut t: usize = 0;
            while t < self.dirs[d].tabs.len()
                invariant
                    d < self.dirs@.len(),
                    t <= self.dirs@[d as int].tabs@.len(),
                    forall|i: int, j: int| #[trigger]
                        self.awaits(i, j, id) ==> i > d || (i == d && j >= t),
                decreases self.dirs@[d as int].tabs@.len() - t,
            {
                if let Some(s) = &self.dirs[d].tabs[t].search {
                    if s.matches_snapshot(id) {
                        assert(self.awaits(d as int, t as int, id));
                        return Some((d, t));
                    }
                }
                assert(!self.awaits(d as int, t as int, id));
                t += 1;
            }
            d += 1;
        }
        None
    }

    /// How results of the search in a tab are taken in.
    pub open spec fn results_applied(
        self,
        d: int,
        t: int,
        snap: SearchSnapshot,
        next: OpenDirs,
        r: Seq<Option<ThumbRequest>>,
    ) -> bool {
        let was = self.dirs@[d].tabs@[t];
        let now = next.dirs@[d].tabs@[t];
        let ups = was.search->0.state->Loading_1@;
        let n = snap.entries@.len();
        let shown = was.search_paths().union(rows::entry_paths(snap.entries@));
        &&& next.cache == self.cache
        &&& next.dirs@ == self.dirs@.update(d, next.dirs@[d])
        &&& next.dirs@[d].flat == self.dirs@[d].flat
        &&& next.dirs@[d].tabs@ == self.dirs@[d].tabs@.update(t, now)
        &&& now.id == was.id
        &&& now.contents == was.contents
        &&& now.search matches Some(s)
        &&& s.original == was.search->0.original
        &&& s.contents.sort == was.search->0.contents.sort
        &&& rows::kept(self.objects, next.objects)
        &&& search::taken_in(
            self.objects,
            snap.entries@,
            if snap.finished {
                ups
            } else {
                Seq::empty()
            },
            next.objects,
        )
        &&& forall|i: int|
            0 <= i < n ==> i < r.len() && #[trigger] r[i] == search::adoption(
                self.objects,
                next.objects,
                snap.entries@[i],
            )
        &&& if snap.finished {
            &&& s.state == SearchState::Done(snap.id)
            &&& now.search_paths() == search::paths_with_all(shown, ups)
            &&& now.search_chosen() == search::chosen_with_all(was.search_chosen(), ups)
            &&& r.len() == n + ups.len()
            &&& forall|k: int|
                0 <= k < ups.len() ==> r[n + k] == #[trigger] search::late_request(
                    self.objects,
                    next.objects,
                    snap.entries@,
                    ups,
                    k,
                )
        } else {
            &&& s.state == was.search->0.state
            &&& now.search_paths() == shown
            &&& now.search_chosen() == was.search_chosen()
            &&& r.len() == n
        }
    }

    /// Takes in results of a search. Also returns the thumbnails that are to be
    /// loaded.
    pub fn apply_search_snapshot(&mut self, snap: SearchSnapshot) -> (r: Vec<Option<ThumbRequest>>)
        requires
            old(self).valid(),
            forall|d: int, t: int| #[trigger]
                old(self).awaits(d, t, snap.id) ==> {
                    let s = old(self).dirs@[d].tabs@[t].search->0;
                    &&& search::results_fit(
                        s.path@,
                        rows::path_set(s.contents.list@),
                        snap.entries@,
                    )
                    &&& old(self).objects.slots@.len() + snap.entries@.len()
                        + s.state->Loading_1@.len() < usize::MAX
                },
        ensures
            final(self).valid(),
            (forall|d: int, t: int| !(#[trigger] old(self).awaits(d, t, snap.id))) ==> *final(self)
                == *old(self) && r@.len() == 0,
            forall|d: int, t: int| #[trigger]
                old(self).first_awaiting(d, t, snap.id) ==> old(self).results_applied(
                    d,
                    t,
                    snap,
                    *final(self),
                    r@,
                ),
    {
        let ghost start = *self;
        let ghost given = snap;
        let (d, t) = match self.find_awaiting(snap.id) {
            Some(x) => x,
            None => {
                return Vec::new();
            },
        };
        let ghost dir = self.dirs@[d as int];
        assert(dir.ok(start.objects));
        assert(dir.tabs@[t as int].ok(dir.flat.path@, start.objects));
        assert(start.awaits(d as int, t as int, snap.id));
        let ghost was = dir.tabs@[t as int].search->0;
        let mut r: Vec<Option<ThumbRequest>> = Vec::new();
        match &mut self.dirs[d].tabs[t].search {
            Some(s) => {
                r = s.apply_search_snapshot(snap, &mut self.objects);
            },
            None => {},
        }
        proof {
            let now = self.dirs@[d as int];
            assert(now.tabs@ =~= dir.tabs@.update(t as int, now.tabs@[t as int]));
            assert(self.dirs@ =~= start.dirs@.update(d as int, now));
            let shown = rows::path_set(was.contents.list@).union(
                rows::entry_paths(given.entries@),
            );
            assert(flat_tab::children(dir.flat.path@, shown) =~= flat_tab::children(
                dir.flat.path@,
                rows::path_set(was.contents.list@),
            )) by {
                assert forall|q: Seq<Seq<u8>>| #[trigger] rows::entry_paths(given.entries@).contains(
                    q,
                ) implies !flat_tab::child_of(dir.flat.path@, q) by {
                    let i = choose|i: int|
                        0 <= i < given.entries@.len() && (#[trigger] given.entries@[i]).abs_path@
                            == q;
                    assert(update::below_subdir(given.entries@[i].abs_path@, was.path@));
                }
            }
            if given.finished {
                assert forall|i: int| 0 <= i < was.state->Loading_1@.len() implies was.takes(
                    #[trigger] was.state->Loading_1@[i],
                ) by {}
                updates_below(dir.flat.path@, shown, was.state->Loading_1@);
            }
            start.search_change_keeps(d as int, t as int, *self);
            assert forall|i: int, j: int| #[trigger]
                start.first_awaiting(i, j, given.id) implies i == d && j == t by {
                assert(start.awaits(i, j, given.id));
            }
        }
        r
    }

    /// A search that takes in more, without any entry changing, leaves the rest
    /// as it is.
    proof fn search_change_keeps(self, d: int, t: int, next: OpenDirs)
        requires
            self.valid(),
            self.has_tab(d, t),
            self.dirs@[d].tabs@[t].search is Some,
            next.objects.valid(),
            next.cache == self.cache,
            next.dirs@ == self.dirs@.update(d, next.dirs@[d]),
            next.dirs@[d].flat == self.dirs@[d].flat,
            next.dirs@[d].tabs@ == self.dirs@[d].tabs@.update(t, next.dirs@[d].tabs@[t]),
            next.dirs@[d].tabs@[t].contents == self.dirs@[d].tabs@[t].contents,
            next.dirs@[d].tabs@[t].search matches Some(s) && s.ok(next.objects) && s.path
                == self.dirs@[d].tabs@[t].search->0.path && s.contents.query() is Some && !(
            s.state is Unloaded),
            flat_tab::children(
                self.dirs@[d].flat.path@,
                next.dirs@[d].tabs@[t].search_paths(),
            ) == flat_tab::children(
                self.dirs@[d].flat.path@,
                self.dirs@[d].tabs@[t].search_paths(),
            ),
            rows::kept(self.objects, next.objects),
        ensures
            next.valid(),
    {
        let dir = self.dirs@[d].flat.path@;
        let o = next.objects;
        assert(self.dirs@[d].ok(self.objects));
        assert forall|i: int| 0 <= i < next.dirs@.len() implies (#[trigger] next.dirs@[i]).ok(o)
            && next.dirs@[i].tabs@.len() > 0 by {
            let was = self.dirs@[i];
            let now = next.dirs@[i];
            assert(was.ok(self.objects) && was.tabs@.len() > 0);
            assert forall|j: int| 0 <= j < now.tabs@.len() implies (#[trigger] now.tabs@[j]).ok(
                now.flat.path@,
                o,
            ) && now.tabs@[j].flat_paths() == was.paths() && now.tabs@[j].contents.stale
                == was.tabs@[j].contents.stale by {
                assert(was.tabs@[j].ok(was.flat.path@, self.objects));
                assert(was.tabs@[j].flat_paths() == was.paths());
                was.tabs@[j].kept(was.flat.path@, self.objects, o);
            }
            assert(now.tabs@[0].flat_paths() == was.paths());
            if was.loaded() {
                assert forall|j: int| 0 <= j < now.tabs@.len() implies !(
                #[trigger] now.tabs@[j]).contents.stale by {
                    assert(!was.tabs@[j].contents.stale);
                }
            }
        }
        assert forall|c: int| 0 <= c < self.cache.dirs@.len() implies cached_ok(
            #[trigger] self.cache.dirs@[c],
            o,
        ) by {
            assert(cached_ok(self.cache.dirs@[c], self.objects));
            rows::kept_is_synced(self.cache.dirs@[c].contents.list@, self.objects, o);
        }
        self.same_shape_valid(next);
    }
}

/// Updates below subdirectories do not touch what is directly inside.
proof fn updates_below(dir: Seq<Seq<u8>>, paths: Set<Seq<Seq<u8>>>, ups: Seq<Update>)
    requires
        forall|i: int|
            0 <= i < ups.len() ==> update::below_subdir((#[trigger] ups[i]).spec_path(), dir),
    ensures
        flat_tab::children(dir, search::paths_with_all(paths, ups)) == flat_tab::children(
            dir,
            paths,
        ),
    decreases ups.len(),
{
    if ups.len() > 0 {
        let front = ups.drop_last();
        assert forall|i: int| 0 <= i < front.len() implies update::below_subdir(
            (#[trigger] front[i]).spec_path(),
            dir,
        ) by {
            assert(update::below_subdir(ups[i].spec_path(), dir));
        }
        updates_below(dir, paths, front);
        let before = search::paths_with_all(paths, front);
        let up = ups.last();
        assert(update::below_subdir(ups[ups.len() - 1].spec_path(), dir));
        assert(!flat_tab::child_of(dir, up.spec_path()));
        assert(flat_tab::children(dir, Search::paths_with(before, up)) =~= flat_tab::children(
            dir,
            before,
        ));
    }
}

/// What became of a directory that a change elsewhere was passed on to.
pub open spec fn passed_on(
    partial: Option<PartiallyAppliedUpdate>,
    before: OpenDir,
    after: OpenDir,
) -> bool {
    match partial {
        None => after == before,
        Some(u) => after.paths() == before.paths() && forall|i: int|
            0 <= i < before.tabs@.len() ==> {
                let tab = #[trigger] after.tabs@[i];
                &&& tab.contents == before.tabs@[i].contents
                &&& tab.search is Some ==> tab.search_paths() == rows::paths_after(
                    u,
                    before.tabs@[i].search_paths(),
                )
                &&& before.tabs@[i].search_applied(u, tab)
            },
    }
}

/// A change in a directory that is loaded is seen in its rows: what there is has a row,
/// and what was removed has none.
pub proof fn updates_are_shown(
    o: OpenDirs,
    up: Update,
    next: OpenDirs,
    r: Option<ThumbRequest>,
    k: int,
)
    requires
        o.valid(),
        path::valid_parts(up.spec_path()),
        o.updated(up, None, next, r),
        o.concerned(k, up),
        o.dirs@[k].flat.state is Loaded,
    ensures
        up matches Update::Entry(e) ==> next.dirs@[k].paths() == o.dirs@[k].paths().insert(
            e.abs_path@,
        ),
        up matches Update::Removed(p) ==> next.dirs@[k].paths() == o.dirs@[k].paths().remove(p@),
{
    let p = up.spec_path();
    let d = o.dirs@[k];
    let tab = d.tabs@[0];
    assert(d.ok(o.objects));
    assert(tab.ok(d.flat.path@, o.objects));
    assert(!tab.contents.stale);
    let list = tab.contents.list@;
    if d.paths().contains(p) {
        let i = choose|i: int| 0 <= i < list.len() && (#[trigger] list[i]).entry.abs_path@ == p;
        assert(o.objects.entry_of(p) == Some(list[i].entry));
    }
    assert(o.objects.id_of(p) is Some ==> o.objects.entry_of(p) is Some);
    assert(o.objects.entry_of(p) matches Some(x) ==> x.abs_path@ == p);
    match up {
        Update::Entry(e) => {
            assert(next.dirs@[k].paths() =~= d.paths().insert(p));
        },
        Update::Removed(_) => {
            assert(next.dirs@[k].paths() =~= d.paths().remove(p));
        },
    }
}

/// A change that a search hears of is shared if another tab shows the same file, if
/// another search does, or if it is in a directory that is kept.
pub proof fn shared_changes(
    o: OpenDirs,
    d: int,
    t: int,
    up: Update,
    i: int,
    j: int,
    name: Seq<u8>,
    c: int,
)
    ensures
        o.has_tab(i, j) && (i != d || j != t) && !(o.dirs@[i].flat.state is Unloaded)
            && up.spec_path() == o.dirs@[i].flat.path@.push(name) ==> o.shared(d, t, up),
        o.has_tab(i, j) && (i != d || j != t) && (o.dirs@[i].tabs@[j].search matches Some(s)
            && s.overlaps(&up)) ==> o.shared(d, t, up),
        0 <= c < o.cache.dirs@.len() && up.spec_path() == o.cache.dirs@[c].dir@.push(name)
            ==> o.shared(d, t, up),
{
    if o.has_tab(i, j) {
        assert(o.dirs@[i].flat.path@.push(name).drop_last() =~= o.dirs@[i].flat.path@);
        if o.overlaps(i, j, up) && (i != d || j != t) {
            assert(o.shared(d, t, up));
        }
    }
    if 0 <= c < o.cache.dirs@.len() {
        assert(o.cache.dirs@[c].dir@.push(name).drop_last() =~= o.cache.dirs@[c].dir@);
    }
}

/// A file that is gone from a directory that is kept is gone from all searches too.
pub proof fn gone_from_searches(o: OpenDirs, c: int, up: Update, inode: Option<u64>)
    requires
        up is Removed,
    ensures
        ({
            let e = o.cached_effect(c, up, inode);
            &&& existing::subject(o.objects, o.cache.dirs@[c].contents.list@, up, inode) matches Some(
                x,
            ) ==> e.searches == Some(PartiallyAppliedUpdate::Delete(x))
            &&& e.own matches Some(u) ==> e.searches == Some(u)
        }),
{
}

} // verus!
