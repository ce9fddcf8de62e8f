//! Directories that no tab is open in any more, but that are still watched, so
//! that going back to one is immediate.
use std::sync::Arc;

use hashlink::LinkedHashMap;
use vstd::prelude::*;

use crate::collections::{
    self, cache_insert, cache_len, cache_pop_front, cache_remove, empty_cache,
};
use crate::contents::Contents;
use crate::flat::WatchedDir;
use crate::path::{self, FilePath};

verus! {

/// How many directories are kept.
pub const MAX_CACHED_FLAT_DIRS: usize = 4;

/// A directory that has been read completely.
pub struct CachedDir {
    pub dir: Arc<FilePath>,
    pub watch: WatchedDir,
    /// The rows of the last tab that was open in it.
    pub contents: Contents,
}

/// The directories that are kept, the oldest first.
pub struct DirCache {
    pub order: LinkedHashMap<Vec<u8>, u64>,
    pub dirs: Vec<CachedDir>,
}

/// How directories are listed: by path and watch.
pub open spec fn listed(dirs: Seq<CachedDir>) -> Seq<(Seq<u8>, u64)> {
    Seq::new(dirs.len(), |i: int| (path::path_bytes(dirs[i].dir@), dirs[i].watch.cancel))
}

/// What is left when room is made for one more.
pub open spec fn with_room(dirs: Seq<CachedDir>) -> Seq<CachedDir> {
    if dirs.len() >= MAX_CACHED_FLAT_DIRS {
        dirs.skip(dirs.len() - MAX_CACHED_FLAT_DIRS + 1)
    } else {
        dirs
    }
}

proof fn absent_key(s: Seq<(Seq<u8>, u64)>, key: Seq<u8>)
    requires
        !collections::has_key(s, key),
    ensures
        collections::without_key(s, key) == s,
    decreases s.len(),
{
    reveal(Seq::filter);
    let keep = |p: (Seq<u8>, u64)| p.0 != key;
    if s.len() > 0 {
        assert(s[s.len() - 1].0 != key);
        assert(!collections::has_key(s.drop_last(), key)) by {
            if collections::has_key(s.drop_last(), key) {
                let i = choose|i: int|
                    0 <= i < s.drop_last().len() && (#[trigger] s.drop_last()[i]).0 == key;
                assert(s[i].0 == key);
            }
        }
        absent_key(s.drop_last(), key);
        assert(s.drop_last().push(s.last()) =~= s);
    }
}

proof fn present_key(s: Seq<(Seq<u8>, u64)>, k: int, key: Seq<u8>)
    requires
        0 <= k < s.len(),
        s[k].0 == key,
        forall|i: int| 0 <= i < s.len() && i != k ==> (#[trigger] s[i]).0 != key,
    ensures
        collections::without_key(s, key) == s.remove(k),
    decreases s.len(),
{
    reveal(Seq::filter);
    let front = s.drop_last();
    if k == s.len() - 1 {
        assert(!collections::has_key(front, key)) by {
            if collections::has_key(front, key) {
                let i = choose|i: int| 0 <= i < front.len() && (#[trigger] front[i]).0 == key;
                assert(s[i].0 == key);
            }
        }
        absent_key(front, key);
        assert(s.remove(k) =~= front);
    } else {
        assert forall|i: int| 0 <= i < front.len() && i != k implies (#[trigger] front[i]).0
            != key by {
            assert(s[i].0 != key);
        }
        present_key(front, k, key);
        assert(s[s.len() - 1].0 != key);
        assert(front.remove(k).push(s.last()) =~= s.remove(k));
    }
}

impl DirCache {
    pub open spec fn valid(self) -> bool {
        &&& collections::cached(self.order) == listed(self.dirs@)
        &&& forall|i: int|
            0 <= i < self.dirs@.len() ==> path::valid_parts((#[trigger] self.dirs@[i]).dir@)
        &&& forall|i: int, j: int|
            0 <= i < j < self.dirs@.len() ==> (#[trigger] self.dirs@[i]).dir@ != (
            #[trigger] self.dirs@[j]).dir@
    }

    /// Whether a directory is kept.
    pub open spec fn keeps(self, dir: Seq<Seq<u8>>) -> bool {
        exists|i: int| 0 <= i < self.dirs@.len() && (#[trigger] self.dirs@[i]).dir@ == dir
    }

    pub fn new() -> (r: DirCache)
        ensures
            r.valid(),
            r.dirs@.len() == 0,
    {
        let r = DirCache { order: empty_cache(), dirs: Vec::new() };
        assert(collections::cached(r.order) =~= listed(r.dirs@));
        r
    }

    proof fn key_at(self, i: int, dir: Seq<Seq<u8>>)
        requires
            self.valid(),
            path::valid_parts(dir),
            0 <= i < self.dirs@.len(),
        ensures
            listed(self.dirs@)[i].0 == path::path_bytes(dir) <==> self.dirs@[i].dir@ == dir,
    {
        path::path_round_trip(dir);
        path::path_round_trip(self.dirs@[i].dir@);
    }

    /// The place of a directory, if it is kept.
    pub fn position(&self, dir: &FilePath) -> (r: Option<usize>)
        ensures
            match r {
                Some(k) => k < self.dirs@.len() && self.dirs@[k as int].dir@ == dir@,
                None => !self.keeps(dir@),
            },
    {
        let mut k: usize = 0;
        while k < self.dirs.len()
            invariant
                k <= self.dirs@.len(),
                forall|i: int| 0 <= i < k ==> (#[trigger] self.dirs@[i]).dir@ != dir@,
            decreases self.dirs@.len() - k,
        {
            if self.dirs[k].dir.same(dir) {
                return Some(k);
            }
            k += 1;
        }
        None
    }

    /// Keeps one more directory. Returns the oldest ones, which make room for it.
    pub fn cache_open_dir(&mut self, new: CachedDir) -> (r: Vec<CachedDir>)
        requires
            old(self).valid(),
            path::valid_parts(new.dir@),
            !old(self).keeps(new.dir@),
        ensures
            final(self).valid(),
            final(self).dirs@ == with_room(old(self).dirs@).push(new),
            r@ + with_room(old(self).dirs@) == old(self).dirs@,
    {
        let mut r: Vec<CachedDir> = Vec::new();
        let ghost before = self.dirs@;
        let ghost mut n: int = 0;
        assert(before.skip(0) =~= before);
        while cache_len(&self.order) >= MAX_CACHED_FLAT_DIRS
            invariant
                before == old(self).dirs@,
                !old(self).keeps(new.dir@),
                self.valid(),
                0 <= n <= before.len(),
                self.dirs@ == before.skip(n),
                r@ == before.take(n),
                n > 0 ==> before.len() - n >= MAX_CACHED_FLAT_DIRS - 1,
            decreases self.dirs@.len(),
        {
            let ghost here = self.dirs@;
            let _ = cache_pop_front(&mut self.order);
            let oldest = self.dirs.remove(0);
            r.push(oldest);
            proof {
                assert(r@ =~= before.take(n + 1));
                n = n + 1;
                assert(self.dirs@ =~= before.skip(n));
                assert(listed(here).drop_first() =~= listed(self.dirs@));
                assert forall|i: int| 0 <= i < self.dirs@.len() implies #[trigger] self.dirs@[i]
                    == here[i + 1] by {}
            }
        }
        assert(self.dirs@ =~= with_room(before));
        assert(r@ + self.dirs@ =~= before);
        let ghost here = *self;
        let ghost key = path::path_bytes(new.dir@);
        proof {
            assert forall|i: int| 0 <= i < here.dirs@.len() implies (
            #[trigger] here.dirs@[i]).dir@ != new.dir@ by {
                assert(before[i + n].dir@ != new.dir@);
            }
            if collections::has_key(listed(here.dirs@), key) {
                let i = choose|i: int|
                    0 <= i < listed(here.dirs@).len() && (#[trigger] listed(here.dirs@)[i]).0 == key;
                here.key_at(i, new.dir@);
            }
            absent_key(listed(here.dirs@), key);
        }
        let bytes = new.dir.to_bytes();
        let _ = cache_insert(&mut self.order, bytes, new.watch.cancel);
        self.dirs.push(new);
        proof {
            assert(listed(self.dirs@) =~= listed(here.dirs@).push((key, new.watch.cancel)));
            assert forall|i: int, j: int| 0 <= i < j < self.dirs@.len() implies (
            #[trigger] self.dirs@[i]).dir@ != (#[trigger] self.dirs@[j]).dir@ by {
                assert(self.dirs@[i] == here.dirs@[i]);
            }
        }
        r
    }

    /// Takes out a directory, if it is kept.
    pub fn take(&mut self, dir: &FilePath) -> (r: Option<CachedDir>)
        requires
            old(self).valid(),
            path::valid_parts(dir@),
        ensures
            final(self).valid(),
            !final(self).keeps(dir@),
            match r {
                Some(c) => exists|k: int|
                    0 <= k < old(self).dirs@.len() && (#[trigger] old(self).dirs@[k]).dir@ == dir@
                        && c == old(self).dirs@[k] && final(self).dirs@ == old(self).dirs@.remove(k),
                None => !old(self).keeps(dir@) && final(self).dirs@ == old(self).dirs@,
            },
    {
        let bytes = dir.to_bytes();
        let ghost before = *self;
        if cache_remove(&mut self.order, &bytes).is_none() {
            proof {
                if before.keeps(dir@) {
                    let i = choose|i: int|
                        0 <= i < before.dirs@.len() && (#[trigger] before.dirs@[i]).dir@ == dir@;
                    before.key_at(i, dir@);
                    assert(listed(before.dirs@)[i].0 == bytes@);
                }
                absent_key(listed(before.dirs@), bytes@);
            }
            return None;
        }
        proof {
            let i = choose|i: int|
                0 <= i < listed(before.dirs@).len() && (#[trigger] listed(before.dirs@)[i]).0
                    == bytes@;
            before.key_at(i, dir@);
            assert(before.dirs@[i].dir@ == dir@);
        }
        match self.position(dir) {
            Some(k) => {
                proof {
                    assert forall|i: int|
                        0 <= i < listed(before.dirs@).len() && i != k implies (
                    #[trigger] listed(before.dirs@)[i]).0 != bytes@ by {
                        before.key_at(i, dir@);
                        assert(before.dirs@[k as int].dir@ == dir@);
                    }
                    before.key_at(k as int, dir@);
                    present_key(listed(before.dirs@), k as int, bytes@);
                }
                let c = self.dirs.remove(k);
                proof {
                    assert(listed(self.dirs@) =~= listed(before.dirs@).remove(k as int));
                    assert forall|i: int| 0 <= i < self.dirs@.len() implies #[trigger] self.dirs@[i]
                        == before.dirs@[if i < k { i } else { i + 1 }] by {}
                    assert(before.dirs@[k as int].dir@ == dir@);
                }
                Some(c)
            },
            None => None,
        }
    }
}

/// The directories that were left last are kept, in their order.
pub proof fn latest_are_kept(dirs: Seq<CachedDir>, i: int)
    requires
        0 <= i < dirs.len(),
    ensures
        with_room(dirs).is_suffix_of(dirs),
        with_room(dirs).len() == (if dirs.len() < 3 {
            dirs.len()
        } else {
            3
        }),
        dirs.len() - i <= 3 ==> with_room(dirs).contains(dirs[i]),
{
    let kept = with_room(dirs);
    let from = dirs.len() - kept.len();
    assert(kept =~= dirs.skip(from));
    if i >= from {
        assert(kept[i - from] == dirs[i]);
    }
}

/// No more directories are kept than there is room for.
pub proof fn cache_is_bounded(dirs: Seq<CachedDir>, new: CachedDir)
    ensures
        with_room(dirs).push(new).len() <= MAX_CACHED_FLAT_DIRS,
        with_room(dirs).push(new).last() == new,
{
}

} // verus!
