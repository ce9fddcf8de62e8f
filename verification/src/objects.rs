//! All entries that are in use, each of them once.
use std::sync::Arc;

use ahash::AHashMap;
use hashlink::LinkedHashSet;
use vstd::prelude::*;

use crate::collections::{
    self, empty_queue, get_pair, no_pairs, queue_insert, queue_len, queue_pop_front, queue_remove,
    remove_pair, set_pair,
};
use crate::entry::Entry;
use crate::path::{self, FilePath};
use crate::snapshot::{DirSnapshot, SnapshotId};
use crate::thumbs::{self, EntryObject, Thumb, ThumbConfig, ThumbPriority, ThumbSize, WidgetChange};

verus! {

/// How many thumbnails that nothing shows are kept, so that they are not loaded
/// again and again.
pub const LRU_THUMBNAIL_LIMIT: usize = 512;

/// All entries that are in use. Each has a number, which is never used again.
pub struct Objects {
    pub by_path: AHashMap<(Vec<u8>, Vec<u8>), u64>,
    pub slots: Vec<Option<EntryObject>>,
    /// Those whose thumbnail is dropped next, the first one first.
    pub unload: LinkedHashSet<u64>,
    pub config: ThumbConfig,
}

/// What came of an entry that was read.
pub struct Registered {
    pub id: u64,
    /// What the entry was before, if it changed.
    pub old: Option<Arc<Entry>>,
    /// The thumbnail that is to be loaded, and whether that comes from an event.
    pub queue: Option<(ThumbPriority, bool)>,
}

/// The key under which the number of a path is found.
pub open spec fn path_key(p: Seq<Seq<u8>>) -> (Seq<u8>, Seq<u8>) {
    (path::path_bytes(p), Seq::empty())
}

/// An object whose thumbnail was dropped, unless something shows it.
pub open spec fn dropped(o: Option<EntryObject>) -> Option<EntryObject> {
    match o {
        Some(x) if x.widgets.spec_priority() is Low => Some(
            EntryObject { thumbnail: Thumb::Unloaded, ..x },
        ),
        _ => o,
    }
}

impl Objects {
    /// The number of a path, if an entry for it is in use.
    pub open spec fn id_of(self, p: Seq<Seq<u8>>) -> Option<u64> {
        if collections::pairs(self.by_path).dom().contains(path_key(p)) {
            Some(collections::pairs(self.by_path)[path_key(p)])
        } else {
            None
        }
    }

    /// The entry with a number, if it is in use.
    pub open spec fn object(self, id: u64) -> Option<EntryObject> {
        if id < self.slots@.len() {
            self.slots@[id as int]
        } else {
            None
        }
    }

    /// The entry for a path, if it is in use.
    pub open spec fn entry_of(self, p: Seq<Seq<u8>>) -> Option<Arc<Entry>> {
        match self.id_of(p) {
            Some(i) => match self.object(i) {
                Some(o) => Some(o.entry),
                None => None,
            },
            None => None,
        }
    }

    pub open spec fn valid(self) -> bool {
        &&& forall|p: Seq<Seq<u8>>|
            path::valid_parts(p) ==> (#[trigger] self.id_of(p) matches Some(i) ==> self.object(
                i,
            ) matches Some(o) && o.entry.abs_path@ == p)
        &&& forall|i: int|
            0 <= i < self.slots@.len() ==> (#[trigger] self.slots@[i] matches Some(o)
                ==> o.entry.ready() && o.entry.abs_path.valid())
    }

    /// Whether registering an entry changes one that is in use, and the
    /// thumbnail that is to be loaded then.
    pub open spec fn registers(self, e: Arc<Entry>, from_event: bool) -> (bool, Option<
        (ThumbPriority, bool),
    >) {
        match self.id_of(e.abs_path@) {
            Some(i) => {
                let o = self.object(i)->0;
                if o.entry.same_as(&e) {
                    (false, None)
                } else if self.config.enabled && e.kind is File {
                    (true, Some((o.widgets.spec_priority(), true)))
                } else {
                    (true, None)
                }
            },
            None => (
                false,
                match EntryObject::initial_thumb(e.kind, from_event, self.config).1 {
                    Some(p) => Some((p, from_event)),
                    None => None,
                },
            ),
        }
    }

    /// The entry for a path after one for it was read.
    pub open spec fn entry_with(self, e: Arc<Entry>) -> Option<Arc<Entry>> {
        match self.entry_of(e.abs_path@) {
            Some(x) if x.same_as(&e) => Some(x),
            _ => Some(e),
        }
    }

    /// What is in use for a path once an entry for it is registered.
    pub open spec fn object_with(self, e: Arc<Entry>, from_event: bool) -> EntryObject {
        match self.id_of(e.abs_path@) {
            Some(i) => {
                let o = self.object(i)->0;
                if o.entry.same_as(&e) {
                    o
                } else {
                    EntryObject {
                        entry: e,
                        widgets: o.widgets,
                        thumbnail: if self.config.enabled && e.kind is File {
                            o.thumbnail.after_update()
                        } else {
                            Thumb::Never
                        },
                        updated_from_event: true,
                    }
                }
            },
            None => EntryObject {
                entry: e,
                widgets: thumbs::WidgetCounter { bound: 0, mapped: 0 },
                thumbnail: EntryObject::initial_thumb(e.kind, from_event, self.config).0,
                updated_from_event: from_event,
            },
        }
    }

    /// Whether `next` is the same with an entry registered, and nothing else
    /// changed.
    pub open spec fn registered(self, e: Arc<Entry>, from_event: bool, next: Objects) -> bool {
        let new = Some(self.object_with(e, from_event));
        &&& next.config == self.config
        &&& next.unload == self.unload
        &&& forall|p: Seq<Seq<u8>>|
            path::valid_parts(p) && p != e.abs_path@ ==> #[trigger] next.id_of(p) == self.id_of(p)
        &&& match self.id_of(e.abs_path@) {
            Some(i) => next.id_of(e.abs_path@) == Some(i) && next.slots@ == self.slots@.update(
                i as int,
                new,
            ),
            None => next.id_of(e.abs_path@) == Some(self.slots@.len() as u64) && next.slots@
                == self.slots@.push(new),
        }
    }

    /// Whether `next` is the same with all of the entries registered, one after
    /// the other.
    pub open spec fn registered_all(self, entries: Seq<Arc<Entry>>, next: Objects) -> bool
        decreases entries.len(),
    {
        if entries.len() == 0 {
            next == self
        } else {
            exists|mid: Objects|
                self.registered_all(entries.drop_last(), mid) && #[trigger] mid.registered(
                    entries.last(),
                    false,
                    next,
                )
        }
    }

    /// Whether `next` is the same with an entry registered, unless there is one
    /// for its path already.
    pub open spec fn adopted(self, e: Arc<Entry>, from_event: bool, next: Objects) -> bool {
        if self.entry_of(e.abs_path@) is Some {
            next == self
        } else {
            self.registered(e, from_event, next)
        }
    }

    /// Whether the number is the one of its path. It is not if everything was
    /// purged in between.
    pub open spec fn current(self, id: u64) -> bool {
        self.object(id) matches Some(o) && self.id_of(o.entry.abs_path@) == Some(id)
    }

    pub fn new(config: ThumbConfig) -> (r: Objects)
        ensures
            r.valid(),
            r.slots@.len() == 0,
            forall|p: Seq<Seq<u8>>| #[trigger] r.id_of(p) is None,
            collections::queued(r.unload).len() == 0,
            r.config == config,
    {
        Objects { by_path: no_pairs(), slots: Vec::new(), unload: empty_queue(), config }
    }

    /// The number of a path, if an entry for it is in use.
    pub fn lookup(&self, p: &FilePath) -> (r: Option<u64>)
        ensures
            r == self.id_of(p@),
    {
        let nothing: Vec<u8> = Vec::new();
        assert(nothing@ =~= Seq::empty());
        get_pair(&self.by_path, p.to_bytes(), nothing)
    }

    /// The entry for a path, if it is in use.
    pub fn find_entry(&self, p: &FilePath) -> (r: Option<Arc<Entry>>)
        ensures
            r == self.entry_of(p@),
    {
        match self.lookup(p) {
            Some(id) => {
                if id >= self.slots.len() as u64 {
                    return None;
                }
                match &self.slots[id as usize] {
                    Some(o) => Some(o.entry.clone()),
                    None => None,
                }
            },
            None => None,
        }
    }

    fn is_current(&self, id: u64) -> (r: bool)
        ensures
            r == self.current(id),
    {
        if id >= self.slots.len() as u64 {
            return false;
        }
        match &self.slots[id as usize] {
            Some(o) => match self.lookup(&o.entry.abs_path) {
                Some(i) => i == id,
                None => false,
            },
            None => false,
        }
    }

    proof fn keys_differ(a: Seq<Seq<u8>>, b: Seq<Seq<u8>>)
        requires
            path::valid_parts(a),
            path::valid_parts(b),
            path_key(a) == path_key(b),
        ensures
            a == b,
    {
        path::path_round_trip(a);
        path::path_round_trip(b);
    }

    proof fn stays_valid(before: Objects, after: Objects)
        requires
            before.valid(),
            after.by_path == before.by_path,
            after.slots@.len() == before.slots@.len(),
            forall|i: int|
                #![trigger after.slots@[i]]
                0 <= i < before.slots@.len() ==> {
                    &&& (before.slots@[i] is Some ==> after.slots@[i] is Some)
                    &&& (after.slots@[i] matches Some(o) ==> o.entry.ready()
                        && o.entry.abs_path.valid() && before.slots@[i] is Some
                        && o.entry.abs_path@ == before.slots@[i]->0.entry.abs_path@)
                },
        ensures
            after.valid(),
            forall|p: Seq<Seq<u8>>| #[trigger] after.id_of(p) == before.id_of(p),
    {
        assert forall|p: Seq<Seq<u8>>| path::valid_parts(p) implies (#[trigger] after.id_of(
            p,
        ) matches Some(i) ==> after.object(i) matches Some(o) && o.entry.abs_path@ == p) by {
            assert(before.id_of(p) == after.id_of(p));
            if let Some(i) = before.id_of(p) {
                assert(before.object(i) matches Some(o) && o.entry.abs_path@ == p);
                assert(after.slots@[i as int] is Some);
            }
        }
    }

    proof fn others_stay(before: Objects, after: Objects, id: u64, p: Seq<Seq<u8>>)
        requires
            before.valid(),
            path::valid_parts(p),
            before.id_of(p) == Some(id),
            after.by_path == before.by_path,
            after.slots@.len() == before.slots@.len(),
            forall|i: int|
                0 <= i < before.slots@.len() && i != id ==> #[trigger] after.slots@[i]
                    == before.slots@[i],
        ensures
            forall|q: Seq<Seq<u8>>|
                path::valid_parts(q) && q != p ==> #[trigger] after.entry_of(q)
                    == before.entry_of(q),
    {
        assert forall|q: Seq<Seq<u8>>| path::valid_parts(q) && q != p implies
            #[trigger] after.entry_of(q) == before.entry_of(q) by {
            assert(after.id_of(q) == before.id_of(q));
            assert(before.object(id) matches Some(o) && o.entry.abs_path@ == p);
            if let Some(j) = before.id_of(q) {
                assert(before.object(j) matches Some(o) && o.entry.abs_path@ == q);
                assert(j != id);
                assert(after.slots@[j as int] == before.slots@[j as int]);
            }
        }
    }

    /// Registers an entry that was read. One that is in use already is updated,
    /// if the two differ.
    pub fn create_or_update(&mut self, entry: Arc<Entry>, from_event: bool) -> (r: Registered)
        requires
            old(self).valid(),
            entry.ready(),
            entry.abs_path.valid(),
            old(self).slots@.len() < usize::MAX,
        ensures
            final(self).valid(),
            final(self).config == old(self).config,
            final(self).unload == old(self).unload,
            (r.old is Some, r.queue) == old(self).registers(entry, from_event),
            final(self).id_of(entry.abs_path@) == Some(r.id),
            forall|p: Seq<Seq<u8>>|
                path::valid_parts(p) && p != entry.abs_path@ ==> #[trigger] final(self).id_of(p)
                    == old(self).id_of(p),
            forall|p: Seq<Seq<u8>>|
                path::valid_parts(p) && p != entry.abs_path@ ==> #[trigger] final(self).entry_of(p)
                    == old(self).entry_of(p),
            final(self).entry_of(entry.abs_path@) == (match old(self).entry_of(entry.abs_path@) {
                Some(e) if e.same_as(&entry) => Some(e),
                _ => Some(entry),
            }),
            r.old == (match old(self).entry_of(entry.abs_path@) {
                Some(e) if !e.same_as(&entry) => Some(e),
                _ => None,
            }),
            old(self).registered(entry, from_event, *final(self)),
    {
        match self.lookup(&entry.abs_path) {
            Some(id) => {
                let count: usize = self.slots.len();
                assert(self.object(id) is Some && id < count);
                let k: usize = id as usize;
                let ghost before = self.slots@;
                match self.slots[k].take() {
                    Some(mut o) => {
                        if o.entry.same(&entry) {
                            self.slots.set(k, Some(o));
                            assert(self.slots@ =~= before);
                            assert(self.slots@ =~= before.update(k as int, Some(o)));
                            proof {
                                Objects::stays_valid(*old(self), *self);
                                Objects::others_stay(*old(self), *self, id, entry.abs_path@);
                            }
                            return Registered { id, old: None, queue: None };
                        }
                        let previous = o.entry.clone();
                        let p = o.update_inner(entry, self.config);
                        self.slots.set(k, Some(o));
                        assert(o == old(self).object_with(entry, from_event));
                        assert(self.slots@ =~= before.update(k as int, Some(o)));
                        proof {
                            Objects::stays_valid(*old(self), *self);
                            Objects::others_stay(*old(self), *self, id, entry.abs_path@);
                        }
                        let queue = match p {
                            Some(p) => Some((p, true)),
                            None => None,
                        };
                        Registered { id, old: Some(previous), queue }
                    },
                    None => Registered { id, old: None, queue: None },
                }
            },
            None => {
                let id: u64 = self.slots.len() as u64;
                let bytes = entry.abs_path.to_bytes();
                let ghost parts = entry.abs_path@;
                let ghost before = *self;
                let (o, p) = EntryObject::create(entry, from_event, self.config);
                assert(o == old(self).object_with(entry, from_event));
                self.slots.push(Some(o));
                let nothing: Vec<u8> = Vec::new();
                assert(nothing@ =~= Seq::empty());
                set_pair(&mut self.by_path, bytes, nothing, id);
                proof {
                    assert forall|q: Seq<Seq<u8>>|
                        path::valid_parts(q) && q != parts implies #[trigger] self.id_of(q)
                        == before.id_of(q) by {
                        if path_key(q) == path_key(parts) {
                            Objects::keys_differ(q, parts);
                        }
                    }
                    assert forall|q: Seq<Seq<u8>>| path::valid_parts(q) implies (
                    #[trigger] self.id_of(q) matches Some(i) ==> self.object(i) matches Some(x)
                        && x.entry.abs_path@ == q) by {
                        if q != parts {
                            assert(self.id_of(q) == before.id_of(q));
                        }
                    }
                    assert forall|q: Seq<Seq<u8>>|
                        path::valid_parts(q) && q != parts implies #[trigger] self.entry_of(q)
                        == before.entry_of(q) by {
                        assert(self.id_of(q) == before.id_of(q));
                        assert(before.id_of(q) matches Some(i) ==> before.object(i) is Some);
                    }
                }
                let queue = match p {
                    Some(p) => Some((p, from_event)),
                    None => None,
                };
                Registered { id, old: None, queue }
            },
        }
    }

    /// The entry that is in use for the path of one that was read, which is that
    /// one if there is none yet. Unlike with
    /// [`create_or_update`](Objects::create_or_update), what is in use stays.
    pub fn adopt(&mut self, entry: Arc<Entry>) -> (r: (Arc<Entry>, Option<(u64, ThumbPriority)>))
        requires
            old(self).valid(),
            entry.ready(),
            entry.abs_path.valid(),
            old(self).slots@.len() < usize::MAX,
        ensures
            final(self).valid(),
            final(self).config == old(self).config,
            old(self).slots@.len() <= final(self).slots@.len() <= old(self).slots@.len() + 1,
            forall|p: Seq<Seq<u8>>|
                path::valid_parts(p) && p != entry.abs_path@ ==> #[trigger] final(self).entry_of(p)
                    == old(self).entry_of(p),
            forall|p: Seq<Seq<u8>>|
                path::valid_parts(p) && p != entry.abs_path@ ==> #[trigger] final(self).id_of(p)
                    == old(self).id_of(p),
            final(self).entry_of(entry.abs_path@) == Some(r.0),
            r.0.abs_path@ == entry.abs_path@,
            r.0.ready(),
            match old(self).entry_of(entry.abs_path@) {
                Some(x) => r == (x, None::<(u64, ThumbPriority)>) && *final(self) == *old(self),
                None => {
                    &&& r.0 == entry
                    &&& match old(self).registers(entry, false).1 {
                        Some((priority, _)) => final(self).id_of(entry.abs_path@) matches Some(id)
                            && r.1 == Some((id, priority)),
                        None => r.1 is None,
                    }
                },
            },
            old(self).adopted(entry, false, *final(self)),
    {
        match self.find_entry(&entry.abs_path) {
            Some(x) => {
                proof {
                    let id = self.id_of(entry.abs_path@)->0;
                    assert(self.object(id) matches Some(o) && o.entry.abs_path@ == entry.abs_path@);
                    assert(self.slots@[id as int] is Some);
                }
                (x, None)
            },
            None => {
                let reg = self.create_or_update(entry.clone(), false);
                let queue = match reg.queue {
                    Some((priority, _)) => Some((reg.id, priority)),
                    None => None,
                };
                (entry, queue)
            },
        }
    }

    /// Forgets an entry that is no longer in use. A newer one for the same path
    /// stays.
    pub fn dispose(&mut self, id: u64)
        requires
            old(self).valid(),
        ensures
            final(self).valid(),
            final(self).config == old(self).config,
            match old(self).object(id) {
                None => *final(self) == *old(self),
                Some(o) => {
                    let current = old(self).id_of(o.entry.abs_path@) == Some(id);
                    &&& final(self).slots@ == old(self).slots@.update(id as int, None)
                    &&& final(self).id_of(o.entry.abs_path@) == (if current {
                        None
                    } else {
                        old(self).id_of(o.entry.abs_path@)
                    })
                    &&& forall|p: Seq<Seq<u8>>|
                        path::valid_parts(p) && p != o.entry.abs_path@
                            ==> #[trigger] final(self).id_of(p) == old(self).id_of(p)
                    &&& collections::queued(final(self).unload) == (if current
                        && old(self).config.unload_low {
                        collections::without(collections::queued(old(self).unload), id)
                    } else {
                        collections::queued(old(self).unload)
                    })
                },
            },
    {
        if id >= self.slots.len() as u64 {
            return;
        }
        let ghost before = *self;
        let current = self.is_current(id);
        let k: usize = id as usize;
        if self.slots[k].is_none() {
            return;
        }
        match self.slots[k].take() {
            None => {},
            Some(o) => {
                assert(self.slots@ =~= before.slots@.update(k as int, None));
                let ghost parts = o.entry.abs_path@;
                if current {
                    let nothing: Vec<u8> = Vec::new();
                    assert(nothing@ =~= Seq::empty());
                    remove_pair(&mut self.by_path, o.entry.abs_path.to_bytes(), nothing);
                    if self.config.unload_low {
                        let _ = queue_remove(&mut self.unload, id);
                    }
                }
                proof {
                    assert forall|q: Seq<Seq<u8>>|
                        path::valid_parts(q) && q != parts implies #[trigger] self.id_of(q)
                        == before.id_of(q) by {
                        if path_key(q) == path_key(parts) {
                            Objects::keys_differ(q, parts);
                        }
                    }
                    assert forall|q: Seq<Seq<u8>>| path::valid_parts(q) implies (
                    #[trigger] self.id_of(q) matches Some(i) ==> self.object(i) matches Some(x)
                        && x.entry.abs_path@ == q) by {
                        if q != parts {
                            assert(self.id_of(q) == before.id_of(q));
                        } else {
                            assert(before.id_of(q) matches Some(i) ==> before.object(i) matches Some(
                                x,
                            ) && x.entry.abs_path@ == q);
                        }
                    }
                }
            },
        }
    }

    /// Forgets the numbers of all paths, before everything is read again.
    pub fn purge(&mut self)
        requires
            old(self).valid(),
        ensures
            final(self).valid(),
            final(self).slots == old(self).slots,
            final(self).unload == old(self).unload,
            final(self).config == old(self).config,
            forall|p: Seq<Seq<u8>>| #[trigger] final(self).id_of(p) is None,
    {
        self.by_path = no_pairs();
    }

    /// Drops thumbnails that nothing shows until no more than `limit` are kept,
    /// those that have waited longest first.
    pub fn unload_above_limit(&mut self, limit: usize)
        requires
            old(self).valid(),
        ensures
            final(self).valid(),
            final(self).by_path == old(self).by_path,
            final(self).config == old(self).config,
            ({
                let q = collections::queued(old(self).unload);
                let n = if q.len() > limit {
                    q.len() - limit
                } else {
                    0
                };
                &&& collections::queued(final(self).unload) == q.skip(n)
                &&& final(self).slots@.len() == old(self).slots@.len()
                &&& forall|i: int|
                    0 <= i < old(self).slots@.len() ==> #[trigger] final(self).slots@[i] == (
                    if q.take(n).contains(i as u64) && old(self).current(i as u64) {
                        dropped(old(self).slots@[i])
                    } else {
                        old(self).slots@[i]
                    })
            }),
    {
        let ghost before = *self;
        let ghost q = collections::queued(self.unload);
        let ghost mut n: int = 0;
        assert(q.skip(0) =~= q);
        assert(q.take(0) =~= Seq::empty());
        while queue_len(&self.unload) > limit
            invariant
                before == *old(self),
                before.valid(),
                self.valid(),
                self.by_path == before.by_path,
                self.config == before.config,
                q == collections::queued(before.unload),
                0 <= n <= q.len(),
                n > 0 ==> q.len() - n >= limit,
                collections::queued(self.unload) == q.skip(n),
                self.slots@.len() == before.slots@.len(),
                forall|i: int|
                    0 <= i < before.slots@.len() ==> #[trigger] self.slots@[i] == (if q.take(
                        n,
                    ).contains(i as u64) && before.current(i as u64) {
                        dropped(before.slots@[i])
                    } else {
                        before.slots@[i]
                    }),
                forall|i: int|
                    #![trigger self.slots@[i]]
                    #![trigger before.slots@[i]]
                    0 <= i < before.slots@.len() ==> {
                        &&& (self.slots@[i] is Some <==> before.slots@[i] is Some)
                        &&& (self.slots@[i] matches Some(o) ==> o.entry
                            == before.slots@[i]->0.entry && o.widgets
                            == before.slots@[i]->0.widgets)
                    },
            decreases q.len() - n,
        {
            let ghost here = self.slots@;
            match queue_pop_front(&mut self.unload) {
                Some(id) => {
                    proof {
                        assert(id == q[n]);
                        assert(q.skip(n).drop_first() =~= q.skip(n + 1));
                        assert(q.take(n + 1) =~= q.take(n).push(id));
                    }
                    let count: usize = self.slots.len();
                    let current = self.is_current(id);
                    assert(current ==> id < count);
                    proof {
                        if id < here.len() {
                            assert(here[id as int] is Some <==> before.slots@[id as int] is Some);
                            assert(here[id as int] matches Some(o) ==> o.entry
                                == before.slots@[id as int]->0.entry);
                        }
                        assert(current == before.current(id));
                    }
                    if current {
                        let k: usize = id as usize;
                        match self.slots[k].take() {
                            Some(mut o) => {
                                if o.widgets.priority() == ThumbPriority::Low {
                                    o.thumbnail = Thumb::Unloaded;
                                }
                                self.slots.set(k, Some(o));
                                assert(self.slots@ =~= here.update(k as int, Some(o)));
                            },
                            None => {},
                        }
                    }
                    proof {
                        n = n + 1;
                        assert forall|i: int| 0 <= i < before.slots@.len() implies
                            #[trigger] self.slots@[i] == (if q.take(n).contains(i as u64)
                            && before.current(i as u64) {
                            dropped(before.slots@[i])
                        } else {
                            before.slots@[i]
                        }) by {
                            assert(here[i] == (if q.take(n - 1).contains(i as u64)
                                && before.current(i as u64) {
                                dropped(before.slots@[i])
                            } else {
                                before.slots@[i]
                            }));
                            push_contains(q.take(n - 1), id, i as u64);
                        }
                        Objects::stays_valid(before, *self);
                    }
                },
                None => {},
            }
        }
        proof {
            if q.len() > limit {
                assert(q.skip(n).len() == q.len() - n);
                assert(n == q.len() - limit);
            } else {
                assert(n == 0);
            }
        }
    }

    /// Puts an entry that nothing shows in line for its thumbnail to be dropped.
    pub fn unload_thumbnail(&mut self, id: u64)
        requires
            old(self).valid(),
        ensures
            final(self).valid(),
            final(self).by_path == old(self).by_path,
            final(self).config == old(self).config,
            final(self).slots@.len() == old(self).slots@.len(),
            ({
                let low = old(self).current(id) && old(self).object(
                    id,
                )->0.widgets.spec_priority() is Low;
                let q = collections::without(collections::queued(old(self).unload), id).push(id);
                let n = if q.len() > LRU_THUMBNAIL_LIMIT {
                    q.len() - LRU_THUMBNAIL_LIMIT
                } else {
                    0
                };
                if low {
                    &&& collections::queued(final(self).unload) == q.skip(n)
                    &&& forall|i: int|
                        0 <= i < old(self).slots@.len() ==> #[trigger] final(self).slots@[i] == (
                        if q.take(n).contains(i as u64) && old(self).current(i as u64) {
                            dropped(old(self).slots@[i])
                        } else {
                            old(self).slots@[i]
                        })
                } else {
                    *final(self) == *old(self)
                }
            }),
    {
        if !self.is_current(id) {
            return;
        }
        let count: usize = self.slots.len();
        assert(id < count);
        match &self.slots[id as usize] {
            Some(o) => {
                if o.widgets.priority() != ThumbPriority::Low {
                    return;
                }
            },
            None => {
                return;
            },
        }
        let ghost before = *self;
        let _ = queue_insert(&mut self.unload, id);
        proof {
            Objects::stays_valid(before, *self);
        }
        assert forall|i: u64| #[trigger] self.current(i) == before.current(i) by {}
        self.unload_above_limit(LRU_THUMBNAIL_LIMIT);
    }

    /// Counts widgets that hold or show an entry.
    pub fn change_widgets(&mut self, id: u64, bound: i16, mapped: i16, size: ThumbSize) -> (r:
        WidgetChange)
        requires
            old(self).valid(),
            old(self).object(id) matches Some(o) && o.widgets.can_change(bound as int, mapped as int),
        ensures
            final(self).valid(),
            final(self).by_path == old(self).by_path,
            final(self).config == old(self).config,
            ({
                let o = old(self).object(id)->0;
                &&& r == o.widget_change(bound as int, mapped as int, old(self).config, size)
                &&& final(self).slots@ == old(self).slots@.update(
                    id as int,
                    Some((EntryObject { widgets: o.widgets.changed(bound as int, mapped as int), ..o })),
                )
                &&& collections::queued(final(self).unload) == (if r is ScheduleUnload || r
                    is KeepLoaded {
                    collections::without(collections::queued(old(self).unload), id)
                } else {
                    collections::queued(old(self).unload)
                })
            }),
    {
        let ghost before = *self;
        let count: usize = self.slots.len();
        assert(id < count);
        let k: usize = id as usize;
        let mut r = WidgetChange::Nothing;
        match self.slots[k].take() {
            Some(mut o) => {
                r = o.change_widgets(bound, mapped, self.config, size);
                self.slots.set(k, Some(o));
                assert(self.slots@ =~= before.slots@.update(k as int, Some(o)));
            },
            None => {},
        }
        match r {
            WidgetChange::ScheduleUnload | WidgetChange::KeepLoaded(_) => {
                let _ = queue_remove(&mut self.unload, id);
            },
            _ => {},
        }
        proof {
            Objects::stays_valid(before, *self);
        }
        r
    }

    /// The thumbnails that are to be loaded again now that their size has
    /// changed.
    pub fn change_thumb_size(&self, size: ThumbSize) -> (r: Vec<Option<(ThumbPriority, bool)>>)
        ensures
            r@.len() == self.slots@.len(),
            forall|i: int|
                0 <= i < r@.len() ==> #[trigger] r@[i] == match self.slots@[i] {
                    Some(o) if self.current(i as u64) && o.thumbnail.spec_needs_load(size) => Some(
                        (o.widgets.spec_priority(), o.updated_from_event),
                    ),
                    _ => None,
                },
    {
        let mut r: Vec<Option<(ThumbPriority, bool)>> = Vec::new();
        let mut i: usize = 0;
        while i < self.slots.len()
            invariant
                i <= self.slots.len(),
                r@.len() == i,
                forall|k: int|
                    0 <= k < i ==> #[trigger] r@[k] == match self.slots@[k] {
                        Some(o) if self.current(k as u64) && o.thumbnail.spec_needs_load(
                            size,
                        ) => Some((o.widgets.spec_priority(), o.updated_from_event)),
                        _ => None,
                    },
            decreases self.slots.len() - i,
        {
            let current = self.is_current(i as u64);
            let x = match &self.slots[i] {
                Some(o) => {
                    if current {
                        match o.needs_reload_for_size(size) {
                            Some(p) => Some((p, o.updated_from_event)),
                            None => None,
                        }
                    } else {
                        None
                    }
                },
                None => None,
            };
            r.push(x);
            i += 1;
        }
        r
    }
}

impl EntryObject {
    /// Drops all thumbnails that nothing shows, when the program is idle.
    pub fn idle_trim(all: &mut Objects)
        requires
            old(all).valid(),
        ensures
            final(all).valid(),
            final(all).by_path == old(all).by_path,
            final(all).config == old(all).config,
            final(all).slots@.len() == old(all).slots@.len(),
            !old(all).config.unload_low ==> *final(all) == *old(all),
            old(all).config.unload_low ==> {
                let q = collections::queued(old(all).unload);
                &&& collections::queued(final(all).unload).len() == 0
                &&& forall|i: int|
                    0 <= i < old(all).slots@.len() ==> #[trigger] final(all).slots@[i] == (
                    if q.contains(i as u64) && old(all).current(i as u64) {
                        dropped(old(all).slots@[i])
                    } else {
                        old(all).slots@[i]
                    })
            },
    {
        if !all.config.unload_low {
            return;
        }
        let ghost q = collections::queued(all.unload);
        all.unload_above_limit(0);
        assert(q.take(q.len() as int) =~= q);
    }
}

proof fn push_contains(s: Seq<u64>, x: u64, y: u64)
    ensures
        s.push(x).contains(y) <==> s.contains(y) || x == y,
{
    if s.contains(y) {
        let j = s.index_of(y);
        assert(s.push(x)[j] == y);
    }
    if x == y {
        assert(s.push(x)[s.len() as int] == y);
    }
}

/// No more than the limit of thumbnails wait to be dropped.
pub proof fn unload_queue_is_bounded(q: Seq<u64>, id: u64)
    ensures
        ({
            let all = collections::without(q, id).push(id);
            let n = if all.len() > LRU_THUMBNAIL_LIMIT {
                all.len() - LRU_THUMBNAIL_LIMIT
            } else {
                0
            };
            all.skip(n).len() <= LRU_THUMBNAIL_LIMIT
        }),
{
}

/// A file that is as it was stays as it is. One that has changed keeps its widgets and
/// the picture that it shows, and its thumbnail is loaded again as urgently as it is
/// shown. Nothing is loaded for directories.
pub proof fn changed_files_are_loaded_again(all: Objects, e: Arc<Entry>, from_event: bool, i: u64)
    requires
        all.id_of(e.abs_path@) == Some(i),
        all.object(i) is Some,
    ensures
        ({
            let o = all.object(i)->0;
            let new = all.object_with(e, from_event);
            let (changed, queue) = all.registers(e, from_event);
            &&& new.widgets == o.widgets
            &&& changed <==> !o.entry.same_as(&e)
            &&& !changed ==> new == o && queue is None
            &&& changed ==> new.entry == e
            &&& changed && all.config.enabled && e.kind is File ==> queue == Some(
                (o.widgets.spec_priority(), true),
            ) && (o.thumbnail.spec_renderable(true) matches thumbs::Thumbnail::Texture(t)
                ==> new.thumbnail.spec_renderable(true) == thumbs::Thumbnail::Texture(t))
            &&& !(e.kind is File) || !all.config.enabled ==> queue is None
        }),
{
}

/// A new file has no widgets yet, and its thumbnail is loaded unless there are none.
pub proof fn new_files_are_loaded(all: Objects, e: Arc<Entry>, from_event: bool)
    requires
        all.id_of(e.abs_path@) is None,
    ensures
        ({
            let new = all.object_with(e, from_event);
            let (changed, queue) = all.registers(e, from_event);
            &&& !changed
            &&& new.entry == e
            &&& new.widgets.bound == 0 && new.widgets.mapped == 0
            &&& queue is Some <==> all.config.enabled && e.kind is File
            &&& queue matches Some((_, event)) ==> new.thumbnail is Unloaded && event == from_event
            &&& queue is None ==> new.thumbnail is Never
        }),
{
}

/// A thumbnail that something shows is never dropped.
pub proof fn shown_is_kept(o: EntryObject)
    requires
        !(o.widgets.spec_priority() is Low),
    ensures
        dropped(Some(o)) == Some(o),
{
}

/// A piece of a directory's contents, with every entry registered.
pub struct EntryObjectSnapshot {
    pub id: SnapshotId,
    pub entries: Vec<u64>,
    /// Whether an entry changed that was in use already, in which case searches
    /// have to be sorted again.
    pub had_search_updates: bool,
}

impl EntryObjectSnapshot {
    /// Registers what was read of a directory. Also returns the thumbnails that
    /// are to be loaded.
    pub fn from(value: DirSnapshot, all: &mut Objects) -> (r: (
        EntryObjectSnapshot,
        Vec<Option<(ThumbPriority, bool)>>,
    ))
        requires
            old(all).valid(),
            old(all).slots@.len() + value.entries@.len() < usize::MAX,
            all_sound(value.entries@),
        ensures
            final(all).valid(),
            final(all).config == old(all).config,
            old(all).slots@.len() <= final(all).slots@.len() <= old(all).slots@.len()
                + value.entries@.len(),
            forall|p: Seq<Seq<u8>>|
                path::valid_parts(p) && !lists(value.entries@, p) ==> #[trigger] final(all).entry_of(
                    p,
                ) == old(all).entry_of(p),
            apart(value.entries@) ==> forall|i: int|
                0 <= i < value.entries@.len() ==> final(all).entry_of(
                    (#[trigger] value.entries@[i]).abs_path@,
                ) == old(all).entry_with(value.entries@[i]),
            r.0.id == value.id,
            r.0.entries@.len() == value.entries@.len(),
            r.1@.len() == value.entries@.len(),
            forall|i: int|
                0 <= i < value.entries@.len() ==> final(all).id_of(
                    (#[trigger] value.entries@[i]).abs_path@,
                ) == Some(r.0.entries@[i]),
            apart(value.entries@) ==> forall|i: int|
                0 <= i < value.entries@.len() ==> #[trigger] r.1@[i] == old(all).registers(
                    value.entries@[i],
                    false,
                ).1,
            apart(value.entries@) ==> r.0.had_search_updates == exists|i: int|
                0 <= i < value.entries@.len() && old(all).registers(
                    #[trigger] value.entries@[i],
                    false,
                ).0,
            old(all).registered_all(value.entries@, *final(all)),
    {
        let mut ids: Vec<u64> = Vec::new();
        let mut queue: Vec<Option<(ThumbPriority, bool)>> = Vec::new();
        let mut had_search_updates = false;
        let mut i: usize = 0;
        let ghost before = *all;
        let ghost entries = value.entries@;
        while i < value.entries.len()
            invariant
                before == *old(all),
                before.registered_all(entries.take(i as int), *all),
                before.valid(),
                entries == value.entries@,
                all.valid(),
                all.config == before.config,
                i <= entries.len(),
                ids@.len() == i,
                queue@.len() == i,
                before.slots@.len() <= all.slots@.len() <= before.slots@.len() + i,
                before.slots@.len() + entries.len() < usize::MAX,
                all_sound(entries),
                forall|k: int|
                    0 <= k < i ==> all.id_of((#[trigger] entries[k]).abs_path@) == Some(ids@[k]),
                forall|p: Seq<Seq<u8>>|
                    path::valid_parts(p) && !lists(entries, p) ==> #[trigger] all.entry_of(p)
                        == before.entry_of(p),
                apart(entries) ==> forall|k: int|
                    0 <= k < i ==> all.entry_of((#[trigger] entries[k]).abs_path@)
                        == before.entry_with(entries[k]),
                apart(entries) ==> forall|k: int|
                    i <= k < entries.len() ==> all.entry_of((#[trigger] entries[k]).abs_path@)
                        == before.entry_of(entries[k].abs_path@),
                apart(entries) ==> forall|k: int|
                    0 <= k < i ==> #[trigger] queue@[k] == before.registers(entries[k], false).1,
                apart(entries) ==> forall|k: int|
                    i <= k < entries.len() ==> all.registers(#[trigger] entries[k], false)
                        == before.registers(entries[k], false),
                apart(entries) ==> had_search_updates == exists|k: int|
                    0 <= k < i && before.registers(#[trigger] entries[k], false).0,
            decreases entries.len() - i,
        {
            let ghost here = *all;
            let e = value.entries[i].clone();
            assert(e == entries[i as int] && e.ready() && e.abs_path.valid());
            let reg = all.create_or_update(e, false);
            proof {
                assert(entries.take(i + 1).drop_last() =~= entries.take(i as int));
                assert(entries.take(i + 1).last() == e);
                assert(before.registered_all(entries.take(i + 1).drop_last(), here));
                assert(here.registered(entries.take(i + 1).last(), false, *all));
                assert(before.registered_all(entries.take(i + 1), *all));
                assert(lists(entries, e.abs_path@));
                assert forall|k: int|
                    apart(entries) && 0 <= k < entries.len() && k != i implies all.entry_of(
                    (#[trigger] entries[k]).abs_path@,
                ) == here.entry_of(entries[k].abs_path@) by {
                    assert(entries[k].abs_path.valid());
                    if k < i {
                        assert(entries[k].abs_path@ != entries[i as int].abs_path@);
                    } else {
                        assert(entries[i as int].abs_path@ != entries[k].abs_path@);
                    }
                }
                assert forall|k: int| 0 <= k < i implies all.id_of(
                    (#[trigger] entries[k]).abs_path@,
                ) == Some(ids@[k]) by {
                    assert(here.id_of(entries[k].abs_path@) == Some(ids@[k]));
                    assert(entries[k].abs_path.valid());
                }
                assert forall|k: int| apart(entries) && i < k < entries.len() implies all.registers(
                    #[trigger] entries[k],
                    false,
                ) == before.registers(entries[k], false) by {
                    assert(here.registers(entries[k], false) == before.registers(entries[k], false));
                    assert(entries[k].abs_path@ != entries[i as int].abs_path@);
                    assert(entries[k].abs_path.valid());
                    assert(all.id_of(entries[k].abs_path@) == here.id_of(entries[k].abs_path@));
                    if let Some(x) = here.id_of(entries[k].abs_path@) {
                        assert(here.object(x) matches Some(o) && o.entry.abs_path@
                            == entries[k].abs_path@);
                        if let Some(y) = here.id_of(e.abs_path@) {
                            assert(here.object(y) matches Some(o) && o.entry.abs_path@
                                == e.abs_path@);
                            assert(x != y);
                        }
                        assert(all.object(x) == here.object(x));
                    }
                }
            }
            if reg.old.is_some() {
                assert(apart(entries) ==> before.registers(entries[i as int], false).0);
                had_search_updates = true;
            }
            queue.push(reg.queue);
            ids.push(reg.id);
            i += 1;
        }
        assert(entries.take(i as int) =~= entries);
        (EntryObjectSnapshot { id: value.id, entries: ids, had_search_updates }, queue)
    }
}

/// Whether the entries of a directory are known for what they are.
pub open spec fn all_sound(entries: Seq<Arc<Entry>>) -> bool {
    forall|i: int|
        0 <= i < entries.len() ==> (#[trigger] entries[i]).ready() && entries[i].abs_path.valid()
}

/// Whether one of the entries has the given path.
pub open spec fn lists(entries: Seq<Arc<Entry>>, p: Seq<Seq<u8>>) -> bool {
    exists|i: int| 0 <= i < entries.len() && (#[trigger] entries[i]).abs_path@ == p
}

/// Whether no two entries have the same path.
pub open spec fn apart(entries: Seq<Arc<Entry>>) -> bool {
    forall|i: int, j: int|
        0 <= i < j < entries.len() ==> (#[trigger] entries[i]).abs_path@ != (
        #[trigger] entries[j]).abs_path@
}

/// A thumbnail that nothing shows is dropped, and only its picture is.
pub proof fn unseen_is_dropped(o: EntryObject)
    requires
        o.widgets.bound == 0 && o.widgets.mapped == 0,
    ensures
        dropped(Some(o)) matches Some(x) && x.thumbnail is Unloaded && x.entry == o.entry
            && x.widgets == o.widgets,
        dropped(None) is None,
{
}

/// Once a path stands for something that has no thumbnail, or there are none at all, the
/// old one is gone. What shows the path goes on showing it.
pub proof fn only_files_have_thumbnails(all: Objects, e: Arc<Entry>, from_event: bool)
    requires
        all.id_of(e.abs_path@) is Some,
        !all.object(all.id_of(e.abs_path@)->0)->0.entry.same_as(&e),
    ensures
        ({
            let new = all.object_with(e, from_event);
            &&& !(e.kind is File) ==> new.thumbnail is Never
            &&& !all.config.enabled ==> new.thumbnail is Never
            &&& new.widgets == all.object(all.id_of(e.abs_path@)->0)->0.widgets
            &&& new.entry == e
        }),
{
}

} // verus!
