//! Directories that are being watched, and how far they have been read.
use std::sync::Arc;

use vstd::prelude::*;

use crate::path::FilePath;
use crate::update::Update;

verus! {

/// A directory that is being watched. Each watch has its own number.
pub struct WatchedDir {
    pub path: Arc<FilePath>,
    pub cancel: u64,
}

impl WatchedDir {
    pub fn start(path: Arc<FilePath>, cancel: u64) -> (r: WatchedDir)
        ensures
            r == (WatchedDir { path, cancel }),
    {
        WatchedDir { path, cancel }
    }
}

/// How far a directory has been read.
pub enum DirState {
    Unloaded,
    /// The watch has been asked for, but has not started.
    Initializating { watch: WatchedDir, start: u64 },
    /// The contents are coming in. Updates wait until they are complete.
    Loading { watch: WatchedDir, pending_updates: Vec<Update>, start: u64 },
    Loaded(WatchedDir),
}

impl DirState {
    pub open spec fn spec_watched(self) -> Option<WatchedDir> {
        match self {
            DirState::Unloaded => None,
            DirState::Initializating { watch, .. } => Some(watch),
            DirState::Loading { watch, .. } => Some(watch),
            DirState::Loaded(watch) => Some(watch),
        }
    }

    /// Whether the directory is being watched.
    pub fn watched(&self) -> (r: bool)
        ensures
            r == self.spec_watched() is Some,
    {
        match self {
            DirState::Unloaded => false,
            _ => true,
        }
    }

    pub fn unloaded(&self) -> (r: bool)
        ensures
            r == self is Unloaded,
    {
        match self {
            DirState::Unloaded => true,
            _ => false,
        }
    }

    pub fn loading(&self) -> (r: bool)
        ensures
            r == (self is Initializating || self is Loading),
    {
        match self {
            DirState::Unloaded | DirState::Loaded(_) => false,
            DirState::Initializating { .. } | DirState::Loading { .. } => true,
        }
    }

    pub fn loaded(&self) -> (r: bool)
        ensures
            r == self is Loaded,
    {
        match self {
            DirState::Loaded(_) => true,
            _ => false,
        }
    }
}

/// A directory that tabs are open in.
pub struct FlatDir {
    pub path: Arc<FilePath>,
    pub state: DirState,
}

/// What becomes of an update.
pub enum Delayed {
    /// The directory will be read anyway.
    Dropped,
    /// It waits until the directory has been read.
    Waiting,
    Now(Update),
}

impl FlatDir {
    pub fn new(path: Arc<FilePath>) -> (r: FlatDir)
        ensures
            r == (FlatDir { path, state: DirState::Unloaded }),
    {
        FlatDir { path, state: DirState::Unloaded }
    }

    /// Whether a watch is the one of this directory.
    pub fn matches(&self, id: u64) -> (r: bool)
        ensures
            r == (self.state.spec_watched() matches Some(w) && w.cancel == id),
    {
        match &self.state {
            DirState::Unloaded => false,
            DirState::Initializating { watch, .. } => watch.cancel == id,
            DirState::Loading { watch, .. } => watch.cancel == id,
            DirState::Loaded(watch) => watch.cancel == id,
        }
    }

    /// Whether an update is for something in this directory.
    pub open spec fn concerns(&self, up: &Update) -> bool {
        self.state.spec_watched() is Some && up.spec_path().len() > 0
            && up.spec_path().drop_last() == self.path@
    }

    pub fn matches_flat_update(&self, up: &Update) -> (r: bool)
        ensures
            r == self.concerns(up),
    {
        self.state.watched() && up.path().is_child_of(&self.path)
    }

    /// Decides what becomes of an update.
    pub fn maybe_drop_or_delay(&mut self, up: Update) -> (r: Delayed)
        ensures
            final(self).path == old(self).path,
            match old(self).state {
                DirState::Unloaded | DirState::Initializating { .. } => r is Dropped
                    && final(self).state == old(self).state,
                DirState::Loading { watch, pending_updates, start } => {
                    &&& r is Waiting
                    &&& final(self).state matches DirState::Loading {
                        watch: w,
                        pending_updates: p,
                        start: s,
                    }
                    &&& w == watch
                    &&& s == start
                    &&& p@ == pending_updates@.push(up)
                },
                DirState::Loaded(_) => r == Delayed::Now(up) && final(self).state
                    == old(self).state,
            },
    {
        match &mut self.state {
            DirState::Unloaded => Delayed::Dropped,
            DirState::Initializating { .. } => Delayed::Dropped,
            DirState::Loading { pending_updates, .. } => {
                pending_updates.push(up);
                Delayed::Waiting
            },
            DirState::Loaded(_) => Delayed::Now(up),
        }
    }

    /// Starts to read the directory, unless that has been done. Returns whether
    /// it was.
    pub fn start_load(&mut self, id: u64, now: u64) -> (r: bool)
        ensures
            final(self).path == old(self).path,
            r == old(self).state is Unloaded,
            r ==> final(self).state == (DirState::Initializating {
                watch: WatchedDir { path: old(self).path, cancel: id },
                start: now,
            }),
            !r ==> final(self).state == old(self).state,
    {
        if !self.state.unloaded() {
            return false;
        }
        let watch = WatchedDir::start(self.path.clone(), id);
        self.state = DirState::Initializating { watch, start: now };
        true
    }

    /// Notes that the watch has started, so that no update is missed from now on.
    pub fn mark_watch_started(&mut self)
        requires
            old(self).state is Initializating,
        ensures
            final(self).path == old(self).path,
            ({
                let s = old(self).state;
                final(self).state matches DirState::Loading { watch, pending_updates, start }
                    && watch == s->Initializating_watch && start == s->Initializating_start
                    && pending_updates@.len() == 0
            }),
    {
        let mut taken = DirState::Unloaded;
        std::mem::swap(&mut taken, &mut self.state);
        match taken {
            DirState::Initializating { watch, start } => {
                self.state = DirState::Loading { watch, pending_updates: Vec::new(), start };
            },
            _ => {},
        }
    }

    /// Stops watching. Returns the watch that ends.
    pub fn unload(&mut self) -> (r: Option<WatchedDir>)
        ensures
            final(self).path == old(self).path,
            final(self).state is Unloaded,
            r == old(self).state.spec_watched(),
    {
        let mut taken = DirState::Unloaded;
        std::mem::swap(&mut taken, &mut self.state);
        match taken {
            DirState::Unloaded => None,
            DirState::Initializating { watch, .. } => Some(watch),
            DirState::Loading { watch, .. } => Some(watch),
            DirState::Loaded(watch) => Some(watch),
        }
    }

    /// Notes that the directory has been read. Returns the updates that waited.
    pub fn take_loaded(&mut self) -> (r: (Vec<Update>, u64))
        requires
            old(self).state is Loading,
        ensures
            final(self).path == old(self).path,
            final(self).state == DirState::Loaded(old(self).state->Loading_watch),
            r.0 == old(self).state->pending_updates,
            r.1 == old(self).state->Loading_start,
    {
        let mut taken = DirState::Unloaded;
        std::mem::swap(&mut taken, &mut self.state);
        match taken {
            DirState::Loading { watch, pending_updates, start } => {
                self.state = DirState::Loaded(watch);
                (pending_updates, start)
            },
            _ => (Vec::new(), 0),
        }
    }

    /// The watch of a directory that has been read, to be kept for later.
    pub fn try_into_cached(self) -> (r: Option<WatchedDir>)
        ensures
            r == match self.state {
                DirState::Loaded(watch) => Some(watch),
                _ => None,
            },
    {
        match self.state {
            DirState::Loaded(watch) => Some(watch),
            _ => None,
        }
    }
}

/// A directory that is watched is concerned by what is directly inside it, and by
/// nothing else.
pub proof fn concerned_by_its_own(d: FlatDir, up: Update, name: Seq<u8>)
    ensures
        up.spec_path() == d.path@.push(name) ==> (d.concerns(&up) <==> !(d.state is Unloaded)),
        d.concerns(&up) ==> exists|n: Seq<u8>| up.spec_path() == #[trigger] d.path@.push(n),
{
    assert(d.path@.push(name).drop_last() =~= d.path@);
    if d.concerns(&up) {
        let p = up.spec_path();
        assert(p =~= d.path@.push(p.last()));
    }
}

} // verus!
