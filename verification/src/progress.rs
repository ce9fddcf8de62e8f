//! How far a file operation has come.
use std::sync::Arc;

use ahash::AHashMap;
use vstd::prelude::*;

use crate::collections::{self, no_pairs};
use crate::config::{DirectoryCollision, FileCollision};
use crate::path::{self, FilePath};

verus! {

/// What one step of an operation did. It should be possible to undo an
/// operation by reversing each of these in reverse order.
pub enum Outcome {
    /// Overwrites too.
    Move { source: Arc<FilePath>, dest: Arc<FilePath> },
    /// Where nothing was overwritten.
    Copy(Arc<FilePath>),
    CopyOverwrite(Arc<FilePath>),
    NewFile(Arc<FilePath>),
    /// The directory and the handle of the attributes that it had.
    RemoveSourceDir(Arc<FilePath>, u64),
    CreateDestDir(Arc<FilePath>),
    MergeDestDir(Arc<FilePath>),
    Skip,
    Delete,
    DeleteDir,
    Trash,
}

impl Outcome {
    /// Whether there is something to undo.
    pub open spec fn spec_undoable(self) -> bool {
        match self {
            Outcome::Move { .. } | Outcome::Copy(_) | Outcome::CopyOverwrite(_) | Outcome::NewFile(
                _,
            ) | Outcome::RemoveSourceDir(..) | Outcome::CreateDestDir(_) => true,
            _ => false,
        }
    }

    pub fn undoable(&self) -> (r: bool)
        ensures
            r == self.spec_undoable(),
    {
        match self {
            Outcome::Move { .. }
            | Outcome::Copy(_)
            | Outcome::CopyOverwrite(_)
            | Outcome::NewFile(_)
            | Outcome::RemoveSourceDir(..)
            | Outcome::CreateDestDir(_) => true,
            Outcome::MergeDestDir(_)
            | Outcome::Skip
            | Outcome::Delete
            | Outcome::DeleteDir
            | Outcome::Trash => false,
        }
    }

    /// Whether it counts as a finished item.
    pub open spec fn finishes(self) -> bool {
        self !is Skip && self !is RemoveSourceDir
    }

    /// Whether it counts as an item at all.
    pub open spec fn counts(self) -> bool {
        self !is RemoveSourceDir
    }
}

/// The number of finished items in a log.
pub open spec fn finished_in(log: Seq<Outcome>) -> nat
    decreases log.len(),
{
    if log.len() == 0 {
        0
    } else {
        finished_in(log.drop_last()) + (if log.last().finishes() {
            1nat
        } else {
            0
        })
    }
}

/// The number of items in a log.
pub open spec fn total_in(log: Seq<Outcome>) -> nat
    decreases log.len(),
{
    if log.len() == 0 {
        0
    } else {
        total_in(log.drop_last()) + (if log.last().counts() {
            1nat
        } else {
            0
        })
    }
}

/// A directory that is being copied or moved.
pub struct DestinationDirectory {
    pub source: Arc<FilePath>,
    pub dest: Arc<FilePath>,
    /// The handle of the attributes that the source had.
    pub original_info: u64,
    pub already_existed: bool,
}

#[derive(Clone, Copy, Debug, PartialEq, Eq, Structural)]
pub enum ConflictKind {
    DirDir,
    FileFile,
}

impl ConflictKind {
    pub open spec fn spec_dst_str(self) -> Seq<char> {
        match self {
            ConflictKind::DirDir => "directory"@,
            ConflictKind::FileFile => "file"@,
        }
    }

    pub fn dst_str(self) -> (r: &'static str)
        ensures
            r@ == self.spec_dst_str(),
    {
        match self {
            ConflictKind::DirDir => "directory",
            ConflictKind::FileFile => "file",
        }
    }
}

/// A source whose destination exists.
pub struct Conflict {
    pub kind: ConflictKind,
    pub src: Arc<FilePath>,
    pub dst: Arc<FilePath>,
}

/// What to copy or move next.
pub enum NextCopyMove {
    FinishedDir(DestinationDirectory),
    Files(Arc<FilePath>, Arc<FilePath>),
}

/// What to remove next.
pub enum NextRemove {
    FinishedDir(Arc<FilePath>),
    File(Arc<FilePath>),
}

/// The answer to a conflict of files. The flag says whether it holds for all
/// the files that are left.
#[derive(Clone, Copy, Debug, PartialEq, Eq, Structural)]
pub enum FileChoice {
    Skip(bool),
    Overwrite(bool),
    AutoRename(bool),
    Newer(bool),
}

impl FileChoice {
    pub open spec fn spec_collision(self) -> (bool, FileCollision) {
        match self {
            FileChoice::Skip(b) => (b, FileCollision::Skip),
            FileChoice::Overwrite(b) => (b, FileCollision::Overwrite),
            FileChoice::AutoRename(b) => (b, FileCollision::Rename),
            FileChoice::Newer(b) => (b, FileCollision::Newer),
        }
    }

    pub fn collision(self) -> (r: (bool, FileCollision))
        ensures
            r == self.spec_collision(),
    {
        match self {
            FileChoice::Skip(b) => (b, FileCollision::Skip),
            FileChoice::Overwrite(b) => (b, FileCollision::Overwrite),
            FileChoice::AutoRename(b) => (b, FileCollision::Rename),
            FileChoice::Newer(b) => (b, FileCollision::Newer),
        }
    }
}

/// The answer to a conflict of directories. The flag says whether it holds for
/// all the directories that are left.
#[derive(Clone, Copy, Debug, PartialEq, Eq, Structural)]
pub enum DirChoice {
    Skip(bool),
    Merge(bool),
}

impl DirChoice {
    pub open spec fn spec_collision(self) -> (bool, DirectoryCollision) {
        match self {
            DirChoice::Skip(b) => (b, DirectoryCollision::Skip),
            DirChoice::Merge(b) => (b, DirectoryCollision::Merge),
        }
    }
}

/// How far an operation has come, as a mathematical value.
#[verifier::ext_equal]
pub struct ProgressView {
    pub dirs: Seq<DestinationDirectory>,
    pub removals: Seq<Arc<FilePath>>,
    pub sources: Seq<Arc<FilePath>>,
    pub log: Seq<Outcome>,
    pub finished: nat,
    pub total: nat,
    pub conflict: Option<Conflict>,
    pub directory_collisions: DirectoryCollision,
    pub file_collisions: FileCollision,
    pub directory_override: Option<DirectoryCollision>,
    pub file_override: Option<FileCollision>,
    pub known: Map<(Seq<u8>, Seq<u8>), u64>,
}

impl ProgressView {
    /// That of an operation which has not done anything yet.
    pub open spec fn fresh(
        self,
        sources: Seq<Arc<FilePath>>,
        directory_collisions: DirectoryCollision,
        file_collisions: FileCollision,
    ) -> bool {
        &&& self.sources == sources
        &&& self.dirs.len() == 0
        &&& self.removals.len() == 0
        &&& self.log.len() == 0
        &&& self.conflict is None
        &&& self.directory_collisions == directory_collisions
        &&& self.file_collisions == file_collisions
        &&& self.directory_override is None
        &&& self.file_override is None
        &&& self.known == Map::<(Seq<u8>, Seq<u8>), u64>::empty()
        &&& self.tallied()
    }

    /// With nothing left of what is only needed while the operation goes on.
    pub open spec fn closed(self) -> ProgressView {
        ProgressView { known: Map::empty(), ..self }
    }

    /// With one more outcome.
    pub open spec fn pushed(self, o: Outcome) -> ProgressView {
        ProgressView {
            log: self.log.push(o),
            finished: self.finished + (if o.finishes() {
                1nat
            } else {
                0
            }),
            total: self.total + (if o.counts() {
                1nat
            } else {
                0
            }),
            ..self
        }
    }

    /// How the next colliding directory is handled.
    pub open spec fn dir_strat(self) -> DirectoryCollision {
        match self.directory_override {
            Some(c) => c,
            None => self.directory_collisions,
        }
    }

    /// How the next colliding file is handled.
    pub open spec fn file_strat(self) -> FileCollision {
        match self.file_override {
            Some(c) => c,
            None => self.file_collisions,
        }
    }

    /// Whether the counters agree with the log.
    pub open spec fn tallied(self) -> bool {
        self.finished == finished_in(self.log) && self.total == total_in(self.log)
    }

    /// Whether the operation now reads the directory that it is in.
    pub open spec fn reads_dir(self) -> bool {
        self.conflict is None && self.dirs.len() > 0
    }
}

pub struct Progress {
    /// The directories that are being copied or moved, the innermost one last.
    pub dirs: Vec<DestinationDirectory>,
    /// The directories that are being deleted, the innermost one last.
    pub removals: Vec<Arc<FilePath>>,
    /// The sources that are left, the next one last.
    pub source_files: Vec<Arc<FilePath>>,
    pub log: Vec<Outcome>,
    pub finished: usize,
    pub total: usize,
    pub conflict: Option<Conflict>,
    pub directory_collisions: DirectoryCollision,
    pub file_collisions: FileCollision,
    /// Set when an answer is only for the current conflict.
    pub directory_override_next: Option<DirectoryCollision>,
    pub file_override_next: Option<FileCollision>,
    /// The last number that was used for each colliding name.
    pub collision_cache: AHashMap<(Vec<u8>, Vec<u8>), u64>,
}

impl View for Progress {
    type V = ProgressView;

    open spec fn view(&self) -> ProgressView {
        ProgressView {
            dirs: self.dirs@,
            removals: self.removals@,
            sources: self.source_files@.reverse(),
            log: self.log@,
            finished: self.finished as nat,
            total: self.total as nat,
            conflict: self.conflict,
            directory_collisions: self.directory_collisions,
            file_collisions: self.file_collisions,
            directory_override: self.directory_override_next,
            file_override: self.file_override_next,
            known: collections::pairs(self.collision_cache),
        }
    }
}

/// A source that has a name, and so a place in the destination.
pub open spec fn named(p: Arc<FilePath>) -> bool {
    p@.len() > 0 && p@.last() != seq![path::DOT, path::DOT]
}

/// The number of sources before the first one that has a name.
pub open spec fn nameless_prefix(sources: Seq<Arc<FilePath>>) -> nat
    decreases sources.len(),
{
    if sources.len() == 0 || named(sources[0]) {
        0
    } else {
        1 + nameless_prefix(sources.skip(1))
    }
}

/// The files to copy or move next, when no conflict is pending and no directory
/// is being read.
pub open spec fn next_source(v: ProgressView, dest_root: Seq<Seq<u8>>) -> Option<
    (Seq<Seq<u8>>, Seq<Seq<u8>>),
> {
    let k = nameless_prefix(v.sources);
    if k < v.sources.len() {
        Some((v.sources[k as int]@, dest_root.push(v.sources[k as int]@.last())))
    } else {
        None
    }
}

proof fn nameless_prefix_bounds(sources: Seq<Arc<FilePath>>)
    ensures
        nameless_prefix(sources) <= sources.len(),
    decreases sources.len(),
{
    if sources.len() > 0 && !named(sources[0]) {
        nameless_prefix_bounds(sources.skip(1));
    }
}

impl Progress {
    /// The progress of an operation that has not started.
    pub fn new(
        source_files: &Vec<Arc<FilePath>>,
        directory_collisions: DirectoryCollision,
        file_collisions: FileCollision,
    ) -> (r: Progress)
        ensures
            r@.fresh(source_files@, directory_collisions, file_collisions),
    {
        let mut sources: Vec<Arc<FilePath>> = Vec::new();
        let mut i: usize = source_files.len();
        while i > 0
            invariant
                i <= source_files.len(),
                sources@ =~= source_files@.skip(i as int).reverse(),
            decreases i,
        {
            i -= 1;
            sources.push(source_files[i].clone());
        }
        assert(sources@.reverse() =~= source_files@);
        let r = Progress {
            dirs: Vec::new(),
            removals: Vec::new(),
            source_files: sources,
            log: Vec::new(),
            finished: 0,
            total: 0,
            conflict: None,
            directory_collisions,
            file_collisions,
            directory_override_next: None,
            file_override_next: None,
            collision_cache: no_pairs(),
        };
        assert(r@.known =~= Map::empty());
        r
    }

    /// Forgets the names that collided, once the operation is over.
    pub fn close(&mut self)
        ensures
            final(self)@ == old(self)@.closed(),
    {
        self.collision_cache = no_pairs();
        assert(self@.known =~= Map::empty());
    }

    /// Takes the next source.
    pub fn pop_source(&mut self) -> (r: Option<Arc<FilePath>>)
        ensures
            match r {
                Some(p) => old(self)@.sources.len() > 0 && p == old(self)@.sources[0]
                    && final(self)@ == (ProgressView {
                    sources: old(self)@.sources.skip(1),
                    ..old(self)@
                }),
                None => old(self)@.sources.len() == 0 && final(self)@ == old(self)@,
            },
    {
        let ghost before = self.source_files@;
        let r = self.source_files.pop();
        proof {
            if before.len() > 0 {
                assert(self.source_files@.reverse() =~= before.reverse().skip(1));
            }
        }
        r
    }

    pub fn wants_dir_entry(&self) -> (r: bool)
        ensures
            r == self@.reads_dir(),
    {
        self.conflict.is_none() && self.dirs.len() > 0
    }

    /// What to copy or move next. A conflict that was answered comes first, then
    /// what is in the directory that is being read, then the next source.
    /// `entry` is the next name in that directory, or none if it has been read
    /// to its end; it plays no part unless `wants_dir_entry` says so.
    pub fn next_copymove_pair(&mut self, dest_root: &FilePath, entry: Option<Vec<u8>>) -> (r:
        Option<NextCopyMove>)
        ensures
            ({
                let before = old(self)@;
                let after = final(self)@;
                match before.conflict {
                    Some(c) => r == Some(NextCopyMove::Files(c.src, c.dst)) && after == (
                    ProgressView { conflict: None, ..before }),
                    None => if before.dirs.len() > 0 {
                        let dir = before.dirs.last();
                        match entry {
                            Some(name) => (r matches Some(NextCopyMove::Files(src, dst)) && src@
                                == dir.source@.push(name@) && dst@ == dir.dest@.push(name@))
                                && after == before,
                            None => r == Some(NextCopyMove::FinishedDir(dir)) && after == (
                            ProgressView { dirs: before.dirs.drop_last(), ..before }),
                        }
                    } else {
                        let k = nameless_prefix(before.sources) as int;
                        match next_source(before, dest_root@) {
                            Some((s, d)) => (r matches Some(NextCopyMove::Files(src, dst)) && src@
                                == s && dst@ == d) && after == (ProgressView {
                                sources: before.sources.skip(k + 1),
                                ..before
                            }),
                            None => r is None && after == (ProgressView {
                                sources: Seq::empty(),
                                ..before
                            }),
                        }
                    },
                }
            }),
    {
        if let Some(c) = self.conflict.take() {
            return Some(NextCopyMove::Files(c.src, c.dst));
        }
        let depth: usize = self.dirs.len();
        if depth > 0 {
            return match entry {
                Some(name) => {
                    let dir = &self.dirs[depth - 1];
                    Some(
                        NextCopyMove::Files(
                            Arc::new(dir.source.join_name(&name)),
                            Arc::new(dir.dest.join_name(&name)),
                        ),
                    )
                },
                None => match self.dirs.pop() {
                    Some(dir) => Some(NextCopyMove::FinishedDir(dir)),
                    None => None,
                },
            };
        }
        let ghost before = self@;
        proof {
            nameless_prefix_bounds(before.sources);
            assert(before.sources.skip(0) =~= before.sources);
        }
        let ghost mut k: int = 0;
        loop
            invariant
                before == old(self)@,
                0 <= k <= before.sources.len(),
                before.conflict is None,
                before.dirs.len() == 0,
                self@ == (ProgressView { sources: before.sources.skip(k), ..before }),
                nameless_prefix(before.sources) == k + nameless_prefix(before.sources.skip(k)),
            decreases before.sources.len() - k,
        {
            match self.pop_source() {
                Some(src) => {
                    proof {
                        assert(src == before.sources[k]);
                        assert(before.sources.skip(k).skip(1) =~= before.sources.skip(k + 1));
                    }
                    match src.file_name() {
                        Some(name) => {
                            let dst = Arc::new(dest_root.join_name(&name));
                            return Some(NextCopyMove::Files(src, dst));
                        },
                        None => {},
                    }
                    proof {
                        k = k + 1;
                    }
                },
                None => {
                    assert(before.sources.skip(k) =~= Seq::empty());
                    return None;
                },
            }
        }
    }

    /// What to remove next: what is in the directory that is being deleted, the
    /// directory itself once it has been read to its end, or the next source.
    pub fn next_remove(&mut self, entry: Option<Vec<u8>>) -> (r: Option<NextRemove>)
        ensures
            ({
                let before = old(self)@;
                let after = final(self)@;
                if before.removals.len() > 0 {
                    let dir = before.removals.last();
                    match entry {
                        Some(name) => (r matches Some(NextRemove::File(p)) && p@ == dir@.push(
                            name@,
                        )) && after == before,
                        None => r == Some(NextRemove::FinishedDir(dir)) && after == (ProgressView {
                            removals: before.removals.drop_last(),
                            ..before
                        }),
                    }
                } else if before.sources.len() > 0 {
                    r == Some(NextRemove::File(before.sources[0])) && after == (ProgressView {
                        sources: before.sources.skip(1),
                        ..before
                    })
                } else {
                    r is None && after == before
                }
            }),
    {
        let depth: usize = self.removals.len();
        if depth > 0 {
            return match entry {
                Some(name) => {
                    Some(NextRemove::File(Arc::new(self.removals[depth - 1].join_name(&name))))
                },
                None => match self.removals.pop() {
                    Some(dir) => Some(NextRemove::FinishedDir(dir)),
                    None => None,
                },
            };
        }
        match self.pop_source() {
            Some(p) => Some(NextRemove::File(p)),
            None => None,
        }
    }

    /// Enters a directory that is being copied or moved.
    pub fn push_dest_dir(&mut self, dir: DestinationDirectory)
        ensures
            final(self)@ == (ProgressView { dirs: old(self)@.dirs.push(dir), ..old(self)@ }),
    {
        self.dirs.push(dir);
    }

    /// Enters a directory that is being deleted.
    pub fn push_removal_dir(&mut self, dir: Arc<FilePath>)
        ensures
            final(self)@ == (ProgressView {
                removals: old(self)@.removals.push(dir),
                ..old(self)@
            }),
    {
        self.removals.push(dir);
    }

    /// Records what was done.
    pub fn push_outcome(&mut self, action: Outcome)
        requires
            old(self)@.total < usize::MAX,
            old(self)@.finished < usize::MAX,
        ensures
            final(self)@ == old(self)@.pushed(action),
    {
        match &action {
            Outcome::Move { .. }
            | Outcome::Copy(_)
            | Outcome::CopyOverwrite(_)
            | Outcome::NewFile(_)
            | Outcome::Trash
            | Outcome::CreateDestDir(_)
            | Outcome::MergeDestDir(_)
            | Outcome::Delete
            | Outcome::DeleteDir => {
                self.total += 1;
                self.finished += 1;
            },
            Outcome::Skip => {
                self.total += 1;
            },
            Outcome::RemoveSourceDir(..) => {},
        }
        self.log.push(action);
    }

    /// How to handle a directory that collides.
    pub fn directory_strat(&mut self) -> (r: DirectoryCollision)
        ensures
            r == old(self)@.dir_strat(),
            final(self)@ == (ProgressView { directory_override: None, ..old(self)@ }),
    {
        match self.directory_override_next.take() {
            Some(c) => c,
            None => self.directory_collisions,
        }
    }

    /// Takes the answer to a conflict of directories.
    pub fn set_directory_strat(&mut self, choice: DirChoice)
        ensures
            ({
                let (all, c) = choice.spec_collision();
                final(self)@ == if all {
                    ProgressView { directory_collisions: c, ..old(self)@ }
                } else {
                    ProgressView { directory_override: Some(c), ..old(self)@ }
                }
            }),
    {
        match choice {
            DirChoice::Skip(true) => {
                self.directory_collisions = DirectoryCollision::Skip;
            },
            DirChoice::Merge(true) => {
                self.directory_collisions = DirectoryCollision::Merge;
            },
            DirChoice::Skip(false) => {
                self.directory_override_next = Some(DirectoryCollision::Skip);
            },
            DirChoice::Merge(false) => {
                self.directory_override_next = Some(DirectoryCollision::Merge);
            },
        }
    }

    /// How to handle a file that collides.
    pub fn file_strat(&mut self) -> (r: FileCollision)
        ensures
            r == old(self)@.file_strat(),
            final(self)@ == (ProgressView { file_override: None, ..old(self)@ }),
    {
        match self.file_override_next.take() {
            Some(c) => c,
            None => self.file_collisions,
        }
    }

    /// Takes the answer to a conflict of files.
    pub fn set_file_strat(&mut self, choice: FileChoice)
        ensures
            ({
                let (all, c) = choice.spec_collision();
                final(self)@ == if all {
                    ProgressView { file_collisions: c, ..old(self)@ }
                } else {
                    ProgressView { file_override: Some(c), ..old(self)@ }
                }
            }),
    {
        let (all, c) = choice.collision();
        if all {
            self.file_collisions = c;
        } else {
            self.file_override_next = Some(c);
        }
    }

    /// Answers a conflict with another name for the destination, or with another path
    /// from where that is. Returns whether that was possible: the root has no other
    /// name.
    pub fn conflict_rename(&mut self, name: &Vec<u8>) -> (r: bool)
        requires
            old(self)@.conflict is Some,
        ensures
            ({
                let c = old(self)@.conflict->0;
                &&& r == (c.dst@.len() > 0)
                &&& !r ==> final(self)@ == old(self)@
                &&& r ==> {
                    &&& final(self)@ == (ProgressView {
                        conflict: final(self)@.conflict,
                        ..old(self)@
                    })
                    &&& final(self)@.conflict matches Some(n) && n.kind == c.kind && n.src == c.src
                        && n.dst@ == path::pushed(c.dst@.drop_last(), name@) && (c.dst.valid()
                        ==> n.dst.valid())
                }
            }),
    {
        match self.conflict.take() {
            Some(c) => {
                let parent = match c.dst.parent() {
                    Some(parent) => parent,
                    None => {
                        self.conflict = Some(c);
                        return false;
                    },
                };
                let dst = Arc::new(parent.push(name));
                self.conflict = Some(Conflict { kind: c.kind, src: c.src, dst });
                true
            },
            None => false,
        }
    }

    /// Whether there is anything to undo.
    pub fn has_any_undoable(&self) -> (r: bool)
        ensures
            r == exists|i: int| 0 <= i < self@.log.len() && (#[trigger] self@.log[i])
                .spec_undoable(),
    {
        let mut i: usize = 0;
        while i < self.log.len()
            invariant
                i <= self.log.len(),
                forall|k: int|
                    0 <= k < i ==> !(#[trigger] self.log@[k]).spec_undoable(),
            decreases self.log.len() - i,
        {
            if self.log[i].undoable() {
                assert(self@.log[i as int].spec_undoable());
                return true;
            }
            i += 1;
        }
        false
    }

    /// Takes the last thing in the log that can be undone; what came after it is
    /// dropped.
    pub fn pop_next_undoable(&mut self) -> (r: Option<Outcome>)
        ensures
            ({
                let i = last_undoable(old(self)@.log);
                match r {
                    Some(o) => 0 <= i < old(self)@.log.len() && o == old(self)@.log[i]
                        && o.spec_undoable() && final(self)@ == (ProgressView {
                        log: old(self)@.log.take(i),
                        ..old(self)@
                    }),
                    None => i < 0 && final(self)@ == (ProgressView {
                        log: Seq::empty(),
                        ..old(self)@
                    }),
                }
            }),
    {
        let ghost before = self@;
        proof {
            assert(before.log.take(before.log.len() as int) =~= before.log);
        }
        loop
            invariant
                before == old(self)@,
                self@.log.len() <= before.log.len(),
                self@ == (ProgressView {
                    log: before.log.take(self@.log.len() as int),
                    ..before
                }),
                last_undoable(self@.log) == last_undoable(before.log),
            decreases self@.log.len(),
        {
            let ghost now = self.log@;
            match self.log.pop() {
                Some(o) => {
                    assert(self.log@ =~= now.drop_last());
                    assert(before.log.take(now.len() - 1) =~= now.drop_last());
                    if o.undoable() {
                        return Some(o);
                    }
                },
                None => {
                    assert(self.log@ =~= Seq::empty());
                    return None;
                },
            }
        }
    }
}

/// The position of the last thing in a log that can be undone, or a negative
/// number if there is none.
pub open spec fn last_undoable(log: Seq<Outcome>) -> int
    decreases log.len(),
{
    if log.len() == 0 {
        -1
    } else if log.last().spec_undoable() {
        log.len() - 1
    } else {
        last_undoable(log.drop_last())
    }
}

/// Recording an outcome keeps the counters in agreement with the log.
pub proof fn pushing_keeps_tally(v: ProgressView, o: Outcome)
    requires
        v.tallied(),
    ensures
        v.pushed(o).tallied(),
{
    assert(v.log.push(o).drop_last() =~= v.log);
}

/// Each outcome counts once. What was skipped is not finished, and directories that
/// were emptied by a move do not count at all.
pub proof fn outcomes_count_once(a: Seq<Outcome>, o: Outcome, b: Seq<Outcome>)
    ensures
        finished_in(seq![o]) == (if o is Skip || o is RemoveSourceDir {
            0nat
        } else {
            1nat
        }),
        total_in(seq![o]) == (if o is RemoveSourceDir {
            0nat
        } else {
            1nat
        }),
        finished_in(a + b) == finished_in(a) + finished_in(b),
        total_in(a + b) == total_in(a) + total_in(b),
    decreases b.len(),
{
    let none = Seq::<Outcome>::empty();
    assert(seq![o].drop_last() =~= none);
    assert(finished_in(none) == 0 && total_in(none) == 0);
    if b.len() > 0 {
        outcomes_count_once(a, o, b.drop_last());
        assert((a + b).drop_last() =~= a + b.drop_last());
    } else {
        assert(a + b =~= a);
    }
}

/// The next source is the first one that has a name, and goes into the destination
/// under that name.
pub proof fn first_named_source(v: ProgressView, dest_root: Seq<Seq<u8>>, i: int)
    requires
        0 <= i < v.sources.len(),
        v.sources[i]@.len() > 0 && v.sources[i]@.last() != seq![46u8, 46u8],
        forall|k: int|
            0 <= k < i ==> (#[trigger] v.sources[k])@.len() == 0 || v.sources[k]@.last() == seq![
                46u8,
                46u8,
            ],
    ensures
        next_source(v, dest_root) == Some((v.sources[i]@, dest_root.push(v.sources[i]@.last()))),
{
    nameless_until(v.sources, i);
}

proof fn nameless_until(sources: Seq<Arc<FilePath>>, i: int)
    requires
        0 <= i < sources.len(),
        named(sources[i]),
        forall|k: int| 0 <= k < i ==> !named(#[trigger] sources[k]),
    ensures
        nameless_prefix(sources) == i,
    decreases sources.len(),
{
    if i > 0 {
        let rest = sources.skip(1);
        assert(!named(sources[0]));
        assert forall|k: int| 0 <= k < i - 1 implies !named(#[trigger] rest[k]) by {
            assert(rest[k] == sources[k + 1]);
        }
        nameless_until(rest, i - 1);
    }
}

/// No more is finished than there is.
pub proof fn finished_at_most_total(log: Seq<Outcome>)
    ensures
        finished_in(log) <= total_in(log) <= log.len(),
    decreases log.len(),
{
    if log.len() > 0 {
        finished_at_most_total(log.drop_last());
    }
}

/// Everything after the last thing that can be undone has nothing to undo.
pub proof fn last_undoable_is_last(log: Seq<Outcome>)
    ensures
        -1 <= last_undoable(log) < log.len(),
        last_undoable(log) >= 0 ==> log[last_undoable(log)].spec_undoable(),
        forall|i: int| last_undoable(log) < i < log.len() ==> !(#[trigger] log[i]).spec_undoable(),
    decreases log.len(),
{
    if log.len() > 0 && !log.last().spec_undoable() {
        last_undoable_is_last(log.drop_last());
        assert forall|i: int| last_undoable(log) < i < log.len() implies !(
        #[trigger] log[i]).spec_undoable() by {
            if i < log.len() - 1 {
                assert(log[i] == log.drop_last()[i]);
            }
        }
    }
}

} // verus!
