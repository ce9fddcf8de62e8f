//! File operations: what to do next, and how to undo what was done.
use std::sync::Arc;

use vstd::prelude::*;
use vstd::string::*;

use crate::config::{DirectoryCollision, FileCollision};
use crate::names::Fragment;
use crate::pane::TabId;
use crate::path::{self, FilePath};
use crate::progress::{
    self, Conflict, ConflictKind, DestinationDirectory, DirChoice, FileChoice, NextRemove, Outcome,
    Progress, ProgressView,
};

verus! {

/// What an operation does, and where.
pub enum Kind {
    Move(Arc<FilePath>),
    Copy(Arc<FilePath>),
    Rename(Arc<FilePath>),
    MakeDir(Arc<FilePath>),
    MakeFile(Arc<FilePath>),
    /// Undoes an operation. The directories that were recreated get their
    /// attributes back last, the last of them first.
    Undo { prev: Box<Operation>, pending_dir_info: Vec<(Arc<FilePath>, u64)> },
    Trash(Arc<FilePath>),
    Delete(Arc<FilePath>),
}

impl Kind {
    pub open spec fn spec_str(self) -> Seq<char> {
        match self {
            Kind::Move(_) => "Move"@,
            Kind::Copy(_) => "Copy"@,
            Kind::Rename(_) => "Rename"@,
            Kind::MakeDir(_) => "MakeDir"@,
            Kind::MakeFile(_) => "MakeFile"@,
            Kind::Undo { .. } => "Undo"@,
            Kind::Trash(_) => "Trash"@,
            Kind::Delete(_) => "Delete"@,
        }
    }

    pub fn str(&self) -> (r: &'static str)
        ensures
            r@ == self.spec_str(),
    {
        match self {
            Kind::Move(_) => "Move",
            Kind::Copy(_) => "Copy",
            Kind::Rename(_) => "Rename",
            Kind::MakeDir(_) => "MakeDir",
            Kind::MakeFile(_) => "MakeFile",
            Kind::Undo { .. } => "Undo",
            Kind::Trash(_) => "Trash",
            Kind::Delete(_) => "Delete",
        }
    }

    /// The directory or file that the operation is about. Undoing is about what
    /// is undone.
    pub open spec fn spec_dir(self) -> Seq<Seq<u8>>
        decreases self,
    {
        match self {
            Kind::Move(d)
            | Kind::Copy(d)
            | Kind::Rename(d)
            | Kind::MakeDir(d)
            | Kind::MakeFile(d)
            | Kind::Trash(d)
            | Kind::Delete(d) => d@,
            Kind::Undo { prev, .. } => prev.kind.spec_dir(),
        }
    }

    pub fn dir(&self) -> (r: Arc<FilePath>)
        ensures
            r@ == self.spec_dir(),
        decreases self,
    {
        match self {
            Kind::Move(d)
            | Kind::Copy(d)
            | Kind::Rename(d)
            | Kind::MakeDir(d)
            | Kind::MakeFile(d)
            | Kind::Trash(d)
            | Kind::Delete(d) => d.clone(),
            Kind::Undo { prev, .. } => prev.kind.dir(),
        }
    }

    /// The word that tells apart the names of colliding files.
    pub fn rename_fragment(&self) -> (r: Fragment)
        requires
            self is Move || self is Copy,
        ensures
            r == (if self is Move {
                Fragment::Moved
            } else {
                Fragment::Copied
            }),
    {
        match self {
            Kind::Move(_) => Fragment::Moved,
            _ => Fragment::Copied,
        }
    }
}

/// Why an operation cannot be started.
#[derive(Clone, Copy, Debug, PartialEq, Eq, Structural)]
pub enum Invalid {
    /// There is nothing to move or copy.
    Empty,
    /// The source at this position would go into itself.
    IntoItself(usize),
    /// One file at a time is renamed.
    RenameCount(usize),
    /// A rename keeps the directory.
    OtherDirectory,
    /// Something new has no sources.
    MakeWithSources(usize),
}

pub struct Operation {
    /// May be gone while the operation is ongoing.
    pub tab: TabId,
    pub kind: Kind,
    pub cancelled: bool,
    pub progress: Progress,
}

/// What is known of a source and its destination on disk.
#[derive(Clone, Copy, Debug, PartialEq, Eq, Structural)]
pub struct Facts {
    pub src_present: bool,
    /// It is a directory, and no link to one.
    pub src_dir: bool,
    pub dst_present: bool,
    pub dst_file: bool,
    pub dst_dir: bool,
    /// Both times are known, and the source's is later.
    pub src_newer: bool,
}

#[derive(Clone, Copy, Debug, PartialEq, Eq, Structural)]
pub enum Abort {
    OntoNonFile,
    OntoNonFolder,
    NoNewName,
    /// The attributes of the source directory could not be read.
    UnreadableSource,
    /// The source directory could not be listed.
    UnlistedSource,
}

/// What to do next for an operation.
pub enum Step {
    /// The operation is over.
    Done,
    /// The operation goes on with its next item.
    CallAgain,
    /// The user is asked about the conflict.
    Asking,
    Abort { why: Abort, src: Arc<FilePath>, dst: Arc<FilePath> },
    /// The file is moved or copied.
    Ready { src: Arc<FilePath>, dst: Arc<FilePath>, overwrite: bool },
    /// The directory is renamed, or else moved piece by piece.
    TryRename { src: Arc<FilePath>, dst: Arc<FilePath> },
    /// The file would be copied onto itself and gets another name.
    CopyName { src: Arc<FilePath>, dst: Arc<FilePath> },
    /// The file collides and gets another name.
    NewName { src: Arc<FilePath>, dst: Arc<FilePath> },
    /// The destination directory is created, then entered.
    CreateDir { src: Arc<FilePath>, dst: Arc<FilePath> },
    /// The source directory is read.
    EnterDir { src: Arc<FilePath>, dst: Arc<FilePath>, already_existed: bool },
    /// The directory is listed, and then what is in it is deleted.
    ListForRemoval(Arc<FilePath>),
    Trash(Arc<FilePath>),
    Delete { path: Arc<FilePath>, was_dir: bool },
    MakeDir(Arc<FilePath>),
    MakeFile(Arc<FilePath>),
    /// The attributes of a directory are set.
    RestoreInfo(Arc<FilePath>, u64),
    /// The file is deleted if it is still empty.
    DeleteIfEmpty(Arc<FilePath>),
    /// The directory is created again if it is not there.
    Recreate(Arc<FilePath>, u64),
}

/// What becomes of a file that is moved or copied.
pub open spec fn file_step(
    v: ProgressView,
    src: Arc<FilePath>,
    dst: Arc<FilePath>,
    facts: Facts,
) -> (ProgressView, Step) {
    let w = ProgressView { file_override: None, ..v };
    if !facts.dst_present {
        (v, Step::Ready { src, dst, overwrite: false })
    } else if !facts.dst_file {
        (v, Step::Abort { why: Abort::OntoNonFile, src, dst })
    } else {
        match v.file_strat() {
            FileCollision::Ask => (
                ProgressView {
                    conflict: Some(Conflict { kind: ConflictKind::FileFile, src, dst }),
                    ..w
                },
                Step::Asking,
            ),
            FileCollision::Overwrite => (w, Step::Ready { src, dst, overwrite: true }),
            FileCollision::Rename => (w, Step::NewName { src, dst }),
            FileCollision::Newer => if facts.src_newer {
                (w, Step::Ready { src, dst, overwrite: true })
            } else {
                (w.pushed(Outcome::Skip), Step::CallAgain)
            },
            FileCollision::Skip => (w.pushed(Outcome::Skip), Step::CallAgain),
        }
    }
}

/// What becomes of a directory that is moved or copied.
pub open spec fn dir_step(
    v: ProgressView,
    src: Arc<FilePath>,
    dst: Arc<FilePath>,
    facts: Facts,
) -> (ProgressView, Step) {
    let w = ProgressView { directory_override: None, ..v };
    if !facts.dst_present {
        (v, Step::CreateDir { src, dst })
    } else if !facts.dst_dir {
        (v, Step::Abort { why: Abort::OntoNonFolder, src, dst })
    } else {
        match v.dir_strat() {
            DirectoryCollision::Ask => (
                ProgressView {
                    conflict: Some(Conflict { kind: ConflictKind::DirDir, src, dst }),
                    ..w
                },
                Step::Asking,
            ),
            DirectoryCollision::Merge => (
                w.pushed(Outcome::MergeDestDir(dst)),
                Step::EnterDir { src, dst, already_existed: true },
            ),
            DirectoryCollision::Skip => (w.pushed(Outcome::Skip), Step::CallAgain),
        }
    }
}

pub open spec fn copymove_step(
    v: ProgressView,
    src: Arc<FilePath>,
    dst: Arc<FilePath>,
    facts: Facts,
) -> (ProgressView, Step) {
    if facts.src_dir {
        dir_step(v, src, dst, facts)
    } else {
        file_step(v, src, dst, facts)
    }
}

/// What becomes of the next item of a move.
pub open spec fn move_step(
    v: ProgressView,
    src: Arc<FilePath>,
    dst: Arc<FilePath>,
    facts: Facts,
) -> (ProgressView, Step) {
    if src@ == dst@ {
        (v.pushed(Outcome::Skip), Step::CallAgain)
    } else if !facts.src_present {
        (v, Step::CallAgain)
    } else if facts.src_dir && !facts.dst_present {
        (v, Step::TryRename { src, dst })
    } else {
        copymove_step(v, src, dst, facts)
    }
}

/// What becomes of the next item of a copy.
pub open spec fn copy_step(
    v: ProgressView,
    src: Arc<FilePath>,
    dst: Arc<FilePath>,
    facts: Facts,
) -> (ProgressView, Step) {
    if src@ == dst@ {
        (v, Step::CopyName { src, dst })
    } else if !facts.src_present {
        (v, Step::CallAgain)
    } else {
        copymove_step(v, src, dst, facts)
    }
}

/// The directory that holds a path.
pub open spec fn parent_of(p: Seq<Seq<u8>>) -> Option<Seq<Seq<u8>>> {
    if p.len() > 0 {
        Some(p.drop_last())
    } else {
        None
    }
}

/// Whether `p` is `ancestor` or below it.
pub open spec fn is_within(p: Seq<Seq<u8>>, ancestor: Seq<Seq<u8>>) -> bool {
    ancestor.len() <= p.len() && p.subrange(0, ancestor.len() as int) == ancestor
}

/// The first source that a directory is in.
pub open spec fn first_around(sources: Seq<Arc<FilePath>>, dest: Seq<Seq<u8>>, i: int) -> int
    decreases sources.len() - i,
{
    if i >= sources.len() {
        sources.len() as int
    } else if is_within(dest, sources[i]@) {
        i
    } else {
        first_around(sources, dest, i + 1)
    }
}

/// Whether an operation can be started, and if not, why.
pub open spec fn validity(kind: Kind, sources: Seq<Arc<FilePath>>) -> Option<Invalid> {
    match kind {
        Kind::Move(p) | Kind::Copy(p) => if sources.len() == 0 {
            Some(Invalid::Empty)
        } else if first_around(sources, p@, 0) < sources.len() {
            Some(Invalid::IntoItself(first_around(sources, p@, 0) as usize))
        } else {
            None
        },
        Kind::Rename(p) => if sources.len() != 1 {
            Some(Invalid::RenameCount(sources.len() as usize))
        } else if parent_of(sources[0]@) != parent_of(p@) {
            Some(Invalid::OtherDirectory)
        } else {
            None
        },
        Kind::MakeDir(_) | Kind::MakeFile(_) => if sources.len() > 0 {
            Some(Invalid::MakeWithSources(sources.len() as usize))
        } else {
            None
        },
        Kind::Undo { .. } | Kind::Trash(_) | Kind::Delete(_) => None,
    }
}

proof fn first_around_found(sources: Seq<Arc<FilePath>>, dest: Seq<Seq<u8>>, i: int)
    requires
        0 <= i <= sources.len(),
    ensures
        i <= first_around(sources, dest, i) <= sources.len(),
        first_around(sources, dest, i) < sources.len() ==> is_within(
            dest,
            sources[first_around(sources, dest, i)]@,
        ),
        forall|k: int|
            i <= k < first_around(sources, dest, i) ==> !is_within(dest, (#[trigger] sources[k])@),
    decreases sources.len() - i,
{
    if i < sources.len() && !is_within(dest, sources[i]@) {
        first_around_found(sources, dest, i + 1);
    }
}

/// Something can be moved or copied into any directory but itself and what is inside
/// of it.
pub proof fn anything_goes_elsewhere(kind: Kind, dir: Arc<FilePath>, sources: Seq<Arc<FilePath>>)
    requires
        kind == Kind::Move(dir) || kind == Kind::Copy(dir),
    ensures
        validity(kind, sources) is None <==> sources.len() > 0 && forall|i: int|
            0 <= i < sources.len() ==> !(#[trigger] sources[i])@.is_prefix_of(dir@),
        validity(kind, sources) matches Some(Invalid::Empty) <==> sources.len() == 0,
{
    first_around_found(sources, dir@, 0);
    assert forall|i: int| 0 <= i < sources.len() implies is_within(
        dir@,
        (#[trigger] sources[i])@,
    ) == sources[i]@.is_prefix_of(dir@) by {
        let p = sources[i]@;
        if p.len() <= dir@.len() {
            if is_within(dir@, p) {
                assert(p.is_prefix_of(dir@));
            }
            if p.is_prefix_of(dir@) {
                assert(dir@.subrange(0, p.len() as int) =~= p);
            }
        }
    }
}

/// A file is renamed within its directory, one at a time, and what is new is made of
/// nothing.
pub proof fn renaming_keeps_the_directory(
    dest: Arc<FilePath>,
    sources: Seq<Arc<FilePath>>,
    dir: Seq<Seq<u8>>,
    name: Seq<u8>,
)
    requires
        dest@ == dir.push(name),
    ensures
        validity(Kind::Rename(dest), sources) is None <==> sources.len() == 1
            && sources[0]@.len() > 0 && sources[0]@.drop_last() == dir,
        validity(Kind::MakeDir(dest), sources) is None <==> sources.len() == 0,
        validity(Kind::MakeFile(dest), sources) is None <==> sources.len() == 0,
        validity(Kind::Trash(dest), sources) is None,
        validity(Kind::Delete(dest), sources) is None,
{
    assert(dir.push(name).drop_last() =~= dir);
}

/// A move or copy that can be started never has a source around its
/// destination.
pub proof fn valid_destination(kind: Kind, sources: Seq<Arc<FilePath>>, i: int)
    requires
        validity(kind, sources) is None,
        kind is Move || kind is Copy,
        0 <= i < sources.len(),
    ensures
        !is_within(kind.spec_dir(), sources[i]@),
{
    first_around_is_first(sources, kind.spec_dir(), 0, i);
}

proof fn first_around_is_first(sources: Seq<Arc<FilePath>>, dest: Seq<Seq<u8>>, from: int, i: int)
    requires
        0 <= from <= i < sources.len(),
        first_around(sources, dest, from) >= sources.len(),
    ensures
        !is_within(dest, sources[i]@),
    decreases i - from,
{
    if from < i {
        first_around_is_first(sources, dest, from + 1, i);
    }
}

fn find_around(sources: &Vec<Arc<FilePath>>, dest: &FilePath) -> (r: usize)
    ensures
        r == first_around(sources@, dest@, 0),
        r <= sources.len(),
{
    let mut i: usize = 0;
    while i < sources.len()
        invariant
            i <= sources.len(),
            first_around(sources@, dest@, 0) == first_around(sources@, dest@, i as int),
        decreases sources.len() - i,
    {
        if dest.starts_with(&sources[i]) {
            return i;
        }
        i += 1;
    }
    i
}

fn same_parent(a: &FilePath, b: &FilePath) -> (r: bool)
    ensures
        r == (parent_of(a@) == parent_of(b@)),
{
    match (a.parent(), b.parent()) {
        (Some(x), Some(y)) => x.same(&y),
        (None, None) => true,
        _ => false,
    }
}

fn check(kind: &Kind, sources: &Vec<Arc<FilePath>>) -> (r: Option<Invalid>)
    ensures
        r == validity(*kind, sources@),
{
    match kind {
        Kind::Move(p) | Kind::Copy(p) => {
            if sources.len() == 0 {
                return Some(Invalid::Empty);
            }
            let i: usize = find_around(sources, p);
            if i < sources.len() {
                Some(Invalid::IntoItself(i))
            } else {
                None
            }
        },
        Kind::Rename(p) => {
            if sources.len() != 1 {
                Some(Invalid::RenameCount(sources.len()))
            } else if !same_parent(&sources[0], p) {
                Some(Invalid::OtherDirectory)
            } else {
                None
            }
        },
        Kind::MakeDir(_) | Kind::MakeFile(_) => {
            if sources.len() > 0 {
                Some(Invalid::MakeWithSources(sources.len()))
            } else {
                None
            }
        },
        Kind::Undo { .. } | Kind::Trash(_) | Kind::Delete(_) => None,
    }
}

impl Operation {
    /// There is room to count one more item.
    pub open spec fn has_room(self) -> bool {
        self.progress@.total < usize::MAX && self.progress@.finished < usize::MAX
    }

    /// All but the progress is what it was.
    pub open spec fn same_but_progress(self, other: Operation) -> bool {
        self.tab == other.tab && self.kind == other.kind && self.cancelled == other.cancelled
    }

    /// An operation that has not done anything, unless it is strictly invalid.
    /// Moves into the same directory are skipped later.
    pub fn new(
        tab: TabId,
        kind: Kind,
        source_files: &Vec<Arc<FilePath>>,
        directory_collisions: DirectoryCollision,
        file_collisions: FileCollision,
    ) -> (r: Result<Operation, Invalid>)
        ensures
            match validity(kind, source_files@) {
                Some(e) => r == Err::<Operation, Invalid>(e),
                None => r matches Ok(op) && op.tab == tab && op.kind == kind && !op.cancelled
                    && op.progress@.fresh(source_files@, directory_collisions, file_collisions),
            },
    {
        match check(&kind, source_files) {
            Some(e) => Err(e),
            None => {
                let progress = Progress::new(source_files, directory_collisions, file_collisions);
                Ok(Operation { tab, kind, cancelled: false, progress })
            },
        }
    }

    /// Decides on a directory.
    pub fn prepare_dest_dir(&mut self, src: Arc<FilePath>, dst: Arc<FilePath>, facts: Facts) -> (r:
        Step)
        requires
            old(self).has_room(),
        ensures
            (final(self).progress@, r) == dir_step(old(self).progress@, src, dst, facts),
            final(self).same_but_progress(*old(self)),
    {
        if !facts.dst_present {
            return Step::CreateDir { src, dst };
        }
        if !facts.dst_dir {
            return Step::Abort { why: Abort::OntoNonFolder, src, dst };
        }
        match self.progress.directory_strat() {
            DirectoryCollision::Ask => {
                self.progress.conflict = Some(Conflict { kind: ConflictKind::DirDir, src, dst });
                Step::Asking
            },
            DirectoryCollision::Merge => {
                self.progress.push_outcome(Outcome::MergeDestDir(dst.clone()));
                Step::EnterDir { src, dst, already_existed: true }
            },
            DirectoryCollision::Skip => {
                self.progress.push_outcome(Outcome::Skip);
                Step::CallAgain
            },
        }
    }

    /// Goes on once a destination directory was created, or not.
    pub fn created_dest_dir(&mut self, src: Arc<FilePath>, dst: Arc<FilePath>, created: bool) -> (r:
        Step)
        requires
            old(self).has_room(),
        ensures
            final(self).same_but_progress(*old(self)),
            created ==> final(self).progress@ == old(self).progress@.pushed(
                Outcome::CreateDestDir(dst),
            ) && r == (Step::EnterDir { src, dst, already_existed: false }),
            !created ==> final(self).progress@ == old(self).progress@ && r == Step::CallAgain,
    {
        if !created {
            return Step::CallAgain;
        }
        self.progress.push_outcome(Outcome::CreateDestDir(dst.clone()));
        Step::EnterDir { src, dst, already_existed: false }
    }

    /// Goes on once a source directory was opened. `info` is the handle of its
    /// attributes, if they could be read.
    pub fn enter_dir(
        &mut self,
        src: Arc<FilePath>,
        dst: Arc<FilePath>,
        already_existed: bool,
        info: Option<u64>,
        listed: bool,
    ) -> (r: Step)
        ensures
            final(self).same_but_progress(*old(self)),
            match info {
                Some(original_info) => if listed {
                    r == Step::CallAgain && final(self).progress@ == (ProgressView {
                        dirs: old(self).progress@.dirs.push(
                            (DestinationDirectory {
                                source: src,
                                dest: dst,
                                original_info,
                                already_existed,
                            }),
                        ),
                        ..old(self).progress@
                    })
                } else {
                    r == (Step::Abort { why: Abort::UnlistedSource, src, dst })
                        && final(self).progress@ == old(self).progress@
                },
                None => r == (Step::Abort { why: Abort::UnreadableSource, src, dst })
                    && final(self).progress@ == old(self).progress@,
            },
    {
        match info {
            Some(original_info) => {
                if !listed {
                    return Step::Abort { why: Abort::UnlistedSource, src, dst };
                }
                self.progress.push_dest_dir(
                    DestinationDirectory { source: src, dest: dst, original_info, already_existed },
                );
                Step::CallAgain
            },
            None => Step::Abort { why: Abort::UnreadableSource, src, dst },
        }
    }

    /// Decides on what is to be copied or moved.
    pub fn prepare_copymove(&mut self, src: Arc<FilePath>, dst: Arc<FilePath>, facts: Facts) -> (r:
        Step)
        requires
            old(self).has_room(),
        ensures
            (final(self).progress@, r) == copymove_step(old(self).progress@, src, dst, facts),
            final(self).same_but_progress(*old(self)),
    {
        if facts.src_dir {
            return self.prepare_dest_dir(src, dst, facts);
        }
        if !facts.dst_present {
            return Step::Ready { src, dst, overwrite: false };
        }
        if !facts.dst_file {
            return Step::Abort { why: Abort::OntoNonFile, src, dst };
        }
        match self.progress.file_strat() {
            FileCollision::Ask => {
                self.progress.conflict = Some(Conflict { kind: ConflictKind::FileFile, src, dst });
                Step::Asking
            },
            FileCollision::Overwrite => Step::Ready { src, dst, overwrite: true },
            FileCollision::Rename => Step::NewName { src, dst },
            FileCollision::Newer => {
                if facts.src_newer {
                    Step::Ready { src, dst, overwrite: true }
                } else {
                    self.progress.push_outcome(Outcome::Skip);
                    Step::CallAgain
                }
            },
            FileCollision::Skip => {
                self.progress.push_outcome(Outcome::Skip);
                Step::CallAgain
            },
        }
    }

    /// Decides on the next item of a move.
    pub fn process_next_move(&mut self, src: Arc<FilePath>, dst: Arc<FilePath>, facts: Facts) -> (r:
        Step)
        requires
            old(self).has_room(),
        ensures
            (final(self).progress@, r) == move_step(old(self).progress@, src, dst, facts),
            final(self).same_but_progress(*old(self)),
    {
        if src.same(&dst) {
            self.progress.push_outcome(Outcome::Skip);
            return Step::CallAgain;
        }
        if !facts.src_present {
            return Step::CallAgain;
        }
        if facts.src_dir && !facts.dst_present {
            return Step::TryRename { src, dst };
        }
        self.prepare_copymove(src, dst, facts)
    }

    /// Goes on after trying to rename a directory: if that failed, it is moved
    /// piece by piece.
    pub fn tried_rename(
        &mut self,
        src: Arc<FilePath>,
        dst: Arc<FilePath>,
        renamed: bool,
        facts: Facts,
    ) -> (r: Step)
        requires
            old(self).has_room(),
        ensures
            final(self).same_but_progress(*old(self)),
            renamed ==> r == Step::CallAgain && final(self).progress@
                == old(self).progress@.pushed(Outcome::Move { source: src, dest: dst }),
            !renamed ==> (final(self).progress@, r) == copymove_step(
                old(self).progress@,
                src,
                dst,
                facts,
            ),
    {
        if renamed {
            self.progress.push_outcome(Outcome::Move { source: src, dest: dst });
            return Step::CallAgain;
        }
        self.prepare_copymove(src, dst, facts)
    }

    /// Decides on the next item of a copy.
    pub fn process_next_copy(&mut self, src: Arc<FilePath>, dst: Arc<FilePath>, facts: Facts) -> (r:
        Step)
        requires
            old(self).has_room(),
        ensures
            (final(self).progress@, r) == copy_step(old(self).progress@, src, dst, facts),
            final(self).same_but_progress(*old(self)),
    {
        if src.same(&dst) {
            return Step::CopyName { src, dst };
        }
        if !facts.src_present {
            return Step::CallAgain;
        }
        self.prepare_copymove(src, dst, facts)
    }

    /// Goes on with the name that was found for a copy of a file next to
    /// itself.
    pub fn named_copy(&mut self, src: Arc<FilePath>, new: Option<Arc<FilePath>>, facts: Facts) -> (r:
        Step)
        requires
            old(self).has_room(),
        ensures
            final(self).same_but_progress(*old(self)),
            match new {
                None => r == Step::Done && final(self).progress@ == old(self).progress@,
                Some(dst) => if facts.src_present {
                    (final(self).progress@, r) == copymove_step(
                        old(self).progress@,
                        src,
                        dst,
                        facts,
                    )
                } else {
                    r == Step::CallAgain && final(self).progress@ == old(self).progress@
                },
            },
    {
        match new {
            None => Step::Done,
            Some(dst) => {
                if !facts.src_present {
                    return Step::CallAgain;
                }
                self.prepare_copymove(src, dst, facts)
            },
        }
    }

    /// Goes on with the name that was found for a file that collides.
    pub fn named(src: Arc<FilePath>, dst: Arc<FilePath>, new: Option<Arc<FilePath>>) -> (r: Step)
        ensures
            r == match new {
                Some(dst) => Step::Ready { src, dst, overwrite: false },
                None => Step::Abort { why: Abort::NoNewName, src, dst },
            },
    {
        match new {
            Some(dst) => Step::Ready { src, dst, overwrite: false },
            None => Step::Abort { why: Abort::NoNewName, src, dst },
        }
    }

    /// Goes on once a directory was left. Moving removes the source directory;
    /// `removed` says whether that worked.
    pub fn left_dir(&mut self, dir: DestinationDirectory, removed: bool) -> (r: Step)
        requires
            old(self).has_room(),
        ensures
            r == Step::CallAgain,
            final(self).same_but_progress(*old(self)),
            final(self).progress@ == (if old(self).kind is Move && removed {
                old(self).progress@.pushed(
                    Outcome::RemoveSourceDir(dir.source, dir.original_info),
                )
            } else {
                old(self).progress@
            }),
    {
        if let Kind::Move(_) = &self.kind {
            if removed {
                self.progress.push_outcome(
                    Outcome::RemoveSourceDir(dir.source, dir.original_info),
                );
            }
        }
        Step::CallAgain
    }

    /// Decides on the next item to put into the trash.
    pub fn process_next_trash(&mut self) -> (r: Step)
        requires
            old(self).progress@.removals.len() == 0,
        ensures
            final(self).same_but_progress(*old(self)),
            if old(self).progress@.sources.len() > 0 {
                r == Step::Trash(old(self).progress@.sources[0]) && final(self).progress@ == (
                ProgressView {
                    sources: old(self).progress@.sources.skip(1),
                    ..old(self).progress@
                })
            } else {
                r == Step::Done && final(self).progress@ == old(self).progress@
            },
    {
        match self.progress.next_remove(None) {
            Some(NextRemove::File(p)) => Step::Trash(p),
            _ => Step::Done,
        }
    }

    /// Decides on what `next_remove` gave for a deletion. `is_dir` says whether
    /// a path is a directory, and no link to one.
    pub fn process_next_delete(next: Option<NextRemove>, is_dir: bool) -> (r: Step)
        ensures
            r == match next {
                Some(NextRemove::File(p)) => if is_dir {
                    Step::ListForRemoval(p)
                } else {
                    Step::Delete { path: p, was_dir: false }
                },
                Some(NextRemove::FinishedDir(p)) => Step::Delete { path: p, was_dir: true },
                None => Step::Done,
            },
    {
        match next {
            Some(NextRemove::File(p)) => {
                if is_dir {
                    Step::ListForRemoval(p)
                } else {
                    Step::Delete { path: p, was_dir: false }
                }
            },
            Some(NextRemove::FinishedDir(p)) => Step::Delete { path: p, was_dir: true },
            None => Step::Done,
        }
    }

    /// Goes on once a directory that is to be deleted was opened. If it could
    /// not be read, the operation is cancelled.
    pub fn listed_for_removal(&mut self, dir: Arc<FilePath>, readable: bool) -> (r: Step)
        ensures
            final(self).tab == old(self).tab,
            final(self).kind == old(self).kind,
            readable ==> r == Step::CallAgain && final(self).cancelled == old(self).cancelled
                && final(self).progress@ == (ProgressView {
                removals: old(self).progress@.removals.push(dir),
                ..old(self).progress@
            }),
            !readable ==> r == Step::Done && final(self).cancelled && final(self).progress@ == (
            ProgressView { conflict: None, ..old(self).progress@ }),
    {
        if !readable {
            self.cancel();
            return Step::Done;
        }
        self.progress.push_removal_dir(dir);
        Step::CallAgain
    }

    /// Decides on a rename.
    pub fn process_rename(&mut self, present: bool) -> (r: Step)
        requires
            old(self).has_room(),
            old(self).kind is Rename,
            old(self).progress@.sources.len() > 0,
        ensures
            final(self).same_but_progress(*old(self)),
            if present {
                r == Step::Done && final(self).progress@ == old(self).progress@.pushed(
                    Outcome::Skip,
                )
            } else {
                r == (Step::Ready {
                    src: old(self).progress@.sources[0],
                    dst: old(self).kind->Rename_0,
                    overwrite: false,
                }) && final(self).progress@ == (ProgressView {
                    sources: old(self).progress@.sources.skip(1),
                    ..old(self).progress@
                })
            },
    {
        if present {
            self.progress.push_outcome(Outcome::Skip);
            return Step::Done;
        }
        let dst = match &self.kind {
            Kind::Rename(p) => p.clone(),
            _ => {
                return Step::Done;
            },
        };
        match self.progress.pop_source() {
            Some(src) => Step::Ready { src, dst, overwrite: false },
            None => Step::Done,
        }
    }

    /// Decides on making a directory.
    pub fn process_make_dir(&mut self, new_path: Arc<FilePath>, present: bool) -> (r: Step)
        requires
            old(self).has_room(),
        ensures
            final(self).same_but_progress(*old(self)),
            present ==> r == Step::Done && final(self).progress@ == old(self).progress@.pushed(
                Outcome::Skip,
            ),
            !present ==> r == Step::MakeDir(new_path) && final(self).progress@
                == old(self).progress@,
    {
        if present {
            self.progress.push_outcome(Outcome::Skip);
            return Step::Done;
        }
        Step::MakeDir(new_path)
    }

    /// Decides on making a file.
    pub fn process_make_file(&mut self, new_path: Arc<FilePath>, present: bool) -> (r: Step)
        requires
            old(self).has_room(),
        ensures
            final(self).same_but_progress(*old(self)),
            present ==> r == Step::Done && final(self).progress@ == old(self).progress@.pushed(
                Outcome::Skip,
            ),
            !present ==> r == Step::MakeFile(new_path) && final(self).progress@
                == old(self).progress@,
    {
        if present {
            self.progress.push_outcome(Outcome::Skip);
            return Step::Done;
        }
        Step::MakeFile(new_path)
    }

    /// Goes on once something new was made, or not. Nothing is left to do.
    pub fn made(&mut self, new_path: Arc<FilePath>, created: bool) -> (r: Step)
        requires
            old(self).has_room(),
            old(self).kind is MakeDir || old(self).kind is MakeFile,
        ensures
            r == Step::Done,
            final(self).same_but_progress(*old(self)),
            final(self).progress@ == old(self).progress@.pushed(
                if !created {
                    Outcome::Skip
                } else if old(self).kind is MakeDir {
                    Outcome::CreateDestDir(new_path)
                } else {
                    Outcome::NewFile(new_path)
                },
            ),
    {
        if !created {
            self.progress.push_outcome(Outcome::Skip);
        } else if let Kind::MakeDir(_) = &self.kind {
            self.progress.push_outcome(Outcome::CreateDestDir(new_path));
        } else {
            self.progress.push_outcome(Outcome::NewFile(new_path));
        }
        Step::Done
    }

    /// What a finished copy did.
    pub fn copied(dst: Arc<FilePath>, overwrite: bool) -> (r: Outcome)
        ensures
            r == (if overwrite {
                Outcome::CopyOverwrite(dst)
            } else {
                Outcome::Copy(dst)
            }),
    {
        if overwrite {
            Outcome::CopyOverwrite(dst)
        } else {
            Outcome::Copy(dst)
        }
    }

    /// What a finished deletion did.
    pub fn deleted(was_dir: bool) -> (r: Outcome)
        ensures
            r == (if was_dir {
                Outcome::DeleteDir
            } else {
                Outcome::Delete
            }),
    {
        if was_dir {
            Outcome::DeleteDir
        } else {
            Outcome::Delete
        }
    }

    /// Takes the result of work that was handed out. A failure cancels the
    /// operation. Returns whether the failure is news: that of an operation that
    /// was cancelled already is not.
    pub fn completed(&mut self, result: Option<Outcome>) -> (r: bool)
        requires
            old(self).has_room(),
        ensures
            final(self).tab == old(self).tab,
            final(self).kind == old(self).kind,
            match result {
                Some(o) => !r && final(self).cancelled == old(self).cancelled
                    && final(self).progress@ == old(self).progress@.pushed(o),
                None => r == !old(self).cancelled && final(self).cancelled && final(self).progress@
                    == (if r {
                    ProgressView { conflict: None, ..old(self).progress@ }
                } else {
                    old(self).progress@
                }),
            },
    {
        match result {
            Some(o) => {
                self.progress.push_outcome(o);
                false
            },
            None => {
                if self.cancelled {
                    false
                } else {
                    self.cancel();
                    true
                }
            },
        }
    }

    /// Cancels the operation. Nothing was done for a pending conflict.
    pub fn cancel(&mut self)
        ensures
            final(self).cancelled,
            final(self).tab == old(self).tab,
            final(self).kind == old(self).kind,
            final(self).progress@ == (ProgressView { conflict: None, ..old(self).progress@ }),
    {
        self.progress.conflict = None;
        self.cancelled = true;
    }
}

/// What is done to undo one outcome.
pub open spec fn undo_step(o: Outcome) -> Step {
    match o {
        Outcome::Move { source, dest } => Step::Ready { src: dest, dst: source, overwrite: false },
        Outcome::Copy(path) | Outcome::CopyOverwrite(path) => Step::Delete { path, was_dir: false },
        Outcome::NewFile(path) => Step::DeleteIfEmpty(path),
        Outcome::RemoveSourceDir(path, info) => Step::Recreate(path, info),
        Outcome::CreateDestDir(path) => Step::Delete { path, was_dir: true },
        _ => Step::CallAgain,
    }
}

/// Decides on the next thing to undo. Everything that was done is undone first,
/// the last of it first; then the directories that were recreated get their
/// attributes back, the last of them first.
pub fn process_next_undo(prev: &mut Progress, pending: &mut Vec<(Arc<FilePath>, u64)>) -> (r: Step)
    ensures
        ({
            let i = progress::last_undoable(old(prev)@.log);
            if i >= 0 {
                &&& r == undo_step(old(prev)@.log[i])
                &&& final(prev)@ == (ProgressView { log: old(prev)@.log.take(i), ..old(prev)@ })
                &&& final(pending)@ == old(pending)@
            } else {
                &&& final(prev)@ == (ProgressView { log: Seq::empty(), ..old(prev)@ })
                &&& if old(pending)@.len() > 0 {
                    r == Step::RestoreInfo(old(pending)@.last().0, old(pending)@.last().1)
                        && final(pending)@ == old(pending)@.drop_last()
                } else {
                    r == Step::Done && final(pending)@ == old(pending)@
                }
            }
        }),
{
    match prev.pop_next_undoable() {
        None => match pending.pop() {
            Some((dir, info)) => Step::RestoreInfo(dir, info),
            None => Step::Done,
        },
        Some(o) => match o {
            Outcome::Move { source, dest } => Step::Ready {
                src: dest,
                dst: source,
                overwrite: false,
            },
            Outcome::Copy(path) | Outcome::CopyOverwrite(path) => Step::Delete {
                path,
                was_dir: false,
            },
            Outcome::NewFile(path) => Step::DeleteIfEmpty(path),
            Outcome::RemoveSourceDir(path, info) => Step::Recreate(path, info),
            Outcome::CreateDestDir(path) => Step::Delete { path, was_dir: true },
            Outcome::MergeDestDir(_)
            | Outcome::Skip
            | Outcome::Delete
            | Outcome::DeleteDir
            | Outcome::Trash => Step::CallAgain,
        },
    }
}

/// Goes on with a new file that is to be removed. Only one that is still empty
/// is; `len` is its length, if it could be read.
pub fn undo_new_file(path: Arc<FilePath>, len: Option<u64>) -> (r: Step)
    ensures
        r == (if len == Some(0u64) {
            Step::Delete { path, was_dir: false }
        } else {
            Step::CallAgain
        }),
{
    match len {
        Some(n) => {
            if n == 0 {
                Step::Delete { path, was_dir: false }
            } else {
                Step::CallAgain
            }
        },
        None => Step::CallAgain,
    }
}

/// Goes on with a directory that was removed. It is only recreated if it is not
/// there; `created` says whether that worked.
pub fn recreated(
    progress: &mut Progress,
    pending: &mut Vec<(Arc<FilePath>, u64)>,
    path: Arc<FilePath>,
    info: u64,
    created: bool,
) -> (r: Step)
    requires
        old(progress)@.total < usize::MAX,
        old(progress)@.finished < usize::MAX,
    ensures
        r == Step::CallAgain,
        created ==> final(progress)@ == old(progress)@.pushed(Outcome::CreateDestDir(path))
            && final(pending)@ == old(pending)@.push((path, info)),
        !created ==> final(progress)@ == old(progress)@ && final(pending)@ == old(pending)@,
{
    if created {
        progress.push_outcome(Outcome::CreateDestDir(path.clone()));
        pending.push((path, info));
    }
    Step::CallAgain
}

/// The outcomes in the order in which they are undone.
pub open spec fn undo_order(log: Seq<Outcome>) -> Seq<Outcome>
    decreases log.len(),
{
    let i = progress::last_undoable(log);
    if 0 <= i < log.len() {
        seq![log[i]] + undo_order(log.take(i))
    } else {
        Seq::empty()
    }
}

/// What of a log can be undone, in the order in which it was done.
pub open spec fn undoable_in(log: Seq<Outcome>) -> Seq<Outcome>
    decreases log.len(),
{
    if log.len() == 0 {
        Seq::empty()
    } else if log.last().spec_undoable() {
        undoable_in(log.drop_last()).push(log.last())
    } else {
        undoable_in(log.drop_last())
    }
}

/// Undoing goes through everything that can be undone exactly once, in the
/// reverse of the order in which it was done.
pub proof fn undo_reverses(log: Seq<Outcome>)
    ensures
        undo_order(log) == undoable_in(log).reverse(),
    decreases log.len(),
{
    progress::last_undoable_is_last(log);
    if log.len() > 0 {
        undo_reverses(log.drop_last());
        let i = progress::last_undoable(log);
        if log.last().spec_undoable() {
            assert(log.take(i) =~= log.drop_last());
            assert(undo_order(log) =~= undoable_in(log).reverse());
        } else if i >= 0 {
            assert(log.drop_last().take(i) =~= log.take(i));
            assert(log.drop_last()[i] == log[i]);
        }
    } else {
        assert(undo_order(log) =~= undoable_in(log).reverse());
    }
}

/// Undoing never overwrites a file: what it moves, it moves without
/// overwriting.
pub proof fn undo_never_overwrites(o: Outcome)
    ensures
        undo_step(o) matches Step::Ready { overwrite, .. } ==> !overwrite,
{
}

/// Undoing deletes nothing but what the outcome says was made.
pub proof fn undo_deletes_only_what_was_made(o: Outcome)
    ensures
        undo_step(o) matches Step::Delete { path, .. } ==> o == Outcome::Copy(path) || o
            == Outcome::CopyOverwrite(path) || o == Outcome::CreateDestDir(path),
        undo_step(o) matches Step::DeleteIfEmpty(path) ==> o == Outcome::NewFile(path),
{
}

/// What can be undone is undone: a copy and a directory that was made are deleted, a
/// new file too if it is still empty, what was moved goes back, and a directory that
/// was removed comes back with the attributes that it had.
pub proof fn undoing_is_complete(o: Outcome)
    ensures
        undo_step(o) is CallAgain <==> !o.spec_undoable(),
        o.spec_undoable() <==> !(o is MergeDestDir || o is Skip || o is Delete || o is DeleteDir
            || o is Trash),
        o matches Outcome::Copy(p) ==> (undo_step(o) matches Step::Delete { path, was_dir } && path
            == p && !was_dir),
        o matches Outcome::CopyOverwrite(p) ==> (undo_step(o) matches Step::Delete {
            path,
            was_dir,
        } && path == p && !was_dir),
        o matches Outcome::CreateDestDir(p) ==> (undo_step(o) matches Step::Delete {
            path,
            was_dir,
        } && path == p && was_dir),
        o matches Outcome::Move { source, dest } ==> (undo_step(o) matches Step::Ready {
            src,
            dst,
            overwrite,
        } && src == dest && dst == source && !overwrite),
        o matches Outcome::NewFile(p) ==> undo_step(o) == Step::DeleteIfEmpty(p),
        o matches Outcome::RemoveSourceDir(p, i) ==> undo_step(o) == Step::Recreate(p, i),
{
}

/// What is at a path.
pub enum Node {
    Dir,
    File(int),
}

/// Whether an outcome says what was done to some files. A directory that was renamed
/// as a whole counts as one item. Nothing is said of what was deleted for good.
pub open spec fn did(
    before: Map<Seq<Seq<u8>>, Node>,
    o: Outcome,
    after: Map<Seq<Seq<u8>>, Node>,
) -> bool {
    match o {
        Outcome::Move { source, dest } => {
            &&& before.dom().contains(source@) && !before.dom().contains(dest@)
            &&& after == before.remove(source@).insert(dest@, before[source@])
        },
        Outcome::Copy(p) | Outcome::NewFile(p) => {
            &&& !before.dom().contains(p@) && after.dom().contains(p@)
            &&& after[p@] is File && before == after.remove(p@)
        },
        Outcome::RemoveSourceDir(p, _) => {
            &&& before.dom().contains(p@) && before[p@] is Dir
            &&& after == before.remove(p@)
        },
        Outcome::CreateDestDir(p) => {
            &&& !before.dom().contains(p@)
            &&& after == before.insert(p@, Node::Dir)
        },
        Outcome::MergeDestDir(_) | Outcome::Skip => after == before,
        Outcome::CopyOverwrite(_) | Outcome::Delete | Outcome::DeleteDir | Outcome::Trash => false,
    }
}

/// What a step of undoing does to the files. New files are still empty.
pub open spec fn carried_out(fs: Map<Seq<Seq<u8>>, Node>, step: Step) -> Map<Seq<Seq<u8>>, Node> {
    match step {
        Step::Ready { src, dst, overwrite } => if fs.dom().contains(src@) && (overwrite
            || !fs.dom().contains(dst@)) {
            fs.remove(src@).insert(dst@, fs[src@])
        } else {
            fs
        },
        Step::Delete { path, was_dir } => if fs.dom().contains(path@) && (fs[path@] is Dir
            <==> was_dir) {
            fs.remove(path@)
        } else {
            fs
        },
        Step::DeleteIfEmpty(path) => if fs.dom().contains(path@) && fs[path@] is File {
            fs.remove(path@)
        } else {
            fs
        },
        Step::Recreate(path, _) => if fs.dom().contains(path@) {
            fs
        } else {
            fs.insert(path@, Node::Dir)
        },
        _ => fs,
    }
}

/// Undoing one thing takes back what was done.
pub proof fn undoing_takes_back(
    before: Map<Seq<Seq<u8>>, Node>,
    o: Outcome,
    after: Map<Seq<Seq<u8>>, Node>,
)
    requires
        did(before, o, after),
    ensures
        carried_out(after, undo_step(o)) == before,
{
    assert(carried_out(after, undo_step(o)) =~= before);
}

/// The files once all of a log has been undone, in the order in which it is.
pub open spec fn undone(fs: Map<Seq<Seq<u8>>, Node>, log: Seq<Outcome>) -> Map<
    Seq<Seq<u8>>,
    Node,
>
    decreases log.len(),
{
    let i = progress::last_undoable(log);
    if 0 <= i < log.len() {
        undone(carried_out(fs, undo_step(log[i])), log.take(i))
    } else {
        fs
    }
}

/// Undoing an operation that overwrote and deleted nothing restores the files as they
/// were before it.
pub proof fn undo_restores(states: Seq<Map<Seq<Seq<u8>>, Node>>, log: Seq<Outcome>)
    requires
        states.len() == log.len() + 1,
        forall|i: int| 0 <= i < log.len() ==> did(states[i], #[trigger] log[i], states[i + 1]),
    ensures
        undone(states.last(), log) == states[0],
    decreases log.len(),
{
    if log.len() > 0 {
        let last = log.len() - 1;
        let front = log.drop_last();
        let earlier = states.drop_last();
        assert forall|i: int| 0 <= i < front.len() implies did(
            earlier[i],
            #[trigger] front[i],
            earlier[i + 1],
        ) by {
            assert(front[i] == log[i]);
        }
        undo_restores(earlier, front);
        assert(did(states[last], log[last], states[last + 1]));
        undoing_takes_back(states[last], log[last], states[last + 1]);
        progress::last_undoable_is_last(log);
        undoing_is_complete(log[last]);
        if log.last().spec_undoable() {
            assert(log.take(last) =~= front);
        } else {
            assert(states[last] == states[last + 1]);
            let i = progress::last_undoable(log);
            if i >= 0 {
                assert(front.take(i) =~= log.take(i));
                assert(front[i] == log[i]);
            }
        }
    }
}

/// What becomes of the next item, whether it is moved or copied.
pub open spec fn item_step(
    moves: bool,
    v: ProgressView,
    src: Arc<FilePath>,
    dst: Arc<FilePath>,
    facts: Facts,
) -> (ProgressView, Step) {
    if moves {
        move_step(v, src, dst, facts)
    } else {
        copy_step(v, src, dst, facts)
    }
}

/// A file is overwritten only where the strategy for collisions says so: always,
/// or because the source is newer. That holds for a move as for a copy.
pub proof fn overwriting_is_chosen(
    v: ProgressView,
    src: Arc<FilePath>,
    dst: Arc<FilePath>,
    facts: Facts,
)
    ensures
        copymove_step(v, src, dst, facts).1 matches Step::Ready { overwrite, .. } && overwrite ==> (
        v.file_strat() == FileCollision::Overwrite || (v.file_strat() == FileCollision::Newer
            && facts.src_newer)),
        forall|moves: bool|
            (#[trigger] item_step(moves, v, src, dst, facts)).1 matches Step::Ready {
                overwrite,
                ..
            } && overwrite ==> {
                &&& facts.dst_present && facts.dst_file && !facts.src_dir && src@ != dst@
                &&& match v.file_override {
                    Some(c) => c is Overwrite || (c is Newer && facts.src_newer),
                    None => v.file_collisions is Overwrite || (v.file_collisions is Newer
                        && facts.src_newer),
                }
            },
{
}

/// A file that meets another one is handled by the answer to its conflict, or else
/// as the operation was told to, whether it is moved or copied. The user is asked, and
/// told of just these two files, exactly if nothing else was said. What is left out is
/// noted, and nothing else changes.
pub proof fn colliding_file_is_resolved(
    moves: bool,
    v: ProgressView,
    c: FileCollision,
    src: Arc<FilePath>,
    dst: Arc<FilePath>,
    facts: Facts,
)
    requires
        v.file_override == Some(c) || (v.file_override is None && v.file_collisions == c),
        src@ != dst@,
        facts.src_present && !facts.src_dir && facts.dst_present && facts.dst_file,
    ensures
        ({
            let (w, r) = item_step(moves, v, src, dst, facts);
            &&& r is Asking <==> c is Ask
            &&& r is Asking ==> (w.conflict matches Some(k) && k.kind is FileFile && k.src == src
                && k.dst == dst)
            &&& r !is Asking ==> w.conflict == v.conflict
            &&& r is Ready <==> c is Overwrite || (c is Newer && facts.src_newer)
            &&& r matches Step::Ready { src: s, dst: d, overwrite } ==> s == src && d == dst
                && overwrite
            &&& r is NewName <==> c is Rename
            &&& r matches Step::NewName { src: s, dst: d } ==> s == src && d == dst
            &&& r is CallAgain <==> c is Skip || (c is Newer && !facts.src_newer)
            &&& w.log == (if r is CallAgain {
                v.log.push(Outcome::Skip)
            } else {
                v.log
            })
            &&& w.total == v.total + (w.log.len() - v.log.len())
            &&& w.finished == v.finished
            &&& w.file_override is None
            &&& w.file_collisions == v.file_collisions
            &&& w.directory_override == v.directory_override
            &&& w.directory_collisions == v.directory_collisions
            &&& w.sources == v.sources && w.dirs == v.dirs && w.removals == v.removals && w.known
                == v.known
        }),
{
}

/// A directory that meets another one is merged, skipped or asked about, as the answer
/// to its conflict or else the operation says, and never replaces it.
pub proof fn colliding_directory_is_resolved(
    moves: bool,
    v: ProgressView,
    c: DirectoryCollision,
    src: Arc<FilePath>,
    dst: Arc<FilePath>,
    facts: Facts,
)
    requires
        v.directory_override == Some(c) || (v.directory_override is None && v.directory_collisions
            == c),
        src@ != dst@,
        facts.src_present && facts.src_dir && facts.dst_present && facts.dst_dir,
    ensures
        ({
            let (w, r) = item_step(moves, v, src, dst, facts);
            &&& r is Asking <==> c is Ask
            &&& r is Asking ==> (w.conflict matches Some(k) && k.kind is DirDir && k.src == src
                && k.dst == dst)
            &&& r !is Asking ==> w.conflict == v.conflict
            &&& r is EnterDir <==> c is Merge
            &&& r matches Step::EnterDir { src: s, dst: d, already_existed } ==> s == src && d
                == dst && already_existed
            &&& r is CallAgain <==> c is Skip
            &&& w.log == (match c {
                DirectoryCollision::Ask => v.log,
                DirectoryCollision::Merge => v.log.push(Outcome::MergeDestDir(dst)),
                DirectoryCollision::Skip => v.log.push(Outcome::Skip),
            })
            &&& w.directory_override is None
            &&& w.file_override == v.file_override
            &&& w.file_collisions == v.file_collisions
            &&& w.directory_collisions == v.directory_collisions
            &&& w.sources == v.sources && w.dirs == v.dirs && w.removals == v.removals && w.known
                == v.known
        }),
{
}

/// Where nothing is in the way, the item goes to its destination and nothing is asked:
/// a file is moved or copied, and a directory is moved whole or else made and entered.
pub proof fn free_destination_is_used(
    moves: bool,
    v: ProgressView,
    src: Arc<FilePath>,
    dst: Arc<FilePath>,
    facts: Facts,
)
    requires
        src@ != dst@,
        facts.src_present && !facts.dst_present,
    ensures
        item_step(moves, v, src, dst, facts).0 == v,
        !facts.src_dir ==> item_step(moves, v, src, dst, facts).1 == (Step::Ready {
            src,
            dst,
            overwrite: false,
        }),
        facts.src_dir && moves ==> item_step(moves, v, src, dst, facts).1 == (Step::TryRename {
            src,
            dst,
        }),
        facts.src_dir && !moves ==> item_step(moves, v, src, dst, facts).1 == (Step::CreateDir {
            src,
            dst,
        }),
{
}

/// A file never takes the place of what is no file, nor a directory that of what is no
/// directory: the operation is given up and nothing is done.
pub proof fn kinds_are_not_mixed(
    moves: bool,
    v: ProgressView,
    src: Arc<FilePath>,
    dst: Arc<FilePath>,
    facts: Facts,
)
    requires
        src@ != dst@,
        facts.src_present && facts.dst_present,
        if facts.src_dir {
            !facts.dst_dir
        } else {
            !facts.dst_file
        },
    ensures
        item_step(moves, v, src, dst, facts).0 == v,
        item_step(moves, v, src, dst, facts).1 matches Step::Abort { why, src: s, dst: d } && s
            == src && d == dst && (why is OntoNonFolder <==> facts.src_dir) && (why is OntoNonFile
            <==> !facts.src_dir),
{
}

/// An item that is gone is passed over, and one that is where it should go is left
/// alone by a move and gets another name by a copy.
pub proof fn nothing_is_done_in_place(
    moves: bool,
    v: ProgressView,
    src: Arc<FilePath>,
    dst: Arc<FilePath>,
    facts: Facts,
)
    ensures
        src@ == dst@ && moves ==> item_step(moves, v, src, dst, facts).1 is CallAgain && item_step(
            moves,
            v,
            src,
            dst,
            facts,
        ).0.log == v.log.push(Outcome::Skip),
        src@ == dst@ && !moves ==> item_step(moves, v, src, dst, facts) == (
            v,
            Step::CopyName { src, dst },
        ),
        src@ != dst@ && !facts.src_present ==> item_step(moves, v, src, dst, facts) == (
            v,
            Step::CallAgain,
        ),
{
}

/// What is known of the progress once the user has answered a conflict of files and
/// the files are taken up again.
pub open spec fn answered(v: ProgressView, choice: FileChoice) -> ProgressView {
    let (all, c) = choice.spec_collision();
    if all {
        ProgressView { file_collisions: c, conflict: None, ..v }
    } else {
        ProgressView { file_override: Some(c), conflict: None, ..v }
    }
}

/// An answer to a conflict of files is followed, and by the next conflict too if it
/// was meant for all of them. Otherwise that one is asked about again.
pub proof fn answers_are_followed(
    moves: bool,
    v: ProgressView,
    choice: FileChoice,
    src: Arc<FilePath>,
    dst: Arc<FilePath>,
    facts: Facts,
    next_src: Arc<FilePath>,
    next_dst: Arc<FilePath>,
)
    requires
        v.file_collisions is Ask,
        v.file_override is None,
        src@ != dst@,
        next_src@ != next_dst@,
        facts.src_present && !facts.src_dir && facts.dst_present && facts.dst_file,
    ensures
        ({
            let (w, r) = item_step(moves, answered(v, choice), src, dst, facts);
            let next = item_step(moves, w, next_src, next_dst, facts).1;
            match choice {
                FileChoice::Skip(all) => {
                    &&& r is CallAgain && w.log == v.log.push(Outcome::Skip)
                    &&& if all {
                        next is CallAgain
                    } else {
                        next is Asking
                    }
                },
                FileChoice::Overwrite(all) => {
                    &&& r == (Step::Ready { src, dst, overwrite: true })
                    &&& if all {
                        next == (Step::Ready { src: next_src, dst: next_dst, overwrite: true })
                    } else {
                        next is Asking
                    }
                },
                FileChoice::AutoRename(all) => {
                    &&& r == (Step::NewName { src, dst })
                    &&& if all {
                        next is NewName
                    } else {
                        next is Asking
                    }
                },
                FileChoice::Newer(all) => {
                    &&& if facts.src_newer {
                        r == (Step::Ready { src, dst, overwrite: true })
                    } else {
                        r is CallAgain
                    }
                    &&& !all ==> next is Asking
                    &&& all && !facts.src_newer ==> next is CallAgain
                },
            }
        }),
{
}

/// An answer to a conflict of directories is followed, and by the next conflict too if
/// it was meant for all of them.
pub proof fn directory_answers_are_followed(
    moves: bool,
    v: ProgressView,
    choice: DirChoice,
    src: Arc<FilePath>,
    dst: Arc<FilePath>,
    facts: Facts,
    next_src: Arc<FilePath>,
    next_dst: Arc<FilePath>,
)
    requires
        v.directory_collisions is Ask,
        v.directory_override is None,
        src@ != dst@,
        next_src@ != next_dst@,
        facts.src_present && facts.src_dir && facts.dst_present && facts.dst_dir,
    ensures
        ({
            let (all, c) = choice.spec_collision();
            let told = if all {
                ProgressView { directory_collisions: c, conflict: None, ..v }
            } else {
                ProgressView { directory_override: Some(c), conflict: None, ..v }
            };
            let (w, r) = item_step(moves, told, src, dst, facts);
            let next = item_step(moves, w, next_src, next_dst, facts).1;
            match choice {
                DirChoice::Skip(for_all) => {
                    &&& r is CallAgain && w.log == v.log.push(Outcome::Skip)
                    &&& if for_all {
                        next is CallAgain
                    } else {
                        next is Asking
                    }
                },
                DirChoice::Merge(for_all) => {
                    &&& r == (Step::EnterDir { src, dst, already_existed: true })
                    &&& w.log == v.log.push(Outcome::MergeDestDir(dst))
                    &&& if for_all {
                        next is EnterDir
                    } else {
                        next is Asking
                    }
                },
            }
        }),
{
}

/// The answer to one conflict is used up by the next collision of its kind.
pub proof fn override_is_used_once(
    v: ProgressView,
    src: Arc<FilePath>,
    dst: Arc<FilePath>,
    facts: Facts,
)
    requires
        !facts.src_dir && facts.dst_present && facts.dst_file,
    ensures
        copymove_step(v, src, dst, facts).0.file_override is None,
        copymove_step(v, src, dst, facts).0.directory_override == v.directory_override,
{
}

/// How many finished operations are remembered.
pub const OPERATIONS_HISTORY: usize = 10;

/// An operation that is over.
pub struct Finished {
    pub op: Operation,
    /// When it ended, in nanoseconds.
    pub done_time: u64,
}

/// The operations of the program.
pub struct Operations {
    pub ongoing: Vec<(u64, Operation)>,
    /// The last one to end comes last.
    pub finished: Vec<Finished>,
}

/// What came of a wish to undo.
#[derive(Clone, Copy, Debug, PartialEq, Eq, Structural)]
pub enum UndoResult {
    /// No operation is remembered.
    NothingCompleted,
    /// The last operation is too old, and so are all the others.
    TooOld,
    /// The last operation has nothing to undo.
    NothingToUndo,
    Started,
}

/// Where the ongoing operation with an id is.
pub open spec fn ongoing_at(ongoing: Seq<(u64, Operation)>, id: u64, i: int) -> int
    decreases ongoing.len() - i,
{
    if i >= ongoing.len() {
        ongoing.len() as int
    } else if ongoing[i].0 == id {
        i
    } else {
        ongoing_at(ongoing, id, i + 1)
    }
}

/// Whether an operation that ended at `done` is too old to undo.
pub open spec fn too_old(done: u64, now: u64, limit: Option<u64>) -> bool {
    match limit {
        Some(minutes) => now - done > minutes * 60_000_000_000,
        None => false,
    }
}

/// Whether no two operations have the same id.
pub open spec fn ids_differ(ongoing: Seq<(u64, Operation)>) -> bool {
    forall|i: int, j: int|
        0 <= i < j < ongoing.len() ==> (#[trigger] ongoing[i]).0 != (#[trigger] ongoing[j]).0
}

/// Whether an operation with an id goes on.
pub open spec fn goes_on(ongoing: Seq<(u64, Operation)>, id: u64) -> bool {
    exists|i: int| 0 <= i < ongoing.len() && (#[trigger] ongoing[i]).0 == id
}

/// Those of some operations that are remembered once they are over: what undid
/// another is not.
pub open spec fn remembered(ongoing: Seq<(u64, Operation)>) -> Seq<Operation>
    decreases ongoing.len(),
{
    if ongoing.len() == 0 {
        Seq::empty()
    } else if ongoing.last().1.kind is Undo {
        remembered(ongoing.drop_last())
    } else {
        remembered(ongoing.drop_last()).push(ongoing.last().1)
    }
}

/// Whether `f` is what is remembered of an operation.
pub open spec fn filed(f: Finished, op: Operation, now: u64) -> bool {
    &&& f.done_time == now
    &&& f.op.same_but_progress(op)
    &&& f.op.progress@ == op.progress@.closed()
}

/// Whether `f` is what is remembered of an operation that was cancelled.
pub open spec fn filed_cancelled(f: Finished, op: Operation, now: u64) -> bool {
    &&& f.done_time == now
    &&& f.op.tab == op.tab
    &&& f.op.kind == op.kind
    &&& f.op.cancelled
    &&& f.op.progress@ == (ProgressView { conflict: None, ..op.progress@ }).closed()
}

/// The finished operations that stay when one more is over.
pub open spec fn with_room(finished: Seq<Finished>) -> Seq<Finished> {
    if finished.len() >= OPERATIONS_HISTORY {
        finished.skip(1)
    } else {
        finished
    }
}

/// What is remembered after operations were cancelled, one after the other: the
/// last of what was and of those operations.
pub open spec fn filed_all(
    before: Seq<Finished>,
    ops: Seq<Operation>,
    now: u64,
    after: Seq<Finished>,
) -> bool {
    let all = before.len() + ops.len();
    let gone = if all > OPERATIONS_HISTORY {
        all - OPERATIONS_HISTORY
    } else {
        0
    };
    &&& after.len() == all - gone
    &&& forall|j: int|
        0 <= j < after.len() ==> if j + gone < before.len() {
            #[trigger] after[j] == before[j + gone]
        } else {
            filed_cancelled(after[j], ops[j + gone - before.len()], now)
        }
}

/// The ids of operations.
pub open spec fn ids(ongoing: Seq<(u64, Operation)>) -> Seq<u64> {
    Seq::new(ongoing.len(), |i: int| ongoing[i].0)
}

proof fn found_ongoing(ongoing: Seq<(u64, Operation)>, id: u64, i: int)
    requires
        0 <= i <= ongoing.len(),
    ensures
        i <= ongoing_at(ongoing, id, i) <= ongoing.len(),
        ongoing_at(ongoing, id, i) < ongoing.len() ==> ongoing[ongoing_at(ongoing, id, i)].0 == id,
        ongoing_at(ongoing, id, i) == ongoing.len() ==> forall|k: int|
            i <= k < ongoing.len() ==> (#[trigger] ongoing[k]).0 != id,
    decreases ongoing.len() - i,
{
    if i < ongoing.len() && ongoing[i].0 != id {
        found_ongoing(ongoing, id, i + 1);
    }
}

/// An operation can be undone for the given number of minutes after it ended, and not
/// for a nanosecond more. Without a limit it always can.
pub proof fn minutes_to_undo(done: u64, now: u64, later: u64, minutes: u64)
    requires
        now <= later,
    ensures
        !too_old(done, now, None),
        now == done + minutes * (60 * 1_000_000_000) ==> !too_old(done, now, Some(minutes)),
        now == done + minutes * (60 * 1_000_000_000) + 1 ==> too_old(done, now, Some(minutes)),
        too_old(done, now, Some(minutes)) ==> too_old(done, later, Some(minutes)),
        now <= done ==> !too_old(done, now, Some(minutes)),
{
}

/// The operation that ended last is the one to be undone first, unless it was an undo
/// itself. The ten that ended last are remembered, in their order.
pub proof fn last_to_end_is_undone_first(
    before: Operations,
    id: u64,
    now: u64,
    after: Operations,
    i: int,
)
    requires
        before.finishes(id, now, after),
        0 <= i < before.ongoing@.len(),
        before.ongoing@[i].0 == id,
        ids_differ(before.ongoing@),
        before.finished@.len() <= 10,
    ensures
        ({
            let op = before.ongoing@[i].1;
            if op.kind is Undo {
                after.finished@ == before.finished@
            } else {
                &&& after.finished@.len() == (if before.finished@.len() < 10 {
                    before.finished@.len() + 1
                } else {
                    10
                })
                &&& after.finished@.last().op.kind == op.kind
                &&& after.finished@.last().op.progress@.log == op.progress@.log
                &&& after.finished@.last().done_time == now
                &&& after.finished@.drop_last().is_suffix_of(before.finished@)
            }
        }),
        after.ongoing@.len() == before.ongoing@.len() - 1,
{
    found_at(before.ongoing@, id, 0, i);
    let kept = with_room(before.finished@);
    assert(kept.is_suffix_of(before.finished@)) by {
        let from = before.finished@.len() - kept.len();
        assert(kept =~= before.finished@.skip(from));
    }
}

proof fn found_at(ongoing: Seq<(u64, Operation)>, id: u64, from: int, i: int)
    requires
        0 <= from <= i < ongoing.len(),
        ongoing[i].0 == id,
        ids_differ(ongoing),
    ensures
        ongoing_at(ongoing, id, from) == i,
    decreases i - from,
{
    if from < i {
        assert(ongoing[from].0 != ongoing[i].0);
        found_at(ongoing, id, from + 1, i);
    }
}

/// An operation that is over does not go on.
pub proof fn finished_is_over(before: Operations, id: u64, now: u64, after: Operations)
    requires
        before.valid(),
        before.finishes(id, now, after),
    ensures
        !goes_on(after.ongoing@, id),
{
    let ongoing = before.ongoing@;
    let i = ongoing_at(ongoing, id, 0);
    found_ongoing(ongoing, id, 0);
    if goes_on(after.ongoing@, id) {
        let k = choose|k: int| 0 <= k < after.ongoing@.len() && (#[trigger] after.ongoing@[k]).0 == id;
        if i < ongoing.len() {
            if k == i {
                assert(after.ongoing@[k] == ongoing[ongoing.len() - 1]);
            } else {
                assert(after.ongoing@[k] == ongoing[k]);
            }
        }
    }
}

/// Finishing an operation a second time changes nothing.
pub proof fn finishing_twice(
    before: Operations,
    id: u64,
    first: u64,
    between: Operations,
    second: u64,
    after: Operations,
)
    requires
        before.valid(),
        before.finishes(id, first, between),
        between.finishes(id, second, after),
    ensures
        after.ongoing@ == between.ongoing@,
        after.finished@ == between.finished@,
{
    finished_is_over(before, id, first, between);
    found_ongoing(between.ongoing@, id, 0);
    let i = ongoing_at(between.ongoing@, id, 0);
    if i < between.ongoing@.len() {
        assert(between.ongoing@[i].0 == id);
    }
}

impl Operations {
    pub open spec fn valid(self) -> bool {
        &&& self.finished@.len() <= OPERATIONS_HISTORY
        &&& ids_differ(self.ongoing@)
    }

    /// What is left once the operation with an id is over. If there is none,
    /// nothing changes.
    pub open spec fn finishes(self, id: u64, now: u64, after: Operations) -> bool {
        let i = ongoing_at(self.ongoing@, id, 0);
        if i >= self.ongoing@.len() {
            after.ongoing@ == self.ongoing@ && after.finished@ == self.finished@
        } else {
            let op = self.ongoing@[i].1;
            &&& after.ongoing@ == self.ongoing@.update(i, self.ongoing@.last()).drop_last()
            &&& if op.kind is Undo {
                after.finished@ == self.finished@
            } else {
                &&& after.finished@.len() == with_room(self.finished@).len() + 1
                &&& after.finished@.drop_last() == with_room(self.finished@)
                &&& filed(after.finished@.last(), op, now)
            }
        }
    }

    pub fn new() -> (r: Operations)
        ensures
            r.valid(),
            r.ongoing@.len() == 0,
            r.finished@.len() == 0,
    {
        Operations { ongoing: Vec::new(), finished: Vec::new() }
    }

    fn find(&self, id: u64) -> (r: usize)
        ensures
            r == ongoing_at(self.ongoing@, id, 0),
            r <= self.ongoing.len(),
    {
        let mut i: usize = 0;
        while i < self.ongoing.len()
            invariant
                i <= self.ongoing.len(),
                ongoing_at(self.ongoing@, id, 0) == ongoing_at(self.ongoing@, id, i as int),
            decreases self.ongoing.len() - i,
        {
            if self.ongoing[i].0 == id {
                return i;
            }
            i += 1;
        }
        i
    }

    /// Starts an operation, unless it is invalid. No operation that goes on has
    /// its id.
    pub fn start_operation(
        &mut self,
        id: u64,
        tab: TabId,
        kind: Kind,
        files: &Vec<Arc<FilePath>>,
        directory_collisions: DirectoryCollision,
        file_collisions: FileCollision,
    ) -> (r: Option<Invalid>)
        requires
            old(self).valid(),
            !goes_on(old(self).ongoing@, id),
        ensures
            final(self).valid(),
            r == validity(kind, files@),
            final(self).finished@ == old(self).finished@,
            r is Some ==> final(self).ongoing@ == old(self).ongoing@,
            r is None ==> {
                let new = final(self).ongoing@.last();
                &&& final(self).ongoing@.len() == old(self).ongoing@.len() + 1
                &&& final(self).ongoing@.drop_last() == old(self).ongoing@
                &&& new.0 == id
                &&& new.1.tab == tab
                &&& new.1.kind == kind
                &&& !new.1.cancelled
                &&& new.1.progress@.fresh(files@, directory_collisions, file_collisions)
            },
    {
        match Operation::new(tab, kind, files, directory_collisions, file_collisions) {
            Ok(op) => {
                let ghost before = self.ongoing@;
                self.ongoing.push((id, op));
                assert(self.ongoing@.drop_last() =~= before);
                None
            },
            Err(e) => Some(e),
        }
    }

    /// Remembers an operation that is over.
    fn file(&mut self, op: Operation, now: u64)
        requires
            old(self).finished@.len() <= OPERATIONS_HISTORY,
        ensures
            final(self).ongoing == old(self).ongoing,
            final(self).finished@.len() <= OPERATIONS_HISTORY,
            final(self).finished@ == with_room(old(self).finished@).push(
                (Finished { op, done_time: now }),
            ),
    {
        let ghost before = self.finished@;
        if self.finished.len() >= OPERATIONS_HISTORY {
            let _ = self.finished.remove(0);
            assert(self.finished@ =~= before.skip(1));
        }
        self.finished.push(Finished { op, done_time: now });
    }

    /// Files an operation away that is over. Doing so again changes nothing, and
    /// what undid another is not remembered.
    pub fn finish_operation(&mut self, id: u64, now: u64)
        requires
            old(self).valid(),
        ensures
            final(self).valid(),
            old(self).finishes(id, now, *final(self)),
            !goes_on(final(self).ongoing@, id),
    {
        let ghost start = *self;
        let i: usize = self.find(id);
        proof {
            found_ongoing(start.ongoing@, id, 0);
        }
        if i >= self.ongoing.len() {
            proof {
                finished_is_over(start, id, now, *self);
            }
            return;
        }
        let (_, mut op) = self.ongoing.swap_remove(i);
        let ghost before = start.ongoing@;
        assert(self.ongoing@ =~= before.update(i as int, before.last()).drop_last());
        assert(ids_differ(self.ongoing@)) by {
            assert forall|a: int, b: int| 0 <= a < b < self.ongoing@.len() implies (
            #[trigger] self.ongoing@[a]).0 != (#[trigger] self.ongoing@[b]).0 by {
                let (x, y) = (
                    if a == i {
                        before.len() - 1
                    } else {
                        a
                    },
                    if b == i {
                        before.len() - 1
                    } else {
                        b
                    },
                );
                assert(self.ongoing@[a] == before[x] && self.ongoing@[b] == before[y]);
            }
        }
        op.progress.close();
        if let Kind::Undo { .. } = &op.kind {
            proof {
                finished_is_over(start, id, now, *self);
            }
            return;
        }
        self.file(op, now);
        assert(self.finished@.drop_last() =~= with_room(start.finished@));
        proof {
            finished_is_over(start, id, now, *self);
        }
    }

    /// Starts to undo the operation that ended last. `limit` is the age in
    /// minutes up to which operations can be undone. No operation that goes on
    /// has the id.
    pub fn undo_operation(
        &mut self,
        id: u64,
        now: u64,
        limit: Option<u64>,
        directory_collisions: DirectoryCollision,
        file_collisions: FileCollision,
    ) -> (r: UndoResult)
        requires
            old(self).valid(),
            !goes_on(old(self).ongoing@, id),
        ensures
            final(self).valid(),
            r == UndoResult::NothingCompleted <==> old(self).finished@.len() == 0,
            r == UndoResult::TooOld <==> old(self).finished@.len() > 0 && too_old(
                old(self).finished@.last().done_time,
                now,
                limit,
            ),
            r == UndoResult::NothingToUndo <==> old(self).finished@.len() > 0 && !too_old(
                old(self).finished@.last().done_time,
                now,
                limit,
            ) && progress::last_undoable(old(self).finished@.last().op.progress@.log) < 0,
            r != UndoResult::Started ==> final(self).ongoing@ == old(self).ongoing@,
            final(self).finished@ == (match r {
                UndoResult::NothingCompleted => old(self).finished@,
                UndoResult::TooOld => Seq::empty(),
                _ => old(self).finished@.drop_last(),
            }),
            r == UndoResult::Started ==> {
                &&& final(self).ongoing@.len() == old(self).ongoing@.len() + 1
                &&& final(self).ongoing@.drop_last() == old(self).ongoing@
                &&& final(self).ongoing@.last().0 == id
                &&& final(self).ongoing@.last().1.tab == old(self).finished@.last().op.tab
                &&& !final(self).ongoing@.last().1.cancelled
                &&& final(self).ongoing@.last().1.progress@.fresh(
                    Seq::empty(),
                    directory_collisions,
                    file_collisions,
                )
                &&& final(self).ongoing@.last().1.kind matches Kind::Undo {
                    prev,
                    pending_dir_info,
                } && *prev == old(self).finished@.last().op && pending_dir_info@.len() == 0
            },
    {
        let last = match self.finished.pop() {
            Some(f) => f,
            None => {
                return UndoResult::NothingCompleted;
            },
        };
        if let Some(minutes) = limit {
            let age: u64 = if now > last.done_time {
                now - last.done_time
            } else {
                0
            };
            assert(minutes * 60_000_000_000 <= u128::MAX) by (nonlinear_arith)
                requires
                    0 <= minutes <= u64::MAX,
            ;
            if age as u128 > minutes as u128 * 60_000_000_000 {
                self.finished.clear();
                assert(self.finished@ =~= Seq::empty());
                return UndoResult::TooOld;
            }
        }
        proof {
            progress::last_undoable_is_last(last.op.progress@.log);
        }
        if !last.op.progress.has_any_undoable() {
            assert(progress::last_undoable(last.op.progress@.log) < 0);
            return UndoResult::NothingToUndo;
        }
        let tab = last.op.tab;
        let kind = Kind::Undo { prev: Box::new(last.op), pending_dir_info: Vec::new() };
        let nothing: Vec<Arc<FilePath>> = Vec::new();
        let progress = Progress::new(&nothing, directory_collisions, file_collisions);
        let ghost before = self.ongoing@;
        assert(nothing@ =~= Seq::empty());
        self.ongoing.push((id, Operation { tab, kind, cancelled: false, progress }));
        assert(self.ongoing@.drop_last() =~= before);
        UndoResult::Started
    }

    /// Cancels every ongoing operation. What they have done can be undone like
    /// that of operations which came to their end. Returns their ids.
    pub fn cancel_operations(&mut self, now: u64) -> (r: Vec<u64>)
        requires
            old(self).valid(),
        ensures
            final(self).valid(),
            final(self).ongoing@.len() == 0,
            r@ == ids(old(self).ongoing@),
            filed_all(
                old(self).finished@,
                remembered(old(self).ongoing@),
                now,
                final(self).finished@,
            ),
    {
        let mut ops: Vec<(u64, Operation)> = Vec::new();
        let ghost before = self.ongoing@;
        let ghost start = self.finished@;
        std::mem::swap(&mut ops, &mut self.ongoing);
        let mut r: Vec<u64> = Vec::new();
        let ghost mut i: int = 0;
        assert(ops@ =~= before.skip(0));
        assert(before.take(0) =~= Seq::empty());
        while ops.len() > 0
            invariant
                0 <= i <= before.len(),
                ops@ == before.skip(i),
                r@ =~= ids(before).take(i),
                self.ongoing@.len() == 0,
                self.finished@.len() <= OPERATIONS_HISTORY,
                start.len() <= OPERATIONS_HISTORY,
                filed_all(start, remembered(before.take(i)), now, self.finished@),
            decreases ops.len(),
        {
            let (id, mut op) = ops.remove(0);
            assert(op == before[i].1);
            assert(before.take(i + 1).drop_last() =~= before.take(i));
            assert(before.take(i + 1).last() == before[i]);
            assert(ops@ =~= before.skip(i + 1));
            r.push(id);
            op.cancel();
            op.progress.close();
            let ghost earlier = self.finished@;
            let ghost known = remembered(before.take(i));
            let undoing = match &op.kind {
                Kind::Undo { .. } => true,
                _ => false,
            };
            if !undoing {
                self.file(op, now);
                assert(self.finished@.drop_last() =~= with_room(earlier));
                assert(filed_all(start, known.push(before[i].1), now, self.finished@)) by {
                    filing_one_more(start, known, before[i].1, now, earlier, self.finished@);
                }
            }
            proof {
                i = i + 1;
            }
        }
        assert(before.take(i) =~= before);
        assert(r@ =~= ids(before));
        r
    }
}

proof fn filing_one_more(
    start: Seq<Finished>,
    ops: Seq<Operation>,
    op: Operation,
    now: u64,
    between: Seq<Finished>,
    after: Seq<Finished>,
)
    requires
        start.len() <= OPERATIONS_HISTORY,
        filed_all(start, ops, now, between),
        after.len() == with_room(between).len() + 1,
        after.drop_last() == with_room(between),
        filed_cancelled(after.last(), op, now),
    ensures
        filed_all(start, ops.push(op), now, after),
{
    let all = start.len() + ops.len();
    let gone = if all > OPERATIONS_HISTORY {
        all - OPERATIONS_HISTORY
    } else {
        0
    };
    let gone2 = if all + 1 > OPERATIONS_HISTORY {
        all + 1 - OPERATIONS_HISTORY
    } else {
        0
    };
    assert forall|j: int| 0 <= j < after.len() implies if j + gone2 < start.len() {
        #[trigger] after[j] == start[j + gone2]
    } else {
        filed_cancelled(after[j], ops.push(op)[j + gone2 - start.len()], now)
    } by {
        if j < after.len() - 1 {
            assert(after[j] == after.drop_last()[j]);
            assert(with_room(between)[j] == between[j + gone2 - gone]);
        }
    }
}

/// The text that tells of a conflict. The names are given as they are shown in
/// quotes; `src` is given if it differs from `dst`.
pub open spec fn conflict_text(kind: ConflictKind, dst: Seq<char>, src: Option<Seq<char>>) -> Seq<
    char,
> {
    match src {
        None => "Destination "@ + kind.spec_dst_str() + " "@ + dst + " already exists"@,
        Some(s) => "Destination "@ + kind.spec_dst_str() + " "@ + dst + " (source: "@ + s
            + ") already exists"@,
    }
}

pub fn top_text(kind: ConflictKind, dst: &str, src: Option<&str>) -> (r: String)
    ensures
        r@ == conflict_text(
            kind,
            dst@,
            match src {
                Some(s) => Some(s@),
                None => None,
            },
        ),
{
    let mut t = "Destination ".to_owned();
    t.append(kind.dst_str());
    t.append(" ");
    t.append(dst);
    match src {
        None => {
            t.append(" already exists");
        },
        Some(s) => {
            t.append(" (source: ");
            t.append(s);
            t.append(") already exists");
        },
    }
    t
}

/// What stands for a path in a question about a conflict: its name, or else all
/// of it.
pub open spec fn label_of(p: Seq<Seq<u8>>) -> Seq<u8> {
    match name_of(p) {
        Some(n) => n,
        None => path::path_bytes(p),
    }
}

/// What stands for a path in a question about a conflict.
pub fn conflict_label(p: &FilePath) -> (r: Vec<u8>)
    ensures
        r@ == label_of(p@),
{
    match p.file_name() {
        Some(n) => n,
        None => p.to_bytes(),
    }
}

/// The question about a conflict. The labels of its paths are given as they are
/// shown in quotes; the source is named if its name is not that of the
/// destination.
pub fn conflict_question(conflict: &Conflict, dst: &str, src: &str) -> (r: String)
    ensures
        r@ == conflict_text(
            conflict.kind,
            dst@,
            if name_of(conflict.src@) != name_of(conflict.dst@) {
                Some(src@)
            } else {
                None
            },
        ),
{
    if same_name(&conflict.src, &conflict.dst) {
        top_text(conflict.kind, dst, None)
    } else {
        top_text(conflict.kind, dst, Some(src))
    }
}

/// The text of the switch that makes an answer hold for the rest.
pub fn use_rest_label(kind: ConflictKind) -> (r: &'static str)
    ensures
        r@ == match kind {
            ConflictKind::DirDir => "Apply to all remaining directories"@,
            ConflictKind::FileFile => "Apply to all remaining files"@,
        },
{
    match kind {
        ConflictKind::DirDir => "Apply to all remaining directories",
        ConflictKind::FileFile => "Apply to all remaining files",
    }
}

/// Whether a source and its destination have the same name.
pub fn same_name(a: &FilePath, b: &FilePath) -> (r: bool)
    ensures
        r == (name_of(a@) == name_of(b@)),
{
    match (a.file_name(), b.file_name()) {
        (Some(x), Some(y)) => crate::text::equal_bytes(&x, &y),
        (None, None) => true,
        _ => false,
    }
}

/// The name of a path. The root has none, and `..` is none.
pub open spec fn name_of(p: Seq<Seq<u8>>) -> Option<Seq<u8>> {
    if p.len() > 0 && p.last() != seq![path::DOT, path::DOT] {
        Some(p.last())
    } else {
        None
    }
}

/// The text that tells why an operation was aborted. The paths are given as they
/// are shown in quotes.
pub open spec fn aborted_text(
    kind: Seq<char>,
    why: Abort,
    src: Seq<char>,
    dst: Seq<char>,
    error: Seq<char>,
) -> Seq<char> {
    match why {
        Abort::OntoNonFile => "Tried to "@ + kind + " "@ + src + " onto non-file "@ + dst
            + ", aborting"@,
        Abort::OntoNonFolder => "Tried to "@ + kind + " "@ + src + " onto non-folder "@ + dst
            + ", aborting"@,
        Abort::NoNewName => "Failed to find new name for "@ + src,
        Abort::UnreadableSource => "Failed to read source directory "@ + src + ": "@ + error,
        Abort::UnlistedSource => "Failed to "@ + kind + " directory "@ + src + ": "@ + error,
    }
}

pub fn abort_text(kind: &Kind, why: Abort, src: &str, dst: &str, error: &str) -> (r: String)
    ensures
        r@ == aborted_text(kind.spec_str(), why, src@, dst@, error@),
{
    match why {
        Abort::OntoNonFile | Abort::OntoNonFolder => {
            let mut t = "Tried to ".to_owned();
            t.append(kind.str());
            t.append(" ");
            t.append(src);
            if let Abort::OntoNonFile = why {
                t.append(" onto non-file ");
            } else {
                t.append(" onto non-folder ");
            }
            t.append(dst);
            t.append(", aborting");
            t
        },
        Abort::NoNewName => {
            let mut t = "Failed to find new name for ".to_owned();
            t.append(src);
            t
        },
        Abort::UnreadableSource => {
            let mut t = "Failed to read source directory ".to_owned();
            t.append(src);
            t.append(": ");
            t.append(error);
            t
        },
        Abort::UnlistedSource => {
            let mut t = "Failed to ".to_owned();
            t.append(kind.str());
            t.append(" directory ");
            t.append(src);
            t.append(": ");
            t.append(error);
            t
        },
    }
}

/// Operations that are cancelled are remembered in their order, but for undoing, and
/// the ten that ended last are kept.
pub proof fn cancelled_are_remembered(
    a: Seq<(u64, Operation)>,
    op: (u64, Operation),
    b: Seq<(u64, Operation)>,
)
    ensures
        remembered(seq![op]) == (if op.1.kind is Undo {
            Seq::empty()
        } else {
            seq![op.1]
        }),
        remembered(a + b) == remembered(a) + remembered(b),
    decreases b.len(),
{
    let none = Seq::<(u64, Operation)>::empty();
    assert(seq![op].drop_last() =~= none);
    assert(remembered(none) =~= Seq::<Operation>::empty());
    assert(!(op.1.kind is Undo) ==> remembered(seq![op]) =~= seq![op.1]);
    if b.len() > 0 {
        cancelled_are_remembered(a, op, b.drop_last());
        assert((a + b).drop_last() =~= a + b.drop_last());
        assert(remembered(a + b) =~= remembered(a) + remembered(b));
    } else {
        assert(a + b =~= a);
        assert(remembered(a + b) =~= remembered(a) + remembered(b));
    }
}

/// Whatever is filed at once, no more than ten operations are kept, and the last of
/// them is the last that was filed.
pub proof fn last_filed_is_last(
    before: Seq<Finished>,
    ops: Seq<Operation>,
    now: u64,
    after: Seq<Finished>,
)
    requires
        filed_all(before, ops, now, after),
        ops.len() > 0,
    ensures
        0 < after.len() <= 10,
        after.last().op.kind == ops.last().kind,
        after.last().op.progress@.log == ops.last().progress@.log,
        after.last().op.cancelled,
        before.len() + ops.len() <= 10 ==> after.len() == before.len() + ops.len() && after.take(
            before.len() as int,
        ) == before,
{
    let j = after.len() - 1;
    assert(after[j] == after.last());
    if before.len() + ops.len() <= 10 {
        assert forall|i: int| 0 <= i < before.len() implies #[trigger] after[i] == before[i] by {}
        assert(after.take(before.len() as int) =~= before);
    }
}

} // verus!
