use std::sync::Arc;

use aw_fm::config::{DirectoryCollision, FileCollision};
use aw_fm::operations::{
    abort_text, conflict_label, conflict_question, process_next_undo, recreated, same_name,
    top_text, undo_new_file, use_rest_label, Abort, Facts, Invalid, Kind, Operation, Operations,
    Step, UndoResult, OPERATIONS_HISTORY,
};
use aw_fm::names::Fragment;
use aw_fm::pane::TabId;
use aw_fm::path::FilePath;
use aw_fm::progress::{
    Conflict, ConflictKind, DestinationDirectory, DirChoice, FileChoice, NextCopyMove, NextRemove,
    Outcome, Progress,
};

const TAB: TabId = TabId(1);

const MINUTE: u64 = 60_000_000_000;

fn arc(s: &str) -> Arc<FilePath> {
    Arc::new(FilePath::parse(&s.as_bytes().to_vec()).unwrap())
}

fn text(p: &FilePath) -> String {
    String::from_utf8(p.to_bytes()).unwrap()
}

fn arcs(v: &[&str]) -> Vec<Arc<FilePath>> {
    v.iter().map(|s| arc(s)).collect()
}

fn start(kind: Kind, sources: &[&str]) -> Result<Operation, Invalid> {
    Operation::new(TAB, kind, &arcs(sources), DirectoryCollision::Ask, FileCollision::Ask)
}

fn op(kind: Kind, sources: &[&str], d: DirectoryCollision, f: FileCollision) -> Operation {
    Operation::new(TAB, kind, &arcs(sources), d, f).ok().unwrap()
}

fn progress(sources: &[&str]) -> Progress {
    Progress::new(&arcs(sources), DirectoryCollision::Ask, FileCollision::Ask)
}

const FILE: Facts = Facts {
    src_present: true,
    src_dir: false,
    dst_present: false,
    dst_file: false,
    dst_dir: false,
    src_newer: false,
};

const TAKEN: Facts = Facts { dst_present: true, dst_file: true, ..FILE };

const DIR: Facts = Facts { src_dir: true, ..FILE };

const DIR_TAKEN: Facts = Facts { dst_present: true, dst_dir: true, ..DIR };

#[test]
fn operations_that_are_invalid() {
    assert_eq!(start(Kind::Move(arc("/d")), &[]).err(), Some(Invalid::Empty));
    assert_eq!(
        start(Kind::Copy(arc("/a/b/c")), &["/x", "/a/b"]).err(),
        Some(Invalid::IntoItself(1))
    );
    assert_eq!(start(Kind::Move(arc("/a")), &["/a"]).err(), Some(Invalid::IntoItself(0)));
    assert_eq!(
        start(Kind::Rename(arc("/a/x")), &["/a/b", "/a/c"]).err(),
        Some(Invalid::RenameCount(2))
    );
    assert_eq!(
        start(Kind::Rename(arc("/b/x")), &["/a/b"]).err(),
        Some(Invalid::OtherDirectory)
    );
    assert_eq!(
        start(Kind::MakeDir(arc("/a/b")), &["/x"]).err(),
        Some(Invalid::MakeWithSources(1))
    );
    assert_eq!(
        start(Kind::MakeFile(arc("/a/b")), &["/x", "/y"]).err(),
        Some(Invalid::MakeWithSources(2))
    );
    assert!(start(Kind::Copy(arc("/a/bc")), &["/a/b"]).is_ok());
    assert!(start(Kind::Rename(arc("/a/x")), &["/a/b"]).is_ok());
}

#[test]
fn kinds() {
    assert_eq!(Kind::Trash(arc("/d")).str(), "Trash");
    assert_eq!(Kind::MakeDir(arc("/d")).str(), "MakeDir");
    assert_eq!(text(&Kind::Delete(arc("/d")).dir()), "/d");
    let prev = start(Kind::Copy(arc("/x")), &["/a"]).ok().unwrap();
    let undo = Kind::Undo { prev: Box::new(prev), pending_dir_info: vec![] };
    assert_eq!(text(&undo.dir()), "/x");
    assert_eq!(Kind::Move(arc("/d")).rename_fragment(), Fragment::Moved);
    assert_eq!(Kind::Copy(arc("/d")).rename_fragment(), Fragment::Copied);
}

#[test]
fn sources_come_one_by_one() {
    let mut p = progress(&["/s/a", "/", "/s/b"]);
    let root = arc("/d");
    assert!(!p.wants_dir_entry());
    assert!(matches!(p.next_copymove_pair(&root, None),
        Some(NextCopyMove::Files(s, d)) if text(&s) == "/s/a" && text(&d) == "/d/a"));
    p.push_dest_dir(DestinationDirectory {
        source: arc("/s/a"),
        dest: arc("/d/a"),
        original_info: 3,
        already_existed: false,
    });
    assert!(p.wants_dir_entry());
    assert!(matches!(p.next_copymove_pair(&root, Some(b"x".to_vec())),
        Some(NextCopyMove::Files(s, d)) if text(&s) == "/s/a/x" && text(&d) == "/d/a/x"));
    p.conflict = Some(Conflict {
        kind: ConflictKind::FileFile,
        src: arc("/s/a/x"),
        dst: arc("/d/a/x"),
    });
    assert!(!p.wants_dir_entry());
    assert!(p.conflict_rename(&b"/x/z".to_vec()));
    assert_eq!(text(&p.conflict.as_ref().unwrap().dst), "/x/z");
    assert!(p.conflict_rename(&b"../b/./c".to_vec()));
    assert_eq!(text(&p.conflict.as_ref().unwrap().dst), "/x/../b/c");
    assert!(p.conflict_rename(&b"/d/a/x".to_vec()));
    assert!(p.conflict_rename(&b"y".to_vec()));
    assert!(matches!(p.next_copymove_pair(&root, None),
        Some(NextCopyMove::Files(s, d)) if text(&s) == "/s/a/x" && text(&d) == "/d/a/y"));
    assert!(matches!(p.next_copymove_pair(&root, None),
        Some(NextCopyMove::FinishedDir(d)) if d.original_info == 3));
    assert!(matches!(p.next_copymove_pair(&root, None),
        Some(NextCopyMove::Files(s, _)) if text(&s) == "/s/b"));
    assert!(p.next_copymove_pair(&root, None).is_none());
}

#[test]
fn removals_go_depth_first() {
    let mut p = progress(&["/a", "/b"]);
    assert!(matches!(p.next_remove(None), Some(NextRemove::File(x)) if text(&x) == "/a"));
    p.push_removal_dir(arc("/a"));
    assert!(matches!(p.next_remove(Some(b"c".to_vec())),
        Some(NextRemove::File(x)) if text(&x) == "/a/c"));
    assert!(matches!(p.next_remove(None), Some(NextRemove::FinishedDir(x)) if text(&x) == "/a"));
    assert!(matches!(p.next_remove(None), Some(NextRemove::File(x)) if text(&x) == "/b"));
    assert!(p.next_remove(None).is_none());
    assert!(p.pop_source().is_none());
}

#[test]
fn outcomes_are_tallied() {
    let mut p = progress(&[]);
    p.push_outcome(Outcome::Copy(arc("/a")));
    p.push_outcome(Outcome::Skip);
    p.push_outcome(Outcome::RemoveSourceDir(arc("/s"), 1));
    p.push_outcome(Outcome::Trash);
    assert_eq!((p.finished, p.total), (2, 3));
    assert!(p.has_any_undoable());
    assert!(matches!(p.pop_next_undoable(), Some(Outcome::RemoveSourceDir(_, 1))));
    assert!(matches!(p.pop_next_undoable(), Some(Outcome::Copy(_))));
    assert!(p.pop_next_undoable().is_none());
    assert!(!p.has_any_undoable());
    assert!(!Outcome::MergeDestDir(arc("/a")).undoable());
    assert!(!Outcome::DeleteDir.undoable());
    assert!(Outcome::NewFile(arc("/a")).undoable());
}

#[test]
fn choices_apply_once_or_to_all() {
    let mut p = progress(&[]);
    assert_eq!(p.file_strat(), FileCollision::Ask);
    p.set_file_strat(FileChoice::Overwrite(false));
    assert_eq!(p.file_strat(), FileCollision::Overwrite);
    assert_eq!(p.file_strat(), FileCollision::Ask);
    p.set_file_strat(FileChoice::Newer(true));
    assert_eq!(p.file_strat(), FileCollision::Newer);
    assert_eq!(p.file_strat(), FileCollision::Newer);
    p.set_directory_strat(DirChoice::Merge(false));
    assert_eq!(p.directory_strat(), DirectoryCollision::Merge);
    assert_eq!(p.directory_strat(), DirectoryCollision::Ask);
    p.set_directory_strat(DirChoice::Skip(true));
    assert_eq!(p.directory_strat(), DirectoryCollision::Skip);
    assert_eq!(FileChoice::AutoRename(true).collision(), (true, FileCollision::Rename));
    assert_eq!(FileChoice::Skip(false).collision(), (false, FileCollision::Skip));
}

#[test]
fn files_collide() {
    let (s, d) = (arc("/s/a"), arc("/d/a"));
    let with = |f, facts: Facts| {
        let mut o = op(Kind::Copy(arc("/d")), &["/s/a"], DirectoryCollision::Ask, f);
        let step = o.process_next_copy(s.clone(), d.clone(), facts);
        (o, step)
    };
    assert!(matches!(with(FileCollision::Ask, FILE).1, Step::Ready { overwrite: false, .. }));
    let (o, step) = with(FileCollision::Ask, TAKEN);
    assert!(matches!(step, Step::Asking));
    assert!(o.progress.conflict.is_some());
    assert!(matches!(
        with(FileCollision::Overwrite, TAKEN).1,
        Step::Ready { overwrite: true, .. }
    ));
    assert!(matches!(with(FileCollision::Rename, TAKEN).1, Step::NewName { .. }));
    let newer = Facts { src_newer: true, ..TAKEN };
    assert!(matches!(with(FileCollision::Newer, newer).1, Step::Ready { overwrite: true, .. }));
    let (o, step) = with(FileCollision::Newer, TAKEN);
    assert!(matches!(step, Step::CallAgain));
    assert!(matches!(o.progress.log[0], Outcome::Skip));
    assert!(matches!(with(FileCollision::Skip, TAKEN).1, Step::CallAgain));
    let odd = Facts { dst_file: false, dst_dir: true, ..TAKEN };
    assert!(matches!(
        with(FileCollision::Overwrite, odd).1,
        Step::Abort { why: Abort::OntoNonFile, .. }
    ));
    let gone = Facts { src_present: false, ..FILE };
    assert!(matches!(with(FileCollision::Ask, gone).1, Step::CallAgain));
}

#[test]
fn directories_collide() {
    let (s, d) = (arc("/s/a"), arc("/d/a"));
    let with = |c, facts: Facts| {
        let mut o = op(Kind::Move(arc("/d")), &["/s/a"], c, FileCollision::Ask);
        let step = o.prepare_dest_dir(s.clone(), d.clone(), facts);
        (o, step)
    };
    assert!(matches!(with(DirectoryCollision::Ask, DIR).1, Step::CreateDir { .. }));
    assert!(matches!(with(DirectoryCollision::Ask, DIR_TAKEN).1, Step::Asking));
    let (o, step) = with(DirectoryCollision::Merge, DIR_TAKEN);
    assert!(matches!(step, Step::EnterDir { already_existed: true, .. }));
    assert!(matches!(o.progress.log[0], Outcome::MergeDestDir(_)));
    assert!(matches!(with(DirectoryCollision::Skip, DIR_TAKEN).1, Step::CallAgain));
    let odd = Facts { dst_file: true, dst_dir: false, ..DIR_TAKEN };
    assert!(matches!(
        with(DirectoryCollision::Merge, odd).1,
        Step::Abort { why: Abort::OntoNonFolder, .. }
    ));
}

#[test]
fn directories_are_copied() {
    let mut o = op(
        Kind::Move(arc("/d")),
        &["/s/a"],
        DirectoryCollision::Ask,
        FileCollision::Ask,
    );
    let (s, d) = (arc("/s/a"), arc("/d/a"));
    assert!(matches!(o.process_next_move(s.clone(), d.clone(), DIR), Step::TryRename { .. }));
    assert!(matches!(
        o.tried_rename(s.clone(), d.clone(), false, DIR),
        Step::CreateDir { .. }
    ));
    assert!(matches!(o.created_dest_dir(s.clone(), d.clone(), false), Step::CallAgain));
    assert!(matches!(
        o.created_dest_dir(s.clone(), d.clone(), true),
        Step::EnterDir { already_existed: false, .. }
    ));
    assert!(matches!(
        o.enter_dir(s.clone(), d.clone(), false, None, true),
        Step::Abort { why: Abort::UnreadableSource, .. }
    ));
    assert!(matches!(
        o.enter_dir(s.clone(), d.clone(), false, Some(7), false),
        Step::Abort { why: Abort::UnlistedSource, .. }
    ));
    assert!(matches!(o.enter_dir(s.clone(), d.clone(), false, Some(7), true), Step::CallAgain));
    let done = o.progress.next_copymove_pair(&arc("/d"), None);
    let dir = match done {
        Some(NextCopyMove::FinishedDir(dir)) => dir,
        _ => panic!("the directory is finished"),
    };
    assert!(matches!(o.left_dir(dir, true), Step::CallAgain));
    assert!(matches!(o.progress.log.last(), Some(Outcome::RemoveSourceDir(p, 7)) if text(p) == "/s/a"));
    assert!(matches!(o.tried_rename(s.clone(), d.clone(), true, DIR), Step::CallAgain));
    assert!(matches!(o.progress.log.last(), Some(Outcome::Move { .. })));
    // Nothing happens where the item is there already.
    assert!(matches!(o.process_next_move(s.clone(), s, FILE), Step::CallAgain));
    assert!(matches!(o.progress.log.last(), Some(Outcome::Skip)));
}

#[test]
fn copies_get_new_names() {
    let mut o = op(
        Kind::Copy(arc("/d")),
        &["/d/a"],
        DirectoryCollision::Ask,
        FileCollision::Ask,
    );
    let p = arc("/d/a");
    assert!(matches!(o.process_next_copy(p.clone(), p.clone(), FILE), Step::CopyName { .. }));
    assert!(matches!(o.named_copy(p.clone(), None, FILE), Step::Done));
    assert!(matches!(
        o.named_copy(p.clone(), Some(arc("/d/a (copy 1)")), FILE),
        Step::Ready { overwrite: false, .. }
    ));
    assert!(matches!(
        Operation::named(p.clone(), p.clone(), None),
        Step::Abort { why: Abort::NoNewName, .. }
    ));
    assert!(matches!(
        Operation::named(p.clone(), p.clone(), Some(arc("/d/b"))),
        Step::Ready { dst, overwrite: false, .. } if text(&dst) == "/d/b"
    ));
    assert!(matches!(Operation::copied(p.clone(), true), Outcome::CopyOverwrite(_)));
    assert!(matches!(Operation::copied(p, false), Outcome::Copy(_)));
}

#[test]
fn removal_and_creation() {
    let mut t = op(
        Kind::Trash(arc("/d")),
        &["/d/a"],
        DirectoryCollision::Ask,
        FileCollision::Ask,
    );
    assert!(matches!(t.process_next_trash(), Step::Trash(p) if text(&p) == "/d/a"));
    assert!(matches!(t.process_next_trash(), Step::Done));
    let file = || Some(NextRemove::File(arc("/d/a")));
    assert!(matches!(Operation::process_next_delete(file(), true), Step::ListForRemoval(_)));
    assert!(matches!(
        Operation::process_next_delete(file(), false),
        Step::Delete { was_dir: false, .. }
    ));
    assert!(matches!(
        Operation::process_next_delete(Some(NextRemove::FinishedDir(arc("/d"))), false),
        Step::Delete { was_dir: true, .. }
    ));
    assert!(matches!(Operation::process_next_delete(None, false), Step::Done));
    assert!(matches!(t.listed_for_removal(arc("/d/a"), true), Step::CallAgain));
    assert_eq!(t.progress.removals.len(), 1);
    assert!(matches!(t.listed_for_removal(arc("/d/a"), false), Step::Done));
    assert!(t.cancelled);
    assert!(matches!(Operation::deleted(true), Outcome::DeleteDir));
    assert!(matches!(Operation::deleted(false), Outcome::Delete));

    let mut r = start(Kind::Rename(arc("/d/b")), &["/d/a"]).ok().unwrap();
    assert!(matches!(r.process_rename(true), Step::Done));
    assert!(matches!(r.process_rename(false),
        Step::Ready { src, dst, overwrite: false } if text(&src) == "/d/a" && text(&dst) == "/d/b"));
    let mut m = start(Kind::MakeDir(arc("/d/n")), &[]).ok().unwrap();
    assert!(matches!(m.process_make_dir(arc("/d/n"), false), Step::MakeDir(_)));
    assert!(matches!(m.made(arc("/d/n"), true), Step::Done));
    assert!(matches!(m.progress.log[0], Outcome::CreateDestDir(_)));
    assert!(matches!(m.process_make_dir(arc("/d/n"), true), Step::Done));
    assert!(matches!(m.progress.log[1], Outcome::Skip));
    let mut f = start(Kind::MakeFile(arc("/d/n")), &[]).ok().unwrap();
    assert!(matches!(f.process_make_file(arc("/d/n"), false), Step::MakeFile(_)));
    f.made(arc("/d/n"), true);
    assert!(matches!(f.progress.log[0], Outcome::NewFile(_)));
    f.made(arc("/d/n"), false);
    assert!(matches!(f.progress.log[1], Outcome::Skip));
}

#[test]
fn operations_stop_at_a_failure() {
    let mut o = start(Kind::Copy(arc("/d")), &["/a"]).ok().unwrap();
    assert!(!o.completed(Some(Outcome::Copy(arc("/d/a")))));
    assert!(o.completed(None));
    assert!(o.cancelled);
    assert!(!o.completed(None));
    let mut c = start(Kind::Copy(arc("/d")), &["/a"]).ok().unwrap();
    c.cancel();
    assert!(c.cancelled);
}

#[test]
fn operations_are_undone_backwards() {
    let mut p = progress(&[]);
    p.push_outcome(Outcome::CreateDestDir(arc("/d/s")));
    p.push_outcome(Outcome::Move { source: arc("/s/a"), dest: arc("/d/s/a") });
    p.push_outcome(Outcome::Skip);
    p.push_outcome(Outcome::CopyOverwrite(arc("/d/s/b")));
    p.push_outcome(Outcome::NewFile(arc("/d/s/c")));
    p.push_outcome(Outcome::RemoveSourceDir(arc("/s"), 5));
    let mut pending = vec![];
    assert!(matches!(process_next_undo(&mut p, &mut pending), Step::Recreate(q, 5) if text(&q) == "/s"));
    let mut current = progress(&[]);
    assert!(matches!(
        recreated(&mut current, &mut pending, arc("/s"), 5, true),
        Step::CallAgain
    ));
    assert!(matches!(process_next_undo(&mut p, &mut pending), Step::DeleteIfEmpty(q) if text(&q) == "/d/s/c"));
    assert!(matches!(process_next_undo(&mut p, &mut pending),
        Step::Delete { path, was_dir: false } if text(&path) == "/d/s/b"));
    assert!(matches!(process_next_undo(&mut p, &mut pending),
        Step::Ready { src, dst, overwrite: false } if text(&src) == "/d/s/a" && text(&dst) == "/s/a"));
    assert!(matches!(process_next_undo(&mut p, &mut pending),
        Step::Delete { path, was_dir: true } if text(&path) == "/d/s"));
    assert!(matches!(process_next_undo(&mut p, &mut pending), Step::RestoreInfo(q, 5) if text(&q) == "/s"));
    assert!(matches!(process_next_undo(&mut p, &mut pending), Step::Done));
    assert!(matches!(undo_new_file(arc("/f"), Some(0)), Step::Delete { was_dir: false, .. }));
    assert!(matches!(undo_new_file(arc("/f"), Some(1)), Step::CallAgain));
    assert!(matches!(undo_new_file(arc("/f"), None), Step::CallAgain));
}

fn begin(all: &mut Operations, id: u64) -> Option<Invalid> {
    all.start_operation(
        id,
        TAB,
        Kind::Copy(arc("/d")),
        &arcs(&["/a"]),
        DirectoryCollision::Ask,
        FileCollision::Ask,
    )
}

fn undo(all: &mut Operations, now: u64, limit: Option<u64>) -> UndoResult {
    all.undo_operation(99, now, limit, DirectoryCollision::Ask, FileCollision::Ask)
}

#[test]
fn finished_operations_can_be_undone() {
    let mut all = Operations::new();
    assert_eq!(undo(&mut all, 0, None), UndoResult::NothingCompleted);
    assert_eq!(begin(&mut all, 1), None);
    all.finish_operation(1, 0);
    assert_eq!(undo(&mut all, 0, None), UndoResult::NothingToUndo);
    begin(&mut all, 2);
    all.ongoing[0].1.completed(Some(Outcome::Copy(arc("/d/a"))));
    all.finish_operation(2, 0);
    assert_eq!(undo(&mut all, 5 * MINUTE, Some(5)), UndoResult::Started);
    assert!(matches!(&all.ongoing[0].1.kind, Kind::Undo { prev, .. } if prev.progress.log.len() == 1));
    // What was undone is not kept to be undone in turn.
    all.finish_operation(99, 0);
    assert!(all.finished.is_empty());
    begin(&mut all, 3);
    all.ongoing[0].1.completed(Some(Outcome::Copy(arc("/d/a"))));
    all.finish_operation(3, 0);
    assert_eq!(undo(&mut all, 5 * MINUTE + 1, Some(5)), UndoResult::TooOld);
    assert!(all.finished.is_empty());
    begin(&mut all, 4);
    begin(&mut all, 5);
    all.ongoing[1].1.completed(Some(Outcome::Copy(arc("/d/a"))));
    assert_eq!(all.cancel_operations(8), vec![4, 5]);
    assert!(all.ongoing.is_empty());
    // What they did can still be undone.
    assert_eq!(all.finished.len(), 2);
    assert!(all.finished.iter().all(|f| f.op.cancelled && f.done_time == 8));
    all.finish_operation(5, 9);
    assert_eq!(all.finished.len(), 2);
    assert_eq!(undo(&mut all, 9, None), UndoResult::Started);
    assert!(!all.ongoing[0].1.cancelled);
    assert_eq!(all.cancel_operations(9), vec![99]);
    assert_eq!(all.finished.len(), 1);
}

#[test]
fn history_is_bounded() {
    let mut all = Operations::new();
    for i in 0..(OPERATIONS_HISTORY as u64 + 3) {
        begin(&mut all, i);
        all.finish_operation(i, i);
    }
    assert_eq!(all.finished.len(), OPERATIONS_HISTORY);
    assert_eq!(all.finished[0].done_time, 3);
}

#[test]
fn operation_texts() {
    assert_eq!(
        top_text(ConflictKind::FileFile, "\"a\"", None),
        "Destination file \"a\" already exists"
    );
    assert_eq!(
        top_text(ConflictKind::DirDir, "\"a\"", Some("\"b\"")),
        "Destination directory \"a\" (source: \"b\") already exists"
    );
    assert_eq!(use_rest_label(ConflictKind::DirDir), "Apply to all remaining directories");
    assert_eq!(ConflictKind::FileFile.dst_str(), "file");
    assert!(same_name(&arc("/a/x"), &arc("/b/x")));
    assert!(!same_name(&arc("/a/x"), &arc("/b/y")));
    let k = Kind::Copy(arc("/d"));
    let abort = |why| abort_text(&k, why, "S", "D", "E");
    assert_eq!(abort(Abort::OntoNonFile), "Tried to Copy S onto non-file D, aborting");
    assert_eq!(abort(Abort::OntoNonFolder), "Tried to Copy S onto non-folder D, aborting");
    assert_eq!(abort(Abort::NoNewName), "Failed to find new name for S");
    assert_eq!(abort(Abort::UnreadableSource), "Failed to read source directory S: E");
    assert_eq!(abort(Abort::UnlistedSource), "Failed to Copy directory S: E");
    assert_eq!(conflict_label(&arc("/a/x")), b"x".to_vec());
    assert_eq!(conflict_label(&arc("/")), b"/".to_vec());
    let con = |src| Conflict { kind: ConflictKind::FileFile, src: arc(src), dst: arc("/b/x") };
    assert_eq!(
        conflict_question(&con("/a/x"), "'x'", "'x'"),
        "Destination file 'x' already exists"
    );
    assert_eq!(
        conflict_question(&con("/a/y"), "'x'", "'y'"),
        "Destination file 'x' (source: 'y') already exists"
    );
}
