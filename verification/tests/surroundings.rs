use std::sync::Arc;

use aw_fm::chooser::{button_label, Chooser, ChooserCommand};
use aw_fm::database::{database_path, get, parse_version, store, updates_to_current, StoreAction};
use aw_fm::dbus::{handle_dbus_method, BusMethod};
use aw_fm::entry::{Entry, FileInfo, FileTime};
use aw_fm::contents::Query;
use aw_fm::filter::{filter_change, search_change, FilterChange};
use aw_fm::logger::{max_target_width, shrink_target};
use aw_fm::names::{file_stem_len, Fragment, NameSearch, Renaming, Tried};
use aw_fm::nav::{initial_path, NavError, NavTarget, PaneState, PathFacts};
use aw_fm::path::FilePath;
use aw_fm::settings::{DirSettings, DisplayMode, SortDir, SortMode, SortSettings};
use aw_fm::status::{
    accepts_drag, click_unselects, drag_drop, entry_accepts_drag, flat_title, item_click,
    search_title, selected_string, tab_click, Column, DropError, ItemClick, SeekAction, SeekKey,
    StackChild, StatusBar, TabClick,
};
use aw_fm::window::{command_line_path, initial_size, Toast};

fn fp(s: &str) -> FilePath {
    FilePath::parse(&s.as_bytes().to_vec()).unwrap()
}

fn arc(s: &str) -> Arc<FilePath> {
    Arc::new(fp(s))
}

fn text(p: &FilePath) -> String {
    String::from_utf8(p.to_bytes()).unwrap()
}

fn item(path: &str, directory: bool, size: u64) -> Arc<Entry> {
    let info = FileInfo {
        mtime: FileTime { sec: 9, usec: 0 },
        mime: "x/y".to_string(),
        size,
        allocated_size: 4096,
        directory,
        mountpoint: false,
        can_execute: false,
        is_symlink: false,
        symlink_target: None,
        icon: 0,
        inode: 0,
    };
    Arc::new(Entry::new(fp(path), info).0)
}

#[test]
fn choosers_take_the_selection() {
    let cmd = ChooserCommand::OpenFile { directory: false, multiple: true };
    assert!(cmd.open());
    assert!(!cmd.open_dir());
    let mut c = Chooser::new();
    assert!(c.accept().is_none());
    c.root(&arc("/d"));
    assert!(c.selection(&cmd, &vec![item("/d/s/a", false, 1)]));
    assert_eq!(c.last_text, "s/a");
    assert_eq!(text(&c.accept().unwrap()[0]), "/d/s/a");
    assert!(c.selection(&cmd, &vec![item("/d/a", false, 1), item("/d/b", false, 1)]));
    assert_eq!(c.last_text, "");
    assert_eq!(c.accept().unwrap().len(), 2);
    assert!(!c.selection(&cmd, &vec![item("/d/x", true, 4)]));
    c.text("../e/./f");
    assert_eq!(text(&c.accept().unwrap()[0]), "/e/f");
    c.text("/abs/x");
    assert_eq!(text(&c.accept().unwrap()[0]), "/abs/x");
    assert_eq!(button_label("_Open _it"), "Open it");
    assert!(ChooserCommand::OpenFile { directory: true, multiple: false }.open_dir());
    assert!(!ChooserCommand::SaveFiles.open());
}

#[test]
fn bus_methods() {
    assert_eq!(BusMethod::parse("ShowItems"), Some(BusMethod::ShowItems));
    assert_eq!(BusMethod::parse("ShowFolders"), Some(BusMethod::ShowFolders));
    assert_eq!(BusMethod::parse("ShowItemProperties"), Some(BusMethod::ShowItemProperties));
    assert_eq!(BusMethod::parse("showItems"), None);
    let paths = vec![arc("/a/b"), arc("/")];
    let items = handle_dbus_method(BusMethod::ShowItems, &paths);
    assert_eq!(text(&items[0].dir), "/a");
    assert_eq!(text(items[0].scroll.as_ref().unwrap()), "/a/b");
    assert_eq!(text(&items[1].dir), "/");
    assert!(items[1].scroll.is_none());
    let folders = handle_dbus_method(BusMethod::ShowFolders, &paths);
    assert_eq!(text(&folders[0].dir), "/a/b");
    assert!(folders[0].scroll.is_none());
    assert!(handle_dbus_method(BusMethod::ShowItemProperties, &paths).is_empty());
}

#[test]
fn toasts() {
    let mut t = Toast::new();
    assert!(!t.visible);
    assert_eq!(t.warning("w".to_string(), 5), (true, None));
    assert_eq!(t.warning("w2".to_string(), 6), (true, Some(5)));
    assert_eq!(t.text, "w2");
    assert_eq!(t.error("e".to_string()), Some(6));
    // A warning does not replace an error.
    assert_eq!(t.warning("w3".to_string(), 7), (false, None));
    assert_eq!(t.text, "e");
    assert_eq!(t.dismiss(), None);
    assert!(!t.visible);
    t.warning("w4".to_string(), 8);
    t.timed_out();
    assert!(!t.visible && t.timer.is_none());
}

#[test]
fn windows_open_with_a_path() {
    let cwd = fp("/home");
    let given = |a: &str, cwd| command_line_path(Some(&a.as_bytes().to_vec()), cwd);
    assert_eq!(text(&given("a/../b", Some(&cwd)).ok().unwrap()), "/home/b");
    assert_eq!(text(&command_line_path(None, Some(&cwd)).ok().unwrap()), "/home");
    let odd = fp("/home/../etc");
    assert_eq!(text(&command_line_path(None, Some(&odd)).ok().unwrap()), "/etc");
    assert_eq!(text(&given("../b", Some(&odd)).ok().unwrap()), "/b");
    assert_eq!(text(&given("/x", None).ok().unwrap()), "/x");
    assert_eq!(given("x", None).err(), Some(NavError::NotAbsolute));
    let raw = command_line_path(Some(&b"/a/../\xff".to_vec()), None).ok().unwrap();
    assert_eq!(raw.to_bytes(), b"/\xff".to_vec());
    assert_eq!(command_line_path(None, None).err(), Some(NavError::NotAbsolute));
    assert_eq!(initial_size(100, 100), Some((100, 100)));
    assert_eq!(initial_size(99, 500), None);
}

#[test]
fn log_targets_shrink() {
    assert_eq!(shrink_target("a::b::c::d"), "c::d");
    assert_eq!(shrink_target("a::b"), "a::b");
    assert_eq!(shrink_target("main"), "main");
    assert_eq!(max_target_width(5, 9), (9, 9));
    assert_eq!(max_target_width(5, 30), (30, 20));
    assert_eq!(max_target_width(9, 5), (9, 9));
}

#[test]
fn settings_are_stored() {
    assert!(matches!(store(DirSettings::default()), StoreAction::Delete));
    let s = DirSettings {
        display_mode: DisplayMode::Columns,
        sort: SortSettings { mode: SortMode::Size, direction: SortDir::Descending },
    };
    match store(s) {
        StoreAction::Replace { display_mode, sort_mode, sort_direction } => {
            assert_eq!(get(Some((display_mode, sort_mode, sort_direction))), s);
        }
        StoreAction::Delete => panic!("not stored"),
    }
    assert_eq!(get(None), DirSettings::default());
    let odd = ("grid".to_string(), "size".to_string(), "ascending".to_string());
    assert_eq!(get(Some(odd)), DirSettings::default());
}

#[test]
fn databases_are_updated() {
    assert_eq!(parse_version("2"), Some(2));
    assert_eq!(parse_version("two"), None);
    assert_eq!(parse_version("4294967296"), None);
    assert_eq!(updates_to_current(0), vec![1, 2, 3]);
    assert_eq!(updates_to_current(2), vec![3]);
    assert!(updates_to_current(3).is_empty());
    assert!(updates_to_current(9).is_empty());
    assert_eq!(
        text(&database_path(None, Some(fp("/data"))).unwrap()),
        "/data/aw-fm/settings.db"
    );
    assert_eq!(text(&database_path(Some(fp("/x")), None).unwrap()), "/x");
    assert!(database_path(None, None).is_none());
}

#[test]
fn targets_to_navigate_to() {
    let facts = PathFacts { exists: true, is_dir: true, parent_is_dir: true };
    let t = NavTarget::open_or_jump_abs(arc("/a/b"), facts).ok().unwrap();
    assert_eq!(text(&t.dir), "/a/b");
    let file = PathFacts { is_dir: false, ..facts };
    let t = NavTarget::open_or_jump_abs(arc("/a/b"), file).ok().unwrap();
    assert_eq!(text(&t.dir), "/a");
    assert_eq!(text(&t.scroll.unwrap()), "/a/b");
    let t = NavTarget::jump(arc("/a/b"), facts).ok().unwrap();
    assert_eq!(text(&t.dir), "/a");
    let gone = PathFacts { exists: false, ..facts };
    assert_eq!(NavTarget::jump(arc("/a"), gone).err(), Some(NavError::CouldNotLocate));
    assert_eq!(NavTarget::jump(arc("/"), facts).err(), Some(NavError::CouldNotLocate));
    let odd = PathFacts { parent_is_dir: false, ..facts };
    assert_eq!(NavTarget::jump(arc("/a"), odd).err(), Some(NavError::CouldNotOpen));
}

#[test]
fn paths_are_cleaned() {
    let a = fp("/act");
    let c = fp("/cur");
    let clean = |p: &str, a, c| NavTarget::cleaned_abs(&p.as_bytes().to_vec(), a, c);
    assert_eq!(text(&clean("x/../y", Some(&a), Some(&c)).ok().unwrap()), "/act/y");
    assert_eq!(text(&clean("y", None, Some(&c)).ok().unwrap()), "/cur/y");
    assert_eq!(text(&clean("/z/./q//", None, None).ok().unwrap()), "/z/q");
    assert_eq!(clean("y", None, None).err(), Some(NavError::NotAbsolute));
    let s = |s: &str| Some(s.as_bytes().to_vec());
    assert_eq!(initial_path(true, None, s("/d")), None);
    assert_eq!(initial_path(true, s("f"), s("/d")), s("f"));
    assert_eq!(initial_path(false, None, s("/d")), s("/d"));
    assert_eq!(initial_path(false, None, None), s("/"));
    assert!(PaneState::for_jump(None).scroll.is_none());
    let state = PaneState::for_jump(Some(a.copy().into()));
    assert_eq!(text(&state.scroll.unwrap().path), "/act");
    assert!(state.focus.unwrap().select);
}

#[test]
fn filters_change() {
    let b = |s: &str| s.as_bytes().to_vec();
    assert_eq!(filter_change(&b("abc"), &b("ab")), FilterChange::LessStrict);
    assert_eq!(filter_change(&b("ab"), &b("cab")), FilterChange::MoreStrict);
    assert_eq!(filter_change(&b("ab"), &b("ba")), FilterChange::Different);
    let q = |s: &str| Query { text: b(s), chars: s.chars().count() };
    assert_eq!(search_change(&q("abc"), &q("abc")), None);
    assert_eq!(search_change(&q("a"), &q("ab")), None);
    assert_eq!(search_change(&q("ab"), &q("abc")), Some(FilterChange::LessStrict));
    assert_eq!(search_change(&q("abc"), &q("ab")), Some(FilterChange::MoreStrict));
    assert_eq!(search_change(&q("abc"), &q("abcd")), Some(FilterChange::MoreStrict));
    assert_eq!(search_change(&q("abc"), &q("xyz")), Some(FilterChange::Different));
    assert_eq!(search_change(&q("日本"), &q("日本語")), Some(FilterChange::LessStrict));
    assert_eq!(search_change(&q("日"), &q("日本")), None);
}

fn free_name(path: &str, fragment: Fragment, taken: &dyn Fn(u64) -> bool) -> Option<String> {
    let known = Default::default();
    let start = Renaming::new_name_for(&fp(path), fragment, &known)?;
    let mut search = start.search;
    loop {
        match search.answer(taken(search.candidate())) {
            Tried::Found(n) => return Some(text(&start.path_for(n))),
            Tried::Next(s) => search = s,
            Tried::GiveUp => return None,
        }
    }
}

#[test]
fn free_names() {
    assert_eq!(free_name("/d/a.txt", Fragment::Copy, &|_| false).unwrap(), "/d/a (copy 1).txt");
    assert_eq!(
        free_name("/d/a (copy 4).tar.gz", Fragment::Copy, &|_| false).unwrap(),
        "/d/a (copy 5).tar.gz"
    );
    assert_eq!(
        free_name("/d/a (copy 4).txt", Fragment::Moved, &|_| false).unwrap(),
        "/d/a (copy 4) (moved 1).txt"
    );
    assert_eq!(free_name("/d/a", Fragment::Copied, &|n| n < 7).unwrap(), "/d/a (copied 7)");
    assert_eq!(free_name("/d/a", Fragment::Copy, &|n| n < 1000).unwrap(), "/d/a (copy 1000)");
    assert_eq!(free_name("/d/a", Fragment::Copy, &|_| true), None);
    assert_eq!(free_name("/", Fragment::Copy, &|_| false), None);
    assert_eq!(file_stem_len(&b"a.b.c".to_vec()), 3);
    assert_eq!(file_stem_len(&b".a".to_vec()), 2);
    assert_eq!(NameSearch::new(0).candidate(), 1);
}

#[test]
fn used_names_are_remembered() {
    let mut known = Default::default();
    let first = Renaming::new_name_for(&fp("/d/a.txt"), Fragment::Copy, &known).unwrap();
    first.remember(&mut known, 41);
    let next = Renaming::new_name_for(&fp("/d/a.txt"), Fragment::Copy, &known).unwrap();
    assert_eq!(next.search.candidate(), 42);
    let other = Renaming::new_name_for(&fp("/e/a.txt"), Fragment::Copy, &known).unwrap();
    assert_eq!(other.search.candidate(), 1);
    let huge = format!("/d/a (copy {}).txt", u64::MAX);
    assert!(Renaming::new_name_for(&fp(&huge), Fragment::Copy, &Default::default()).is_none());
    // Close to the greatest number, what is left is tried.
    let high = format!("/d/a (copy {}).txt", u64::MAX - 2);
    let top = format!("/d/a (copy {}).txt", u64::MAX);
    assert_eq!(free_name(&high, Fragment::Copy, &|n| n < u64::MAX), Some(top));
    assert_eq!(free_name(&high, Fragment::Copy, &|_| true), None);
    // Two names in a row differ though neither was created.
    let mut known = Default::default();
    let mut names = vec![];
    for _ in 0..2 {
        let r = Renaming::new_name_for(&fp("/d/a.txt"), Fragment::Copy, &known).unwrap();
        let n = r.search.candidate();
        r.remember(&mut known, n);
        names.push(text(&r.path_for(n)));
    }
    assert_eq!(names, vec!["/d/a (copy 1).txt", "/d/a (copy 2).txt"]);
}

#[test]
fn selections_are_described() {
    let f = item("/d/f", false, 1024);
    let g = item("/d/g", false, 1024);
    let d = item("/d/d", true, 12);
    assert_eq!(selected_string(&vec![]), "");
    assert_eq!(selected_string(&vec![f.clone()]), "1 file selected (1 kB)");
    assert_eq!(
        selected_string(&vec![f.clone(), d.clone(), g.clone()]),
        "1 folder selected (containing 10 items), 2 files selected (2 kB)"
    );
    assert_eq!(
        selected_string(&vec![d.clone(), d.clone()]),
        "2 folders selected (containing 20 items)"
    );
    let mut s = StatusBar::new();
    s.update_selected_text(&vec![f]);
    assert_eq!(s.selection, "\"f\" selected (1 kB)");
    assert_eq!(s.shown, StackChild::Selection);
    s.update_selected_text(&vec![d]);
    assert_eq!(s.selection, "\"d\" selected (containing 10 items)");
    assert!(s.items_changed(3, &vec![g], true));
    assert_eq!(s.count, "3 items");
    s.update_selected_text(&vec![]);
    assert_eq!(s.shown, StackChild::Count);
}

#[test]
fn seeking() {
    let mut s = StatusBar::new();
    assert!(matches!(s.handle_seek(SeekKey::Tab, true, false), SeekAction::Proceed));
    assert!(matches!(s.handle_seek(SeekKey::Other(Some('/')), true, false), SeekAction::Proceed));
    assert!(matches!(s.handle_seek(SeekKey::Other(Some('A')), false, false), SeekAction::Proceed));
    assert!(
        matches!(s.handle_seek(SeekKey::Other(Some('A')), true, false), SeekAction::Seek(t) if t == "A")
    );
    assert!(
        matches!(s.handle_seek(SeekKey::Other(Some('\u{e9}')), true, false), SeekAction::Seek(t) if t == "A\u{e9}")
    );
    assert_eq!(s.shown, StackChild::Seek);
    assert!(
        matches!(s.handle_seek(SeekKey::Tab, true, true), SeekAction::Prev(t) if t == "A\u{e9}")
    );
    assert!(
        matches!(s.handle_seek(SeekKey::Tab, true, false), SeekAction::Next(t) if t == "A\u{e9}")
    );
    assert!(matches!(s.handle_seek(SeekKey::BackSpace, true, false), SeekAction::Stop));
    assert_eq!(s.seek, "A");
    s.clipboard_text("copied");
    assert_eq!(s.shown, StackChild::Seek);
    s.maybe_close_seek(&vec![item("/d/bad", false, 1)]);
    assert_eq!(s.shown, StackChild::Seek);
    s.maybe_close_seek(&vec![item("/d/b", false, 1)]);
    assert_eq!(s.shown, StackChild::Selection);
    assert_eq!(s.seek, "");
    s.handle_seek(SeekKey::Other(Some('x')), true, false);
    assert!(matches!(s.handle_seek(SeekKey::Escape, true, false), SeekAction::Stop));
    assert_eq!(s.shown, StackChild::Count);
    s.handle_seek(SeekKey::Other(Some('x')), true, false);
    s.reset();
    assert_eq!((s.shown, s.seek.as_str()), (StackChild::Count, ""));
}

#[test]
fn titles() {
    assert_eq!(flat_title(&fp("/a/b")), ("b".to_string(), "/a/b".to_string()));
    assert_eq!(flat_title(&fp("/")), ("/".to_string(), "/".to_string()));
    assert_eq!(
        search_title(&fp("/a/b")),
        ("Search: b".to_string(), "Searching in /a/b".to_string())
    );
}

#[test]
fn columns() {
    let now = SortSettings { mode: SortMode::Name, direction: SortDir::Ascending };
    assert_eq!(Column::DateModified.title(), "Date Modified");
    assert_eq!(Column::Name.text(&item("/d/n", false, 1)), "n");
    assert_eq!(Column::Size.text(&item("/d/n", false, 2048)), "2 kB");
    assert_eq!(Column::Name.sorted_by(SortDir::Ascending, now), None);
    assert_eq!(
        Column::Size.sorted_by(SortDir::Descending, now),
        Some(SortSettings { mode: SortMode::Size, direction: SortDir::Descending })
    );
}

#[test]
fn clicks() {
    assert_eq!(tab_click(2, 1, false, false), TabClick::Close);
    assert_eq!(tab_click(3, 1, false, false), TabClick::Nothing);
    assert_eq!(item_click(1, false), ItemClick::Select);
    assert_eq!(item_click(2, true), ItemClick::NewBackgroundTab);
    assert_eq!(item_click(3, true), ItemClick::ContextMenu);
    assert_eq!(item_click(8, false), ItemClick::Nothing);
    assert!(entry_accepts_drag(true, true) && !entry_accepts_drag(true, false));
    assert!(!entry_accepts_drag(false, true));
    let (dir, entry): (Arc<FilePath>, Arc<FilePath>) = (fp("/d").into(), fp("/d/e").into());
    let into = |e, accepts| drag_drop(e, dir.clone(), accepts).map(|p| text(&p));
    assert_eq!(into(Some((entry.clone(), true)), false), Ok("/d/e".to_string()));
    assert_eq!(into(Some((entry.clone(), false)), true), Err(DropError::RegularFile));
    assert_eq!(into(None, true), Ok("/d".to_string()));
    assert_eq!(into(None, false), Err(DropError::CannotDrop));
    assert!(click_unselects(1, false, false));
    assert!(!click_unselects(1, true, false));
    assert!(accepts_drag(false, true, false, true));
    assert!(!accepts_drag(true, true, false, true));
}
