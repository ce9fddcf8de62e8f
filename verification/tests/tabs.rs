use std::sync::Arc;

use aw_fm::contents::Contents;
use aw_fm::entry::{Entry, FileInfo, FileTime};
use aw_fm::commands::{run_command, Command, Simple};
use aw_fm::list::{Shown, SplitOutcome, TabPosition, TabsList};
use aw_fm::nav::{NavTarget, PaneState};
use aw_fm::pane::{can_split, default_positions, Pane, TabId};
use aw_fm::path::FilePath;
use aw_fm::database::{delete_session, load_session, save_session, SessionWrite};
use aw_fm::regroup::SessionError;
use aw_fm::session::{
    decode_paths, encode_paths, row_session, session_row, SavedGroup, SavedSplit, Session,
    SplitChild,
};
use aw_fm::settings::SortSettings;
use aw_fm::tab::{Tab, TabPane};
use aw_fm::target::{Reach, Target};

fn fp(s: &str) -> FilePath {
    FilePath::parse(&s.as_bytes().to_vec()).unwrap()
}

fn arc(s: &str) -> Arc<FilePath> {
    Arc::new(fp(s))
}

fn text(p: &FilePath) -> String {
    String::from_utf8(p.to_bytes()).unwrap()
}

fn to(s: &str) -> NavTarget {
    NavTarget::assume_dir(arc(s))
}

fn shown() -> PaneState {
    PaneState::for_jump(Some(arc("/shown")))
}

fn empty() -> PaneState {
    PaneState::for_jump(None)
}

fn scrolled_to(s: &PaneState) -> Option<String> {
    s.scroll.as_ref().map(|s| text(&s.path))
}

fn tab(s: &str) -> Tab {
    let mut t = Tab::new(TabId(0), to(s));
    t.pane.make_visible();
    t.pane.maybe_resolve_pending();
    t
}

fn subdir(path: &str) -> Arc<Entry> {
    let info = FileInfo {
        mtime: FileTime { sec: 0, usec: 0 },
        mime: "inode/directory".to_string(),
        size: 4,
        allocated_size: 0,
        directory: true,
        mountpoint: false,
        can_execute: false,
        is_symlink: false,
        symlink_target: None,
        icon: 0,
        inode: 0,
    };
    Arc::new(Entry::new(fp(path), info).0)
}

fn contents(paths: &[&str]) -> Contents {
    let mut c = Contents::new(SortSettings::default());
    c.apply_snapshot(true, paths.iter().map(|p| subdir(p)).collect());
    c
}

fn leaf(n: u64) -> Box<Pane> {
    Box::new(Pane::Leaf(TabId(n)))
}

fn leaves(p: &Pane) -> Vec<u64> {
    match p {
        Pane::Leaf(t) => vec![t.0],
        Pane::Split { start, end, .. } => {
            let mut v = leaves(start);
            v.extend(leaves(end));
            v
        }
    }
}

fn blocks(l: &TabsList) -> Vec<Vec<u64>> {
    l.blocks.iter().map(|b| b.members.iter().map(|t| t.0).collect()).collect()
}

fn order(l: &TabsList) -> Vec<u64> {
    l.order.iter().map(|t| t.0).collect()
}

fn none() -> Shown {
    Shown { panes: vec![] }
}

fn three() -> TabsList {
    let mut l = TabsList::new();
    l.create_tab(TabPosition::End, to("/a"), true, &none());
    l.create_tab(TabPosition::End, to("/b"), false, &none());
    l.create_tab(TabPosition::End, to("/c"), false, &none());
    l
}

#[test]
fn panes_split_and_shrink() {
    let p = Pane::Leaf(TabId(1)).split(TabId(1), TabId(2), true);
    let p = p.split(TabId(1), TabId(3), false);
    assert_eq!(leaves(&p), vec![1, 3, 2]);
    assert_eq!(p.firstmost(), TabId(1));
    assert_eq!(p.lastmost(), TabId(2));
    assert!(p.contains(TabId(3)));
    assert!(!p.contains(TabId(4)));
    assert_eq!(p.next_of_kin(TabId(1)), Some(TabId(3)));
    assert_eq!(p.next_of_kin(TabId(3)), Some(TabId(1)));
    assert_eq!(p.next_of_kin(TabId(2)), Some(TabId(3)));
    assert_eq!(Pane::Leaf(TabId(1)).next_of_kin(TabId(1)), None);
    let q = p.copy().remove(TabId(3)).unwrap();
    assert_eq!(leaves(&q), vec![1, 2]);
    assert!(matches!(q, Pane::Split { horizontal: true, .. }));
    assert!(Pane::Leaf(TabId(1)).remove(TabId(1)).is_none());
    let same = Pane::Split { horizontal: true, start: leaf(1), end: leaf(2) };
    assert_eq!(leaves(&same.remove(TabId(9)).unwrap()), vec![1, 2]);
}

#[test]
fn panes_need_room() {
    assert!(!can_split(500, false));
    assert!(can_split(501, false));
    assert!(can_split(1, true));
    assert_eq!(default_positions(vec![true, false, true], 800, 600), vec![400, 300, 200]);
    assert!(default_positions(vec![], 800, 600).is_empty());
}

#[test]
fn tab_panes() {
    let mut p = TabPane::Detached { state: empty(), pending: false };
    assert!(!p.visible());
    p.make_visible();
    assert!(matches!(p, TabPane::Displayed));
    assert_eq!(scrolled_to(&p.clone_state(&shown())).as_deref(), Some("/shown"));
    p.prepare_for_unload(shown());
    assert!(matches!(p, TabPane::Loading(_)));
    p.mark_detached(empty());
    assert!(matches!(&p, TabPane::Detached { state, pending: true } if state.scroll.is_some()));
    p.make_visible();
    assert_eq!(scrolled_to(&p.maybe_resolve_pending().unwrap()).as_deref(), Some("/shown"));
    assert!(p.maybe_resolve_pending().is_none());
    p.mark_detached(empty());
    assert!(matches!(p, TabPane::Detached { pending: false, .. }));
    p.set_detached_pending_flag();
    assert!(matches!(p, TabPane::Detached { pending: true, .. }));
    p.overwrite_state(shown());
    assert_eq!(scrolled_to(&p.clone_state(&empty())).as_deref(), Some("/shown"));
}

#[test]
fn history_goes_both_ways() {
    let mut t = tab("/a");
    assert!(!t.back(&shown()));
    t.navigate(to("/b"), &shown());
    t.navigate(to("/c"), &empty());
    assert_eq!((t.past.len(), t.future.len()), (2, 0));
    assert!(t.back(&empty()));
    assert!(t.back(&empty()));
    assert_eq!(text(&t.dir), "/a");
    // Going back shows the same place again.
    assert!(matches!(&t.pane, TabPane::Loading(s) if scrolled_to(s).as_deref() == Some("/shown")));
    t.forward(&empty());
    assert_eq!(text(&t.dir), "/b");
    t.forward(&empty());
    t.forward(&empty());
    assert_eq!(text(&t.dir), "/c");
    t.back(&empty());
    t.navigate(to("/d"), &empty());
    assert_eq!((t.past.len(), t.future.len()), (2, 0));
    t.navigate(to("/d"), &empty());
    assert_eq!(t.past.len(), 2);
}

#[test]
fn parents_and_children() {
    let mut t = tab("/a/b");
    t.parent(&empty());
    assert_eq!(text(&t.dir), "/a");
    assert!(matches!(&t.pane, TabPane::Loading(s) if scrolled_to(s).as_deref() == Some("/a/b")));
    t.child(&contents(&["/a/x", "/a/y"]), &empty());
    assert_eq!(text(&t.dir), "/a/b");
    let mut t = tab("/a/b");
    t.back_or_parent(&empty());
    assert_eq!(text(&t.dir), "/a");
    assert!(t.past.is_empty());
    t.child(&contents(&[]), &empty());
    assert_eq!(text(&t.dir), "/a/b");
    let mut t = tab("/a");
    t.child(&contents(&["/a/x", "/a/y"]), &empty());
    assert_eq!(text(&t.dir), "/a");
    t.child(&contents(&["/a/x"]), &empty());
    assert_eq!(text(&t.dir), "/a/x");
    let mut t = tab("/");
    t.parent(&empty());
    t.back_or_parent(&empty());
    assert_eq!(text(&t.dir), "/");
}

#[test]
fn searches_are_part_of_the_history() {
    let mut t = tab("/a");
    t.search("one".to_string(), &empty());
    t.search("two".to_string(), &empty());
    assert_eq!(t.search.as_deref(), Some("two"));
    assert_eq!(t.past.len(), 1);
    t.child(&contents(&["/a/x"]), &empty());
    assert_eq!(text(&t.dir), "/a");
    t.back(&empty());
    assert!(t.search.is_none());
    t.forward(&empty());
    assert_eq!(t.search.as_deref(), Some("two"));
    t.navigate(to("/a"), &empty());
    assert!(t.search.is_none());
    assert_eq!(t.current_history(&empty()).search, None);
}

#[test]
fn tabs_close_and_reopen() {
    let mut t = tab("/a");
    t.navigate(to("/b"), &empty());
    t.pane.maybe_resolve_pending();
    let closed = t.close(Some(TabId(7)), &shown());
    assert_eq!(closed.after, Some(TabId(7)));
    let t = Tab::reopen(closed);
    assert_eq!(text(&t.dir), "/b");
    assert_eq!(t.past.len(), 1);
    assert!(matches!(&t.pane, TabPane::Detached { state, pending: true }
        if scrolled_to(state).as_deref() == Some("/shown")));
    let c = Tab::cloned(TabId(3), &t, &empty());
    assert_eq!(c.id, TabId(3));
    assert_eq!(text(&c.dir), "/b");
    assert_eq!(c.past.len(), 1);
}

#[test]
fn deleted_directories_are_left() {
    let mut t = tab("/a/b");
    t.search("q".to_string(), &empty());
    t.handle_directory_deleted(arc("/a"));
    assert_eq!(text(&t.dir), "/a");
    assert!(t.search.is_none());
    assert_eq!(t.past.len(), 1);
    let mut l = three();
    l.directory_deleted(&fp("/b"), arc("/"));
    let dirs: Vec<String> = l.tabs.iter().map(|t| text(&t.dir)).collect();
    assert_eq!(dirs, vec!["/a", "/", "/c"]);
}

#[test]
fn tabs_are_created_in_place() {
    let mut l = three();
    assert_eq!(blocks(&l), vec![vec![0], vec![1], vec![2]]);
    l.create_tab(TabPosition::AfterActive, to("/d"), false, &none());
    assert_eq!(blocks(&l), vec![vec![0], vec![3], vec![1], vec![2]]);
    l.create_tab(TabPosition::After(TabId(1)), to("/e"), true, &none());
    assert_eq!(blocks(&l), vec![vec![0], vec![3], vec![1], vec![4], vec![2]]);
    assert_eq!(l.active, Some(TabId(4)));
    l.create_tab(TabPosition::After(TabId(99)), to("/f"), false, &none());
    assert_eq!(blocks(&l).last(), Some(&vec![5]));
    assert_eq!(l.new_tab(true, None, &none()), Some(TabId(6)));
    assert_eq!(text(&l.tabs[l.position(TabId(6)).unwrap()].dir), "/e");
    assert_eq!(l.new_tab_from(TabId(2), false, &none()), TabId(7));
    assert_eq!(text(&l.tabs[l.position(TabId(7)).unwrap()].dir), "/c");
    assert_eq!(l.active, Some(TabId(6)));
    let mut bare = TabsList::new();
    assert_eq!(bare.new_tab(true, None, &none()), None);
    assert_eq!(bare.new_tab(true, Some(to("/home")), &none()), Some(TabId(0)));
    assert_eq!(text(&bare.get_active_dir().unwrap()), "/home");
}

#[test]
fn tabs_split() {
    let mut l = three();
    assert_eq!(
        l.active_split(true, None, false, None, &none()),
        SplitOutcome::TooSmall
    );
    assert_eq!(
        l.active_split(true, None, true, None, &none()),
        SplitOutcome::Split(TabId(3))
    );
    assert_eq!(blocks(&l), vec![vec![0, 3], vec![1], vec![2]]);
    assert!(l.is_visible(TabId(0)) && l.is_visible(TabId(3)));
    assert!(!l.is_visible(TabId(1)));
    assert_eq!(
        l.active_split(false, Some(TabId(2)), true, None, &none()),
        SplitOutcome::Split(TabId(2))
    );
    assert_eq!(blocks(&l), vec![vec![0, 3, 2], vec![1]]);
    assert_eq!(
        l.active_split(false, Some(TabId(0)), true, None, &none()),
        SplitOutcome::Activated
    );
    assert_eq!(l.active, Some(TabId(0)));
    // A pane that closes leaves its place to the nearest one.
    l.active_close_pane(&none());
    assert_eq!(blocks(&l), vec![vec![0], vec![3, 2], vec![1]]);
    assert_eq!(l.active, Some(TabId(3)));
    l.remove_tab_from_group(TabId(2), &none());
    assert_eq!(blocks(&l), vec![vec![0], vec![3], vec![2], vec![1]]);
    l.active_hide(&none());
    assert_eq!(l.active, None);
    assert_eq!(
        l.active_split(true, None, true, None, &none()),
        SplitOutcome::Opened(None)
    );
}

#[test]
fn list_closes_and_reopens() {
    let mut l = three();
    l.close_tab(TabId(1), &none());
    assert_eq!(blocks(&l), vec![vec![0], vec![2]]);
    assert_eq!(l.reopen(&none()), Some(TabId(1)));
    assert_eq!(blocks(&l), vec![vec![0], vec![1], vec![2]]);
    assert_eq!(l.active, Some(TabId(1)));
    l.active_close_tab(&none());
    assert_eq!(l.active, Some(TabId(0)));
    l.active_close_tab(&none());
    assert_eq!(l.active, Some(TabId(2)));
    l.active_close_both(&none());
    assert_eq!(l.active, None);
    assert!(l.tabs.is_empty());
    assert_eq!(l.reopen(&none()), Some(TabId(0)));
    assert_eq!(l.reopen(&none()), Some(TabId(1)));
    assert_eq!(l.reopen(&none()), None);
    assert_eq!(blocks(&l), vec![vec![0], vec![1]]);
}

#[test]
fn tabs_reorder() {
    let mut l = three();
    l.reorder(TabId(0), TabId(2), true, &none());
    assert_eq!(blocks(&l), vec![vec![1], vec![2], vec![0]]);
    l.reorder(TabId(0), TabId(1), false, &none());
    assert_eq!(blocks(&l), vec![vec![0], vec![1], vec![2]]);
    l.active_split(true, None, true, None, &none());
    l.reorder(TabId(0), TabId(2), true, &none());
    assert_eq!(blocks(&l), vec![vec![1], vec![2], vec![0, 3]]);
    l.reorder(TabId(3), TabId(1), false, &none());
    assert_eq!(blocks(&l), vec![vec![3], vec![1], vec![2], vec![0]]);
    l.hide_single_pane(TabId(2), &none());
    assert_eq!(blocks(&l), vec![vec![3], vec![1], vec![2], vec![0]]);
}

#[test]
fn active_tabs_navigate() {
    let mut l = three();
    l.active_navigate(to("/x/y"), &none());
    assert_eq!(text(&l.get_active_dir().unwrap()), "/x/y");
    l.active_parent(&empty());
    l.active_search("q".to_string(), &empty());
    assert_eq!(l.tabs[0].search.as_deref(), Some("q"));
    l.active_back(&empty());
    l.active_child(&contents(&[]), &empty());
    assert_eq!(text(&l.get_active_dir().unwrap()), "/x/y");
    l.active_back_or_parent(&empty());
    assert_eq!(text(&l.get_active_dir().unwrap()), "/a");
    l.active_forward(&empty());
    assert_eq!(text(&l.get_active_dir().unwrap()), "/x/y");
    l.active_hide(&none());
    l.active_navigate(to("/new"), &none());
    assert_eq!(text(&l.get_active_dir().unwrap()), "/new");
    assert_eq!(l.tabs.len(), 4);
}

#[test]
fn environment_of_scripts() {
    let mut l = three();
    l.set_active(TabId(1), &none());
    l.active_search("q".to_string(), &empty());
    let env: Vec<(String, String)> = l
        .get_env(b"/b/s".to_vec())
        .into_iter()
        .map(|v| (v.name, String::from_utf8(v.value).unwrap()))
        .collect();
    let expected = [
        ("AWFM_CURRENT_TAB_PATH", "/b"),
        ("AWFM_CURRENT_TAB_SEARCH", "q"),
        ("AWFM_SELECTION", "/b/s"),
        ("AWFM_PREV_TAB_PATH", "/a"),
        ("AWFM_NEXT_TAB_PATH", "/c"),
    ];
    let expected: Vec<(String, String)> =
        expected.iter().map(|(a, b)| (a.to_string(), b.to_string())).collect();
    assert_eq!(env, expected);
    l.active_hide(&none());
    let env = l.get_env(vec![]);
    assert_eq!(env.len(), 1);
    assert_eq!(env[0].name, "AWFM_NEXT_TAB_PATH");
    assert!(TabsList::new().get_env(vec![]).is_empty());
}

#[test]
fn tabs_refresh_and_unload() {
    let mut l = three();
    l.create_tab(TabPosition::End, to("/a"), false, &none());
    let mut ids: Vec<u64> = l.refresh().unwrap().iter().map(|t| t.0).collect();
    ids.sort();
    assert_eq!(ids, vec![0, 3]);
    let mut ids: Vec<u64> =
        l.idle_unload(&vec![false, false, true, false]).iter().map(|t| t.0).collect();
    ids.sort();
    assert_eq!(ids, vec![1]);
    l.active_hide(&none());
    assert!(l.refresh().is_none());
}

#[test]
fn sessions_round_trip() {
    let mut l = three();
    l.active_split(true, None, true, None, &none());
    l.active_split(false, None, true, None, &none());
    let before = blocks(&l);
    assert_eq!(before, vec![vec![0, 3, 4], vec![1], vec![2]]);
    let s = l.get_session().unwrap();
    let paths: Vec<String> = s.paths.iter().map(text).collect();
    assert_eq!(paths, vec!["/a", "/a", "/a", "/b", "/c"]);
    assert_eq!(s.groups.len(), 1);
    assert_eq!(s.groups[0].parent, 0);
    let mut m = three();
    let states = vec![empty(), empty(), empty()];
    assert!(m.is_tidy() && m.can_clear(5));
    assert_eq!(m.load_session(&s, &states), vec![]);
    assert!(m.is_tidy());
    assert_eq!(order(&m), vec![3, 4, 5, 6, 7]);
    assert_eq!(blocks(&m), vec![vec![3, 4, 5], vec![6], vec![7]]);
    assert_eq!(leaves(&m.blocks[0].layout), vec![3, 4, 5]);
    assert_eq!(m.active, None);
    // What was open before can be opened again.
    assert_eq!(m.closed.len(), 3);
    assert_eq!(m.reopen(&none()), Some(TabId(0)));
    assert_eq!(blocks(&m)[0], vec![0]);
    assert!(TabsList::new().get_session().is_none());
}

fn saved(parent: u32, start: SplitChild, end: SplitChild) -> Session {
    Session {
        paths: vec![fp("/a"), fp("/b"), fp("/c")],
        groups: vec![SavedGroup { parent, split: SavedSplit { horizontal: true, start, end } }],
    }
}

#[test]
fn sessions_that_are_corrupt() {
    let load = |s: &Session| TabsList::new().load_session(s, &vec![]);
    let t = SplitChild::Tab;
    assert_eq!(load(&saved(1, t(1), t(2))), vec![]);
    assert_eq!(load(&saved(3, t(0), t(1))), vec![SessionError::NoParent]);
    assert_eq!(load(&saved(0, t(1), t(1))), vec![SessionError::SplitWithItself]);
    assert_eq!(load(&saved(0, t(0), t(5))), vec![SessionError::NoSuchTab]);
    assert_eq!(load(&saved(0, t(0), t(2))), vec![]);
    assert_eq!(
        SessionError::NoParent.text(),
        "Invalid or corrupt session: parent of group doesn't exist"
    );
    assert_eq!(
        SessionError::SplitWithItself.text(),
        "Invalid or corrupt session: tab split with itself"
    );
    assert_eq!(
        SessionError::NoSuchTab.text(),
        "Invalid or corrupt session: splitting non-existent tabs"
    );
    let nested = SplitChild::Split(Box::new(SavedSplit {
        horizontal: false,
        start: t(1),
        end: t(2),
    }));
    assert_eq!(nested.first_child(), 1);
    assert_eq!(load(&saved(0, t(0), nested)), vec![]);
    // What is outside of a mistake is restored.
    let broken = SplitChild::Split(Box::new(SavedSplit {
        horizontal: false,
        start: t(1),
        end: t(9),
    }));
    let mut l = TabsList::new();
    let found = l.load_session(&saved(0, t(0), broken), &vec![]);
    assert_eq!(found, vec![SessionError::NoSuchTab]);
    assert_eq!(blocks(&l), vec![vec![0, 1], vec![2]]);
    // Every mistake is told.
    let split = |start, end| {
        SplitChild::Split(Box::new(SavedSplit { horizontal: false, start, end }))
    };
    let found = load(&saved(0, split(t(0), t(9)), split(t(1), t(1))));
    assert_eq!(found, vec![SessionError::NoSuchTab, SessionError::SplitWithItself]);
}

#[test]
fn groups_that_are_listed_apart() {
    let t = SplitChild::Tab;
    let split = |start, end| {
        SplitChild::Split(Box::new(SavedSplit { horizontal: false, start, end }))
    };
    let mut l = TabsList::new();
    assert_eq!(l.load_session(&saved(0, t(0), t(2)), &vec![]), vec![]);
    assert_eq!(order(&l), vec![0, 1, 2]);
    assert_eq!(blocks(&l), vec![vec![0, 2], vec![1]]);
    assert!(!l.is_tidy());
    // They are shown together all the same.
    l.set_active(TabId(2), &none());
    assert_eq!(displayed(&l), vec![0, 2]);
    // Saving such a group and loading it again restores it.
    let s = l.get_session().unwrap();
    let paths: Vec<String> = s.paths.iter().map(text).collect();
    assert_eq!(paths, vec!["/a", "/b", "/c"]);
    assert_eq!(s.groups.len(), 1);
    let mut m = TabsList::new();
    assert_eq!(m.load_session(&s, &vec![]), vec![]);
    assert_eq!(blocks(&m), vec![vec![0, 2], vec![1]]);
    assert_eq!(order(&m), vec![0, 1, 2]);
    // New tabs go as far behind the parent as there are tabs in the group.
    assert!(l.can_open(TabPosition::After(TabId(2))));
    l.create_tab(TabPosition::After(TabId(2)), to("/d"), false, &none());
    assert_eq!(order(&l), vec![0, 1, 3, 2]);
    assert!(!l.can_leave(TabId(0)));
    assert!(!l.can_leave(TabId(2)));
    assert!(l.can_leave(TabId(1)));
    l.close_tab(TabId(1), &none());
    assert_eq!(order(&l), vec![0, 3, 2]);
    l.close_tab(TabId(3), &none());
    assert_eq!(order(&l), vec![0, 2]);
    // Nothing is between them any more.
    assert!(l.is_tidy() && l.can_leave(TabId(0)));
    l.close_tab(TabId(0), &none());
    assert_eq!(blocks(&l), vec![vec![2]]);
    // A parent that is not the first of its group.
    let mut l = TabsList::new();
    assert_eq!(l.load_session(&saved(2, t(0), t(2)), &vec![]), vec![]);
    assert_eq!(blocks(&l), vec![vec![2, 0], vec![1]]);
    assert!(!l.can_open(TabPosition::After(TabId(0))));
    assert!(l.can_open(TabPosition::End));
    // A tab that is named twice is where it was put last.
    let mut l = TabsList::new();
    let twice = saved(0, split(t(0), t(1)), split(t(1), t(2)));
    assert_eq!(l.load_session(&twice, &vec![]), vec![]);
    assert_eq!(blocks(&l), vec![vec![0, 1, 2]]);
    assert_eq!(leaves(&l.blocks[0].layout), vec![0, 1, 2]);
    // A group grows if its tabs are the parents of others.
    let mut l = TabsList::new();
    let mut grows = saved(0, t(0), t(1));
    grows.groups.extend(saved(1, t(1), t(2)).groups);
    assert_eq!(l.load_session(&grows, &vec![]), vec![]);
    assert_eq!(blocks(&l), vec![vec![0, 1, 2]]);
}

#[test]
fn tabs_listed_apart_are_moved() {
    let t = SplitChild::Tab;
    let mut l = TabsList::new();
    l.load_session(&saved(0, t(0), t(2)), &vec![]);
    // Dragging the parent takes along as many tabs as its group has.
    assert!(l.can_reorder(TabId(0), TabId(1), true));
    l.reorder(TabId(0), TabId(1), true, &none());
    assert_eq!(order(&l), vec![0, 1, 2]);
    assert!(!l.can_clear(0));
    assert!(!l.can_leave(TabId(2)));
    l.reorder(TabId(1), TabId(0), false, &none());
    assert_eq!(order(&l), vec![1, 0, 2]);
    assert!(l.is_tidy() && l.can_clear(0) && l.can_leave(TabId(2)));
    let mut l = three();
    l.active_split(true, None, true, None, &none());
    assert_eq!(order(&l), vec![0, 3, 1, 2]);
    l.reorder(TabId(0), TabId(2), true, &none());
    assert_eq!(order(&l), vec![1, 2, 0, 3]);
    assert_eq!(blocks(&l), vec![vec![1], vec![2], vec![0, 3]]);
    l.reorder(TabId(3), TabId(1), false, &none());
    assert_eq!(order(&l), vec![3, 1, 2, 0]);
    assert!(l.is_tidy());
    assert!(l.can_reopen());
}

#[test]
fn sessions_are_written_by_name() {
    let session = saved(0, SplitChild::Tab(0), SplitChild::Tab(1));
    let write = save_session("s".to_string(), &session, vec![7]);
    let SessionWrite::Replace { name, row } = write else {
        panic!("not saved");
    };
    assert_eq!(name, "s");
    assert_eq!(row.paths, b"/a\0/b\0/c".to_vec());
    assert_eq!(row.groups, Some(vec![7]));
    let cwd = fp("/");
    let loaded = load_session(Some(row), Some(session.groups), &cwd).unwrap();
    assert_eq!(loaded.paths.iter().map(text).collect::<Vec<_>>(), vec!["/a", "/b", "/c"]);
    assert_eq!(loaded.groups.len(), 1);
    assert!(load_session(None, None, &cwd).is_none());
    assert!(matches!(delete_session("s".to_string()), SessionWrite::Delete { name } if name == "s"));
}

fn showing(id: u64, path: &str) -> Shown {
    Shown { panes: vec![(TabId(id), PaneState::for_jump(Some(arc(path))))] }
}

fn displayed(l: &TabsList) -> Vec<u64> {
    let mut ids: Vec<u64> =
        l.tabs.iter().filter(|t| t.pane.visible()).map(|t| t.id.0).collect();
    ids.sort();
    ids
}

#[test]
fn panes_follow_the_active_tab() {
    let mut l = three();
    assert_eq!(displayed(&l), vec![0]);
    assert!(l.resolve_pending(TabId(0)).is_some());
    assert!(matches!(l.tabs[0].pane, TabPane::Displayed));
    assert!(l.resolve_pending(TabId(0)).is_none());
    assert!(l.resolve_pending(TabId(1)).is_none());
    // What a pane showed is there again when its tab is.
    l.set_active(TabId(1), &showing(0, "/a/seen"));
    assert_eq!(displayed(&l), vec![1]);
    assert!(matches!(&l.tabs[0].pane, TabPane::Detached { state, pending: false }
        if scrolled_to(state).as_deref() == Some("/a/seen")));
    l.active_split(true, Some(TabId(2)), true, None, &none());
    assert_eq!(displayed(&l), vec![1, 2]);
    l.unload_tabs(&vec![TabId(0), TabId(2)], &none());
    assert!(matches!(l.tabs[0].pane, TabPane::Detached { pending: true, .. }));
    assert!(matches!(l.tabs[2].pane, TabPane::Loading(_)));
    l.active_hide(&none());
    assert!(displayed(&l).is_empty());
    l.set_active(TabId(0), &none());
    let state = l.resolve_pending(TabId(0)).unwrap();
    assert_eq!(scrolled_to(&state).as_deref(), Some("/a/seen"));
    // A closed tab remembers it too.
    l.active_close_tab(&showing(0, "/a/last"));
    assert_eq!(scrolled_to(&l.closed[0].current.state).as_deref(), Some("/a/last"));
    l.reopen(&none());
    let state = l.resolve_pending(TabId(0)).unwrap();
    assert_eq!(scrolled_to(&state).as_deref(), Some("/a/last"));
    // So does the history.
    l.active_navigate(to("/z"), &showing(0, "/a/then"));
    l.active_back(&empty());
    let state = l.resolve_pending(TabId(0)).unwrap();
    assert_eq!(scrolled_to(&state).as_deref(), Some("/a/then"));
}

#[test]
fn tabs_close_without_a_replacement() {
    let mut l = three();
    l.active_close_no_replacement(&none());
    assert_eq!(l.active, None);
    assert!(displayed(&l).is_empty());
    assert_eq!(blocks(&l), vec![vec![1], vec![2]]);
    assert_eq!(l.reopen(&none()), Some(TabId(0)));
    l.active_split(true, None, true, None, &none());
    l.active_close_no_replacement(&none());
    assert_eq!(l.active, Some(TabId(0)));
    l.close_no_replacement(TabId(2), &none());
    assert_eq!(l.closed.len(), 2);
    l.active_hide(&none());
    l.active_close_no_replacement(&none());
    assert_eq!(l.closed.len(), 2);
}

#[test]
fn scripts_have_a_target() {
    let mut l = three();
    let mut target = Target::for_script(&l);
    let take = |target: &mut Target, l: &TabsList, line: &str| target.take(&run_command(line), l);
    l.set_active(TabId(1), &none());
    assert_eq!(take(&mut target, &l, "Parent"), Reach::Tab(TabId(0)));
    assert_eq!(take(&mut target, &l, "Navigate /x"), Reach::Tab(TabId(0)));
    assert_eq!(take(&mut target, &l, "SortBy size"), Reach::Tab(TabId(0)));
    assert_eq!(take(&mut target, &l, "Quit"), Reach::Anywhere);
    assert_eq!(take(&mut target, &l, "SaveSession s"), Reach::Anywhere);
    // The active tab has changed.
    assert_eq!(take(&mut target, &l, "Delete"), Reach::Refused);
    assert_eq!(take(&mut target, &l, "Split horizontal"), Reach::Hidden);
    assert_eq!(take(&mut target, &l, "ClearTargetTab"), Reach::Cleared);
    assert_eq!(target, Target::Active);
    assert_eq!(take(&mut target, &l, "Delete"), Reach::Tab(TabId(1)));
    assert_eq!(take(&mut target, &l, "Split horizontal"), Reach::Tab(TabId(1)));
    let mut gone = Target::Started(Some(TabId(9)));
    assert_eq!(take(&mut gone, &l, "Parent"), Reach::NoTab);
    let mut start = Target::for_script(&l);
    assert_eq!(take(&mut start, &l, "Delete"), Reach::Tab(TabId(1)));
    assert!(matches!(run_command("Delete"), Command::Simple(Simple::Delete)));
    l.parent_in(TabId(2), &empty());
    assert_eq!(text(&l.tabs[2].dir), "/");
    l.back_in(TabId(2), &empty());
    l.forward_in(TabId(2), &empty());
    l.navigate_in(TabId(2), to("/q"), &empty());
    l.back_or_parent_in(TabId(2), &empty());
    l.search_in(TabId(2), "x".to_string(), &empty());
    assert_eq!(text(&l.tabs[2].dir), "/");
    l.back_in(TabId(2), &empty());
    l.child_in(TabId(2), &contents(&["/k"]), &empty());
    assert_eq!(l.active, Some(TabId(1)));
}

#[test]
fn session_paths_round_trip() {
    let paths = vec![fp("/a b"), fp("/"), fp("/c/d")];
    let raw = encode_paths(&paths);
    assert_eq!(raw, b"/a b\0/\0/c/d".to_vec());
    let cwd = fp("/home/u");
    let back = decode_paths(&raw, &cwd);
    assert_eq!(back.len(), 3);
    assert!(back.iter().zip(&paths).all(|(a, b)| a.same(b)));
    let mixed: Vec<String> = decode_paths(&b"/a\0b/c".to_vec(), &cwd).iter().map(text).collect();
    assert_eq!(mixed, vec!["/a", "/home/u/b/c"]);
    let session = Session { paths, groups: vec![] };
    let row = session_row(&session, vec![7]);
    assert_eq!(row.paths, raw);
    assert_eq!(row.groups, Some(vec![7]));
    let group = || SavedGroup {
        parent: 0,
        split: SavedSplit { horizontal: true, start: SplitChild::Tab(0), end: SplitChild::Tab(1) },
    };
    let back = row_session(&row, Some(vec![group()]), &cwd);
    assert!(back.paths.iter().zip(&session.paths).all(|(a, b)| a.same(b)));
    assert_eq!(back.groups.len(), 1);
    assert!(row_session(&row, None, &cwd).groups.is_empty());
}
