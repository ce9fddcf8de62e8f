use std::sync::Arc;

use aw_fm::cache::{CachedDir, DirCache, MAX_CACHED_FLAT_DIRS};
use aw_fm::contents::{
    bsearch, liststore_needs_reinsert, matches_query, sorted_items, Contents, Item,
    PartiallyAppliedUpdate, Query,
};
use aw_fm::entry::{Entry, FileInfo, FileTime};
use aw_fm::existing::{decide, liststore_entry_for_update, ExistingEntry};
use aw_fm::filter::FilterChange;
use aw_fm::flat::{Delayed, DirState, FlatDir, WatchedDir};
use aw_fm::nav::PaneState;
use aw_fm::objects::Objects;
use aw_fm::opened::OpenDirs;
use aw_fm::operations::Kind;
use aw_fm::pane::TabId;
use aw_fm::path::FilePath;
use aw_fm::progress::Outcome;
use aw_fm::search::{SearchSnapshot, SearchUpdate};
use aw_fm::selection::{
    accepts_paste, delete_answered, delete_query, first_selected, matches_completed_op,
    new_paths_for_op, seek,
    seek_next, seek_prev, seek_state, selected, selection_env_str, CONFIRM_DELETE,
};
use aw_fm::settings::{SortDir, SortMode, SortSettings};
use aw_fm::snapshot::{DirSnapshot, SnapshotKind};
use aw_fm::thumbs::{ThumbConfig, ThumbPriority};
use aw_fm::update::Update;

const BY_NAME: SortSettings = SortSettings { mode: SortMode::Name, direction: SortDir::Ascending };

const BY_SIZE: SortSettings = SortSettings { mode: SortMode::Size, direction: SortDir::Ascending };

fn fp(s: &str) -> FilePath {
    FilePath::parse(&s.as_bytes().to_vec()).unwrap()
}

fn arc(s: &str) -> Arc<FilePath> {
    Arc::new(fp(s))
}

fn text(p: &FilePath) -> String {
    String::from_utf8(p.to_bytes()).unwrap()
}

fn sized(path: &str, size: u64) -> Arc<Entry> {
    let info = FileInfo {
        mtime: FileTime { sec: size, usec: 0 },
        mime: "text/plain".to_string(),
        size,
        allocated_size: 4096,
        directory: false,
        mountpoint: false,
        can_execute: false,
        is_symlink: false,
        symlink_target: None,
        icon: 0,
        inode: size + 100,
    };
    Arc::new(Entry::new(fp(path), info).0)
}

fn file(path: &str) -> Arc<Entry> {
    sized(path, 1)
}

fn files(paths: &[&str]) -> Vec<Arc<Entry>> {
    paths.iter().map(|p| file(p)).collect()
}

fn filled(paths: &[&str]) -> Contents {
    let mut c = Contents::new(BY_NAME);
    c.apply_snapshot(true, files(paths));
    c
}

fn paths(list: &[Item]) -> Vec<String> {
    list.iter().map(|i| text(&i.entry.abs_path)).collect()
}

fn chosen(list: &[Item]) -> Vec<String> {
    list.iter().filter(|i| i.selected).map(|i| text(&i.entry.abs_path)).collect()
}

fn query(s: &str) -> Query {
    Query { text: s.to_lowercase().into_bytes(), chars: s.chars().count() }
}

fn config() -> ThumbConfig {
    ThumbConfig::new(4, 0)
}

#[test]
fn contents_stay_sorted() {
    let mut c = filled(&["/d/c", "/d/a"]);
    assert_eq!(paths(&c.list), vec!["/d/a", "/d/c"]);
    c.apply_snapshot(false, files(&["/d/b"]));
    assert_eq!(paths(&c.list), vec!["/d/a", "/d/b", "/d/c"]);
    c.insert(file("/d/aa"));
    assert_eq!(paths(&c.list), vec!["/d/a", "/d/aa", "/d/b", "/d/c"]);
    c.remove(0);
    assert_eq!(paths(&c.list), vec!["/d/aa", "/d/b", "/d/c"]);
    assert_eq!(c.total_position_by_sorted(&file("/d/b")), Some(1));
    assert_eq!(c.total_position_by_sorted(&file("/d/x")), None);
    c.sort(SortSettings { mode: SortMode::Name, direction: SortDir::Descending });
    assert_eq!(paths(&c.list), vec!["/d/c", "/d/b", "/d/aa"]);
    c.apply_snapshot(true, files(&["/d/z"]));
    assert_eq!(paths(&c.list), vec!["/d/z"]);
    c.clear(BY_SIZE);
    assert!(c.list.is_empty());
}

#[test]
fn contents_are_cloned_unselected() {
    let mut c = filled(&["/d/a", "/d/b"]);
    c.select_only(&fp("/d/b"));
    let mut d = Contents::new(BY_NAME);
    d.clone_from(&c, BY_NAME);
    assert_eq!(paths(&d.list), vec!["/d/a", "/d/b"]);
    assert!(chosen(&d.list).is_empty());
    assert_eq!(chosen(&c.copy().list), vec!["/d/b"]);
    let s = Contents::search_from(&c);
    assert_eq!(paths(&s.list), vec!["/d/a", "/d/b"]);
    assert!(s.visible().is_empty());
    // Stale rows are only there to be looked at.
    c.mark_stale(BY_SIZE);
    d.clone_from(&c, BY_NAME);
    assert!(d.list.is_empty());
    c.sort(BY_NAME);
    assert!(c.list.is_empty() && !c.stale);
}

#[test]
fn rows_are_found() {
    let c = filled(&["/d/a", "/d/b", "/d/c"]);
    assert_eq!(bsearch(&c.list, &file("/d/c"), BY_NAME), Some(2));
    assert_eq!(bsearch(&c.list, &file("/e/c"), BY_NAME), None);
    let list = vec![
        Item { entry: sized("/d/x", 9), selected: true },
        Item { entry: sized("/d/y", 3), selected: false },
    ];
    let by_size = sorted_items(&list, BY_SIZE);
    assert_eq!(paths(&by_size), vec!["/d/y", "/d/x"]);
    assert!(by_size[1].selected);
    assert!(!liststore_needs_reinsert(&by_size, BY_SIZE, 0, &sized("/d/y", 4)));
    assert!(liststore_needs_reinsert(&by_size, BY_SIZE, 0, &sized("/d/y", 10)));
}

#[test]
fn rows_are_updated() {
    let mut c = Contents::new(BY_SIZE);
    c.apply_snapshot(true, vec![sized("/d/a", 1), sized("/d/b", 2), sized("/d/c", 3)]);
    c.select_only(&fp("/d/a"));
    let old = c.list[0].entry.clone();
    c.finish_update(PartiallyAppliedUpdate::Mutate(old, sized("/d/a", 9)));
    assert_eq!(paths(&c.list), vec!["/d/b", "/d/c", "/d/a"]);
    assert_eq!(chosen(&c.list), vec!["/d/a"]);
    c.finish_update(PartiallyAppliedUpdate::Insert(sized("/d/d", 0)));
    assert_eq!(paths(&c.list), vec!["/d/d", "/d/b", "/d/c", "/d/a"]);
    c.finish_update(PartiallyAppliedUpdate::Delete(sized("/d/c", 3)));
    assert_eq!(paths(&c.list), vec!["/d/d", "/d/b", "/d/a"]);
    let old = sized("/d/b", 2);
    c.reinsert_updated(1, sized("/d/b", 3), &old);
    assert_eq!(c.list[1].entry.raw_size(), 3);
    let up = PartiallyAppliedUpdate::Insert(file("/d/s/x"));
    assert!(up.is_in_subdir(&fp("/d")));
    assert!(up.copy().is_in_subdir(&fp("/")));
    assert!(!up.is_in_subdir(&fp("/d/s")));
}

#[test]
fn searches_filter() {
    let mut s = Contents::search_from(&filled(&["/d/other", "/d/Report"]));
    s.filter = Some(query("rep"));
    assert_eq!(paths(&s.visible()), vec!["/d/Report"]);
    s.apply_search_snapshot(files(&["/d/x/report2", "/d/x/no"]));
    assert_eq!(paths(&s.visible()), vec!["/d/Report", "/d/x/report2"]);
    assert_eq!(s.list.len(), 4);
    assert_eq!(s.filtered_position_by_sorted(&file("/d/x/report2")), Some(1));
    assert_eq!(s.filtered_position_by_sorted(&file("/d/other")), None);
    s.add_flat_elements_for_search(files(&["/d/a_report"]));
    assert_eq!(s.visible().len(), 3);
    s.re_sort_for_search();
    assert_eq!(s.list.len(), 5);
    assert!(matches_query(&query("oth"), &file("/d/OTHER")));
    assert!(!matches_query(&query("ot"), &file("/d/OTHER")));
    // Characters count, not their bytes.
    assert!(!matches_query(&query("日本"), &file("/d/日本語")));
    assert!(matches_query(&query("日本語"), &file("/d/日本語")));
    assert!(matches_query(&query("ÉTÉ"), &file("/d/été")));
    assert!(matches_query(&query("été"), &file("/d/L'ÉTÉ")));
}

#[test]
fn rows_are_selected_and_sought() {
    let mut c = filled(&["/d/apple", "/d/banana", "/d/Cherry", "/d/apricot"]);
    // apple, apricot, banana, Cherry
    assert_eq!(seek(&c.list, "AP"), Some(0));
    assert_eq!(seek(&c.list, "rr"), Some(3));
    assert_eq!(seek(&c.list, "zz"), None);
    assert_eq!(seek_next(&c.list, "ap", true), Some(0));
    c.select_only(&fp("/d/apple"));
    assert_eq!(first_selected(&c.list), Some(0));
    assert_eq!(seek_next(&c.list, "ap", true), Some(1));
    assert_eq!(seek_prev(&c.list, "ap", false), None);
    assert_eq!(seek_prev(&c.list, "ap", true), Some(1));
    c.select_only(&fp("/d/apricot"));
    assert_eq!(seek_next(&c.list, "ap", false), None);
    assert_eq!(seek_next(&c.list, "ap", true), Some(0));
    assert_eq!(seek_prev(&c.list, "ap", false), Some(0));
    assert_eq!(selected(&c.list).len(), 1);
    let banana = file("/d/banana");
    c.select_if_not(&banana);
    assert_eq!(chosen(&c.list), vec!["/d/banana"]);
    c.list[0].selected = true;
    c.select_if_not(&banana);
    assert_eq!(chosen(&c.list).len(), 2);
    c.unselect_all();
    assert_eq!(first_selected(&c.list), None);
    let s = seek_state(&banana, 2);
    assert_eq!(s.scroll.unwrap().index, 2);
    assert!(s.focus.unwrap().select);
}

#[test]
fn selection_texts() {
    assert_eq!(selection_env_str(&files(&["/d/a", "/d/b"])), b"/d/a\n/d/b".to_vec());
    assert!(selection_env_str(&vec![]).is_empty());
    assert_eq!(delete_query(0, "", ""), None);
    assert_eq!(delete_query(1, "\"a\"", "d").as_deref(), Some("Permanently delete \"a\"?"));
    assert_eq!(
        delete_query(3, "", "d").as_deref(),
        Some("Permanently delete 3 selected items in d?")
    );
    let asked = || files(&["/d/a"]).iter().map(|e| Arc::new(e.abs_path.copy())).collect();
    let (kind, paths): (Kind, Vec<Arc<FilePath>>) =
        delete_answered(arc("/d"), asked(), Some(CONFIRM_DELETE)).unwrap();
    assert!(matches!(kind, Kind::Delete(d) if text(&d) == "/d"));
    assert_eq!(text(&paths[0]), "/d/a");
    assert!(delete_answered(arc("/d"), asked(), Some(0)).is_none());
    assert!(delete_answered(arc("/d"), asked(), None).is_none());
    assert!(delete_answered(arc("/d"), vec![], Some(CONFIRM_DELETE)).is_none());
    assert!(accepts_paste(false, false));
    assert!(!accepts_paste(true, false));
    assert!(accepts_paste(true, true));
}

#[test]
fn completed_operations_are_shown() {
    let d = fp("/d");
    assert!(matches_completed_op(true, true, &d, &Kind::Copy(arc("/d"))));
    assert!(matches_completed_op(true, true, &d, &Kind::Rename(arc("/d/x"))));
    assert!(!matches_completed_op(true, true, &d, &Kind::Move(arc("/e"))));
    assert!(!matches_completed_op(false, true, &d, &Kind::Copy(arc("/d"))));
    assert!(!matches_completed_op(true, false, &d, &Kind::Copy(arc("/d"))));
    assert!(!matches_completed_op(true, true, &d, &Kind::Trash(arc("/d"))));
    let new = new_paths_for_op(
        &d,
        &vec![
            Outcome::Copy(arc("/d/a")),
            Outcome::CreateDestDir(arc("/d/s")),
            Outcome::Copy(arc("/d/s/x")),
            Outcome::Copy(arc("/d/a")),
            Outcome::Skip,
        ],
    );
    let mut names: Vec<String> = new.iter().map(|p| text(p)).collect();
    names.sort();
    assert_eq!(names, vec!["/d/a", "/d/s"]);
    let mut c = filled(&["/d/0", "/d/a", "/d/s"]);
    let state = c.scroll_to_completed_inner(&new).unwrap();
    assert_eq!(chosen(&c.list), vec!["/d/a", "/d/s"]);
    assert_eq!(state.scroll.unwrap().index, 1);
    assert!(!state.focus.unwrap().select);
    assert!(c.scroll_to_completed_inner(&vec![arc("/d/none")]).is_none());
    assert_eq!(chosen(&c.list).len(), 2);
}

#[test]
fn scrolling_finds_the_row() {
    let c = filled(&["/d/a", "/d/b"]);
    let mut all = Objects::new(config());
    all.create_or_update(c.list[0].entry.clone(), false);
    all.create_or_update(c.list[1].entry.clone(), false);
    let jump = PaneState::for_jump(Some(arc("/d/b")));
    assert_eq!(c.scroll_target(&all, &jump), (1, true));
    assert_eq!(c.scroll_target(&all, &PaneState::for_jump(None)), (0, false));
    let mut gone = PaneState::for_jump(Some(arc("/d/gone")));
    gone.scroll.as_mut().unwrap().index = 1;
    assert_eq!(c.scroll_target(&all, &gone), (1, false));
}

#[test]
fn directories_load() {
    let mut d = FlatDir::new(arc("/d"));
    assert!(d.state.unloaded());
    let up = || Update::Removed(fp("/d/x"));
    assert!(!d.matches_flat_update(&up()));
    assert!(d.start_load(7, 1));
    assert!(!d.start_load(8, 2));
    assert!(d.matches(7) && !d.matches(8));
    assert!(d.state.loading() && d.state.watched());
    assert!(d.matches_flat_update(&up()));
    assert!(!d.matches_flat_update(&Update::Removed(fp("/d/x/y"))));
    assert!(matches!(d.maybe_drop_or_delay(up()), Delayed::Dropped));
    d.mark_watch_started();
    assert!(matches!(d.maybe_drop_or_delay(up()), Delayed::Waiting));
    let (waiting, start) = d.take_loaded();
    assert_eq!((waiting.len(), start), (1, 1));
    assert!(d.state.loaded());
    assert!(matches!(d.maybe_drop_or_delay(up()), Delayed::Now(_)));
    assert_eq!(d.unload().unwrap().cancel, 7);
    assert!(d.unload().is_none());
    assert!(d.try_into_cached().is_none());
    let loaded =
        FlatDir { path: arc("/d"), state: DirState::Loaded(WatchedDir::start(arc("/d"), 3)) };
    assert_eq!(loaded.try_into_cached().unwrap().cancel, 3);
}

fn cached(s: &str, n: u64) -> CachedDir {
    CachedDir {
        dir: arc(s),
        watch: WatchedDir::start(arc(s), n),
        contents: Contents::new(BY_NAME),
    }
}

#[test]
fn closed_directories_are_cached() {
    let mut c = DirCache::new();
    for i in 0..MAX_CACHED_FLAT_DIRS {
        assert!(c.cache_open_dir(cached(&format!("/{i}"), i as u64)).is_empty());
    }
    let out = c.cache_open_dir(cached("/new", 50));
    assert_eq!(out.len(), 1);
    assert_eq!(out[0].watch.cancel, 0);
    assert_eq!(c.dirs.len(), MAX_CACHED_FLAT_DIRS);
    assert!(c.position(&fp("/0")).is_none());
    assert_eq!(c.take(&fp("/2")).unwrap().watch.cancel, 2);
    assert!(c.take(&fp("/2")).is_none());
    assert_eq!(c.position(&fp("/new")), Some(MAX_CACHED_FLAT_DIRS - 2));
}

#[test]
fn updates_find_their_entry() {
    let mut all = Objects::new(config());
    let c = filled(&["/d/a"]);
    let a = c.list[0].entry.clone();
    all.create_or_update(a.clone(), false);
    all.create_or_update(sized("/d/far", 7), false);
    let find = |up: &Update, inode| liststore_entry_for_update(&c, &all, up, inode);
    assert!(matches!(
        find(&Update::Removed(fp("/d/a")), None),
        ExistingEntry::Present(_, 0)
    ));
    assert!(matches!(find(&Update::Removed(fp("/d/far")), None), ExistingEntry::NotLocal(_)));
    assert!(matches!(find(&Update::Removed(fp("/d/x")), Some(101)), ExistingEntry::Missing));
    // A file that was removed while it was open shows up under another name.
    assert!(matches!(
        find(&Update::Removed(fp("/d/.nfs0001")), Some(101)),
        ExistingEntry::Present(_, 0)
    ));
    assert!(matches!(
        find(&Update::Removed(fp("/d/.nfs0001")), Some(5)),
        ExistingEntry::Missing
    ));
}

#[test]
fn updates_have_an_effect() {
    let mut all = Objects::new(config());
    let a = file("/d/a");
    all.create_or_update(a.clone(), false);
    let here = || ExistingEntry::Present(a.clone(), 0);
    let (e, thumb) = decide(&mut all, Update::Entry(file("/d/a")), here());
    assert!(e.own.is_none() && e.searches.is_none() && thumb.is_none());
    let (e, _) = decide(&mut all, Update::Removed(fp("/d/a")), here());
    assert!(matches!(e.own, Some(PartiallyAppliedUpdate::Delete(_))));
    assert!(e.searches.is_none());
    let (e, _) =
        decide(&mut all, Update::Removed(fp("/d/a")), ExistingEntry::NotLocal(a.clone()));
    assert!(e.own.is_none());
    assert!(matches!(e.searches, Some(PartiallyAppliedUpdate::Delete(_))));
    let (e, thumb) = decide(&mut all, Update::Entry(sized("/d/a", 5)), here());
    assert!(matches!(e.own, Some(PartiallyAppliedUpdate::Mutate(..))));
    assert!(matches!(e.searches, Some(PartiallyAppliedUpdate::Mutate(..))));
    assert_eq!(thumb.unwrap().id, 0);
    let (e, thumb) =
        decide(&mut all, Update::Entry(file("/d/new")), ExistingEntry::Missing);
    assert!(matches!(e.own, Some(PartiallyAppliedUpdate::Insert(_))));
    assert!(e.searches.is_none());
    let thumb = thumb.unwrap();
    assert_eq!((thumb.id, thumb.priority, thumb.from_event), (1, ThumbPriority::Low, true));
    let (e, _) = decide(&mut all, Update::Removed(fp("/d/no")), ExistingEntry::Missing);
    assert!(e.own.is_none() && e.searches.is_none());
}

fn loaded(dirs: &mut OpenDirs, id: u64, dir: &str, entries: &[&str]) {
    dirs.open(TabId(id), arc(dir), BY_NAME);
    assert_eq!(dirs.load(TabId(id), id, 0, 0), (true, false));
    dirs.mark_watching(id);
    let snap = DirSnapshot::new(SnapshotKind::Complete, &arc(dir), id, files(entries));
    assert!(dirs.apply_snapshot(snap).waiting.is_empty());
    assert!(dirs.tab_loaded(TabId(id)));
}

#[test]
fn open_directories_follow_updates() {
    let mut o = OpenDirs::new(config());
    loaded(&mut o, 1, "/d", &["/d/b", "/d/a"]);
    assert_eq!(paths(&o.dirs[0].tabs[0].contents.list), vec!["/d/a", "/d/b"]);
    // A second tab of the same directory shows the same.
    o.open(TabId(2), arc("/d"), BY_SIZE);
    assert_eq!(o.dirs.len(), 1);
    assert_eq!(o.dirs[0].tabs[1].contents.list.len(), 2);
    let r = o.update(Update::Entry(sized("/d/c", 9)), None).unwrap();
    assert_eq!(r.id, 2);
    assert_eq!(paths(&o.dirs[0].tabs[0].contents.list), vec!["/d/a", "/d/b", "/d/c"]);
    assert_eq!(o.dirs[0].tabs[1].contents.list.len(), 3);
    o.update(Update::Removed(fp("/d/a")), None);
    assert_eq!(paths(&o.dirs[0].tabs[0].contents.list), vec!["/d/b", "/d/c"]);
    assert!(o.update(Update::Removed(fp("/e/a")), None).is_none());
    o.update_sort(TabId(1), SortSettings { mode: SortMode::Name, direction: SortDir::Descending });
    assert_eq!(paths(&o.dirs[0].tabs[0].contents.list), vec!["/d/c", "/d/b"]);
}

#[test]
fn updates_wait_while_a_directory_loads() {
    let mut o = OpenDirs::new(config());
    o.open(TabId(1), arc("/d"), BY_NAME);
    assert!(!o.tab_loading(TabId(1)));
    o.load(TabId(1), 5, 0, 0);
    assert!(o.tab_loading(TabId(1)));
    o.update(Update::Entry(file("/d/lost")), None);
    o.mark_watching(5);
    o.update(Update::Entry(file("/d/late")), None);
    let start = DirSnapshot::new(SnapshotKind::Start, &arc("/d"), 5, files(&["/d/b"]));
    assert!(o.apply_snapshot(start).waiting.is_empty());
    let other = DirSnapshot::new(SnapshotKind::End, &arc("/d"), 6, files(&["/d/x"]));
    assert!(o.apply_snapshot(other).ids.is_empty());
    let end = DirSnapshot::new(SnapshotKind::End, &arc("/d"), 5, files(&["/d/a"]));
    let taken = o.apply_snapshot(end);
    assert_eq!(taken.ids, vec![1]);
    for up in taken.waiting {
        o.update(up, None);
    }
    assert_eq!(paths(&o.dirs[0].tabs[0].contents.list), vec!["/d/a", "/d/b", "/d/late"]);
    let ended = o.unload(&fp("/d"));
    assert_eq!(ended.watch.unwrap().cancel, 5);
    assert!(o.dirs[0].tabs[0].contents.list.is_empty());
    assert!(o.unload(&fp("/none")).watch.is_none());
}

#[test]
fn searches_show_what_is_below() {
    let mut o = OpenDirs::new(config());
    loaded(&mut o, 1, "/d", &["/d/report", "/d/s"]);
    assert_eq!(o.search(TabId(1), "rep".to_string(), 40), None);
    assert!(o.tab_loading(TabId(1)));
    let snap = SearchSnapshot { id: 40, entries: files(&["/d/s/report2"]), finished: false };
    assert_eq!(o.apply_search_snapshot(snap).len(), 1);
    let wait = SearchUpdate { search_id: 40, update: Update::Entry(file("/d/s/rep3")) };
    assert!(o.search_update(wait).is_none());
    let done = SearchSnapshot { id: 40, entries: vec![], finished: true };
    let late = o.apply_search_snapshot(done);
    assert!(late[0].is_some());
    assert!(o.tab_loaded(TabId(1)));
    let visible = |o: &OpenDirs| {
        let s = o.dirs[0].tabs[0].search.as_ref().unwrap();
        let mut v = paths(&s.contents.visible());
        v.sort();
        v
    };
    assert_eq!(visible(&o), vec!["/d/report", "/d/s/rep3", "/d/s/report2"]);
    // What changes in the directory changes in its search.
    o.update(Update::Removed(fp("/d/report")), None);
    assert_eq!(visible(&o), vec!["/d/s/rep3", "/d/s/report2"]);
    let gone = SearchUpdate { search_id: 40, update: Update::Removed(fp("/d/s/rep3")) };
    o.search_update(gone);
    assert_eq!(visible(&o), vec!["/d/s/report2"]);
    assert_eq!(
        o.search(TabId(1), "repo".to_string(), 0),
        Some(FilterChange::MoreStrict)
    );
    assert_eq!(o.search(TabId(1), "repo".to_string(), 0), None);
    o.update_sort(TabId(1), BY_SIZE);
    assert_eq!(visible(&o), vec!["/d/s/report2"]);
    o.clone_tab(TabId(1), TabId(9));
    assert_eq!(o.dirs[0].tabs.len(), 2);
    assert_eq!(o.dirs[0].tabs[1].search.as_ref().unwrap().original, "repo");
    assert!(o.close_search(TabId(1)));
    assert!(!o.close_search(TabId(1)));
}

#[test]
fn searches_learn_of_other_directories() {
    let mut o = OpenDirs::new(config());
    loaded(&mut o, 1, "/d", &["/d/s"]);
    o.search(TabId(1), "abc".to_string(), 40);
    let done = SearchSnapshot { id: 40, entries: files(&["/d/s/abc"]), finished: true };
    o.apply_search_snapshot(done);
    loaded(&mut o, 2, "/d/s", &["/d/s/abc"]);
    // The directory itself tells of a change, and the search shows it.
    o.update(Update::Entry(sized("/d/s/abc", 77)), None);
    let s = o.dirs[0].tabs[0].search.as_ref().unwrap();
    assert_eq!(s.contents.visible()[0].entry.raw_size(), 77);
    let up = SearchUpdate { search_id: 40, update: Update::Entry(sized("/d/s/abc", 88)) };
    o.search_update(up);
    assert_eq!(o.objects.find_entry(&fp("/d/s/abc")).unwrap().raw_size(), 77);
    let none = SearchUpdate { search_id: 41, update: Update::Removed(fp("/d/s/abc")) };
    assert!(o.search_update(none).is_none());
}

#[test]
fn tabs_change_directories() {
    let mut o = OpenDirs::new(config());
    loaded(&mut o, 1, "/d", &["/d/a"]);
    let (moved, left) = o.change_location_flat(TabId(1), arc("/e"), BY_NAME, true);
    assert!(moved && left.ended.is_none() && left.dropped.is_empty());
    assert_eq!(o.cache.dirs.len(), 1);
    // The old rows stay until the new ones are there.
    assert!(o.dirs[0].tabs[0].contents.stale);
    assert_eq!(o.dirs[0].tabs[0].contents.list.len(), 1);
    o.load(TabId(1), 6, 0, 0);
    let (_, left) = o.change_location_flat(TabId(1), arc("/d"), BY_NAME, false);
    assert_eq!(left.ended.unwrap().cancel, 6);
    assert!(o.tab_loaded(TabId(1)));
    assert!(o.cache.dirs.is_empty());
    assert_eq!(paths(&o.dirs[0].tabs[0].contents.list), vec!["/d/a"]);
    let (moved, _) = o.change_location_flat(TabId(1), arc("/d"), BY_NAME, false);
    assert!(!moved);
    let (moved, _) = o.change_location_flat(TabId(99), arc("/d"), BY_NAME, false);
    assert!(!moved);
    o.close(TabId(1));
    assert!(o.dirs.is_empty());
    // What is cached follows changes too.
    o.update(Update::Entry(file("/d/b")), None);
    o.open(TabId(2), arc("/d"), BY_NAME);
    assert!(o.tab_loaded(TabId(2)));
    assert_eq!(paths(&o.dirs[0].tabs[0].contents.list), vec!["/d/a", "/d/b"]);
}

#[test]
fn entries_are_forgotten_when_nothing_shows_them() {
    let mut o = OpenDirs::new(config());
    loaded(&mut o, 1, "/d", &["/d/a"]);
    assert!(!o.forget(0));
    o.update(Update::Removed(fp("/d/a")), None);
    assert!(o.forget(0));
    assert!(!o.forget(0));
    assert!(o.objects.find_entry(&fp("/d/a")).is_none());
}

#[test]
fn updates_have_a_path() {
    let up = Update::Entry(file("/d/s/x"));
    assert_eq!(text(up.path()), "/d/s/x");
    assert!(up.is_in_subdir(&fp("/d")));
    assert!(!up.is_in_subdir(&fp("/d/s")));
    assert!(!Update::Removed(fp("/e/x")).is_in_subdir(&fp("/d")));
}

#[test]
fn tabs_sorted_alike_show_the_same() {
    let mut o = OpenDirs::new(config());
    loaded(&mut o, 1, "/d", &["/d/b", "/d/a"]);
    o.open(TabId(2), arc("/d"), BY_NAME);
    o.update(Update::Entry(sized("/d/ab", 9)), None);
    o.update(Update::Entry(sized("/d/b", 7)), None);
    o.update(Update::Removed(fp("/d/a")), None);
    let (one, other) = (&o.dirs[0].tabs[0].contents.list, &o.dirs[0].tabs[1].contents.list);
    assert_eq!(paths(one), vec!["/d/ab", "/d/b"]);
    assert_eq!(paths(other), paths(one));
    assert_eq!(one[1].entry.raw_size(), 7);
    assert_eq!(other[1].entry.raw_size(), 7);
}
