use std::sync::Arc;

use aw_fm::entry::{Entry, FileInfo, FileTime};
use aw_fm::objects::{EntryObjectSnapshot, Objects, LRU_THUMBNAIL_LIMIT};
use aw_fm::path::FilePath;
use aw_fm::settings::SortSettings;
use aw_fm::snapshot::{DirSnapshot, SnapshotKind};
use aw_fm::thumbs::{
    EntryObject, Thumb, ThumbConfig, ThumbPriority, ThumbSize, Thumbnail, WidgetChange,
    WidgetCounter,
};

const SIZE: ThumbSize = ThumbSize::Normal;

fn fp(s: &str) -> FilePath {
    FilePath::parse(&s.as_bytes().to_vec()).unwrap()
}

fn at(path: &str, sec: u64) -> Arc<Entry> {
    let info = FileInfo {
        mtime: FileTime { sec, usec: 0 },
        mime: "image/png".to_string(),
        size: 1,
        allocated_size: 4096,
        directory: false,
        mountpoint: false,
        can_execute: false,
        is_symlink: false,
        symlink_target: None,
        icon: 0,
        inode: 0,
    };
    Arc::new(Entry::new(fp(path), info).0)
}

fn unloading() -> ThumbConfig {
    ThumbConfig::new(4, -1)
}

#[test]
fn configurations() {
    assert_eq!(
        ThumbConfig::new(0, 0),
        ThumbConfig { enabled: false, unload_low: false, initial: ThumbPriority::Low }
    );
    assert_eq!(
        ThumbConfig::new(1, -1),
        ThumbConfig { enabled: true, unload_low: true, initial: ThumbPriority::Generate }
    );
}

#[test]
fn thumbnails_load() {
    let config = ThumbConfig::new(4, 0);
    let (mut o, queue) = EntryObject::create(at("/d/a", 1), false, config);
    assert_eq!(queue, Some(ThumbPriority::Low));
    assert_eq!(o.thumbnail(), Thumbnail::Pending);
    assert_eq!(
        o.mark_bound(true, config, SIZE),
        WidgetChange::Queue(ThumbPriority::High)
    );
    assert!(!o.mark_thumbnail_loading(ThumbPriority::Low, SIZE));
    assert!(o.mark_thumbnail_loading(ThumbPriority::High, SIZE));
    // What has started does not start again.
    assert!(!o.mark_thumbnail_loading(ThumbPriority::High, SIZE));
    assert!(!o.update_thumbnail(9, FileTime { sec: 2, usec: 0 }, SIZE));
    assert!(o.update_thumbnail(9, FileTime { sec: 1, usec: 0 }, SIZE));
    assert_eq!(o.thumbnail(), Thumbnail::Texture(9));
    assert_eq!(o.thumbnail().texture(), Some(9));
    assert_eq!(o.needs_reload_for_size(SIZE), None);
    assert_eq!(o.needs_reload_for_size(ThumbSize::Large), Some(ThumbPriority::High));
    // The old picture stays until the new one has come.
    assert_eq!(o.update_inner(at("/d/a", 2), config), Some(ThumbPriority::High));
    assert_eq!(o.thumbnail, Thumb::Outdated(9, None));
    assert_eq!(o.thumbnail_no_defer(), Some(9));
    assert!(o.can_sync_thumbnail());
    assert!(o.fail_thumbnail(FileTime { sec: 2, usec: 0 }));
    assert!(!o.fail_thumbnail(FileTime { sec: 2, usec: 0 }));
    assert_eq!(o.thumbnail(), Thumbnail::Absent);
    assert_eq!(Thumbnail::Pending.texture(), None);
}

#[test]
fn thumbnails_that_are_switched_off() {
    let off = ThumbConfig::new(0, 0);
    let (o, queue) = EntryObject::create(at("/d/a", 1), false, off);
    assert_eq!(queue, None);
    assert_eq!(o.thumbnail, Thumb::Never);
    assert!(!o.can_sync_thumbnail());
}

#[test]
fn widgets_give_priority() {
    let w = |bound, mapped| WidgetCounter { bound, mapped }.priority();
    assert_eq!(w(0, 0), ThumbPriority::Low);
    assert_eq!(w(2, 0), ThumbPriority::Medium);
    assert_eq!(w(2, 1), ThumbPriority::High);
    let config = ThumbConfig::new(4, 0);
    let (mut o, _) = EntryObject::create(at("/d/a", 1), true, config);
    assert_eq!(o.thumbnail(), Thumbnail::Absent);
    assert_eq!(o.mark_bound(false, config, SIZE), WidgetChange::Queue(ThumbPriority::Medium));
    assert_eq!(
        o.mark_mapped_changed(true, config, SIZE),
        WidgetChange::Queue(ThumbPriority::High)
    );
    assert_eq!(o.change_widgets(1, 1, config, SIZE), WidgetChange::Nothing);
    assert_eq!(o.mark_unbound(true, config, SIZE), WidgetChange::Nothing);
    assert_eq!(o.widgets, WidgetCounter { bound: 1, mapped: 1 });
    assert!(o.matches_seek("a"));
    assert!(!o.matches_seek("A"));
    assert_eq!(o.cmp(&o, SortSettings::default()), std::cmp::Ordering::Equal);
}

#[test]
fn objects_are_registered() {
    let mut all = Objects::new(ThumbConfig::new(4, 0));
    assert_eq!(all.lookup(&fp("/d/a")), None);
    let r = all.create_or_update(at("/d/a", 1), false);
    assert_eq!(r.id, 0);
    assert!(r.old.is_none());
    assert_eq!(r.queue, Some((ThumbPriority::Low, false)));
    assert_eq!(all.lookup(&fp("/d/a")), Some(0));
    let again = all.create_or_update(at("/d/a", 1), true);
    assert_eq!((again.id, again.queue), (0, None));
    assert!(again.old.is_none());
    let newer = all.create_or_update(at("/d/a", 2), true);
    assert_eq!(newer.id, 0);
    assert_eq!(newer.old.unwrap().mtime.sec, 1);
    assert_eq!(newer.queue, Some((ThumbPriority::Low, true)));
    assert_eq!(all.find_entry(&fp("/d/a")).unwrap().mtime.sec, 2);
    // What is known already is preferred to what a search has found.
    let (kept, queue) = all.adopt(at("/d/a", 3));
    assert_eq!(kept.mtime.sec, 2);
    assert!(queue.is_none());
    let (new, queue) = all.adopt(at("/d/b", 3));
    assert_eq!(new.mtime.sec, 3);
    assert_eq!(queue, Some((1, ThumbPriority::Low)));
    all.dispose(0);
    assert_eq!(all.lookup(&fp("/d/a")), None);
    assert!(all.find_entry(&fp("/d/a")).is_none());
    assert_eq!(all.lookup(&fp("/d/b")), Some(1));
    all.purge();
    assert_eq!(all.lookup(&fp("/d/b")), None);
}

fn loaded(all: &mut Objects, path: &str) -> u64 {
    let id = all.create_or_update(at(path, 1), false).id;
    all.change_widgets(id, 1, 1, SIZE);
    let o = all.slots[id as usize].as_mut().unwrap();
    assert!(o.mark_thumbnail_loading(ThumbPriority::High, SIZE));
    assert!(o.update_thumbnail(id, FileTime { sec: 1, usec: 0 }, SIZE));
    id
}

#[test]
fn thumbnails_unload() {
    let mut all = Objects::new(unloading());
    let id = loaded(&mut all, "/d/a");
    // What is on the screen is kept.
    all.unload_thumbnail(id);
    EntryObject::idle_trim(&mut all);
    assert_eq!(all.slots[0].as_ref().unwrap().thumbnail(), Thumbnail::Texture(0));
    assert_eq!(all.change_widgets(id, -1, -1, SIZE), WidgetChange::ScheduleUnload);
    all.unload_thumbnail(id);
    assert_eq!(all.slots[0].as_ref().unwrap().thumbnail(), Thumbnail::Texture(0));
    EntryObject::idle_trim(&mut all);
    assert_eq!(all.slots[0].as_ref().unwrap().thumbnail, Thumb::Unloaded);
}

#[test]
fn thumbnails_unload_in_order() {
    let mut all = Objects::new(unloading());
    for i in 0..=LRU_THUMBNAIL_LIMIT {
        let id = loaded(&mut all, &format!("/d/{i}"));
        all.change_widgets(id, -1, -1, SIZE);
        all.unload_thumbnail(id);
    }
    let kept = |all: &Objects, i: usize| all.slots[i].as_ref().unwrap().thumbnail != Thumb::Unloaded;
    assert!(!kept(&all, 0));
    assert!(kept(&all, 1));
    // Using one of them again takes it out of the line.
    assert_eq!(all.change_widgets(1, 1, 0, SIZE), WidgetChange::KeepLoaded(None));
    all.unload_above_limit(LRU_THUMBNAIL_LIMIT - 2);
    assert!(kept(&all, 1));
    assert!(!kept(&all, 2));
    assert!(kept(&all, 3));
    let sizes = all.change_thumb_size(ThumbSize::XLarge);
    assert_eq!(sizes[1], Some((ThumbPriority::Medium, false)));
}

#[test]
fn snapshots_are_registered() {
    let mut all = Objects::new(ThumbConfig::new(4, 0));
    all.create_or_update(at("/d/b", 1), false);
    let path = Arc::new(fp("/d"));
    let snap = DirSnapshot::new(
        SnapshotKind::Complete,
        &path,
        3,
        vec![at("/d/a", 1), at("/d/b", 2)],
    );
    let (s, queue) = EntryObjectSnapshot::from(snap, &mut all);
    assert_eq!(s.entries, vec![1, 0]);
    assert!(s.had_search_updates);
    assert_eq!(queue, vec![Some((ThumbPriority::Low, false)), Some((ThumbPriority::Low, true))]);
    assert!(SnapshotKind::Complete.initial() && SnapshotKind::Complete.finished());
    assert!(SnapshotKind::Start.initial() && !SnapshotKind::Start.finished());
    assert!(!SnapshotKind::Middle.initial() && !SnapshotKind::Middle.finished());
    assert!(!SnapshotKind::End.initial() && SnapshotKind::End.finished());
}
