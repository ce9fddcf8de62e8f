use std::sync::Arc;

use aw_fm::applications::{
    heading, mimetypes, name_matches, open, partition_and_launch, partition_app_infos,
    program_name, settable_mime, top_text, AppInfo, DefaultCache, OpenAction,
};
use aw_fm::clipboard::{
    bytes_to_operation, choose_format, display_string, drop_action, escape_text, write_paths,
    write_special, ClipboardError, ClipboardOp, Format, Offered, DRAG_COPY, DRAG_MOVE,
};
use aw_fm::entry::{Entry, FileInfo, FileTime};
use aw_fm::operations::Kind;
use aw_fm::path::FilePath;
use aw_fm::properties::{
    framerate_text, group_text, is_permitted, location_text, owner_text, partition,
    resolution_text, setup_basic_metadata, setup_media, shows_media, shows_permissions, size_text,
    size_text_with, toggled, AudioStream, Counted, FrameRate, Picture, VideoStream,
};
use aw_fm::snapshot::ChildInfo;

fn fp(s: &str) -> FilePath {
    FilePath::parse(&s.as_bytes().to_vec()).unwrap()
}

fn item(path: &str, mime: &str, size: u64, executable: bool) -> Arc<Entry> {
    let info = FileInfo {
        mtime: FileTime { sec: 9, usec: 0 },
        mime: mime.to_string(),
        size,
        allocated_size: 4096,
        directory: mime == "inode/directory",
        mountpoint: false,
        can_execute: executable,
        is_symlink: false,
        symlink_target: None,
        icon: 0,
        inode: 0,
    };
    Arc::new(Entry::new(fp(path), info).0)
}

fn file(path: &str) -> Arc<Entry> {
    item(path, "text/plain", 100, false)
}

fn dir(path: &str) -> Arc<Entry> {
    item(path, "inode/directory", 4, false)
}

#[test]
fn items_open() {
    let f = file("/d/f");
    let x = item("/d/x", "text/x-sh", 1, true);
    let d = dir("/d/d");
    assert!(matches!(open(&vec![f.clone(), d.clone()], true), OpenAction::Both));
    assert!(matches!(open(&vec![x.clone()], true), OpenAction::Execute(_)));
    assert!(matches!(open(&vec![x.clone()], false), OpenAction::Launch(v) if v.len() == 1));
    assert!(matches!(open(&vec![f.clone(), x], true), OpenAction::Launch(v) if v.len() == 2));
    assert!(matches!(open(&vec![d.clone()], true), OpenAction::Navigate(_)));
    let e = dir("/d/e");
    assert!(matches!(open(&vec![d.clone(), e], true), OpenAction::OpenTabs(v)
        if v.len() == 2 && v[0].abs_path.same(&fp("/d/e")) && v[1].abs_path.same(&fp("/d/d"))));
    let many: Vec<Arc<Entry>> = (0..11).map(|i| dir(&format!("/d/{i}"))).collect();
    assert!(matches!(open(&many, true), OpenAction::TooMany));
    assert!(matches!(open(&many[..10].to_vec(), true), OpenAction::OpenTabs(v) if v.len() == 10));
}

#[test]
fn default_applications_are_remembered() {
    let mut c = DefaultCache::new();
    assert_eq!(c.get("text/plain"), None);
    c.put("text/plain", Some(0));
    c.put("x/y", None);
    assert_eq!(c.get("text/plain"), Some(Some(0)));
    assert_eq!(c.get("x/y"), Some(None));
    c.put("text/plain", Some(7));
    assert_eq!(c.get("text/plain"), Some(Some(7)));
    c.forget("text/plain");
    assert_eq!(c.get("text/plain"), None);
    assert_eq!(c.get("x/y"), Some(None));
}

#[test]
fn files_are_launched_together() {
    let (launches, unknown) =
        partition_and_launch(&vec![Some(4), Some(2), None, Some(4), None, Some(2)]);
    let got: Vec<(u64, Vec<usize>)> = launches.into_iter().map(|l| (l.app, l.files)).collect();
    assert_eq!(got, vec![(4, vec![0, 3]), (2, vec![1, 5])]);
    assert_eq!(unknown, Some(2));
    assert_eq!(partition_and_launch(&vec![]).1, None);
}

fn app(handle: u64, id: Option<u64>, should_show: bool) -> AppInfo {
    AppInfo { handle, id, should_show }
}

#[test]
fn applications_are_partitioned() {
    let p = partition_app_infos(
        &vec![app(5, Some(1), true), app(3, Some(2), true), app(6, Some(1), true)],
        &vec![app(9, Some(2), true), app(7, None, true), app(7, None, true)],
        &vec![
            app(2, Some(8), false),
            app(7, None, true),
            app(1, Some(9), true),
            app(0, Some(1), true),
            app(4, None, true),
        ],
    );
    assert_eq!(p.defaults, vec![app(3, Some(2), true), app(5, Some(1), true)]);
    assert_eq!(p.recommended, vec![app(7, None, true)]);
    assert_eq!(p.normal, vec![app(1, Some(9), true), app(4, None, true)]);
    assert_eq!(p.hidden, vec![app(2, Some(8), false)]);
    assert_eq!(heading(app(3, Some(2), true), &p), "Default");
    assert_eq!(heading(app(7, None, true), &p), "Recommended");
    assert_eq!(heading(app(2, Some(8), false), &p), "Hidden");
    assert_eq!(heading(app(1, Some(9), true), &p), "Normal");
}

#[test]
fn application_dialog_texts() {
    assert!(name_matches("GNU Image", "image"));
    assert!(!name_matches("GNU Image", "Image"));
    assert!(name_matches("École", "é"));
    let a = file("/d/a");
    let b = file("/d/b");
    let p = item("/d/p", "image/png", 1, false);
    assert_eq!(mimetypes(&vec![a.clone(), p.clone(), b.clone()]), vec!["text/plain", "image/png"]);
    assert_eq!(top_text(&vec![a.clone()]), "Choose an application for a");
    assert_eq!(
        top_text(&vec![a.clone(), b.clone()]),
        "Choose an application for these 2 text/plain files"
    );
    assert_eq!(
        top_text(&vec![dir("/x"), dir("/y")]),
        "Choose an application for these 2 directories"
    );
    assert_eq!(
        top_text(&vec![a.clone(), p.clone()]),
        "Choose an application for the 2 selected files"
    );
    assert_eq!(settable_mime(&vec![a.clone(), b]).as_deref(), Some("text/plain"));
    assert_eq!(settable_mime(&vec![a, p]), None);
    assert_eq!(settable_mime(&vec![dir("/x")]), None);
    assert_eq!(program_name(&fp("/usr/bin/vi")), "vi");
    assert_eq!(program_name(&fp("/")), "/");
}

#[test]
fn clipboard_contents_parse() {
    let read = |s: &str, l| bytes_to_operation(&s.as_bytes().to_vec(), l);
    let (op, uris) = read("copy\nfile:///a\r\nfile:///b", false).ok().unwrap();
    assert_eq!(op, ClipboardOp::Copy);
    assert_eq!(uris, vec![b"file:///a".to_vec(), b"file:///b".to_vec()]);
    assert_eq!(read("cut", false).ok().unwrap(), (ClipboardOp::Cut, vec![]));
    let (op, uris) = read("file:///a\n", true).ok().unwrap();
    assert_eq!(op, ClipboardOp::Cut);
    assert_eq!(uris, vec![b"file:///a".to_vec()]);
    assert_eq!(read("", false).err(), Some(ClipboardError::Empty));
    assert_eq!(read("link\nfile:///a", false).err(), Some(ClipboardError::UnknownOperation));
    assert_eq!(bytes_to_operation(&vec![0xff], false).err(), Some(ClipboardError::NotText));
    assert_eq!(bytes_to_operation(&vec![0xff], true).err(), Some(ClipboardError::NotText));
}

#[test]
fn clipboard_round_trip() {
    for op in [ClipboardOp::Copy, ClipboardOp::Cut] {
        let uris = vec![b"file:///a%20b".to_vec(), b"file:///c".to_vec()];
        let bytes = write_special(op, &uris);
        assert_eq!(bytes_to_operation(&bytes, false).ok().unwrap(), (op, uris));
    }
    assert_eq!(write_special(ClipboardOp::Cut, &vec![]), b"cut\n".to_vec());
    assert_eq!(write_paths(&vec![file("/a"), file("/b/c")]), b"/a\n/b/c".to_vec());
}

#[test]
fn clipboard_texts() {
    assert_eq!(
        display_string(ClipboardOp::Copy, &vec![]),
        "Selection was empty, nothing will be copied"
    );
    assert_eq!(display_string(ClipboardOp::Cut, &vec![file("/d/a")]), "\"a\" will be moved");
    assert_eq!(
        display_string(ClipboardOp::Copy, &vec![file("/d/a"), file("/d/b")]),
        "2 items will be copied"
    );
    let all = "a'\"\\\t\r\n~\u{7f}\u{e9}\u{1f600}";
    assert_eq!(escape_text(all), all.escape_default().to_string());
    let into = Arc::new(fp("/d"));
    assert!(matches!(ClipboardOp::Copy.kind(into.clone()), Kind::Copy(_)));
    assert!(matches!(ClipboardOp::Cut.kind(into), Kind::Move(_)));
}

#[test]
fn clipboard_formats() {
    let none = Offered { special: false, mate: false, gnome: false, uris: true };
    assert_eq!(choose_format(none, false), None);
    assert_eq!(choose_format(none, true), Some(Format::Uris));
    assert_eq!(choose_format(Offered { gnome: true, ..none }, true), Some(Format::SpecialGnome));
    assert_eq!(
        choose_format(Offered { mate: true, gnome: true, ..none }, true),
        Some(Format::SpecialMate)
    );
    assert_eq!(
        choose_format(Offered { special: true, mate: true, ..none }, true),
        Some(Format::Special)
    );
    assert_eq!(Format::Special.mime(), "x-special/aw-fm-copied-files");
    assert_eq!(drop_action(DRAG_COPY | DRAG_MOVE), DRAG_MOVE);
    assert_eq!(drop_action(DRAG_COPY), DRAG_COPY);
    assert_eq!(drop_action(0), 0);
}

#[test]
fn properties_of_one_item() {
    let (files, dirs) = partition(&vec![item("/d/a.txt", "text/plain", 1500, false)]);
    let m = setup_basic_metadata(&files, &dirs);
    assert_eq!(m.size, 1500);
    assert_eq!(m.allocated, 4096);
    assert_eq!(m.title.as_deref(), Some("Properties - a.txt"));
    assert_eq!(m.name, "a.txt");
    assert_eq!(m.mtime, Some(FileTime { sec: 9, usec: 0 }));
    assert_eq!(m.type_text.as_deref(), Some("text/plain"));
    assert_eq!(m.picture, Picture::FirstFile);
    assert!(!m.show_children);
    let m = setup_basic_metadata(&vec![], &vec![dir("/d/s")]);
    assert_eq!(m.size, 0);
    assert_eq!(m.name, "s");
    assert_eq!(m.picture, Picture::FirstDir);
    assert!(m.show_children);
}

#[test]
fn properties_of_many_items() {
    let (files, dirs) = partition(&vec![file("/a"), dir("/b"), file("/c"), dir("/d")]);
    assert_eq!(files.len(), 2);
    assert_eq!(dirs.len(), 2);
    let m = setup_basic_metadata(&files, &dirs);
    assert_eq!(m.name, "2 directories and 2 files");
    assert_eq!(m.size, 200);
    assert_eq!(m.allocated, 4 * 4096);
    assert_eq!(m.picture, Picture::Generic);
    let m = setup_basic_metadata(&files, &vec![]);
    assert_eq!(m.name, "2 files");
    assert_eq!(m.type_text.as_deref(), Some("text/plain"));
    let mixed = vec![file("/a"), item("/p", "image/png", 1, false)];
    assert_eq!(setup_basic_metadata(&mixed, &vec![]).type_text, None);
    assert_eq!(setup_basic_metadata(&vec![], &dirs).name, "2 directories");
}

#[test]
fn property_texts() {
    assert_eq!(location_text(&fp("/d"), false), "/d");
    assert_eq!(location_text(&fp("/d"), true), "Search in /d");
    assert_eq!(size_text_with("1 KB", 1234567), "1 KB (1,234,567 bytes)");
    assert_eq!(size_text(1048576), "1 MB (1,048,576 bytes)");
    assert_eq!(size_text_with("x", 0), "x (0 bytes)");
    assert_eq!(owner_text(Some("root")), "User (root)");
    assert_eq!(owner_text(None), "User (unknown user)");
    assert_eq!(group_text(None), "Group (unknown group)");
    assert!(shows_media(&vec![item("/p", "image/png", 1, false)], &vec![]));
    assert!(!shows_media(&vec![file("/p")], &vec![]));
    assert!(shows_permissions(1, 0));
    assert!(!shows_permissions(1, 1));
    assert_eq!(resolution_text(640, 480), "640 x 480");
    assert_eq!(framerate_text(30), "30fps");
}

#[test]
fn children_are_counted() {
    let mut c = Counted { size: 0, allocated: 0, child_files: 0, child_dirs: 0, spinning: true };
    assert_eq!(c.children_text(), None);
    c.add_children(ChildInfo { size: 5, allocated: 10, files: 1, dirs: 0, done: false });
    assert_eq!(c.children_text().as_deref(), Some("1 file"));
    c.add_children(ChildInfo { size: 5, allocated: 10, files: 1, dirs: 1, done: true });
    assert_eq!(c.children_text().as_deref(), Some("1 directory and 2 files"));
    assert_eq!((c.size, c.allocated, c.spinning), (10, 20, false));
    let none = Counted { size: 0, allocated: 0, child_files: 0, child_dirs: 0, spinning: false };
    assert_eq!(none.children_text().as_deref(), Some("Nothing"));
    let dirs = Counted { child_dirs: 2, ..none };
    assert_eq!(dirs.children_text().as_deref(), Some("2 directories"));
}

#[test]
fn permissions_toggle() {
    assert_eq!(toggled(0o644, 0o100, true), 0o744);
    assert_eq!(toggled(0o744, 0o100, false), 0o644);
    assert!(is_permitted(0o744, 0o100));
    assert!(!is_permitted(0o644, 0o100));
}

fn video(is_image: bool, codec_tag: Option<&str>, numer: i32, denom: i32) -> VideoStream {
    VideoStream {
        is_image,
        codec_tag: codec_tag.map(|s| s.to_string()),
        caps: Some("caps".to_string()),
        width: 4,
        height: 3,
        rate_numer: numer,
        rate_denom: denom,
    }
}

#[test]
fn media_pages() {
    let audio = Some(AudioStream {
        codec_tag: Some("mp3".to_string()),
        caps: None,
        title: Some("t".to_string()),
        artist: None,
        album: None,
    });
    let videos = vec![video(true, Some("cover"), 0, 0), video(false, None, 60, 2)];
    let page = setup_media(Some(0), &videos, &audio);
    assert_eq!(page.duration, None);
    assert_eq!(page.codec.as_deref(), Some("caps"));
    assert_eq!(page.resolution, Some((4, 3)));
    assert_eq!(page.framerate, FrameRate::Whole(30));
    assert_eq!(page.audio_codec.as_deref(), Some("mp3"));
    assert_eq!(page.title, None);
    let page = setup_media(Some(5), &vec![], &audio);
    assert_eq!(page.duration, Some(5));
    assert_eq!(page.codec.as_deref(), Some("mp3"));
    assert_eq!(page.audio_codec, None);
    assert_eq!(page.title.as_deref(), Some("t"));
    let page = setup_media(None, &vec![video(true, None, 30000, 1001)], &None);
    assert_eq!(page.framerate, FrameRate::Fraction(30000, 1001));
    assert_eq!(setup_media(None, &vec![video(true, None, -1, 1)], &None).framerate, FrameRate::Unknown);
}
