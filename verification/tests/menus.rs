use std::sync::Arc;

use aw_fm::actions::{
    extension, sort_actions, ActionError, ActionSettings, CustomAction, Multiple,
};
use aw_fm::commands::{
    create_in, end_pos, is_valid_name, key_label, modifiers_of, rename_to, run_command,
    ArgCommand, Command, Shortcuts, Simple, ALT_MASK, CONTROL_MASK, LOCK_MASK, META_MASK,
    SHIFT_MASK, SUPER_MASK,
};
use aw_fm::config::{ContextMenuEntry, ContextMenuGroup, Selection, Shortcut};
use aw_fm::entry::{Entry, FileInfo, FileTime};
use aw_fm::menu::{custom_name, prepare, rebuild_menu, MenuCommand, MenuPart};
use aw_fm::operations::Kind;
use aw_fm::order::Order;
use aw_fm::path::FilePath;
use aw_fm::settings::{DisplayMode, SortDir, SortMode};

fn fp(s: &str) -> FilePath {
    FilePath::parse(&s.as_bytes().to_vec()).unwrap()
}

fn text(p: &FilePath) -> String {
    String::from_utf8(p.to_bytes()).unwrap()
}

fn item(path: &str, mime: &str) -> Entry {
    let info = FileInfo {
        mtime: FileTime { sec: 0, usec: 0 },
        mime: mime.to_string(),
        size: 5,
        allocated_size: 4096,
        directory: mime == "inode/directory",
        mountpoint: false,
        can_execute: false,
        is_symlink: false,
        symlink_target: None,
        icon: 0,
        inode: 0,
    };
    Entry::new(fp(path), info).0
}

fn script(body: &str) -> Vec<u8> {
    format!(
        "#!/bin/sh\n# **aw-fm-settings-begin**\n{body}\n# **aw-fm-settings-end**\necho name=no\n"
    )
    .into_bytes()
}

fn parsed(body: &str) -> ActionSettings {
    ActionSettings::parse(&script(body)).unwrap()
}

fn error(contents: &str) -> Option<ActionError> {
    ActionSettings::parse(&contents.as_bytes().to_vec()).err()
}

fn action(path: &str, body: &str) -> CustomAction {
    CustomAction { path: fp(path), settings: parsed(body) }
}

#[test]
fn settings_of_scripts() {
    let s = parsed(
        "# name=  Extract here \n# directories=false\n# files=true\n# mimetypes=;text/;image/png;\n\
         # extensions=txt;png\n# regex=^/home/\n# multiple=required\n# priority=-7",
    );
    assert_eq!(s.name.as_deref(), Some("Extract here"));
    assert!(!s.directories);
    assert!(s.files);
    assert_eq!(s.mimetypes.clone().unwrap(), vec!["text/", "image/png"]);
    assert_eq!(s.extensions.clone().unwrap(), vec!["txt", "png"]);
    assert_eq!(s.regex.as_deref(), Some("^/home/"));
    assert_eq!(s.multiple, Multiple::Required);
    assert_eq!(s.priority, -7);
}

#[test]
fn settings_by_default() {
    let s = parsed("# nothing here\n# name=\n# priority=");
    assert!(s.name.is_none());
    assert!(s.directories && s.files);
    assert!(s.mimetypes.is_none() && s.extensions.is_none() && s.regex.is_none());
    assert_eq!(s.multiple, Multiple::True);
    assert_eq!(s.priority, 0);
    assert!(s.permissive());
    assert!(!s.rejects(&item("/a", "text/plain")));
    assert!(!s.rejects(&item("/a", "inode/directory")));
    assert!(s.accepts_parent_dir(&fp("/a")));
}

#[test]
fn settings_that_do_not_parse() {
    assert_eq!(error("#!/bin/sh\n"), Some(ActionError::NoBegin));
    assert_eq!(error("**aw-fm-settings-begin**\nname=a\n"), Some(ActionError::NoEnd));
    let wrap = |s: &str| ActionSettings::parse(&script(s)).err();
    assert_eq!(wrap("files=maybe"), Some(ActionError::BadValue));
    assert_eq!(wrap("directories=TRUE"), Some(ActionError::BadValue));
    assert_eq!(wrap("multiple=2"), Some(ActionError::BadValue));
    assert_eq!(wrap("priority=high"), Some(ActionError::BadValue));
    assert_eq!(wrap("regex=("), Some(ActionError::BadRegex));
    assert_eq!(wrap("name=fine"), None);
    // The marker has to stand near the start of its line.
    let far = format!("{}**aw-fm-settings-begin**\n**aw-fm-settings-end**\n", " ".repeat(60));
    assert_eq!(error(&far), Some(ActionError::NoBegin));
    let near = format!("{}**aw-fm-settings-begin**\n**aw-fm-settings-end**\n", " ".repeat(20));
    assert_eq!(error(&near), None);
}

#[test]
fn settings_are_set_one_by_one() {
    let mut s = parsed("");
    assert_eq!(s.set(&b"multiple".to_vec(), "false".to_string(), false), None);
    assert_eq!(s.multiple, Multiple::False);
    assert_eq!(
        s.set(&b"regex".to_vec(), "x".to_string(), false),
        Some(ActionError::BadRegex)
    );
    assert!(s.regex.is_none());
    assert_eq!(s.set(&b"regex".to_vec(), "x".to_string(), true), None);
    assert_eq!(s.regex.as_deref(), Some("x"));
}

#[test]
fn actions_reject() {
    let s = parsed("extensions=txt\nmimetypes=image/");
    assert!(!s.rejects(&item("/d/a.txt", "text/plain")));
    assert!(!s.rejects(&item("/d/a.jpg", "image/jpeg")));
    assert!(s.rejects(&item("/d/a.mp3", "audio/mpeg")));
    assert!(s.rejects(&item("/d/txt", "text/plain")));
    assert!(!s.rejects(&item("/d/dir", "inode/directory")));
    assert!(parsed("directories=false").rejects(&item("/d/dir", "inode/directory")));
    assert!(parsed("files=false").rejects(&item("/d/a", "text/plain")));
    let r = parsed("regex=^/home/.*e$");
    assert!(!r.rejects(&item("/home/me", "text/plain")));
    assert!(r.rejects(&item("/home/you", "text/plain")));
    assert!(r.accepts_parent_dir(&fp("/home/me")));
    assert!(!r.accepts_parent_dir(&fp("/tmp")));
    assert!(!parsed("directories=false").accepts_parent_dir(&fp("/tmp")));
}

#[test]
fn actions_take_a_number_of_items() {
    let one = parsed("multiple=false");
    assert!(!one.rejects_count(1));
    assert!(one.rejects_count(2));
    let more = parsed("multiple=required");
    assert!(more.rejects_count(1));
    assert!(!more.rejects_count(2));
    let a = item("/d/a", "text/plain");
    let b = item("/d/b", "text/plain");
    assert!(more.offered(&vec![&a, &b], &fp("/d")));
    assert!(!more.offered(&vec![&a], &fp("/d")));
    assert!(!more.offered(&vec![], &fp("/d")));
    assert!(one.offered(&vec![], &fp("/d")));
}

#[test]
fn extensions() {
    assert_eq!(extension(&fp("/d/a.tar.gz")), Some(b"gz".to_vec()));
    assert_eq!(extension(&fp("/d/.hidden")), None);
    assert_eq!(extension(&fp("/d/a.")), Some(vec![]));
    assert_eq!(extension(&fp("/")), None);
}

#[test]
fn actions_sort() {
    let sorted = sort_actions(vec![
        action("/x/3", "name=b"),
        action("/x/2", "priority=1"),
        action("/x/1", "name=a"),
        action("/x/0", "priority=-1"),
        action("/x/9", ""),
    ]);
    let paths: Vec<String> = sorted.iter().map(|a| text(&a.path)).collect();
    assert_eq!(paths, vec!["/x/0", "/x/9", "/x/1", "/x/3", "/x/2"]);
    assert_eq!(sorted[0].compare(&sorted[1]), Order::Less);
    assert_eq!(sorted[1].compare(&sorted[0]), Order::Greater);
    assert_eq!(sorted[0].display_name(), "0");
    assert_eq!(sorted[2].display_name(), "a");
    assert!(CustomAction::executable(0o100));
    assert!(!CustomAction::executable(0o644));
    let create = |regular, mode, body: &Vec<u8>| {
        CustomAction::create(fp("/actions/a"), regular, mode, body)
    };
    let good = script("# name=Do it");
    assert_eq!(create(true, 0o755, &good).unwrap().unwrap().display_name(), "Do it");
    assert!(create(true, 0o644, &good).unwrap().is_none());
    assert!(create(false, 0o755, &good).unwrap().is_none());
    assert!(create(true, 0o755, &b"echo".to_vec()).is_err());
    let odd = CustomAction { path: FilePath { parts: vec![vec![b'a', 0xff]] }, settings: parsed("") };
    assert_eq!(odd.display_name(), "a\u{fffd}");
}

fn entry(name: &str, group: Option<ContextMenuGroup>) -> ContextMenuEntry {
    ContextMenuEntry {
        action: "Copy".to_string(),
        name: name.to_string(),
        group,
        selection: Selection::Any,
    }
}

#[test]
fn menus_are_laid_out() {
    let acts = sort_actions(vec![action("/x/late", ""), action("/x/early", "priority=-3")]);
    let section = || Some(ContextMenuGroup::Section("S".to_string()));
    let submenu = || Some(ContextMenuGroup::Submenu("S".to_string()));
    let entries = vec![
        entry("a", None),
        entry("b", section()),
        entry("c", submenu()),
        entry("d", None),
        entry("e", section()),
    ];
    let parts = rebuild_menu(&acts, &entries);
    assert_eq!(parts.len(), 6);
    assert!(matches!(parts[0], MenuPart::Custom(0)));
    assert!(matches!(parts[1], MenuPart::Entry(0)));
    assert!(
        matches!(&parts[2], MenuPart::Group { submenu: false, name, items } if name == "S" && *items == vec![1, 4])
    );
    assert!(
        matches!(&parts[3], MenuPart::Group { submenu: true, name, items } if name == "S" && *items == vec![2])
    );
    assert!(matches!(parts[4], MenuPart::Entry(3)));
    assert!(matches!(parts[5], MenuPart::Custom(1)));
    assert_eq!(custom_name(12), "custom-12");
}

#[test]
fn menus_are_prepared() {
    let acts = vec![
        action("/x/0", "files=false"),
        action("/x/1", ""),
        action("/x/2", "multiple=false\nextensions=txt"),
    ];
    let a = item("/d/a.txt", "text/plain");
    let b = item("/d/b.txt", "text/plain");
    assert_eq!(prepare(&acts, &vec![&a], &fp("/d")), vec![false, true, true]);
    assert_eq!(prepare(&acts, &vec![&a, &b], &fp("/d")), vec![false, true, false]);
    assert_eq!(prepare(&acts, &vec![], &fp("/d")), vec![true, true, true]);
}

#[test]
fn menu_commands() {
    assert_eq!(
        MenuCommand::parse("Display  icons"),
        (MenuCommand::Display, "icons".to_string())
    );
    assert_eq!(MenuCommand::parse("SortBy name").0, MenuCommand::SortMode);
    assert_eq!(MenuCommand::parse("SortDir ascending").0, MenuCommand::SortDir);
    assert_eq!(
        MenuCommand::parse("Copy it"),
        (MenuCommand::Action, "Copy it".to_string())
    );
    assert_eq!(MenuCommand::parse("Display").0, MenuCommand::Action);
    assert_eq!(MenuCommand::SortMode.action(), "SortBy");
    assert_eq!(MenuCommand::Action.action(), "action");
}

#[test]
fn commands_parse() {
    assert!(matches!(run_command("  Quit"), Command::Simple(Simple::Quit)));
    assert!(matches!(run_command("NewTab"), Command::Simple(Simple::NewTab)));
    assert!(matches!(
        run_command("NewTab   /a b "),
        Command::With(ArgCommand::NewTab, s) if s == "/a b "
    ));
    assert!(matches!(
        run_command("Navigate ~"),
        Command::With(ArgCommand::Navigate, s) if s == "~"
    ));
    assert!(matches!(run_command("Display columns"), Command::Display(DisplayMode::Columns)));
    assert!(matches!(run_command("SortBy mtime"), Command::SortBy(SortMode::MTime)));
    assert!(matches!(
        run_command("SortDir descending"),
        Command::SortDir(SortDir::Descending)
    ));
    assert!(matches!(run_command("Split horizontal"), Command::Split { horizontal: true }));
    assert!(matches!(run_command("Split vertical"), Command::Split { horizontal: false }));
    assert!(matches!(
        run_command("Split both"),
        Command::Unrecognized(s) if s == "Split both"
    ));
    assert!(matches!(run_command("quit"), Command::Unrecognized(s) if s == "quit"));
    assert!(matches!(run_command(" "), Command::Unrecognized(s) if s.is_empty()));
    assert_eq!(Simple::parse("ReloadActions"), Some(Simple::ReloadActions));
    assert_eq!(ArgCommand::parse("Script"), Some(ArgCommand::Script));
    assert_eq!(ArgCommand::parse("Copy"), None);
}

fn shortcut(action: &str, modifiers: Option<&str>) -> Shortcut {
    Shortcut {
        action: action.to_string(),
        key: String::new(),
        modifiers: modifiers.map(|m| m.to_string()),
    }
}

#[test]
fn modifiers() {
    let of = |s: &str| modifiers_of(&Some(s.to_string()));
    assert_eq!(modifiers_of(&None), 0);
    assert_eq!(of("Control,SHIFT"), CONTROL_MASK | SHIFT_MASK);
    assert_eq!(of("alt super command"), ALT_MASK | SUPER_MASK | META_MASK);
    assert_eq!(of("none"), 0);
}

#[test]
fn shortcuts_are_found() {
    let all = vec![
        shortcut("Copy", Some("Control")),
        shortcut("Quit", None),
        shortcut("Cut", Some("control")),
    ];
    let keys = vec![67, 81, 67];
    let table = Shortcuts::parse_shortcuts(&all, &keys);
    let find = |key, mods| table.shortcut_from_key(&all, &keys, key, mods);
    // The last of two shortcuts for the same keys is the one that runs.
    assert_eq!(find(67, CONTROL_MASK).as_deref(), Some("Cut"));
    assert_eq!(find(67, CONTROL_MASK | LOCK_MASK).as_deref(), Some("Cut"));
    assert_eq!(find(81, 0).as_deref(), Some("Quit"));
    assert_eq!(find(67, 0), None);
    assert_eq!(find(82, 0), None);
}

#[test]
fn key_labels() {
    assert_eq!(key_label(Some('+'), "plus"), "+");
    assert_eq!(key_label(Some(' '), "space"), "space");
    assert_eq!(key_label(Some('\u{7f}'), "Delete"), "Delete");
    assert_eq!(key_label(None, "F2"), "F2");
}

#[test]
fn names_of_files() {
    assert!(is_valid_name("a b"));
    assert!(!is_valid_name(""));
    assert!(!is_valid_name("a/b"));
    assert!(!is_valid_name("a\\b"));
    let p = fp("/d/a");
    assert!(matches!(rename_to(&p, "b"), Some(Kind::Rename(q)) if text(&q) == "/d/b"));
    assert!(rename_to(&p, "x/y").is_none());
    assert!(rename_to(&fp("/"), "b").is_none());
    assert!(
        matches!(create_in(&p, "new", true), Some(Kind::MakeDir(q)) if text(&q) == "/d/a/new")
    );
    assert!(
        matches!(create_in(&p, "new", false), Some(Kind::MakeFile(q)) if text(&q) == "/d/a/new")
    );
    assert!(create_in(&p, "", true).is_none());
    let _: Arc<FilePath> = Arc::new(p);
}

#[test]
fn edited_part_of_names() {
    assert_eq!(end_pos(&fp("/d/name.txt"), false), 4);
    assert_eq!(end_pos(&fp("/d/na\u{ef}ve.txt"), false), 5);
    assert_eq!(end_pos(&fp("/d/name.txt"), true), -1);
    assert_eq!(end_pos(&fp("/"), false), -1);
    assert_eq!(end_pos(&fp("/d/.hidden"), false), 7);
}
