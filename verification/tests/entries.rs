use aw_fm::calendar::{EARLIEST_SECOND, LATEST_SECOND};
use aw_fm::config::{
    actions_dir, empty_path_is_none, empty_string_is_none, zero_is_none, Selection,
};
use aw_fm::entry::{Entry, EntryKind, FileInfo, FileTime};
use aw_fm::natsort;
use aw_fm::order::{compare_bytes, Order};
use aw_fm::path::FilePath;
use aw_fm::res::Res;
use aw_fm::settings::{DirSettings, DisplayMode, SortDir, SortMode, SortSettings};
use aw_fm::status::Column;
use aw_fm::strings::{
    begins_with, compare_texts, holds_char, lines, parse_bool, parse_i32, split_once, split_text,
    trim, trim_start, Strip,
};
use aw_fm::text::{contains_bytes, decimal_string, join_bytes, parse_number, split_bytes};

fn fp(s: &str) -> FilePath {
    FilePath::parse(&s.as_bytes().to_vec()).unwrap()
}

fn text(p: &FilePath) -> String {
    String::from_utf8(p.to_bytes()).unwrap()
}

fn info(directory: bool, size: u64, sec: u64) -> FileInfo {
    FileInfo {
        mtime: FileTime { sec, usec: 0 },
        mime: if directory { "inode/directory".to_string() } else { "text/plain".to_string() },
        size,
        allocated_size: 4096,
        directory,
        mountpoint: false,
        can_execute: false,
        is_symlink: false,
        symlink_target: None,
        icon: 1,
        inode: 7,
    }
}

fn file(path: &str, size: u64, sec: u64) -> Entry {
    Entry::new(fp(path), info(false, size, sec)).0
}

fn dir(path: &str, size: u64) -> Entry {
    Entry::new(fp(path), info(true, size, 0)).0
}

fn by(mode: SortMode, direction: SortDir) -> SortSettings {
    SortSettings { mode, direction }
}

fn key(s: &str) -> natsort::NatKey {
    natsort::key(&s.as_bytes().to_vec())
}

#[test]
fn natural_order_of_numbers() {
    assert_eq!(key("file2").compare(&key("file10")), Order::Less);
    assert_eq!(key("file10").compare(&key("file2")), Order::Greater);
    assert_eq!(key("file002").compare(&key("file2")), Order::Equal);
    assert_eq!(key("a1b2").compare(&key("a1b10")), Order::Less);
}

#[test]
fn natural_order_ignores_case() {
    assert_eq!(key("README").compare(&key("readme")), Order::Equal);
    assert_eq!(key("Zebra").compare(&key("apple")), Order::Greater);
    assert_eq!(natsort::to_lowercase("MiXeD 9 É"), "mixed 9 é".as_bytes().to_vec());
}

#[test]
fn natural_key_bytes() {
    assert_eq!(key("A07b").key, b"a907b".to_vec());
    assert_eq!(key("00").key, b"0".to_vec());
    assert_eq!(key("A07b").lowercase, b"a07b".to_vec());
}

#[test]
fn bytes_compare_lexicographically() {
    assert_eq!(compare_bytes(&vec![1, 2], &vec![1, 2, 3]), Order::Less);
    assert_eq!(compare_bytes(&vec![2], &vec![1, 9]), Order::Greater);
    assert_eq!(compare_bytes(&vec![], &vec![]), Order::Equal);
    assert_eq!(Order::Less.reverse(), Order::Greater);
    assert_eq!(Order::Equal.chain(Order::Less), Order::Less);
    assert_eq!(Order::Greater.chain(Order::Less), Order::Greater);
}

#[test]
fn paths_parse_and_print() {
    assert_eq!(text(&fp("/home//user/./x/")), "/home/user/x");
    assert_eq!(text(&fp("/")), "/");
    assert!(fp("/").is_root());
    assert!(FilePath::parse(&b"relative".to_vec()).is_none());
    assert!(FilePath::parse(&b"".to_vec()).is_none());
    let p = fp("/a/b c/d");
    assert!(FilePath::parse(&p.to_bytes()).unwrap().same(&p));
}

#[test]
fn paths_resolve() {
    let base = fp("/home/user");
    assert_eq!(text(&FilePath::resolve(&base, &"docs/../pics".as_bytes().to_vec())), "/home/user/pics");
    assert_eq!(text(&FilePath::resolve(&base, &"../../../..".as_bytes().to_vec())), "/");
    assert_eq!(text(&FilePath::resolve(&base, &"/etc/./ssh/../fstab".as_bytes().to_vec())), "/etc/fstab");
    assert_eq!(text(&FilePath::resolve(&base, &"/a//b/../../..".as_bytes().to_vec())), "/");
    assert_eq!(text(&FilePath::resolve(&base, &"".as_bytes().to_vec())), "/home/user");
}

#[test]
fn path_relations() {
    let p = fp("/a/b/c");
    assert!(p.starts_with(&fp("/a/b")));
    assert!(p.starts_with(&p));
    assert!(!p.starts_with(&fp("/a/bc")));
    assert!(p.is_child_of(&fp("/a/b")));
    assert!(!p.is_child_of(&fp("/a")));
    assert_eq!(text(&p.parent().unwrap()), "/a/b");
    assert!(fp("/").parent().is_none());
    assert_eq!(p.file_name().unwrap(), b"c".to_vec());
    assert!(fp("/").file_name().is_none());
    assert_eq!(text(&p.join_name(&b"d".to_vec())), "/a/b/c/d");
    assert_eq!(text(&p.push(&b"d/e".to_vec())), "/a/b/c/d/e");
    assert_eq!(text(&p.push(&b"/d".to_vec())), "/d");
    let raw = FilePath::parse(&b"/a/b/../\xff".to_vec()).unwrap();
    assert_eq!(raw.cleaned().to_bytes(), b"/a/\xff".to_vec());
    assert_eq!(fp("/a/b").compare(&fp("/a/c")), Order::Less);
    assert_eq!(fp("/a").compare(&fp("/a/b")), Order::Less);
}

#[test]
fn entries_of_files() {
    let e = file("/d/Name.txt", 2048, 5);
    assert_eq!(e.kind, EntryKind::File { size: 2048, executable: false });
    assert_eq!(e.name.name, b"Name.txt".to_vec());
    assert_eq!(e.name.lowercase, b"name.txt".to_vec());
    assert_eq!(e.short_size_string(), "2 kB");
    assert_eq!(e.long_size_string(), "2 kB");
    assert_eq!(e.raw_size(), 2048);
    assert!(!e.dir());
    assert!(e.symlink.is_none());
}

#[test]
fn entries_of_directories() {
    let (e, count) = Entry::new(fp("/d/sub"), info(true, 12, 0));
    assert_eq!(e.kind, EntryKind::Directory { contents: Some(10) });
    assert!(!count);
    assert_eq!(e.short_size_string(), "10");
    assert_eq!(e.long_size_string(), "10 items");

    let mut unknown = info(true, 4096, 0);
    unknown.allocated_size = 4096;
    let (e, count) = Entry::new(fp("/d/sub"), unknown);
    assert_eq!(e.kind, EntryKind::Directory { contents: None });
    assert!(count);
    assert_eq!(e.short_size_string(), "...");
    assert_eq!(e.long_size_string(), "... items");
    assert_eq!(e.raw_size(), 0);

    let counted = Entry::new_assume_dir_size(fp("/d/sub"), info(true, 12, 0), 99).unwrap();
    assert_eq!(counted.kind, EntryKind::Directory { contents: Some(99) });
    assert!(Entry::new_assume_dir_size(fp("/d/sub"), info(false, 12, 0), 99).is_none());
}

#[test]
fn symlinks_keep_their_target() {
    let mut link = info(false, 1, 0);
    link.is_symlink = true;
    link.symlink_target = Some(b"/x".to_vec());
    assert_eq!(Entry::new(fp("/d/l"), link).0.symlink.unwrap(), b"/x".to_vec());
    let mut plain = info(false, 1, 0);
    plain.symlink_target = Some(b"/x".to_vec());
    assert!(Entry::new(fp("/d/l"), plain).0.symlink.is_none());
}

#[test]
fn entries_order() {
    let a = file("/d/a2", 10, 3);
    let b = file("/d/a10", 5, 9);
    let s = dir("/d/z", 4);
    let name = by(SortMode::Name, SortDir::Ascending);
    assert_eq!(a.compare(&b, name), Order::Less);
    assert_eq!(a.compare(&b, by(SortMode::Name, SortDir::Descending)), Order::Greater);
    assert_eq!(a.compare(&b, by(SortMode::Size, SortDir::Ascending)), Order::Greater);
    assert_eq!(a.compare(&b, by(SortMode::MTime, SortDir::Ascending)), Order::Less);
    assert_eq!(a.compare(&a, name), Order::Equal);
    assert_eq!(a.cmp(&b, name), std::cmp::Ordering::Less);
    assert_eq!(b.cmp(&a, name), std::cmp::Ordering::Greater);
    assert_eq!(a.cmp(&a, name), std::cmp::Ordering::Equal);
    // Directories come first whatever the direction.
    assert_eq!(s.compare(&a, name), Order::Less);
    assert_eq!(s.compare(&a, by(SortMode::Name, SortDir::Descending)), Order::Less);
}

#[test]
fn entries_with_the_same_key_differ_by_path() {
    let name = by(SortMode::Name, SortDir::Ascending);
    let a = file("/d/A", 1, 1);
    let b = file("/d/a", 1, 1);
    assert_ne!(a.compare(&b, name), Order::Equal);
    assert_eq!(a.compare(&b, name), b.compare(&a, name).reverse());
}

#[test]
fn entries_are_the_same() {
    let a = file("/d/a", 1, 1);
    assert!(a.same(&a.copy()));
    assert!(!a.same(&file("/d/a", 2, 1)));
    assert!(!a.same(&file("/d/a", 1, 2)));
    assert!(!a.same(&file("/d/b", 1, 1)));
}

#[test]
fn times_compare() {
    let a = FileTime { sec: 1, usec: 5 };
    assert_eq!(a.compare(FileTime { sec: 1, usec: 6 }), Order::Less);
    assert_eq!(a.compare(FileTime { sec: 0, usec: 9 }), Order::Greater);
    assert_eq!(FileTime::default(), FileTime { sec: 0, usec: 0 });
    // The zone is that of the machine; the form is not.
    let s = FileTime { sec: 1_700_000_000, usec: 0 }.seconds_string();
    assert_eq!(s.len(), 19);
    assert_eq!(&s[4..5], "-");
    assert_eq!(&s[13..14], ":");
    assert!(s.starts_with("2023-11-1"));
    let s = FileTime { sec: 0u64.wrapping_sub(200_000_000), usec: 0 }.seconds_string();
    assert!(s.starts_with("1963-08-3"));
}

#[test]
fn times_are_shown_at_an_offset() {
    let at = |sec: i64, offset: i32| FileTime { sec: sec as u64, usec: 7 }.seconds_string_at(offset);
    assert_eq!(at(0, 0), "1970-01-01 00:00:00");
    assert_eq!(at(1_700_000_000, 0), "2023-11-14 22:13:20");
    assert_eq!(at(1_700_000_000, 19_800), "2023-11-15 03:43:20");
    assert_eq!(at(0, -1), "1969-12-31 23:59:59");
    assert_eq!(at(1_709_208_000, 0), "2024-02-29 12:00:00");
    assert_eq!(at(4_107_542_399, 1), "2100-03-01 00:00:00");
    assert_eq!(at(-62_167_219_200, 0), "0000-01-01 00:00:00");
    assert_eq!(at(-62_167_219_201, 0), "-0001-12-31 23:59:59");
    assert_eq!(at(253_402_300_800, 0), "+10000-01-01 00:00:00");
    assert_eq!(at(LATEST_SECOND, 86_399), "+262143-01-01 23:59:58");
    assert_eq!(at(EARLIEST_SECOND, -86_399), "-262144-12-31 00:00:01");
}

#[test]
fn setting_names() {
    for m in [DisplayMode::Icons, DisplayMode::Columns] {
        assert_eq!(DisplayMode::parse(m.name()), Some(m));
    }
    for m in [SortMode::Name, SortMode::MTime, SortMode::Size] {
        assert_eq!(SortMode::parse(m.name()), Some(m));
        assert_eq!(Column::for_mode(m).mode(), m);
    }
    for m in [SortDir::Ascending, SortDir::Descending] {
        assert_eq!(SortDir::parse(m.name()), Some(m));
    }
    assert_eq!(DisplayMode::parse("Icons"), None);
    assert_eq!(SortMode::parse(""), None);
    assert_eq!(SortDir::parse("up"), None);
    assert_eq!(
        DirSettings::default(),
        DirSettings { display_mode: DisplayMode::Icons, sort: SortSettings::default() }
    );
    assert_eq!(SortSettings::default(), by(SortMode::Name, SortDir::Ascending));
}

#[test]
fn stale_rows_need_the_same_view() {
    let icons = DirSettings::default();
    let mut columns = icons;
    columns.display_mode = DisplayMode::Columns;
    assert!(icons.allow_stale(icons));
    assert!(!icons.allow_stale(columns));
}

#[test]
fn resolutions() {
    assert_eq!(Res::from_str("3840x2160"), Ok(Res { w: 3840, h: 2160 }));
    let e = "Expected a string of the form WIDTHxHEIGHT. Example: 3840x2160";
    for bad in ["", "x", "12", "12x", "x3", "1x2x3", "-1x2", "4294967296x1"] {
        assert_eq!(Res::from_str(bad), Err(e));
    }
    let r = Res { w: 7, h: 0 };
    assert_eq!(r.text(), "7x0");
    assert_eq!(Res::from_str(&r.text()), Ok(r));
    assert!(r.is_zero_area());
    assert!(!r.is_zero());
    assert!(Res::default().is_zero());
    assert_eq!(Res::from_signed(3, 4), Res { w: 3, h: 4 });
}

#[test]
fn selections_parse() {
    let ok = |s: &str| Selection::try_from(s).unwrap();
    assert_eq!(ok("any"), Selection::AtLeast(0));
    assert_eq!(ok("zero"), Selection::Exactly(0));
    assert_eq!(ok("maybe_one"), Selection::AtMost(1));
    assert_eq!(ok("one"), Selection::Exactly(1));
    assert_eq!(ok("at_least_one"), Selection::AtLeast(1));
    assert_eq!(ok("multiple"), Selection::AtLeast(2));
    assert_eq!(ok("at_least_5"), Selection::AtLeast(5));
    assert_eq!(ok("at_most_6"), Selection::AtMost(6));
    assert_eq!(ok("exactly_7"), Selection::Exactly(7));
    assert_eq!(ok("exactly_+7"), Selection::Exactly(7));
    assert_eq!(ok("2_to_4"), Selection::NToM(2, 4));
    assert_eq!(Selection::default(), Selection::Any);
}

#[test]
fn selections_fail_to_parse() {
    let err = |s: &str| Selection::try_from(s).unwrap_err();
    assert_eq!(err("some"), "Unable to parse selection: some");
    assert_eq!(err("at_least_x"), "Unable to parse selection: at_least_x");
    assert_eq!(err("exactly_"), "Unable to parse selection: exactly_");
    assert_eq!(err("4_to_2"), "Invalid selection specified: 4_to_2, 4 > 2");
}

#[test]
fn selections_accept() {
    assert!(Selection::Any.accepts(0));
    assert!(Selection::AtLeast(2).accepts(2));
    assert!(!Selection::AtLeast(2).accepts(1));
    assert!(Selection::AtMost(2).accepts(2));
    assert!(!Selection::AtMost(2).accepts(3));
    assert!(Selection::NToM(2, 4).accepts(4));
    assert!(!Selection::NToM(2, 4).accepts(5));
    assert!(!Selection::Exactly(1).accepts(0));
}

#[test]
fn empty_options() {
    assert!(empty_path_is_none(vec![]).is_none());
    assert_eq!(empty_path_is_none(vec![47]), Some(vec![47]));
    assert!(empty_string_is_none(String::new()).is_none());
    assert_eq!(empty_string_is_none("a".to_string()), Some("a".to_string()));
    assert_eq!(zero_is_none(0), None);
    assert_eq!(zero_is_none(3), Some(3));
    assert_eq!(text(&actions_dir(Some(fp("/x")), Some(fp("/c"))).unwrap()), "/x");
    assert_eq!(
        text(&actions_dir(None, Some(fp("/home/u/.config"))).unwrap()),
        "/home/u/.config/aw-fm/actions"
    );
    assert!(actions_dir(None, None).is_none());
}

#[test]
fn texts_split_and_trim() {
    assert_eq!(trim_start(" \t a "), "a ");
    assert_eq!(trim("  a b ", Strip::Space), "a b");
    assert_eq!(trim(";a;;", Strip::Only(';')), "a");
    assert_eq!(split_text("a,b,,", ','), vec!["a", "b", "", ""]);
    assert_eq!(split_once("k=v=w", '='), Some(("k".to_string(), "v=w".to_string())));
    assert_eq!(split_once("k", '='), None);
    assert!(holds_char("abc", 'b'));
    assert!(!holds_char("abc", 'd'));
    assert!(begins_with("abc", "ab"));
    assert!(!begins_with("abc", "bc"));
    assert_eq!(compare_texts("a", "b"), Order::Less);
}

#[test]
fn numbers_parse() {
    assert_eq!(parse_bool("true"), Some(true));
    assert_eq!(parse_bool("false"), Some(false));
    assert_eq!(parse_bool("True"), None);
    assert_eq!(parse_i32("-2147483648"), Some(i32::MIN));
    assert_eq!(parse_i32("2147483647"), Some(i32::MAX));
    assert_eq!(parse_i32("2147483648"), None);
    assert_eq!(parse_i32("-"), None);
    assert_eq!(parse_i32("+5"), Some(5));
    assert_eq!(parse_i32("-+5"), None);
    let chars = |s: &str| s.chars().collect::<Vec<char>>();
    assert_eq!(parse_number(&chars("255"), 255), Some(255));
    assert_eq!(parse_number(&chars("256"), 255), None);
    assert_eq!(parse_number(&chars(""), 255), None);
    assert_eq!(decimal_string(0), "0");
    assert_eq!(decimal_string(u64::MAX), "18446744073709551615");
}

#[test]
fn bytes_split_and_join() {
    let parts = split_bytes(&b"a//b/".to_vec(), 47);
    assert_eq!(parts, vec![b"a".to_vec(), vec![], b"b".to_vec(), vec![]]);
    assert_eq!(join_bytes(&parts, 47), b"a//b/".to_vec());
    assert_eq!(split_bytes(&vec![], 47), vec![Vec::<u8>::new()]);
    assert!(contains_bytes(&b"haystack".to_vec(), &b"sta".to_vec()));
    assert!(contains_bytes(&b"x".to_vec(), &vec![]));
    assert!(!contains_bytes(&b"x".to_vec(), &b"xx".to_vec()));
    assert_eq!(
        lines(&b"a\r\nb\n\nc\r".to_vec()),
        vec![b"a".to_vec(), b"b".to_vec(), vec![], b"c\r".to_vec()]
    );
    assert_eq!(lines(&b"a\n".to_vec()), vec![b"a".to_vec()]);
}
