//! What is put on the clipboard and what is read from it.
use std::sync::Arc;

use vstd::prelude::*;
use vstd::string::*;
use vstd::utf8::*;

use crate::entry::Entry;
use crate::operations::Kind;
use crate::path::{self, FilePath};
use crate::strings::{self, is_utf8, lines, lossy_text};
use crate::text::{self, append_bytes, chars_of, copy_bytes, decimal_string, equal_bytes, join_bytes};

verus! {

/// What happens to the files on the clipboard when they are pasted.
#[derive(Clone, Copy, Debug, PartialEq, Eq, Structural)]
pub enum ClipboardOp {
    Copy,
    Cut,
}

impl ClipboardOp {
    pub open spec fn spec_name(self) -> Seq<char> {
        match self {
            ClipboardOp::Copy => "copy"@,
            ClipboardOp::Cut => "cut"@,
        }
    }

    pub fn name(self) -> (r: &'static str)
        ensures
            r@ == self.spec_name(),
    {
        match self {
            ClipboardOp::Copy => "copy",
            ClipboardOp::Cut => "cut",
        }
    }

    pub open spec fn spec_verb(self) -> Seq<char> {
        match self {
            ClipboardOp::Copy => "copied"@,
            ClipboardOp::Cut => "moved"@,
        }
    }

    pub fn verb(self) -> (r: &'static str)
        ensures
            r@ == self.spec_verb(),
    {
        match self {
            ClipboardOp::Copy => "copied",
            ClipboardOp::Cut => "moved",
        }
    }

    /// What a line stands for.
    pub open spec fn parsed(line: Seq<u8>) -> Option<ClipboardOp> {
        if line == encode_utf8("copy"@) {
            Some(ClipboardOp::Copy)
        } else if line == encode_utf8("cut"@) {
            Some(ClipboardOp::Cut)
        } else {
            None
        }
    }

    pub fn parse(line: &Vec<u8>) -> (r: Option<ClipboardOp>)
        ensures
            r == ClipboardOp::parsed(line@),
    {
        if equal_bytes(line, &"copy".as_bytes_vec()) {
            Some(ClipboardOp::Copy)
        } else if equal_bytes(line, &"cut".as_bytes_vec()) {
            Some(ClipboardOp::Cut)
        } else {
            None
        }
    }

    /// The operation that pasting into a directory starts.
    pub fn kind(self, dir: Arc<FilePath>) -> (r: Kind)
        ensures
            r == match self {
                ClipboardOp::Copy => Kind::Copy(dir),
                ClipboardOp::Cut => Kind::Move(dir),
            },
    {
        match self {
            ClipboardOp::Copy => Kind::Copy(dir),
            ClipboardOp::Cut => Kind::Move(dir),
        }
    }
}

/// What is said about entries that were put on the clipboard.
pub open spec fn spec_display_string(op: ClipboardOp, entries: Seq<Arc<Entry>>) -> Seq<char> {
    if entries.len() == 0 {
        "Selection was empty, nothing will be "@ + op.spec_verb()
    } else if entries.len() == 1 {
        "\""@ + strings::lossy(entries[0].name.name@) + "\" will be "@ + op.spec_verb()
    } else {
        text::decimal(entries.len()) + " items will be "@ + op.spec_verb()
    }
}

pub fn display_string(op: ClipboardOp, entries: &Vec<Arc<Entry>>) -> (r: String)
    ensures
        r@ == spec_display_string(op, entries@),
{
    if entries.len() == 0 {
        let mut t = "Selection was empty, nothing will be ".to_owned();
        t.append(op.verb());
        t
    } else if entries.len() == 1 {
        let mut t = "\"".to_owned();
        t.append(lossy_text(&entries[0].name.name).as_str());
        t.append("\" will be ");
        t.append(op.verb());
        t
    } else {
        let mut t = decimal_string(entries.len() as u64);
        t.append(" items will be ");
        t.append(op.verb());
        t
    }
}

/// Why what is on the clipboard cannot be pasted.
#[derive(Clone, Copy, Debug, PartialEq, Eq, Structural)]
pub enum ClipboardError {
    NotText,
    Empty,
    UnknownOperation,
}

/// What is on the clipboard: an operation, and the locations of files. A plain
/// list of locations is moved.
pub open spec fn parsed_contents(bytes: Seq<u8>, uri_list: bool) -> Result<
    (ClipboardOp, Seq<Seq<u8>>),
    ClipboardError,
> {
    let all = strings::lines_of(bytes);
    if !valid_utf8(bytes) {
        Err(ClipboardError::NotText)
    } else if uri_list {
        Ok((ClipboardOp::Cut, all))
    } else if all.len() == 0 {
        Err(ClipboardError::Empty)
    } else {
        match ClipboardOp::parsed(all[0]) {
            Some(op) => Ok((op, all.skip(1))),
            None => Err(ClipboardError::UnknownOperation),
        }
    }
}

/// Reads what is on the clipboard.
pub fn bytes_to_operation(bytes: &Vec<u8>, uri_list: bool) -> (r: Result<
    (ClipboardOp, Vec<Vec<u8>>),
    ClipboardError,
>)
    ensures
        match parsed_contents(bytes@, uri_list) {
            Ok((op, uris)) => r matches Ok((o, u)) && o == op && text::views(u@) == uris,
            Err(e) => r matches Err(x) && x == e,
        },
{
    if !is_utf8(bytes) {
        return Err(ClipboardError::NotText);
    }
    let all = lines(bytes);
    let ghost v = text::views(all@);
    if uri_list {
        return Ok((ClipboardOp::Cut, all));
    }
    if all.len() == 0 {
        return Err(ClipboardError::Empty);
    }
    assert(v[0] == all@[0]@);
    match ClipboardOp::parse(&all[0]) {
        Some(op) => {
            let mut rest: Vec<Vec<u8>> = Vec::new();
            let mut i: usize = 1;
            assert(text::views(rest@) =~= v.subrange(1, 1));
            while i < all.len()
                invariant
                    v == text::views(all@),
                    1 <= i <= all.len(),
                    text::views(rest@) == v.subrange(1, i as int),
                decreases all.len() - i,
            {
                let ghost before = text::views(rest@);
                rest.push(copy_bytes(&all[i]));
                assert(v[i as int] == all@[i as int]@);
                assert(text::views(rest@) =~= before.push(v[i as int]));
                assert(v.subrange(1, i + 1) =~= before.push(v[i as int]));
                i += 1;
            }
            assert(text::views(rest@) =~= v.skip(1));
            Ok((op, rest))
        },
        None => Err(ClipboardError::UnknownOperation),
    }
}

/// What is put on the clipboard for other file managers: the operation, then the
/// location of each file.
pub open spec fn special_bytes(op: ClipboardOp, uris: Seq<Seq<u8>>) -> Seq<u8> {
    encode_utf8(op.spec_name()) + encode_utf8("\n"@) + text::join(uris, 10u8)
}

pub fn write_special(op: ClipboardOp, uris: &Vec<Vec<u8>>) -> (r: Vec<u8>)
    ensures
        r@ == special_bytes(op, text::views(uris@)),
{
    let mut r = op.name().as_bytes_vec();
    append_bytes(&mut r, &"\n".as_bytes_vec());
    append_bytes(&mut r, &join_bytes(uris, 10));
    r
}

/// A location without line ends in it.
pub open spec fn one_line(uri: Seq<u8>) -> bool {
    uri.len() > 0 && !uri.contains(10u8) && uri.last() != 13
}

/// What was put on the clipboard is read back: the operation and the locations.
pub proof fn special_round_trip(op: ClipboardOp, uris: Seq<Seq<u8>>)
    requires
        valid_utf8(special_bytes(op, uris)),
        forall|i: int| 0 <= i < uris.len() ==> one_line(#[trigger] uris[i]),
    ensures
        parsed_contents(special_bytes(op, uris), false) == Ok::<
            (ClipboardOp, Seq<Seq<u8>>),
            ClipboardError,
        >((op, uris)),
{
    let name = encode_utf8(op.spec_name());
    let bytes = special_bytes(op, uris);
    reveal_strlit("copy");
    reveal_strlit("cut");
    reveal_strlit("\n");
    newline_bytes();
    name_bytes(op);
    if uris.len() == 0 {
        let runs = seq![name, Seq::<u8>::empty()];
        assert(text::join(runs.drop_last(), 10u8) == name) by {
            assert(runs.drop_last() =~= seq![name]);
        }
        assert(bytes =~= text::join(runs, 10u8));
        text::split_join(runs, 10u8);
        assert(strings::lines_of(bytes) =~= seq![name]);
        assert(seq![name].skip(1) =~= uris);
    } else {
        let runs = seq![name] + uris;
        join_front(name, uris);
        assert(bytes =~= text::join(runs, 10u8));
        assert forall|i: int| 0 <= i < runs.len() implies !(#[trigger] runs[i]).contains(10u8) by {
            if i > 0 {
                assert(one_line(uris[i - 1]));
            }
        }
        text::split_join(runs, 10u8);
        assert(one_line(uris.last()));
        assert forall|i: int| 0 <= i < runs.len() implies strings::without_return(#[trigger] runs[i])
            == runs[i] by {
            if i > 0 {
                assert(one_line(uris[i - 1]));
            }
        }
        assert(strings::lines_of(bytes) =~= runs);
        assert(runs.skip(1) =~= uris);
    }
    op_parses(op);
}

/// A plain list of locations, one in each line, is read back, and is moved.
pub proof fn list_round_trip(uris: Seq<Seq<u8>>)
    requires
        uris.len() > 0,
        valid_utf8(text::join(uris, 10u8)),
        forall|i: int| 0 <= i < uris.len() ==> one_line(#[trigger] uris[i]),
    ensures
        parsed_contents(text::join(uris, 10u8), true) == Ok::<
            (ClipboardOp, Seq<Seq<u8>>),
            ClipboardError,
        >((ClipboardOp::Cut, uris)),
{
    assert forall|i: int| 0 <= i < uris.len() implies !(#[trigger] uris[i]).contains(10u8) by {
        assert(one_line(uris[i]));
    }
    text::split_join(uris, 10u8);
    assert(one_line(uris.last()));
    assert forall|i: int| 0 <= i < uris.len() implies strings::without_return(#[trigger] uris[i])
        == uris[i] by {
        assert(one_line(uris[i]));
    }
    assert(strings::lines_of(text::join(uris, 10u8)) =~= uris);
}

/// What is no text cannot be pasted, nor what names neither of the two operations.
pub proof fn refused_contents(bytes: Seq<u8>, uri_list: bool)
    ensures
        parsed_contents(bytes, uri_list) is Err <==> !valid_utf8(bytes) || (!uri_list && (
        strings::lines_of(bytes).len() == 0 || (strings::lines_of(bytes)[0] != encode_utf8("copy"@)
            && strings::lines_of(bytes)[0] != encode_utf8("cut"@)))),
        !uri_list ==> (parsed_contents(bytes, uri_list) matches Ok((op, uris)) ==> (op is Copy
            <==> strings::lines_of(bytes)[0] == encode_utf8("copy"@))),
{
    reveal_strlit("copy");
    reveal_strlit("cut");
    encode_utf8_decode_utf8("copy"@);
    encode_utf8_decode_utf8("cut"@);
    assert("copy"@.len() != "cut"@.len());
}

proof fn newline_bytes()
    ensures
        encode_utf8("\n"@) == seq![10u8],
{
    reveal_strlit("\n");
    assert("\n"@ =~= seq!['\n']);
    reveal_with_fuel(encode_utf8, 2);
    assert(encode_scalar('\n' as u32) =~= seq![10u8]) by {
        assert(10u32 & 0x7f == 10) by (bit_vector);
    }
    assert(seq!['\n'].drop_first() =~= Seq::empty());
    assert(encode_utf8("\n"@) =~= seq![10u8]);
}

proof fn name_bytes(op: ClipboardOp)
    ensures
        !encode_utf8(op.spec_name()).contains(10u8),
        encode_utf8(op.spec_name()).len() > 0,
        encode_utf8(op.spec_name()).last() != 13,
{
    let s = match op {
        ClipboardOp::Copy => "copy",
        ClipboardOp::Cut => "cut",
    };
    reveal_strlit("copy");
    reveal_strlit("cut");
    assert(is_ascii(s));
    is_ascii_spec_bytes(s);
    assert forall|i: int| 0 <= i < encode_utf8(s@).len() implies #[trigger] encode_utf8(s@)[i] != 10
        && encode_utf8(s@)[i] != 13 by {}
}

proof fn op_parses(op: ClipboardOp)
    ensures
        ClipboardOp::parsed(encode_utf8(op.spec_name())) == Some(op),
{
    reveal_strlit("copy");
    reveal_strlit("cut");
    encode_utf8_decode_utf8("copy"@);
    encode_utf8_decode_utf8("cut"@);
    assert("copy"@.len() != "cut"@.len());
}

proof fn join_front(a: Seq<u8>, v: Seq<Seq<u8>>)
    requires
        v.len() > 0,
    ensures
        text::join(seq![a] + v, 10u8) == a + seq![10u8] + text::join(v, 10u8),
    decreases v.len(),
{
    let w = seq![a] + v;
    if v.len() == 1 {
        assert(w.drop_last() =~= seq![a]);
        assert(text::join(w.drop_last(), 10u8) == a);
        assert(text::join(w, 10u8) =~= a + seq![10u8] + v[0]);
    } else {
        assert(w.drop_last() =~= seq![a] + v.drop_last());
        join_front(a, v.drop_last());
        assert(text::join(w, 10u8) =~= a + seq![10u8] + text::join(v, 10u8));
    }
}

/// The paths of entries.
pub open spec fn paths_of(entries: Seq<Arc<Entry>>) -> Seq<Seq<u8>> {
    Seq::new(entries.len(), |i: int| path::path_bytes(entries[i].abs_path@))
}

/// The paths of entries, one in each line.
pub fn write_paths(entries: &Vec<Arc<Entry>>) -> (r: Vec<u8>)
    ensures
        r@ == text::join(paths_of(entries@), 10u8),
{
    let mut v: Vec<Vec<u8>> = Vec::new();
    let mut i: usize = 0;
    assert(text::views(v@) =~= paths_of(entries@).take(0));
    while i < entries.len()
        invariant
            i <= entries.len(),
            text::views(v@) == paths_of(entries@).take(i as int),
        decreases entries.len() - i,
    {
        let ghost before = text::views(v@);
        v.push(entries[i].abs_path.to_bytes());
        assert(text::views(v@) =~= before.push(paths_of(entries@)[i as int]));
        assert(paths_of(entries@).take(i + 1) =~= before.push(paths_of(entries@)[i as int]));
        i += 1;
    }
    assert(text::views(v@) =~= paths_of(entries@));
    join_bytes(&v, 10)
}

/// The hexadecimal notation of a number.
pub open spec fn hex(n: nat) -> Seq<char>
    decreases n,
{
    if n < 16 {
        seq![hex_digit(n)]
    } else {
        hex(n / 16).push(hex_digit(n % 16))
    }
}

pub open spec fn hex_digit(n: nat) -> char {
    if n < 10 {
        (48 + n) as char
    } else {
        (87 + n) as char
    }
}

/// A character in ASCII: itself if it can be printed, or else an escape.
pub open spec fn escaped(c: char) -> Seq<char> {
    if c == '\t' {
        seq!['\\', 't']
    } else if c == '\r' {
        seq!['\\', 'r']
    } else if c == '\n' {
        seq!['\\', 'n']
    } else if c == '\'' || c == '"' || c == '\\' {
        seq!['\\', c]
    } else if 0x20 <= c as u32 <= 0x7e {
        seq![c]
    } else {
        seq!['\\', 'u', '{'] + hex(c as u32 as nat) + seq!['}']
    }
}

/// A text in ASCII.
pub open spec fn escaped_text(s: Seq<char>) -> Seq<char>
    decreases s.len(),
{
    if s.len() == 0 {
        Seq::empty()
    } else {
        escaped_text(s.drop_last()) + escaped(s.last())
    }
}

fn push_hex(v: &mut Vec<char>, n: u32)
    requires
        n <= 0x10ffff,
    ensures
        final(v)@ == old(v)@ + hex(n as nat),
    decreases n,
{
    let ghost before = v@;
    if n >= 16 {
        push_hex(v, n / 16);
    }
    let d: u32 = n % 16;
    let c = if d < 10 {
        (48 + d as u8) as char
    } else {
        (87 + d as u8) as char
    };
    v.push(c);
    assert(v@ =~= before + hex(n as nat));
}

/// Writes a text in ASCII.
pub fn escape_text(s: &str) -> (r: String)
    ensures
        r@ == escaped_text(s@),
{
    let chars = chars_of(s);
    let mut v: Vec<char> = Vec::new();
    let mut i: usize = 0;
    while i < chars.len()
        invariant
            i <= chars.len(),
            v@ == escaped_text(chars@.take(i as int)),
        decreases chars.len() - i,
    {
        assert(chars@.take(i + 1).drop_last() =~= chars@.take(i as int));
        let ghost before = v@;
        let c = chars[i];
        let n: u32 = c as u32;
        proof {
            char_is_scalar(c);
        }
        if c == '\t' {
            v.push('\\');
            v.push('t');
        } else if c == '\r' {
            v.push('\\');
            v.push('r');
        } else if c == '\n' {
            v.push('\\');
            v.push('n');
        } else if c == '\'' || c == '"' || c == '\\' {
            v.push('\\');
            v.push(c);
        } else if 0x20 <= n && n <= 0x7e {
            v.push(c);
        } else {
            v.push('\\');
            v.push('u');
            v.push('{');
            push_hex(&mut v, n);
            v.push('}');
        }
        assert(v@ =~= before + escaped(c));
        i += 1;
    }
    assert(chars@.take(i as int) =~= chars@);
    text::text_of(&v, 0, v.len())
}

/// The formats that can be pasted, in the order in which they are preferred.
#[derive(Clone, Copy, Debug, PartialEq, Eq, Structural)]
pub enum Format {
    Special,
    SpecialMate,
    SpecialGnome,
    Uris,
}

impl Format {
    pub open spec fn spec_mime(self) -> Seq<char> {
        match self {
            Format::Special => "x-special/aw-fm-copied-files"@,
            Format::SpecialMate => "x-special/mate-copied-files"@,
            Format::SpecialGnome => "x-special/gnome-copied-files"@,
            Format::Uris => "text/uri-list"@,
        }
    }

    pub fn mime(self) -> (r: &'static str)
        ensures
            r@ == self.spec_mime(),
    {
        match self {
            Format::Special => "x-special/aw-fm-copied-files",
            Format::SpecialMate => "x-special/mate-copied-files",
            Format::SpecialGnome => "x-special/gnome-copied-files",
            Format::Uris => "text/uri-list",
        }
    }
}

/// Which formats are offered.
#[derive(Clone, Copy, Debug, PartialEq, Eq, Structural)]
pub struct Offered {
    pub special: bool,
    pub mate: bool,
    pub gnome: bool,
    pub uris: bool,
}

/// The format to read. A list of locations is only taken from a drop.
pub open spec fn spec_format(offered: Offered, from_drop: bool) -> Option<Format> {
    if offered.special {
        Some(Format::Special)
    } else if offered.mate {
        Some(Format::SpecialMate)
    } else if offered.gnome {
        Some(Format::SpecialGnome)
    } else if from_drop && offered.uris {
        Some(Format::Uris)
    } else {
        None
    }
}

pub fn choose_format(offered: Offered, from_drop: bool) -> (r: Option<Format>)
    ensures
        r == spec_format(offered, from_drop),
{
    if offered.special {
        Some(Format::Special)
    } else if offered.mate {
        Some(Format::SpecialMate)
    } else if offered.gnome {
        Some(Format::SpecialGnome)
    } else if from_drop && offered.uris {
        Some(Format::Uris)
    } else {
        None
    }
}

/// What a drop does, given the bits for copying and moving. Moving is preferred.
pub const DRAG_COPY: u32 = 1;

pub const DRAG_MOVE: u32 = 2;

pub fn drop_action(actions: u32) -> (r: u32)
    ensures
        r == (if actions & DRAG_MOVE != 0 {
            DRAG_MOVE
        } else if actions & DRAG_COPY != 0 {
            DRAG_COPY
        } else {
            actions
        }),
{
    if actions & DRAG_MOVE != 0 {
        DRAG_MOVE
    } else if actions & DRAG_COPY != 0 {
        DRAG_COPY
    } else {
        actions
    }
}

proof fn hex_is_printable(n: nat)
    ensures
        forall|i: int|
            0 <= i < hex(n).len() ==> {
                let c = #[trigger] hex(n)[i] as int;
                48 <= c <= 57 || 97 <= c <= 102
            },
    decreases n,
{
    if n >= 16 {
        let front = hex(n / 16);
        hex_is_printable(n / 16);
        assert forall|i: int| 0 <= i < hex(n).len() implies {
            let c = #[trigger] hex(n)[i] as int;
            48 <= c <= 57 || 97 <= c <= 102
        } by {
            if i < front.len() {
                assert(hex(n)[i] == front[i]);
            } else {
                assert(hex(n)[i] == hex_digit(n % 16));
            }
        }
    }
}

proof fn escape_is_printable(c: char)
    ensures
        forall|i: int|
            0 <= i < escaped(c).len() ==> 32 <= #[trigger] escaped(c)[i] as int <= 126,
{
    let n = c as u32 as nat;
    hex_is_printable(n);
    let e = escaped(c);
    assert forall|i: int| 0 <= i < e.len() implies 32 <= #[trigger] e[i] as int <= 126 by {
        if e.len() > 2 {
            assert(e == seq!['\\', 'u', '{'] + hex(n) + seq!['}']);
            if 3 <= i < 3 + hex(n).len() {
                assert(e[i] == hex(n)[i - 3]);
            }
        }
    }
}

/// An escaped text holds nothing but printable ASCII characters, and printable ones
/// that need no escape are kept.
pub proof fn escaped_is_printable(s: Seq<char>)
    ensures
        forall|i: int|
            0 <= i < escaped_text(s).len() ==> 32 <= #[trigger] escaped_text(s)[i] as int <= 126,
        (forall|i: int|
            0 <= i < s.len() ==> 32 <= #[trigger] s[i] as int <= 126 && s[i] != '\'' && s[i] != '"'
                && s[i] != '\\') ==> escaped_text(s) == s,
    decreases s.len(),
{
    if s.len() > 0 {
        let front = s.drop_last();
        let c = s.last();
        escaped_is_printable(front);
        escape_is_printable(c);
        let e = escaped_text(s);
        assert forall|i: int| 0 <= i < e.len() implies 32 <= #[trigger] e[i] as int <= 126 by {
            let k = escaped_text(front).len() as int;
            if i < k {
                assert(e[i] == escaped_text(front)[i]);
            } else {
                assert(e[i] == escaped(c)[i - k]);
            }
        }
        assert(s =~= front.push(c));
        if forall|i: int|
            0 <= i < s.len() ==> 32 <= #[trigger] s[i] as int <= 126 && s[i] != '\'' && s[i] != '"'
                && s[i] != '\\' {
            assert forall|i: int| 0 <= i < front.len() implies 32 <= #[trigger] front[i] as int
                <= 126 && front[i] != '\'' && front[i] != '"' && front[i] != '\\' by {
                assert(front[i] == s[i]);
            }
            assert(s[s.len() - 1] == c);
            assert(escaped(c) =~= seq![c]);
            assert(front + seq![c] =~= s);
        }
    } else {
        assert(escaped_text(s) =~= s);
    }
}

/// Texts are escaped one character after the other.
pub proof fn escaped_one_by_one(a: Seq<char>, b: Seq<char>)
    ensures
        escaped_text(a + b) == escaped_text(a) + escaped_text(b),
    decreases b.len(),
{
    if b.len() > 0 {
        escaped_one_by_one(a, b.drop_last());
        assert((a + b).drop_last() =~= a + b.drop_last());
        assert(escaped_text(a + b) =~= escaped_text(a) + escaped_text(b));
    } else {
        assert(a + b =~= a);
        assert(escaped_text(a + b) =~= escaped_text(a) + escaped_text(b));
    }
}

/// A format is read only if it is offered, and a list of locations only from a drop and
/// if there is nothing better.
pub proof fn offered_formats(offered: Offered, from_drop: bool)
    ensures
        match spec_format(offered, from_drop) {
            Some(Format::Special) => offered.special,
            Some(Format::SpecialMate) => offered.mate && !offered.special,
            Some(Format::SpecialGnome) => offered.gnome && !offered.special && !offered.mate,
            Some(Format::Uris) => from_drop && offered.uris && !offered.special && !offered.mate
                && !offered.gnome,
            None => !offered.special && !offered.mate && !offered.gnome && !(from_drop
                && offered.uris),
        },
{
}

/// What is said of entries on the clipboard ends with what happens to them.
pub proof fn said_of_the_clipboard(entries: Seq<Arc<Entry>>)
    ensures
        "copied"@.is_suffix_of(spec_display_string(ClipboardOp::Copy, entries)),
        "moved"@.is_suffix_of(spec_display_string(ClipboardOp::Cut, entries)),
        entries.len() > 1 ==> text::decimal(entries.len()).is_prefix_of(
            spec_display_string(ClipboardOp::Copy, entries),
        ),
{
    let (a, b) = (
        spec_display_string(ClipboardOp::Copy, entries),
        spec_display_string(ClipboardOp::Cut, entries),
    );
    assert(a.skip(a.len() - "copied"@.len()) =~= "copied"@);
    assert(b.skip(b.len() - "moved"@.len()) =~= "moved"@);
    if entries.len() > 1 {
        let n = text::decimal(entries.len());
        assert(a.take(n.len() as int) =~= n);
    }
}

} // verus!
