//! Custom actions: scripts that show up in the context menu, with a block of
//! settings in them that says when.
use vstd::prelude::*;
use vstd::string::*;
use vstd::utf8::*;

use crate::entry::Entry;
use crate::names::{self, file_stem_len};
use crate::operations;
use crate::order::{self, Order};
use crate::path::{self, FilePath};
use crate::patterns::{self, captures, is_match, is_pattern};
use crate::strings::{
    self, begins_with, compare_texts, lines, lossy_text, parse_bool, parse_i32, split_text, trim,
    Strip,
};
use crate::text::{self, contains_bytes, equal_bytes, same_text};

verus! {

/// How much of a script is read.
pub const MAX_ACTION_BYTES: usize = 1048576;

/// The start of the settings stands within so many bytes of the start of its
/// line.
pub const BEGIN_WITHIN: usize = 50;

pub open spec fn begin_marker() -> Seq<u8> {
    encode_utf8("**aw-fm-settings-begin**"@)
}

pub open spec fn end_marker() -> Seq<u8> {
    encode_utf8("**aw-fm-settings-end**"@)
}

pub open spec fn settings_pattern() -> Seq<char> {
    r"(name|directories|files|mimetypes|extensions|regex|multiple|priority)=(.*)$"@
}

/// Whether an action takes more than one item.
#[derive(Clone, Copy, Debug, PartialEq, Eq, Structural)]
pub enum Multiple {
    True,
    False,
    Required,
}

impl Multiple {
    pub open spec fn parsed(s: Seq<char>) -> Option<Multiple> {
        if s == "true"@ {
            Some(Multiple::True)
        } else if s == "false"@ {
            Some(Multiple::False)
        } else if s == "required"@ {
            Some(Multiple::Required)
        } else {
            None
        }
    }

    pub fn parse(s: &str) -> (r: Option<Multiple>)
        ensures
            r == Multiple::parsed(s@),
    {
        if same_text(s, "true") {
            Some(Multiple::True)
        } else if same_text(s, "false") {
            Some(Multiple::False)
        } else if same_text(s, "required") {
            Some(Multiple::Required)
        } else {
            None
        }
    }
}

/// What an action applies to.
pub struct ActionSettings {
    pub name: Option<String>,
    pub directories: bool,
    pub files: bool,
    pub mimetypes: Option<Vec<String>>,
    pub extensions: Option<Vec<String>>,
    pub regex: Option<String>,
    pub multiple: Multiple,
    pub priority: i32,
}

/// What an action applies to, as a mathematical value.
#[verifier::ext_equal]
pub struct SettingsView {
    pub name: Option<Seq<char>>,
    pub directories: bool,
    pub files: bool,
    pub mimetypes: Option<Seq<Seq<char>>>,
    pub extensions: Option<Seq<Seq<char>>>,
    pub regex: Option<Seq<char>>,
    pub multiple: Multiple,
    pub priority: int,
}

pub open spec fn text_view(s: Option<String>) -> Option<Seq<char>> {
    match s {
        Some(t) => Some(t@),
        None => None,
    }
}

pub open spec fn texts_view(s: Option<Vec<String>>) -> Option<Seq<Seq<char>>> {
    match s {
        Some(t) => Some(text::texts(t@)),
        None => None,
    }
}

impl View for ActionSettings {
    type V = SettingsView;

    open spec fn view(&self) -> SettingsView {
        SettingsView {
            name: text_view(self.name),
            directories: self.directories,
            files: self.files,
            mimetypes: texts_view(self.mimetypes),
            extensions: texts_view(self.extensions),
            regex: text_view(self.regex),
            multiple: self.multiple,
            priority: self.priority as int,
        }
    }
}

/// Why the settings of a script could not be read.
#[derive(Clone, Copy, Debug, PartialEq, Eq, Structural)]
pub enum ActionError {
    NoBegin,
    NoEnd,
    BadValue,
    BadRegex,
}

/// The settings of a script that sets nothing.
pub open spec fn default_settings() -> SettingsView {
    SettingsView {
        name: None,
        directories: true,
        files: true,
        mimetypes: None,
        extensions: None,
        regex: None,
        multiple: Multiple::True,
        priority: 0,
    }
}

/// The settings once `key` is set to `rest`, which counts as no setting if it is
/// empty. `compiled` says whether `rest` is a well-formed pattern.
pub open spec fn with_setting(s: SettingsView, key: Seq<u8>, rest: Seq<char>, compiled: bool) -> Result<
    SettingsView,
    ActionError,
> {
    if rest.len() == 0 {
        Ok(s)
    } else if key == encode_utf8("name"@) {
        Ok(SettingsView { name: Some(rest), ..s })
    } else if key == encode_utf8("directories"@) {
        match strings::parsed_bool(rest) {
            Some(b) => Ok(SettingsView { directories: b, ..s }),
            None => Err(ActionError::BadValue),
        }
    } else if key == encode_utf8("files"@) {
        match strings::parsed_bool(rest) {
            Some(b) => Ok(SettingsView { files: b, ..s }),
            None => Err(ActionError::BadValue),
        }
    } else if key == encode_utf8("mimetypes"@) {
        Ok(
            SettingsView {
                mimetypes: Some(text::split(strings::strip(rest, Strip::Only(';')), ';')),
                ..s
            },
        )
    } else if key == encode_utf8("extensions"@) {
        Ok(SettingsView { extensions: Some(text::split(rest, ';')), ..s })
    } else if key == encode_utf8("regex"@) {
        if compiled {
            Ok(SettingsView { regex: Some(rest), ..s })
        } else {
            Err(ActionError::BadRegex)
        }
    } else if key == encode_utf8("multiple"@) {
        match Multiple::parsed(rest) {
            Some(m) => Ok(SettingsView { multiple: m, ..s }),
            None => Err(ActionError::BadValue),
        }
    } else if key == encode_utf8("priority"@) {
        match strings::parsed_i32(rest) {
            Some(n) => Ok(SettingsView { priority: n, ..s }),
            None => Err(ActionError::BadValue),
        }
    } else {
        Ok(s)
    }
}

/// The settings after a line, given what the pattern of settings captured of it.
pub open spec fn with_line(s: SettingsView, groups: Option<Seq<Option<Seq<u8>>>>) -> Result<
    SettingsView,
    ActionError,
> {
    match groups {
        Some(g) if g.len() == 3 && g[1] is Some && g[2] is Some => {
            let rest = strings::strip(strings::lossy(g[2]->0), Strip::Space);
            with_setting(s, g[1]->0, rest, patterns::compiles(rest))
        },
        _ => Ok(s),
    }
}

/// The settings in the lines that follow the begin marker.
pub open spec fn read_settings(lines: Seq<Seq<u8>>, s: SettingsView) -> Result<
    SettingsView,
    ActionError,
>
    decreases lines.len(),
{
    if lines.len() == 0 {
        Err(ActionError::NoEnd)
    } else if text::occurs(end_marker(), lines[0]) {
        Ok(s)
    } else {
        match with_line(s, patterns::captured(settings_pattern(), lines[0])) {
            Ok(t) => read_settings(lines.skip(1), t),
            Err(e) => Err(e),
        }
    }
}

/// Whether the settings begin after a line.
pub open spec fn begins_settings(line: Seq<u8>) -> bool {
    text::occurs(
        begin_marker(),
        line.take(
            if line.len() < BEGIN_WITHIN {
                line.len() as int
            } else {
                BEGIN_WITHIN as int
            },
        ),
    )
}

/// The settings in the lines of a script.
pub open spec fn script_settings(lines: Seq<Seq<u8>>) -> Result<SettingsView, ActionError>
    decreases lines.len(),
{
    if lines.len() == 0 {
        Err(ActionError::NoBegin)
    } else if begins_settings(lines[0]) {
        read_settings(lines.skip(1), default_settings())
    } else {
        script_settings(lines.skip(1))
    }
}

/// The part of a script that is read.
pub open spec fn read_part(contents: Seq<u8>) -> Seq<u8> {
    if contents.len() > MAX_ACTION_BYTES {
        contents.take(MAX_ACTION_BYTES as int)
    } else {
        contents
    }
}

/// The lines of a script.
pub open spec fn script_lines(contents: Seq<u8>) -> Seq<Seq<u8>> {
    strings::lines_of(encode_utf8(strings::lossy(read_part(contents))))
}

proof fn keys_differ()
    ensures
        encode_utf8("directories"@) != encode_utf8("name"@),
        encode_utf8("files"@) != encode_utf8("name"@),
        encode_utf8("files"@) != encode_utf8("directories"@),
        encode_utf8("mimetypes"@) != encode_utf8("name"@),
        encode_utf8("mimetypes"@) != encode_utf8("directories"@),
        encode_utf8("mimetypes"@) != encode_utf8("files"@),
        encode_utf8("extensions"@) != encode_utf8("name"@),
        encode_utf8("extensions"@) != encode_utf8("directories"@),
        encode_utf8("extensions"@) != encode_utf8("files"@),
        encode_utf8("extensions"@) != encode_utf8("mimetypes"@),
        encode_utf8("regex"@) != encode_utf8("name"@),
        encode_utf8("regex"@) != encode_utf8("directories"@),
        encode_utf8("regex"@) != encode_utf8("files"@),
        encode_utf8("regex"@) != encode_utf8("mimetypes"@),
        encode_utf8("regex"@) != encode_utf8("extensions"@),
        encode_utf8("multiple"@) != encode_utf8("name"@),
        encode_utf8("multiple"@) != encode_utf8("directories"@),
        encode_utf8("multiple"@) != encode_utf8("files"@),
        encode_utf8("multiple"@) != encode_utf8("mimetypes"@),
        encode_utf8("multiple"@) != encode_utf8("extensions"@),
        encode_utf8("multiple"@) != encode_utf8("regex"@),
        encode_utf8("priority"@) != encode_utf8("name"@),
        encode_utf8("priority"@) != encode_utf8("directories"@),
        encode_utf8("priority"@) != encode_utf8("files"@),
        encode_utf8("priority"@) != encode_utf8("mimetypes"@),
        encode_utf8("priority"@) != encode_utf8("extensions"@),
        encode_utf8("priority"@) != encode_utf8("regex"@),
        encode_utf8("priority"@) != encode_utf8("multiple"@),
{
    reveal_strlit("name");
    reveal_strlit("directories");
    reveal_strlit("files");
    reveal_strlit("mimetypes");
    reveal_strlit("extensions");
    reveal_strlit("regex");
    reveal_strlit("multiple");
    reveal_strlit("priority");
    encode_utf8_decode_utf8("name"@);
    encode_utf8_decode_utf8("directories"@);
    encode_utf8_decode_utf8("files"@);
    encode_utf8_decode_utf8("mimetypes"@);
    encode_utf8_decode_utf8("extensions"@);
    encode_utf8_decode_utf8("regex"@);
    encode_utf8_decode_utf8("multiple"@);
    encode_utf8_decode_utf8("priority"@);
    assert("files"@[0] != "regex"@[0]);
    assert("multiple"@[0] != "priority"@[0]);
    assert("name"@.len() == 4);
    assert("directories"@.len() == 11);
    assert("files"@.len() == 5);
    assert("mimetypes"@.len() == 9);
    assert("extensions"@.len() == 10);
    assert("regex"@.len() == 5);
    assert("multiple"@.len() == 8);
    assert("priority"@.len() == 8);
}

/// A setting is set by its own key and by no other, and an empty value sets nothing.
pub proof fn keys_set_their_settings(
    s: SettingsView,
    key: Seq<u8>,
    rest: Seq<char>,
    compiled: bool,
)
    ensures
        rest.len() == 0 ==> with_setting(s, key, rest, compiled) == Ok::<
            SettingsView,
            ActionError,
        >(s),
        with_setting(s, key, rest, compiled) matches Ok(t) ==> {
            &&& key != encode_utf8("name"@) ==> t.name == s.name
            &&& key != encode_utf8("directories"@) ==> t.directories == s.directories
            &&& key != encode_utf8("files"@) ==> t.files == s.files
            &&& key != encode_utf8("mimetypes"@) ==> t.mimetypes == s.mimetypes
            &&& key != encode_utf8("extensions"@) ==> t.extensions == s.extensions
            &&& key != encode_utf8("regex"@) ==> t.regex == s.regex
            &&& key != encode_utf8("multiple"@) ==> t.multiple == s.multiple
            &&& key != encode_utf8("priority"@) ==> t.priority == s.priority
        },
        with_setting(s, encode_utf8("name"@), rest, compiled) matches Ok(t) && (rest.len() > 0
            ==> t.name == Some(rest)),
        rest == "true"@ ==> (with_setting(
            s,
            encode_utf8("directories"@),
            rest,
            compiled,
        ) matches Ok(t) && t.directories) && (with_setting(
            s,
            encode_utf8("files"@),
            rest,
            compiled,
        ) matches Ok(t) && t.files) && (with_setting(
            s,
            encode_utf8("multiple"@),
            rest,
            compiled,
        ) matches Ok(t) && t.multiple is True),
        rest == "false"@ ==> (with_setting(
            s,
            encode_utf8("directories"@),
            rest,
            compiled,
        ) matches Ok(t) && !t.directories) && (with_setting(
            s,
            encode_utf8("files"@),
            rest,
            compiled,
        ) matches Ok(t) && !t.files) && (with_setting(
            s,
            encode_utf8("multiple"@),
            rest,
            compiled,
        ) matches Ok(t) && t.multiple is False),
        rest == "required"@ ==> (with_setting(
            s,
            encode_utf8("multiple"@),
            rest,
            compiled,
        ) matches Ok(t) && t.multiple is Required),
        rest.len() > 0 ==> (with_setting(s, encode_utf8("regex"@), rest, compiled) matches Ok(t)
            <==> compiled),
        rest.len() > 0 && compiled ==> with_setting(s, encode_utf8("regex"@), rest, compiled)->Ok_0.regex
            == Some(rest),
        rest.len() > 0 ==> (with_setting(
            s,
            encode_utf8("extensions"@),
            rest,
            compiled,
        ) matches Ok(t) && t.extensions matches Some(list) && text::join(list, ';') == rest
            && forall|i: int| 0 <= i < list.len() ==> !(#[trigger] list[i]).contains(';')),
{
    keys_differ();
    reveal_strlit("true");
    reveal_strlit("false");
    reveal_strlit("required");
    assert("true"@.len() == 4 && "false"@.len() == 5 && "required"@.len() == 8);
    text::join_split(rest, ';');
    text::split_runs_lack_separator(rest, ';');
}

/// Settings are read from between the two markers: lines before the first one and
/// after the second one do not matter, and a script without either is refused.
pub proof fn settings_between_markers(
    before: Seq<u8>,
    lines: Seq<Seq<u8>>,
    end: Seq<u8>,
    after: Seq<Seq<u8>>,
    s: SettingsView,
)
    requires
        !begins_settings(before),
        text::occurs(end_marker(), end),
    ensures
        script_settings(seq![before] + lines) == script_settings(lines),
        read_settings(lines.push(end) + after, s) == read_settings(lines.push(end), s),
        read_settings(seq![end] + after, s) == Ok::<SettingsView, ActionError>(s),
        script_settings(Seq::empty()) == Err::<SettingsView, ActionError>(ActionError::NoBegin),
        read_settings(Seq::empty(), s) == Err::<SettingsView, ActionError>(ActionError::NoEnd),
    decreases lines.len(),
{
    assert((seq![before] + lines).skip(1) =~= lines);
    let (long, short) = (lines.push(end) + after, lines.push(end));
    if lines.len() > 0 && !text::occurs(end_marker(), lines[0]) {
        assert(long.skip(1) =~= lines.skip(1).push(end) + after);
        assert(short.skip(1) =~= lines.skip(1).push(end));
        if let Ok(t) = with_line(s, patterns::captured(settings_pattern(), lines[0])) {
            settings_between_markers(before, lines.skip(1), end, after, t);
        }
    }
}

fn take_bytes(s: &Vec<u8>, n: usize) -> (r: Vec<u8>)
    ensures
        r@ == (if s@.len() > n {
            s@.take(n as int)
        } else {
            s@
        }),
{
    let mut r: Vec<u8> = Vec::new();
    let mut i: usize = 0;
    while i < s.len() && i < n
        invariant
            i <= s.len(),
            i <= n,
            r@ =~= s@.take(i as int),
        decreases s.len() - i,
    {
        r.push(s[i]);
        i += 1;
    }
    assert(s@.len() <= n ==> r@ =~= s@);
    r
}

/// The extension of a path, if it has one.
pub open spec fn extension_of(p: Seq<Seq<u8>>) -> Option<Seq<u8>> {
    match operations::name_of(p) {
        Some(name) => if names::stem_len(name) < name.len() {
            Some(name.skip(names::stem_len(name) as int + 1))
        } else {
            None
        },
        None => None,
    }
}

/// The extension of a path, if it has one.
pub fn extension(p: &FilePath) -> (r: Option<Vec<u8>>)
    ensures
        r is Some <==> extension_of(p@) is Some,
        r matches Some(e) ==> Some(e@) == extension_of(p@),
{
    match p.file_name() {
        Some(name) => {
            let n: usize = file_stem_len(&name);
            if n >= name.len() {
                return None;
            }
            let mut r: Vec<u8> = Vec::new();
            let mut i: usize = n + 1;
            while i < name.len()
                invariant
                    n < i <= name.len(),
                    r@ =~= name@.subrange(n + 1, i as int),
                decreases name.len() - i,
            {
                r.push(name[i]);
                i += 1;
            }
            assert(r@ =~= name@.skip(n + 1));
            Some(r)
        },
        None => None,
    }
}

/// Whether one of the texts has these bytes.
pub open spec fn some_equal(texts: Seq<Seq<char>>, bytes: Seq<u8>) -> bool {
    exists|i: int| 0 <= i < texts.len() && encode_utf8(#[trigger] texts[i]) == bytes
}

fn any_equal(texts: &Vec<String>, bytes: &Vec<u8>) -> (r: bool)
    ensures
        r == some_equal(text::texts(texts@), bytes@),
{
    let ghost v = text::texts(texts@);
    let mut i: usize = 0;
    while i < texts.len()
        invariant
            v == text::texts(texts@),
            i <= texts.len(),
            forall|k: int| 0 <= k < i ==> encode_utf8(#[trigger] v[k]) != bytes@,
        decreases texts.len() - i,
    {
        if equal_bytes(&texts[i].as_str().as_bytes_vec(), bytes) {
            assert(encode_utf8(v[i as int]) == bytes@);
            return true;
        }
        i += 1;
    }
    false
}

/// Whether a text starts with one of the others.
pub open spec fn some_begins(prefixes: Seq<Seq<char>>, s: Seq<char>) -> bool {
    exists|i: int| 0 <= i < prefixes.len() && strings::begins(s, #[trigger] prefixes[i])
}

fn any_begins(prefixes: &Vec<String>, s: &str) -> (r: bool)
    ensures
        r == some_begins(text::texts(prefixes@), s@),
{
    let ghost v = text::texts(prefixes@);
    let mut i: usize = 0;
    while i < prefixes.len()
        invariant
            v == text::texts(prefixes@),
            i <= prefixes.len(),
            forall|k: int| 0 <= k < i ==> !strings::begins(s@, #[trigger] v[k]),
        decreases prefixes.len() - i,
    {
        if begins_with(s, prefixes[i].as_str()) {
            assert(strings::begins(s@, v[i as int]));
            return true;
        }
        i += 1;
    }
    false
}

impl SettingsView {
    pub open spec fn spec_permissive(self) -> bool {
        self.directories && self.files && self.mimetypes is None && self.extensions is None
            && self.regex is None
    }

    pub open spec fn spec_rejects_count(self, count: nat) -> bool {
        match self.multiple {
            Multiple::True => false,
            Multiple::False => count > 1,
            Multiple::Required => count < 2,
        }
    }

    pub open spec fn spec_rejects_extension(self, p: Seq<Seq<u8>>) -> bool {
        match self.extensions {
            None => false,
            Some(exts) => match extension_of(p) {
                None => true,
                Some(e) => !some_equal(exts, e),
            },
        }
    }

    pub open spec fn spec_rejects_mime(self, mime: Seq<char>) -> bool {
        match self.mimetypes {
            None => false,
            Some(mimes) => !some_begins(mimes, mime),
        }
    }

    /// Whether an item is rejected, where `matched` says whether its path
    /// matches the pattern. A file needs to meet either the extensions or the
    /// mime types, if there are both.
    pub open spec fn spec_rejects(self, e: &Entry, matched: bool) -> bool {
        let dir = e.kind is Directory;
        let by_ext = self.spec_rejects_extension(e.abs_path@);
        let by_mime = self.spec_rejects_mime(e.mime@);
        ||| (!self.files && !dir)
        ||| (!self.directories && dir)
        ||| (!dir && ((by_ext && by_mime) || (by_ext && self.mimetypes is None) || (by_mime
            && self.extensions is None)))
        ||| (self.regex is Some && !matched)
    }

    /// Whether the path of an item matches the pattern.
    pub open spec fn path_matches(self, p: Seq<Seq<u8>>) -> bool {
        match self.regex {
            Some(r) => patterns::pattern_matches(r, path::path_bytes(p)),
            None => true,
        }
    }

    pub open spec fn spec_accepts_parent(self, p: Seq<Seq<u8>>) -> bool {
        self.directories && self.path_matches(p)
    }

    /// The same settings for any number of items.
    pub open spec fn for_any_number(self) -> SettingsView {
        SettingsView { multiple: Multiple::True, ..self }
    }

    /// The same settings for files of any extension and type.
    pub open spec fn without_lists(self) -> SettingsView {
        SettingsView { extensions: None, mimetypes: None, ..self }
    }

    /// Whether the action is offered for the items, or for the directory if
    /// there are none.
    pub open spec fn spec_offered(self, entries: Seq<&Entry>, dir: Seq<Seq<u8>>) -> bool {
        &&& !self.spec_rejects_count(entries.len())
        &&& if self.spec_permissive() {
            true
        } else if entries.len() == 0 {
            self.spec_accepts_parent(dir)
        } else {
            forall|i: int|
                0 <= i < entries.len() ==> !self.spec_rejects(
                    #[trigger] entries[i],
                    self.path_matches(entries[i].abs_path@),
                )
        }
    }
}

/// An action without restrictions rejects nothing, so that nothing needs to be
/// looked at for it.
pub proof fn permissive_rejects_nothing(s: SettingsView, e: &Entry)
    requires
        s.spec_permissive(),
    ensures
        !s.spec_rejects(e, s.path_matches(e.abs_path@)),
        s.spec_accepts_parent(e.abs_path@),
{
}

/// An action that is offered rejects none of the items: each is a file or a directory
/// as the action takes them, its path matches the pattern, and a file has one of the
/// extensions or begins with one of the types, if any are listed.
pub proof fn offered_rejects_none(
    s: SettingsView,
    entries: Seq<&Entry>,
    dir: Seq<Seq<u8>>,
    i: int,
)
    requires
        s.spec_offered(entries, dir),
        0 <= i < entries.len(),
    ensures
        !s.spec_rejects(entries[i], s.path_matches(entries[i].abs_path@)),
        entries[i].kind is Directory ==> s.directories,
        !(entries[i].kind is Directory) ==> s.files,
        s.regex matches Some(r) ==> patterns::pattern_matches(
            r,
            path::path_bytes(entries[i].abs_path@),
        ),
        !(entries[i].kind is Directory) && (s.extensions is Some || s.mimetypes is Some) ==> {
            ||| s.extensions matches Some(exts) && extension_of(entries[i].abs_path@) matches Some(
                ext,
            ) && exists|k: int| 0 <= k < exts.len() && encode_utf8(#[trigger] exts[k]) == ext
            ||| s.mimetypes matches Some(mimes) && exists|k: int|
                0 <= k < mimes.len() && (#[trigger] mimes[k]).is_prefix_of(entries[i].mime@)
        },
{
    if let Some(mimes) = s.mimetypes {
        if some_begins(mimes, entries[i].mime@) {
            let k = choose|k: int|
                0 <= k < mimes.len() && strings::begins(entries[i].mime@, #[trigger] mimes[k]);
            assert(mimes[k].is_prefix_of(entries[i].mime@));
        }
    }
}

/// Whether an action is offered for a selection is decided by the number of its items
/// and by each of them alone.
pub proof fn offered_item_by_item(s: SettingsView, entries: Seq<&Entry>, dir: Seq<Seq<u8>>)
    requires
        entries.len() > 0,
    ensures
        s.spec_offered(entries, dir) <==> {
            &&& s.multiple is False ==> entries.len() == 1
            &&& s.multiple is Required ==> entries.len() > 1
            &&& forall|i: int|
                0 <= i < entries.len() ==> s.for_any_number().spec_offered(
                    seq![#[trigger] entries[i]],
                    dir,
                )
        },
{
    let alone = s.for_any_number();
    assert forall|i: int| 0 <= i < entries.len() && !s.spec_permissive() implies
        alone.spec_offered(seq![#[trigger] entries[i]], dir) == !s.spec_rejects(
        entries[i],
        s.path_matches(entries[i].abs_path@),
    ) by {
        let one = seq![entries[i]];
        assert(one[0] == entries[i]);
        let e = entries[i];
        assert(alone.spec_rejects(e, alone.path_matches(e.abs_path@)) == s.spec_rejects(
            e,
            s.path_matches(e.abs_path@),
        ));
    }
}

/// What an action without lists takes: files or directories as it says, whose paths
/// match its pattern if it has one.
pub proof fn offered_where_nothing_rejects(
    s: SettingsView,
    entries: Seq<&Entry>,
    dir: Seq<Seq<u8>>,
)
    requires
        s.extensions is None,
        s.mimetypes is None,
        s.multiple is True,
        entries.len() > 0,
    ensures
        s.spec_offered(entries, dir) <==> forall|i: int|
            0 <= i < entries.len() ==> {
                &&& if (#[trigger] entries[i]).kind is Directory {
                    s.directories
                } else {
                    s.files
                }
                &&& s.regex matches Some(r) ==> patterns::pattern_matches(
                    r,
                    path::path_bytes(entries[i].abs_path@),
                )
            },
{
}

/// A file with a listed extension, or whose type begins with a listed one, is not
/// turned down for the other list. Lists do not matter to directories.
pub proof fn either_list_is_enough(s: SettingsView, e: &Entry, matched: bool)
    requires
        e.kind is Directory || (s.extensions matches Some(exts) && extension_of(
            e.abs_path@,
        ) matches Some(ext) && valid_utf8(ext) && exts.contains(decode_utf8(ext))) || (
        s.mimetypes matches Some(mimes) && exists|k: int|
            0 <= k < mimes.len() && (#[trigger] mimes[k]).is_prefix_of(e.mime@)),
    ensures
        s.spec_rejects(e, matched) == s.without_lists().spec_rejects(e, matched),
{
    if let Some(exts) = s.extensions {
        if let Some(ext) = extension_of(e.abs_path@) {
            if valid_utf8(ext) && exts.contains(decode_utf8(ext)) {
                let k = exts.index_of(decode_utf8(ext));
                decode_utf8_encode_utf8(ext);
                assert(encode_utf8(exts[k]) == ext);
            }
        }
    }
    if let Some(mimes) = s.mimetypes {
        if exists|k: int| 0 <= k < mimes.len() && (#[trigger] mimes[k]).is_prefix_of(e.mime@) {
            let k = choose|k: int|
                0 <= k < mimes.len() && (#[trigger] mimes[k]).is_prefix_of(e.mime@);
            assert(e.mime@.take(mimes[k].len() as int) =~= mimes[k]);
            assert(strings::begins(e.mime@, mimes[k]));
        }
    }
}

/// With nothing selected an action is offered for the directory itself, which it has
/// to take as it would any other, and never if it needs more than one item.
pub proof fn offered_for_the_directory(s: SettingsView, dir: Seq<Seq<u8>>)
    ensures
        s.spec_offered(Seq::empty(), dir) <==> {
            &&& !(s.multiple is Required)
            &&& s.directories
            &&& s.regex matches Some(r) ==> patterns::pattern_matches(r, path::path_bytes(dir))
        },
{
}

/// Whether an action is offered does not depend on the order of the selection.
pub proof fn order_of_the_selection(
    s: SettingsView,
    a: Seq<&Entry>,
    b: Seq<&Entry>,
    dir: Seq<Seq<u8>>,
)
    requires
        a.to_multiset() == b.to_multiset(),
    ensures
        s.spec_offered(a, dir) == s.spec_offered(b, dir),
{
    a.to_multiset_ensures();
    b.to_multiset_ensures();
    assert(a.len() == b.len());
    assert forall|i: int| 0 <= i < a.len() implies b.contains(#[trigger] a[i]) by {
        assert(a.contains(a[i]));
        assert(a.to_multiset().count(a[i]) > 0);
    }
    assert forall|i: int| 0 <= i < b.len() implies a.contains(#[trigger] b[i]) by {
        assert(b.contains(b[i]));
        assert(b.to_multiset().count(b[i]) > 0);
    }
    if s.spec_offered(a, dir) && !s.spec_permissive() && b.len() > 0 {
        assert forall|i: int| 0 <= i < b.len() implies !s.spec_rejects(
            #[trigger] b[i],
            s.path_matches(b[i].abs_path@),
        ) by {
            let k = a.index_of(b[i]);
            assert(a[k] == b[i]);
        }
    }
    if s.spec_offered(b, dir) && !s.spec_permissive() && a.len() > 0 {
        assert forall|i: int| 0 <= i < a.len() implies !s.spec_rejects(
            #[trigger] a[i],
            s.path_matches(a[i].abs_path@),
        ) by {
            let k = b.index_of(a[i]);
            assert(b[k] == a[i]);
        }
    }
}

impl ActionSettings {
    fn defaults() -> (r: ActionSettings)
        ensures
            r@ == default_settings(),
    {
        ActionSettings {
            name: None,
            directories: true,
            files: true,
            mimetypes: None,
            extensions: None,
            regex: None,
            multiple: Multiple::True,
            priority: 0,
        }
    }

    /// Sets `key` to `rest`. `compiled` says whether `rest` is a well-formed
    /// pattern.
    pub fn set(&mut self, key: &Vec<u8>, rest: String, compiled: bool) -> (r: Option<ActionError>)
        ensures
            match with_setting(old(self)@, key@, rest@, compiled) {
                Ok(s) => r is None && final(self)@ == s,
                Err(e) => r == Some(e) && final(self)@ == old(self)@,
            },
    {
        if rest.as_str().unicode_len() == 0 {
            return None;
        }
        if equal_bytes(key, &"name".as_bytes_vec()) {
            self.name = Some(rest);
            return None;
        }
        if equal_bytes(key, &"directories".as_bytes_vec()) {
            return match parse_bool(rest.as_str()) {
                Some(b) => {
                    self.directories = b;
                    None
                },
                None => Some(ActionError::BadValue),
            };
        }
        if equal_bytes(key, &"files".as_bytes_vec()) {
            return match parse_bool(rest.as_str()) {
                Some(b) => {
                    self.files = b;
                    None
                },
                None => Some(ActionError::BadValue),
            };
        }
        if equal_bytes(key, &"mimetypes".as_bytes_vec()) {
            let inner = trim(rest.as_str(), Strip::Only(';'));
            self.mimetypes = Some(split_text(inner.as_str(), ';'));
            return None;
        }
        if equal_bytes(key, &"extensions".as_bytes_vec()) {
            self.extensions = Some(split_text(rest.as_str(), ';'));
            return None;
        }
        if equal_bytes(key, &"regex".as_bytes_vec()) {
            if !compiled {
                return Some(ActionError::BadRegex);
            }
            self.regex = Some(rest);
            return None;
        }
        if equal_bytes(key, &"multiple".as_bytes_vec()) {
            return match Multiple::parse(rest.as_str()) {
                Some(m) => {
                    self.multiple = m;
                    None
                },
                None => Some(ActionError::BadValue),
            };
        }
        if equal_bytes(key, &"priority".as_bytes_vec()) {
            return match parse_i32(rest.as_str()) {
                Some(n) => {
                    self.priority = n;
                    None
                },
                None => Some(ActionError::BadValue),
            };
        }
        None
    }

    fn read_line(&mut self, line: &Vec<u8>) -> (r: Option<ActionError>)
        ensures
            match with_line(old(self)@, patterns::captured(settings_pattern(), line@)) {
                Ok(s) => r is None && final(self)@ == s,
                Err(e) => r == Some(e) && final(self)@ == old(self)@,
            },
    {
        match captures(
            r"(name|directories|files|mimetypes|extensions|regex|multiple|priority)=(.*)$",
            line,
        ) {
            Some(groups) => {
                let ghost v = patterns::group_views(groups@);
                if groups.len() != 3 {
                    return None;
                }
                assert(v[1] == match groups@[1] {
                    Some(x) => Some(x@),
                    None => None,
                });
                assert(v[2] == match groups@[2] {
                    Some(x) => Some(x@),
                    None => None,
                });
                match (&groups[1], &groups[2]) {
                    (Some(key), Some(value)) => {
                        let rest = trim(lossy_text(value).as_str(), Strip::Space);
                        let compiled = is_pattern(rest.as_str());
                        self.set(key, rest, compiled)
                    },
                    _ => None,
                }
            },
            None => None,
        }
    }

    /// Reads the settings in a script.
    pub fn parse(contents: &Vec<u8>) -> (r: Result<ActionSettings, ActionError>)
        ensures
            match script_settings(script_lines(contents@)) {
                Ok(s) => r matches Ok(settings) && settings@ == s,
                Err(e) => r == Err::<ActionSettings, ActionError>(e),
            },
    {
        let part = take_bytes(contents, MAX_ACTION_BYTES);
        let all = lines(&lossy_text(&part).as_str().as_bytes_vec());
        let ghost spec_lines = script_lines(contents@);
        let begin = "**aw-fm-settings-begin**".as_bytes_vec();
        let end = "**aw-fm-settings-end**".as_bytes_vec();
        let mut i: usize = 0;
        assert(spec_lines.skip(0) =~= spec_lines);
        loop
            invariant_except_break
                text::views(all@) == spec_lines,
                begin@ == begin_marker(),
                i <= all.len(),
                script_settings(spec_lines) == script_settings(spec_lines.skip(i as int)),
            invariant
                spec_lines == script_lines(contents@),
            ensures
                text::views(all@) == spec_lines,
                i <= all.len(),
                script_settings(spec_lines) == read_settings(
                    spec_lines.skip(i as int),
                    default_settings(),
                ),
            decreases all.len() - i,
        {
            if i >= all.len() {
                assert(spec_lines.skip(i as int).len() == 0);
                return Err(ActionError::NoBegin);
            }
            assert(spec_lines[i as int] == all@[i as int]@);
            let start = take_bytes(&all[i], BEGIN_WITHIN);
            proof {
                assert(spec_lines.skip(i as int)[0] == all@[i as int]@);
                assert(spec_lines.skip(i as int).skip(1) =~= spec_lines.skip(i + 1));
                assert(all@[i as int]@.take(all@[i as int]@.len() as int) =~= all@[i as int]@);
            }
            i += 1;
            if contains_bytes(&start, &begin) {
                break;
            }
        }
        let mut settings = ActionSettings::defaults();
        while i < all.len()
            invariant
                spec_lines == script_lines(contents@),
                text::views(all@) == spec_lines,
                end@ == end_marker(),
                i <= all.len(),
                script_settings(spec_lines) == read_settings(
                    spec_lines.skip(i as int),
                    settings@,
                ),
            decreases all.len() - i,
        {
            proof {
                assert(spec_lines[i as int] == all@[i as int]@);
                assert(spec_lines.skip(i as int)[0] == all@[i as int]@);
                assert(spec_lines.skip(i as int).skip(1) =~= spec_lines.skip(i + 1));
            }
            if contains_bytes(&all[i], &end) {
                return Ok(settings);
            }
            match settings.read_line(&all[i]) {
                Some(e) => {
                    return Err(e);
                },
                None => {},
            }
            i += 1;
        }
        assert(spec_lines.skip(i as int).len() == 0);
        Err(ActionError::NoEnd)
    }

    /// Whether no item needs to be looked at. The number of items is another
    /// matter.
    pub fn permissive(&self) -> (r: bool)
        ensures
            r == self@.spec_permissive(),
    {
        self.directories && self.files && self.mimetypes.is_none() && self.extensions.is_none()
            && self.regex.is_none()
    }

    /// Whether the action does not take so many items.
    pub fn rejects_count(&self, count: usize) -> (r: bool)
        ensures
            r == self@.spec_rejects_count(count as nat),
    {
        match self.multiple {
            Multiple::True => false,
            Multiple::False => count > 1,
            Multiple::Required => count < 2,
        }
    }

    /// Whether a file has none of the extensions.
    pub fn rejects_extension(&self, file: &FilePath) -> (r: bool)
        ensures
            r == self@.spec_rejects_extension(file@),
    {
        match &self.extensions {
            None => false,
            Some(exts) => match extension(file) {
                None => true,
                Some(e) => !any_equal(exts, &e),
            },
        }
    }

    /// Whether a mime type starts with none of the mime types.
    pub fn rejects_mime(&self, mime: &str) -> (r: bool)
        ensures
            r == self@.spec_rejects_mime(mime@),
    {
        match &self.mimetypes {
            None => false,
            Some(mimes) => !any_begins(mimes, mime),
        }
    }

    /// Whether an item is rejected, where `matched` says whether its path
    /// matches the pattern.
    pub fn rejects_with(&self, entry: &Entry, matched: bool) -> (r: bool)
        ensures
            r == self@.spec_rejects(entry, matched),
    {
        let dir = entry.dir();
        if (!self.files && !dir) || (!self.directories && dir) {
            return true;
        }
        if !dir {
            let by_ext = self.rejects_extension(&entry.abs_path);
            let by_mime = self.rejects_mime(entry.mime.as_str());
            if (by_ext && by_mime) || (by_ext && self.mimetypes.is_none()) || (by_mime
                && self.extensions.is_none()) {
                return true;
            }
        }
        self.regex.is_some() && !matched
    }

    fn matches_path(&self, p: &FilePath) -> (r: bool)
        ensures
            r == self@.path_matches(p@),
    {
        match &self.regex {
            Some(pattern) => is_match(pattern.as_str(), &p.to_bytes()),
            None => true,
        }
    }

    /// Whether an item is rejected.
    pub fn rejects(&self, entry: &Entry) -> (r: bool)
        ensures
            r == self@.spec_rejects(entry, self@.path_matches(entry.abs_path@)),
    {
        let matched = self.matches_path(&entry.abs_path);
        self.rejects_with(entry, matched)
    }

    /// Whether the action applies to a directory in which nothing is selected.
    pub fn accepts_parent_dir(&self, dir: &FilePath) -> (r: bool)
        ensures
            r == self@.spec_accepts_parent(dir@),
    {
        self.directories && self.matches_path(dir)
    }

    /// Whether the action is offered for the items, or for the directory if
    /// there are none.
    pub fn offered(&self, entries: &Vec<&Entry>, dir: &FilePath) -> (r: bool)
        ensures
            r == self@.spec_offered(entries@, dir@),
    {
        if self.rejects_count(entries.len()) {
            return false;
        }
        if self.permissive() {
            return true;
        }
        if entries.len() == 0 {
            return self.accepts_parent_dir(dir);
        }
        let mut i: usize = 0;
        while i < entries.len()
            invariant
                i <= entries.len(),
                entries@.len() > 0,
                !self@.spec_rejects_count(entries@.len()),
                !self@.spec_permissive(),
                forall|k: int|
                    0 <= k < i ==> !self@.spec_rejects(
                        #[trigger] entries@[k],
                        self@.path_matches(entries@[k].abs_path@),
                    ),
            decreases entries.len() - i,
        {
            if self.rejects(entries[i]) {
                assert(self@.spec_rejects(
                    entries@[i as int],
                    self@.path_matches(entries@[i as int].abs_path@),
                ));
                return false;
            }
            i += 1;
        }
        true
    }
}

/// A script and its settings.
pub struct CustomAction {
    pub path: FilePath,
    pub settings: ActionSettings,
}

/// How the names of two actions compare: one without a name comes first.
pub open spec fn name_order(a: Option<Seq<char>>, b: Option<Seq<char>>) -> Order {
    match (a, b) {
        (None, None) => Order::Equal,
        (None, Some(_)) => Order::Less,
        (Some(_), None) => Order::Greater,
        (Some(x), Some(y)) => order::byte_order(encode_utf8(x), encode_utf8(y)),
    }
}

/// How two actions compare: by priority, then by name, then by path.
pub open spec fn action_order(a: &CustomAction, b: &CustomAction) -> Order {
    order::int_order(a.settings@.priority, b.settings@.priority).spec_chain(
        name_order(a.settings@.name, b.settings@.name),
    ).spec_chain(order::parts_order(a.path@, b.path@))
}

proof fn name_order_laws(a: Option<Seq<char>>, b: Option<Seq<char>>, c: Option<Seq<char>>)
    ensures
        name_order(b, a) == name_order(a, b).spec_reverse(),
        !(name_order(a, b) is Greater) && !(name_order(b, c) is Greater) ==> !(name_order(
            a,
            c,
        ) is Greater) && (name_order(a, c) is Equal ==> name_order(a, b) is Equal && name_order(
            b,
            c,
        ) is Equal),
{
    match (a, b, c) {
        (Some(x), Some(y), Some(z)) => {
            order::byte_order_antisymmetric(encode_utf8(x), encode_utf8(y));
            if !(name_order(a, b) is Greater) && !(name_order(b, c) is Greater) {
                order::byte_order_transitive(encode_utf8(x), encode_utf8(y), encode_utf8(z));
            }
        },
        (Some(x), Some(y), None) => {
            order::byte_order_antisymmetric(encode_utf8(x), encode_utf8(y));
        },
        _ => {},
    }
}

/// Comparing actions is antisymmetric and transitive, so that there is one way
/// to sort them.
pub proof fn action_order_laws(a: &CustomAction, b: &CustomAction, c: &CustomAction)
    ensures
        action_order(b, a) == action_order(a, b).spec_reverse(),
        !(action_order(a, b) is Greater) && !(action_order(b, c) is Greater) ==> !(action_order(
            a,
            c,
        ) is Greater),
{
    name_order_laws(a.settings@.name, b.settings@.name, c.settings@.name);
    order::parts_order_antisymmetric(a.path@, b.path@);
    if !(order::parts_order(a.path@, b.path@) is Greater) && !(order::parts_order(
        b.path@,
        c.path@,
    ) is Greater) {
        order::parts_order_transitive(a.path@, b.path@, c.path@);
    }
}

/// Whether actions are in the order of the menu.
pub open spec fn sorted_actions(v: Seq<CustomAction>) -> bool {
    forall|i: int, j: int|
        0 <= i < j < v.len() ==> !(action_order(#[trigger] &v[i], #[trigger] &v[j]) is Greater)
}

impl CustomAction {
    /// Whether a file can be run by anyone.
    pub fn executable(mode: u32) -> (r: bool)
        ensures
            r == (mode & 0o111 != 0),
    {
        mode & 0o111 != 0
    }

    /// The action for a file that was read. A file that is not a regular one, or
    /// that nobody can run, is none.
    pub fn create(path: FilePath, regular: bool, mode: u32, contents: &Vec<u8>) -> (r: Result<
        Option<CustomAction>,
        ActionError,
    >)
        ensures
            if !regular || mode & 0o111 == 0 {
                r == Ok::<Option<CustomAction>, ActionError>(None)
            } else {
                match script_settings(script_lines(contents@)) {
                    Ok(s) => r matches Ok(Some(a)) && a.path == path && a.settings@ == s,
                    Err(e) => r == Err::<Option<CustomAction>, ActionError>(e),
                }
            },
    {
        if !regular || !CustomAction::executable(mode) {
            return Ok(None);
        }
        match ActionSettings::parse(contents) {
            Ok(settings) => Ok(Some(CustomAction { path, settings })),
            Err(e) => Err(e),
        }
    }

    /// How two actions compare.
    pub fn compare(&self, other: &CustomAction) -> (r: Order)
        ensures
            r == action_order(self, other),
    {
        let by_priority = if self.settings.priority < other.settings.priority {
            Order::Less
        } else if self.settings.priority > other.settings.priority {
            Order::Greater
        } else {
            Order::Equal
        };
        let by_name = match (&self.settings.name, &other.settings.name) {
            (None, None) => Order::Equal,
            (None, Some(_)) => Order::Less,
            (Some(_), None) => Order::Greater,
            (Some(x), Some(y)) => compare_texts(x.as_str(), y.as_str()),
        };
        by_priority.chain(by_name).chain(self.path.compare(&other.path))
    }

    /// What the action is called: by its name, or else by that of its file.
    pub open spec fn spec_display_name(&self) -> Seq<char> {
        match self.settings@.name {
            Some(n) => n,
            None => strings::lossy(
                match operations::name_of(self.path@) {
                    Some(n) => n,
                    None => path::path_bytes(self.path@),
                },
            ),
        }
    }

    pub fn display_name(&self) -> (r: String)
        ensures
            r@ == self.spec_display_name(),
    {
        match &self.settings.name {
            Some(n) => n.clone(),
            None => match self.path.file_name() {
                Some(n) => lossy_text(&n),
                None => lossy_text(&self.path.to_bytes()),
            },
        }
    }
}

/// Sorts actions for the menu.
pub fn sort_actions(actions: Vec<CustomAction>) -> (r: Vec<CustomAction>)
    ensures
        r@.to_multiset() == actions@.to_multiset(),
        sorted_actions(r@),
{
    let mut rest = actions;
    let mut r: Vec<CustomAction> = Vec::new();
    let ghost all = actions@;
    broadcast use vstd::seq_lib::group_to_multiset_ensures;

    assert(r@.to_multiset() =~= vstd::multiset::Multiset::empty());
    loop
        invariant
            sorted_actions(r@),
            rest@.to_multiset().add(r@.to_multiset()) == all.to_multiset(),
            all == actions@,
        decreases rest@.len(),
    {
        let ghost left = rest@;
        match rest.pop() {
            None => {
                proof {
                    lemma_empty(rest@);
                    assert(r@.to_multiset() =~= all.to_multiset());
                }
                return r;
            },
            Some(a) => {
                let mut p: usize = 0;
                while p < r.len() && !matches!(r[p].compare(&a), Order::Greater)
                    invariant
                        p <= r.len(),
                        forall|k: int| 0 <= k < p ==> !(action_order(#[trigger] &r@[k], &a) is Greater),
                    decreases r.len() - p,
                {
                    p += 1;
                }
                let ghost before = r@;
                proof {
                    insert_sorted(before, a, p as int);
                    lemma_pop(left);
                    lemma_insert(before, p as int, a);
                    assert(left.drop_last().to_multiset().add(before.to_multiset().insert(a))
                        =~= left.to_multiset().add(before.to_multiset()));
                }
                r.insert(p, a);
                assert(rest@ =~= left.drop_last());
            },
        }
    }
}

proof fn lemma_empty(v: Seq<CustomAction>)
    requires
        v.len() == 0,
    ensures
        v.to_multiset() == vstd::multiset::Multiset::<CustomAction>::empty(),
{
    broadcast use vstd::seq_lib::group_to_multiset_ensures;

    assert(v.to_multiset() =~= vstd::multiset::Multiset::<CustomAction>::empty());
}

proof fn lemma_pop(v: Seq<CustomAction>)
    requires
        v.len() > 0,
    ensures
        v.to_multiset() == v.drop_last().to_multiset().insert(v.last()),
{
    broadcast use vstd::seq_lib::group_to_multiset_ensures;

    assert(v =~= v.drop_last().push(v.last()));
}

proof fn lemma_insert(v: Seq<CustomAction>, p: int, a: CustomAction)
    requires
        0 <= p <= v.len(),
    ensures
        v.insert(p, a).to_multiset() == v.to_multiset().insert(a),
{
    broadcast use vstd::seq_lib::group_to_multiset_ensures;

}

proof fn insert_sorted(v: Seq<CustomAction>, a: CustomAction, p: int)
    requires
        sorted_actions(v),
        0 <= p <= v.len(),
        forall|k: int| 0 <= k < p ==> !(action_order(#[trigger] &v[k], &a) is Greater),
        p < v.len() ==> action_order(&v[p], &a) is Greater,
    ensures
        sorted_actions(v.insert(p, a)),
{
    let w = v.insert(p, a);
    assert forall|i: int, j: int| 0 <= i < j < w.len() implies !(action_order(
        #[trigger] &w[i],
        #[trigger] &w[j],
    ) is Greater) by {
        if i == p {
            let x = v[j - 1];
            action_order_laws(&v[p], &a, &a);
            if j - 1 > p {
                action_order_laws(&a, &v[p], &x);
            }
        } else {
            let x = if i < p {
                v[i]
            } else {
                v[i - 1]
            };
            if j != p {
                let y = if j < p {
                    v[j]
                } else {
                    v[j - 1]
                };
                assert(!(action_order(&x, &y) is Greater));
            }
        }
    }
}

/// Actions come in the order of their priorities, the lowest first. Of the same
/// priority those without a name come first, and then those with lesser names.
pub proof fn priorities_come_first(a: &CustomAction, b: &CustomAction)
    ensures
        a.settings@.priority < b.settings@.priority ==> action_order(a, b) is Less,
        a.settings@.priority > b.settings@.priority ==> action_order(a, b) is Greater,
        a.settings@.priority == b.settings@.priority ==> {
            &&& a.settings@.name is None && b.settings@.name is Some ==> action_order(a, b) is Less
            &&& a.settings@.name matches Some(x) ==> (b.settings@.name matches Some(y) ==> (
            order::byte_order(encode_utf8(x), encode_utf8(y)) is Less ==> action_order(a, b)
                is Less))
            &&& a.settings@.name == b.settings@.name ==> action_order(a, b) == order::parts_order(
                a.path@,
                b.path@,
            )
        },
{
    if let Some(x) = a.settings@.name {
        order::byte_order_antisymmetric(encode_utf8(x), encode_utf8(x));
    }
}

/// An action is called by the name that it was given.
pub proof fn called_by_its_name(a: &CustomAction, dir: Seq<Seq<u8>>, name: Seq<u8>)
    ensures
        a.settings@.name matches Some(n) ==> a.spec_display_name() == n,
        a.settings@.name is None && a.path@ == dir.push(name) && name != seq![46u8, 46u8]
            ==> a.spec_display_name() == strings::lossy(name),
{
}

} // verus!
