//! What can be configured.
use vstd::prelude::*;
use vstd::string::*;

use crate::path::FilePath;
use crate::text::{self, chars_of, decimal_string, parse_number, same_text, text_of};

verus! {

/// What is given on the command line.
pub struct Opt {
    pub awconf: Option<Vec<u8>>,
    pub file_name: Option<Vec<u8>>,
}

/// A key that runs a command.
pub struct Shortcut {
    pub action: String,
    pub key: String,
    pub modifiers: Option<String>,
}

/// A button that runs a command.
pub struct Bookmark {
    pub action: String,
    pub name: String,
}

/// Where an entry of the context menu stands.
pub enum ContextMenuGroup {
    Section(String),
    Submenu(String),
}

/// An entry of the context menu.
pub struct ContextMenuEntry {
    pub action: String,
    pub name: String,
    pub group: Option<ContextMenuGroup>,
    pub selection: Selection,
}

/// A mouse button that runs a command.
pub struct MouseButtonAction {
    pub action: String,
    pub button: u32,
    pub modifiers: Option<String>,
}

/// What to do with a directory whose destination exists.
#[derive(Clone, Copy, Debug, PartialEq, Eq, Structural)]
pub enum DirectoryCollision {
    Ask,
    Merge,
    Skip,
}

impl Default for DirectoryCollision {
    fn default() -> (r: DirectoryCollision)
        ensures
            r == DirectoryCollision::Ask,
    {
        DirectoryCollision::Ask
    }
}

/// What to do with a file whose destination exists.
#[derive(Clone, Copy, Debug, PartialEq, Eq, Structural)]
pub enum FileCollision {
    Ask,
    Overwrite,
    Rename,
    Newer,
    Skip,
}

impl Default for FileCollision {
    fn default() -> (r: FileCollision)
        ensures
            r == FileCollision::Ask,
    {
        FileCollision::Ask
    }
}

/// Whether directories on NFS are polled.
#[derive(Clone, Copy, Debug, PartialEq, Eq, Structural)]
pub enum NfsPolling {
    Off,
    On,
    Both,
}

impl Default for NfsPolling {
    fn default() -> (r: NfsPolling)
        ensures
            r == NfsPolling::Off,
    {
        NfsPolling::Off
    }
}

/// How many items must be selected.
#[derive(Clone, Copy, Debug, PartialEq, Eq, Structural)]
pub enum Selection {
    Any,
    AtLeast(usize),
    AtMost(usize),
    NToM(usize, usize),
    Exactly(usize),
}

impl Default for Selection {
    fn default() -> (r: Selection)
        ensures
            r == Selection::Any,
    {
        Selection::Any
    }
}

/// The first position at or after `i` that holds `c`, or the length.
pub open spec fn next_index(s: Seq<char>, c: char, i: int) -> int
    decreases s.len() - i,
{
    if i >= s.len() {
        s.len() as int
    } else if s[i] == c {
        i
    } else {
        next_index(s, c, i + 1)
    }
}

proof fn next_index_bounds(s: Seq<char>, c: char, i: int)
    requires
        0 <= i <= s.len(),
    ensures
        i <= next_index(s, c, i) <= s.len(),
    decreases s.len() - i,
{
    if i < s.len() && s[i] != c {
        next_index_bounds(s, c, i + 1);
    }
}

fn find_next(s: &Vec<char>, c: char, from: usize) -> (r: usize)
    requires
        from <= s.len(),
    ensures
        r == next_index(s@, c, from as int),
        from <= r <= s.len(),
{
    proof {
        next_index_bounds(s@, c, from as int);
    }
    let mut i: usize = from;
    while i < s.len()
        invariant
            from <= i <= s.len(),
            next_index(s@, c, from as int) == next_index(s@, c, i as int),
        decreases s.len() - i,
    {
        if s[i] == c {
            return i;
        }
        i += 1;
    }
    i
}

/// The text cut at its first two underscores.
pub open spec fn pieces(s: Seq<char>) -> Seq<Seq<char>> {
    let a = next_index(s, '_', 0);
    let b = next_index(s, '_', a + 1);
    if a == s.len() {
        seq![s]
    } else if b == s.len() {
        seq![s.subrange(0, a), s.subrange(a + 1, s.len() as int)]
    } else {
        seq![s.subrange(0, a), s.subrange(a + 1, b), s.subrange(b + 1, s.len() as int)]
    }
}

/// The number that a text denotes.
pub open spec fn count_in(s: Seq<char>) -> Option<nat> {
    text::parsed_number(s, usize::MAX as nat)
}

pub open spec fn unparsed(value: Seq<char>) -> Seq<char> {
    "Unable to parse selection: "@ + value
}

pub open spec fn backwards(value: Seq<char>, n: nat, m: nat) -> Seq<char> {
    "Invalid selection specified: "@ + value + ", "@ + text::decimal(n) + " > "@ + text::decimal(m)
}

/// What a text says of the selection, or why it cannot be read.
pub open spec fn parsed_selection(value: Seq<char>) -> Result<Selection, Seq<char>> {
    let p = pieces(value);
    if value == "any"@ {
        Ok(Selection::AtLeast(0))
    } else if value == "zero"@ {
        Ok(Selection::Exactly(0))
    } else if value == "maybe_one"@ {
        Ok(Selection::AtMost(1))
    } else if value == "one"@ {
        Ok(Selection::Exactly(1))
    } else if value == "at_least_one"@ {
        Ok(Selection::AtLeast(1))
    } else if value == "multiple"@ {
        Ok(Selection::AtLeast(2))
    } else if p.len() == 3 && p[0] == "at"@ && p[1] == "least"@ {
        match count_in(p[2]) {
            Some(n) => Ok(Selection::AtLeast(n as usize)),
            None => Err(unparsed(value)),
        }
    } else if p.len() == 3 && p[0] == "at"@ && p[1] == "most"@ {
        match count_in(p[2]) {
            Some(n) => Ok(Selection::AtMost(n as usize)),
            None => Err(unparsed(value)),
        }
    } else if p.len() == 2 && p[0] == "exactly"@ {
        match count_in(p[1]) {
            Some(n) => Ok(Selection::Exactly(n as usize)),
            None => Err(unparsed(value)),
        }
    } else if p.len() == 3 && p[1] == "to"@ {
        match (count_in(p[0]), count_in(p[2])) {
            (Some(n), Some(m)) => if n > m {
                Err(backwards(value, n, m))
            } else {
                Ok(Selection::NToM(n as usize, m as usize))
            },
            _ => Err(unparsed(value)),
        }
    } else {
        Err(unparsed(value))
    }
}

fn parse_count(s: &Vec<char>, from: usize, to: usize) -> (r: Option<usize>)
    requires
        from <= to <= s.len(),
    ensures
        r is Some <==> count_in(s@.subrange(from as int, to as int)) is Some,
        r matches Some(n) ==> n == count_in(s@.subrange(from as int, to as int))->0,
{
    let part = chars_of(text_of(s, from, to).as_str());
    match parse_number(&part, usize::MAX as u64) {
        Some(n) => Some(n as usize),
        None => None,
    }
}

fn unparsed_text(value: &str) -> (r: String)
    ensures
        r@ == unparsed(value@),
{
    let mut r = "Unable to parse selection: ".to_owned();
    r.append(value);
    r
}

impl Selection {
    /// Parses what a text says of the selection.
    pub fn try_from(value: &str) -> (r: Result<Selection, String>)
        ensures
            match parsed_selection(value@) {
                Ok(s) => r == Ok::<Selection, String>(s),
                Err(e) => r matches Err(t) && t@ == e,
            },
    {
        if same_text(value, "any") {
            return Ok(Selection::AtLeast(0));
        }
        if same_text(value, "zero") {
            return Ok(Selection::Exactly(0));
        }
        if same_text(value, "maybe_one") {
            return Ok(Selection::AtMost(1));
        }
        if same_text(value, "one") {
            return Ok(Selection::Exactly(1));
        }
        if same_text(value, "at_least_one") {
            return Ok(Selection::AtLeast(1));
        }
        if same_text(value, "multiple") {
            return Ok(Selection::AtLeast(2));
        }
        let s = chars_of(value);
        let a: usize = find_next(&s, '_', 0);
        if a == s.len() {
            return Err(unparsed_text(value));
        }
        let first = text_of(&s, 0, a);
        let b: usize = find_next(&s, '_', a + 1);
        if b == s.len() {
            if same_text(first.as_str(), "exactly") {
                return match parse_count(&s, a + 1, b) {
                    Some(n) => Ok(Selection::Exactly(n)),
                    None => Err(unparsed_text(value)),
                };
            }
            return Err(unparsed_text(value));
        }
        let second = text_of(&s, a + 1, b);
        let last: Option<usize> = parse_count(&s, b + 1, s.len());
        let at = same_text(first.as_str(), "at");
        if at && same_text(second.as_str(), "least") {
            return match last {
                Some(n) => Ok(Selection::AtLeast(n)),
                None => Err(unparsed_text(value)),
            };
        }
        if at && same_text(second.as_str(), "most") {
            return match last {
                Some(n) => Ok(Selection::AtMost(n)),
                None => Err(unparsed_text(value)),
            };
        }
        if same_text(second.as_str(), "to") {
            return match (parse_count(&s, 0, a), last) {
                (Some(n), Some(m)) => {
                    if n > m {
                        let mut t = "Invalid selection specified: ".to_owned();
                        t.append(value);
                        t.append(", ");
                        t.append(decimal_string(n as u64).as_str());
                        t.append(" > ");
                        t.append(decimal_string(m as u64).as_str());
                        Err(t)
                    } else {
                        Ok(Selection::NToM(n, m))
                    }
                },
                _ => Err(unparsed_text(value)),
            };
        }
        Err(unparsed_text(value))
    }

    /// Whether so many selected items are what is asked for.
    pub open spec fn spec_accepts(self, n: nat) -> bool {
        match self {
            Selection::Any => true,
            Selection::AtLeast(least) => n >= least,
            Selection::AtMost(most) => n <= most,
            Selection::NToM(least, most) => least <= n <= most,
            Selection::Exactly(count) => n == count,
        }
    }

    pub fn accepts(self, n: usize) -> (r: bool)
        ensures
            r == self.spec_accepts(n as nat),
    {
        match self {
            Selection::Any => true,
            Selection::AtLeast(least) => n >= least,
            Selection::AtMost(most) => n <= most,
            Selection::NToM(least, most) => least <= n && n <= most,
            Selection::Exactly(count) => n == count,
        }
    }
}

/// The kinds of selections bound the number of items from below, from above, or both.
pub proof fn bounds_of_selections(a: usize, b: usize, n: nat)
    ensures
        Selection::AtLeast(a).spec_accepts(a as nat),
        Selection::AtLeast(a).spec_accepts(n) ==> Selection::AtLeast(a).spec_accepts(n + 1),
        n < a ==> !Selection::AtLeast(a).spec_accepts(n),
        Selection::AtMost(a).spec_accepts(n) <==> !Selection::AtLeast(a).spec_accepts(n) || n == a,
        Selection::NToM(a, b).spec_accepts(n) <==> Selection::AtLeast(a).spec_accepts(n)
            && Selection::AtMost(b).spec_accepts(n),
        Selection::Exactly(a).spec_accepts(n) <==> Selection::NToM(a, a).spec_accepts(n),
        Selection::Any.spec_accepts(n) && Selection::AtLeast(0).spec_accepts(n),
{
}

/// Every selection that can be parsed accepts some number of items.
pub proof fn parsed_selection_is_met(value: Seq<char>) -> (n: nat)
    ensures
        parsed_selection(value) matches Ok(s) ==> s.spec_accepts(n) && n <= usize::MAX,
{
    match parsed_selection(value) {
        Ok(Selection::AtLeast(n)) => n as nat,
        Ok(Selection::AtMost(n)) => n as nat,
        Ok(Selection::NToM(n, _)) => n as nat,
        Ok(Selection::Exactly(n)) => n as nat,
        _ => 0,
    }
}

/// An empty path stands for none.
pub fn empty_path_is_none(path: Vec<u8>) -> (r: Option<Vec<u8>>)
    ensures
        r == (if path@.len() == 0 {
            None
        } else {
            Some(path)
        }),
{
    if path.len() == 0 {
        None
    } else {
        Some(path)
    }
}

/// An empty text stands for none.
pub fn empty_string_is_none(text: String) -> (r: Option<String>)
    ensures
        r == (if text@.len() == 0 {
            None
        } else {
            Some(text)
        }),
{
    if text.as_str().unicode_len() == 0 {
        None
    } else {
        Some(text)
    }
}

/// Zero stands for none.
pub fn zero_is_none(n: u64) -> (r: Option<u64>)
    ensures
        r == (if n == 0 {
            None
        } else {
            Some(n)
        }),
{
    if n == 0 {
        None
    } else {
        Some(n)
    }
}

/// Where the actions are found: the configured directory, or else `actions` in
/// the program's directory among the user's configuration. There is none if
/// neither is known.
pub open spec fn actions_dir_parts(
    configured: Option<FilePath>,
    config: Option<FilePath>,
) -> Option<Seq<Seq<u8>>> {
    match (configured, config) {
        (Some(p), _) => Some(p@),
        (None, Some(c)) => Some(
            c@.push(vstd::utf8::encode_utf8("aw-fm"@)).push(vstd::utf8::encode_utf8("actions"@)),
        ),
        (None, None) => None,
    }
}

pub fn actions_dir(configured: Option<FilePath>, config: Option<FilePath>) -> (r: Option<FilePath>)
    ensures
        r is Some <==> actions_dir_parts(configured, config) is Some,
        r matches Some(p) ==> Some(p@) == actions_dir_parts(configured, config),
{
    match configured {
        Some(p) => Some(p),
        None => match config {
            Some(c) => Some(
                c.join_name(&"aw-fm".as_bytes_vec()).join_name(&"actions".as_bytes_vec()),
            ),
            None => None,
        },
    }
}

proof fn next_index_at(s: Seq<char>, c: char, from: int, at: int)
    requires
        0 <= from <= at <= s.len(),
        at < s.len() ==> s[at] == c,
        forall|i: int| from <= i < at ==> #[trigger] s[i] != c,
    ensures
        next_index(s, c, from) == at,
    decreases at - from,
{
    if from < at {
        next_index_at(s, c, from + 1, at);
    }
}

proof fn two_pieces(a: Seq<char>, b: Seq<char>)
    requires
        !a.contains('_'),
        !b.contains('_'),
    ensures
        pieces(a + seq!['_'] + b) == seq![a, b],
{
    let s = a + seq!['_'] + b;
    assert forall|i: int| 0 <= i < a.len() implies #[trigger] s[i] != '_' by {
        assert(a.contains(a[i]));
    }
    assert forall|i: int| a.len() < i < s.len() implies #[trigger] s[i] != '_' by {
        assert(b.contains(b[i - a.len() - 1]));
    }
    next_index_at(s, '_', 0, a.len() as int);
    next_index_at(s, '_', a.len() as int + 1, s.len() as int);
    assert(s.subrange(0, a.len() as int) =~= a);
    assert(s.subrange(a.len() as int + 1, s.len() as int) =~= b);
}

proof fn three_pieces(a: Seq<char>, b: Seq<char>, c: Seq<char>)
    requires
        !a.contains('_'),
        !b.contains('_'),
    ensures
        pieces(a + seq!['_'] + b + seq!['_'] + c) == seq![a, b, c],
{
    let s = a + seq!['_'] + b + seq!['_'] + c;
    let (x, y) = (a.len() as int, a.len() as int + 1 + b.len());
    assert forall|i: int| 0 <= i < x implies #[trigger] s[i] != '_' by {
        assert(a.contains(a[i]));
    }
    assert forall|i: int| x < i < y implies #[trigger] s[i] != '_' by {
        assert(b.contains(b[i - a.len() - 1]));
    }
    assert(s[x] == '_' && s[y] == '_');
    next_index_at(s, '_', 0, x);
    next_index_at(s, '_', x + 1, y);
    assert(s.subrange(0, x) =~= a);
    assert(s.subrange(x + 1, y) =~= b);
    assert(s.subrange(y + 1, s.len() as int) =~= c);
}

proof fn decimal_is_plain(n: nat)
    ensures
        !text::decimal(n).contains('_'),
        text::decimal(n).len() > 0,
        48 <= text::decimal(n)[0] as int <= 57,
{
    text::decimal_round_trip(n, n);
    let d = text::decimal(n);
    assert forall|i: int| 0 <= i < d.len() implies #[trigger] d[i] != '_' by {
        assert(text::is_digit(d[i]));
    }
    assert(text::is_digit(d[0]));
}

/// A selection that is configured with numbers takes exactly the numbers of items that
/// it names, and one whose first number is the greater is refused.
pub proof fn configured_numbers(n: usize, m: usize, count: nat)
    ensures
        parsed_selection("exactly"@ + seq!['_'] + text::decimal(n as nat)) matches Ok(s)
            && (s.spec_accepts(count) <==> count == n),
        parsed_selection(
            "at"@ + seq!['_'] + "least"@ + seq!['_'] + text::decimal(n as nat),
        ) matches Ok(s) && (s.spec_accepts(count) <==> count >= n),
        parsed_selection(
            "at"@ + seq!['_'] + "most"@ + seq!['_'] + text::decimal(n as nat),
        ) matches Ok(s) && (s.spec_accepts(count) <==> count <= n),
        n <= m ==> (parsed_selection(
            text::decimal(n as nat) + seq!['_'] + "to"@ + seq!['_'] + text::decimal(m as nat),
        ) matches Ok(s) && (s.spec_accepts(count) <==> n <= count <= m)),
        n > m ==> parsed_selection(
            text::decimal(n as nat) + seq!['_'] + "to"@ + seq!['_'] + text::decimal(m as nat),
        ) is Err,
{
    reveal_strlit("any");
    reveal_strlit("zero");
    reveal_strlit("maybe_one");
    reveal_strlit("one");
    reveal_strlit("at_least_one");
    reveal_strlit("multiple");
    reveal_strlit("at");
    reveal_strlit("least");
    reveal_strlit("most");
    reveal_strlit("exactly");
    reveal_strlit("to");
    let (x, y) = (text::decimal(n as nat), text::decimal(m as nat));
    decimal_is_plain(n as nat);
    decimal_is_plain(m as nat);
    text::decimal_round_trip(n as nat, usize::MAX as nat);
    text::decimal_round_trip(m as nat, usize::MAX as nat);
    assert(!"exactly"@.contains('_')) by {
        assert forall|i: int| 0 <= i < "exactly"@.len() implies #[trigger] "exactly"@[i] != '_' by {}
    }
    assert(!"at"@.contains('_')) by {
        assert forall|i: int| 0 <= i < "at"@.len() implies #[trigger] "at"@[i] != '_' by {}
    }
    assert(!"least"@.contains('_')) by {
        assert forall|i: int| 0 <= i < "least"@.len() implies #[trigger] "least"@[i] != '_' by {}
    }
    assert(!"most"@.contains('_')) by {
        assert forall|i: int| 0 <= i < "most"@.len() implies #[trigger] "most"@[i] != '_' by {}
    }
    assert(!"to"@.contains('_')) by {
        assert forall|i: int| 0 <= i < "to"@.len() implies #[trigger] "to"@[i] != '_' by {}
    }
    two_pieces("exactly"@, x);
    three_pieces("at"@, "least"@, x);
    three_pieces("at"@, "most"@, x);
    three_pieces(x, "to"@, y);
    assert("at"@.len() == 2 && "least"@.len() == 5 && "most"@.len() == 4 && "to"@.len() == 2);
    assert("exactly"@.len() == 7);
    assert("least"@ != "most"@ && "least"@ != "to"@ && "most"@ != "to"@);
    let e = "exactly"@ + seq!['_'] + x;
    let l = "at"@ + seq!['_'] + "least"@ + seq!['_'] + x;
    let t = "at"@ + seq!['_'] + "most"@ + seq!['_'] + x;
    let r = x + seq!['_'] + "to"@ + seq!['_'] + y;
    assert(e[0] == 'e' && e[7] == '_');
    assert(l[0] == 'a' && l[1] == 't' && l[9] == x[0]);
    assert(t[0] == 'a' && t[1] == 't' && t[3] == 'm');
    assert(r[0] == x[0]);
    assert("any"@[1] == 'n' && "any"@.len() == 3);
    assert("zero"@[0] == 'z' && "maybe_one"@[0] == 'm' && "one"@[0] == 'o');
    assert("at_least_one"@[9] == 'o' && "at_least_one"@[3] == 'l' && "at_least_one"@.len() == 12);
    assert("multiple"@[0] == 'm');
    assert(x != "exactly"@ && x != "at"@) by {
        assert("exactly"@[0] == 'e' && "at"@[0] == 'a');
    }
}

/// Actions are read from where it was configured, or else from the user's configuration.
pub proof fn where_actions_are(p: FilePath, config: Option<FilePath>, c: FilePath)
    ensures
        actions_dir_parts(Some(p), config) == Some(p@),
        actions_dir_parts(None, None) is None,
        actions_dir_parts(None, Some(c)) matches Some(d) && c@.is_prefix_of(d) && d.len()
            == c@.len() + 2,
{
    let d = actions_dir_parts(None, Some(c))->0;
    assert(d.take(c@.len() as int) =~= c@);
}

} // verus!
