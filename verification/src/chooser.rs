//! Choosing files for other programs.
use std::sync::Arc;

use vstd::prelude::*;
use vstd::string::*;
use vstd::utf8::*;

use crate::entry::Entry;
use crate::path::{self, FilePath};
use crate::strings::{self, lossy_text};
use crate::text::{self, chars_of, join_bytes, same_text};

verus! {

/// What another program asks for.
pub enum ChooserCommand {
    OpenFile { directory: bool, multiple: bool },
    SaveFile { name: Option<FilePath>, file: Option<FilePath> },
    SaveFiles,
}

impl ChooserCommand {
    pub open spec fn spec_open_dir(&self) -> bool {
        *self matches ChooserCommand::OpenFile { directory, .. } && directory
    }

    /// Whether directories are chosen.
    pub fn open_dir(&self) -> (r: bool)
        ensures
            r == self.spec_open_dir(),
    {
        if let ChooserCommand::OpenFile { directory, .. } = self {
            *directory
        } else {
            false
        }
    }

    /// Whether something that exists is chosen.
    pub fn open(&self) -> (r: bool)
        ensures
            r == (*self is OpenFile),
    {
        match self {
            ChooserCommand::OpenFile { .. } => true,
            _ => false,
        }
    }

    /// Whether an entry is of the kind that is chosen.
    pub open spec fn takes(&self, e: &Entry) -> bool {
        self.spec_open_dir() == (e.kind is Directory)
    }
}

/// The text on the button: mnemonics are dropped.
pub open spec fn without_mnemonics(label: Seq<char>) -> Seq<char>
    decreases label.len(),
{
    if label.len() == 0 {
        Seq::empty()
    } else if label.last() == '_' {
        without_mnemonics(label.drop_last())
    } else {
        without_mnemonics(label.drop_last()).push(label.last())
    }
}

pub fn button_label(label: &str) -> (r: String)
    ensures
        r@ == without_mnemonics(label@),
{
    let v = chars_of(label);
    let mut out: Vec<char> = Vec::new();
    let mut i: usize = 0;
    while i < v.len()
        invariant
            i <= v.len(),
            out@ == without_mnemonics(v@.take(i as int)),
        decreases v.len() - i,
    {
        assert(v@.take(i + 1).drop_last() =~= v@.take(i as int));
        if v[i] != '_' {
            out.push(v[i]);
        }
        i += 1;
    }
    assert(v@.take(i as int) =~= v@);
    let r = text::text_of(&out, 0, out.len());
    assert(r@ =~= out@);
    r
}

/// The choice so far.
pub struct Chooser {
    pub root: Option<Arc<FilePath>>,
    pub files: Vec<Arc<FilePath>>,
    pub last_text: String,
}

/// The paths of the entries that can be chosen.
pub open spec fn choosable(cmd: &ChooserCommand, entries: Seq<Arc<Entry>>) -> Seq<Seq<Seq<u8>>>
    decreases entries.len(),
{
    if entries.len() == 0 {
        Seq::empty()
    } else if cmd.takes(&entries.last()) {
        choosable(cmd, entries.drop_last()).push(entries.last().abs_path@)
    } else {
        choosable(cmd, entries.drop_last())
    }
}

pub open spec fn file_views(v: Seq<Arc<FilePath>>) -> Seq<Seq<Seq<u8>>> {
    Seq::new(v.len(), |i: int| v[i]@)
}

/// A path as it is typed: relative to the root if it is below it.
pub open spec fn typed(root: Option<Arc<FilePath>>, p: Seq<Seq<u8>>) -> Seq<char> {
    match root {
        Some(r) if r@.is_prefix_of(p) => strings::lossy(
            text::join(p.skip(r@.len() as int), path::SLASH),
        ),
        _ => strings::lossy(path::path_bytes(p)),
    }
}

/// The text once entries are selected. `None` if it stays as it is.
pub open spec fn text_after(cmd: &ChooserCommand, root: Option<Arc<FilePath>>, entries: Seq<Arc<Entry>>) -> Option<
    Seq<char>,
> {
    if entries.len() == 1 && cmd.takes(&entries[0]) {
        Some(typed(root, entries[0].abs_path@))
    } else if entries.len() > 1 && *cmd is OpenFile {
        Some(Seq::empty())
    } else {
        None
    }
}

/// Of the selected entries exactly those of the kind that was asked for are chosen, in
/// their order: directories if a directory is to be opened, and otherwise files.
pub proof fn chosen_one_by_one(
    cmd: &ChooserCommand,
    a: Seq<Arc<Entry>>,
    e: Arc<Entry>,
    b: Seq<Arc<Entry>>,
)
    ensures
        choosable(cmd, seq![e]) == (if (e.kind is Directory) == (
        *cmd matches ChooserCommand::OpenFile { directory, .. } && directory) {
            seq![e.abs_path@]
        } else {
            Seq::empty()
        }),
        choosable(cmd, a + b) == choosable(cmd, a) + choosable(cmd, b),
    decreases b.len(),
{
    let none = Seq::<Arc<Entry>>::empty();
    assert(seq![e].drop_last() =~= none);
    assert(choosable(cmd, none) =~= Seq::<Seq<Seq<u8>>>::empty());
    assert(cmd.takes(&e) ==> choosable(cmd, seq![e]) =~= seq![e.abs_path@]);
    if b.len() > 0 {
        chosen_one_by_one(cmd, a, e, b.drop_last());
        assert((a + b).drop_last() =~= a + b.drop_last());
        assert(choosable(cmd, a + b) =~= choosable(cmd, a) + choosable(cmd, b));
    } else {
        assert(a + b =~= a);
        assert(choosable(cmd, a + b) =~= choosable(cmd, a) + choosable(cmd, b));
    }
}

/// A label loses its underscores and nothing else.
pub proof fn only_underscores_go(a: Seq<char>, c: char, b: Seq<char>)
    ensures
        without_mnemonics(seq![c]) == (if c == '_' {
            Seq::empty()
        } else {
            seq![c]
        }),
        without_mnemonics(a + b) == without_mnemonics(a) + without_mnemonics(b),
    decreases b.len(),
{
    let none = Seq::<char>::empty();
    assert(seq![c].drop_last() =~= none);
    assert(without_mnemonics(none) =~= none);
    assert(c != '_' ==> without_mnemonics(seq![c]) =~= seq![c]);
    if b.len() > 0 {
        only_underscores_go(a, c, b.drop_last());
        assert((a + b).drop_last() =~= a + b.drop_last());
        assert(without_mnemonics(a + b) =~= without_mnemonics(a) + without_mnemonics(b));
    } else {
        assert(a + b =~= a);
        assert(without_mnemonics(a + b) =~= without_mnemonics(a) + without_mnemonics(b));
    }
}

impl Chooser {
    pub fn new() -> (r: Chooser)
        ensures
            r.root is None,
            r.files@.len() == 0,
            r.last_text@ == Seq::<char>::empty(),
    {
        let last_text = String::new();
        assert(last_text@ =~= Seq::<char>::empty());
        Chooser { root: None, files: Vec::new(), last_text }
    }

    fn show(&self, p: &FilePath) -> (r: String)
        ensures
            r@ == typed(self.root, p@),
    {
        match &self.root {
            Some(root) => {
                if p.starts_with(root) {
                    let n: usize = root.parts.len();
                    let mut rest: Vec<Vec<u8>> = Vec::new();
                    let mut i: usize = n;
                    assert(text::views(rest@) =~= p@.subrange(n as int, n as int));
                    while i < p.parts.len()
                        invariant
                            n <= i <= p.parts@.len(),
                            text::views(rest@) == p@.subrange(n as int, i as int),
                        decreases p.parts.len() - i,
                    {
                        let ghost before = text::views(rest@);
                        rest.push(text::copy_bytes(&p.parts[i]));
                        assert(text::views(rest@) =~= before.push(p@[i as int]));
                        assert(p@.subrange(n as int, i + 1) =~= before.push(p@[i as int]));
                        i += 1;
                    }
                    assert(text::views(rest@) =~= p@.skip(n as int));
                    return lossy_text(&join_bytes(&rest, path::SLASH));
                }
            },
            None => {},
        }
        lossy_text(&p.to_bytes())
    }

    /// Takes the entries that are selected. Returns whether the text changes.
    pub fn selection(&mut self, cmd: &ChooserCommand, entries: &Vec<Arc<Entry>>) -> (r: bool)
        ensures
            final(self).root == old(self).root,
            file_views(final(self).files@) == choosable(cmd, entries@),
            match text_after(cmd, old(self).root, entries@) {
                Some(t) => r && final(self).last_text@ == t,
                None => !r && final(self).last_text == old(self).last_text,
            },
    {
        let mut changed = false;
        let dirs = cmd.open_dir();
        if entries.len() == 1 {
            if dirs == entries[0].dir() {
                self.last_text = self.show(&entries[0].abs_path);
                changed = true;
            }
        } else if entries.len() > 1 && cmd.open() {
            self.last_text = String::new();
            assert(self.last_text@ =~= Seq::<char>::empty());
            changed = true;
        }
        let mut files: Vec<Arc<FilePath>> = Vec::new();
        let mut i: usize = 0;
        assert(file_views(files@) =~= choosable(cmd, entries@.take(0)));
        while i < entries.len()
            invariant
                i <= entries.len(),
                dirs == cmd.spec_open_dir(),
                file_views(files@) == choosable(cmd, entries@.take(i as int)),
            decreases entries.len() - i,
        {
            assert(entries@.take(i + 1).drop_last() =~= entries@.take(i as int));
            let ghost before = file_views(files@);
            if dirs == entries[i].dir() {
                let p = entries[i].abs_path.copy();
                files.push(Arc::new(p));
                assert(file_views(files@) =~= before.push(p@));
            }
            i += 1;
        }
        assert(entries@.take(i as int) =~= entries@);
        self.files = files;
        changed
    }

    /// Changes the directory that is shown. What was chosen is dropped.
    pub fn root(&mut self, root: &Arc<FilePath>)
        ensures
            final(self).root == Some(*root),
            final(self).files@.len() == 0,
            final(self).last_text == old(self).last_text,
    {
        self.files = Vec::new();
        self.root = Some(root.clone());
    }

    /// Takes what was typed. What was chosen is dropped, unless the text is the
    /// one that stands for it.
    pub fn text(&mut self, text: &str)
        ensures
            final(self).root == old(self).root,
            final(self).last_text@ == text@,
            old(self).last_text@ == text@ ==> final(self).files == old(self).files,
            old(self).last_text@ != text@ ==> final(self).files@.len() == 0,
    {
        if same_text(self.last_text.as_str(), text) {
            return;
        }
        self.last_text = text.to_owned();
        self.files = Vec::new();
    }

    /// What is accepted: what was chosen, or else what was typed. `None` if
    /// there is nothing.
    pub fn accept(&self) -> (r: Option<Vec<Arc<FilePath>>>)
        requires
            self.root matches Some(d) ==> d.valid(),
        ensures
            if self.files@.len() > 0 {
                r matches Some(v) && v@ == self.files@
            } else {
                match self.root {
                    None => r is None,
                    Some(d) => {
                        let bytes = encode_utf8(self.last_text@);
                        let parts = path::path_parts(bytes);
                        r matches Some(v) && file_views(v@) == seq![
                            if path::rooted(bytes) {
                                path::resolved(parts)
                            } else {
                                path::resolved(d@ + parts)
                            },
                        ]
                    },
                }
            },
    {
        if self.files.len() > 0 {
            let mut v: Vec<Arc<FilePath>> = Vec::new();
            let mut i: usize = 0;
            while i < self.files.len()
                invariant
                    i <= self.files.len(),
                    v@ =~= self.files@.take(i as int),
                decreases self.files.len() - i,
            {
                v.push(self.files[i].clone());
                i += 1;
            }
            assert(v@ =~= self.files@);
            return Some(v);
        }
        match &self.root {
            Some(d) => {
                let p = FilePath::resolve(d, &self.last_text.as_str().as_bytes_vec());
                let mut v: Vec<Arc<FilePath>> = Vec::new();
                v.push(Arc::new(p));
                assert(file_views(v@) =~= seq![p@]);
                Some(v)
            },
            None => None,
        }
    }
}

/// The name of a single entry of the kind that was asked for is filled in. One of the
/// other kind leaves the name as it is, and several leave no name for files to open.
pub proof fn names_are_filled_in(
    cmd: &ChooserCommand,
    root: Option<Arc<FilePath>>,
    entries: Seq<Arc<Entry>>,
)
    ensures
        entries.len() == 0 ==> text_after(cmd, root, entries) is None,
        entries.len() == 1 ==> (text_after(cmd, root, entries) is Some <==> choosable(
            cmd,
            entries,
        ).len() == 1),
        entries.len() > 1 ==> (text_after(cmd, root, entries) is Some <==> *cmd is OpenFile),
        entries.len() > 1 ==> (text_after(cmd, root, entries) matches Some(t) ==> t.len() == 0),
{
    if entries.len() == 1 {
        assert(entries =~= seq![entries[0]]);
        chosen_one_by_one(cmd, Seq::empty(), entries[0], Seq::empty());
    }
}

} // verus!
