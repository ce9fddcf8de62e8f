//! Absolute paths as lists of component names.
use vstd::prelude::*;
use vstd::string::*;
use vstd::utf8::*;

use crate::order::{self, compare_bytes, Order};
use crate::strings::{is_utf8, lossy_text};
use crate::text::{self, append_bytes, copy_all, copy_bytes, equal_bytes, join_bytes, split_bytes};

verus! {

pub const SLASH: u8 = 47;

pub const DOT: u8 = 46;

/// Whether a run between slashes names a component: empty runs and `.` do not.
pub open spec fn names_component(run: Seq<u8>) -> bool {
    run.len() > 0 && run != seq![DOT]
}

/// The runs that name components.
pub open spec fn components(runs: Seq<Seq<u8>>) -> Seq<Seq<u8>>
    decreases runs.len(),
{
    if runs.len() == 0 {
        Seq::empty()
    } else if names_component(runs.last()) {
        components(runs.drop_last()).push(runs.last())
    } else {
        components(runs.drop_last())
    }
}

/// The components that a path's bytes name, its leading slash aside.
pub open spec fn path_parts(bytes: Seq<u8>) -> Seq<Seq<u8>> {
    components(text::split(bytes, SLASH))
}

/// Whether a path starts at the root.
pub open spec fn rooted(bytes: Seq<u8>) -> bool {
    bytes.len() > 0 && bytes[0] == SLASH
}

/// The bytes of the absolute path with the given components.
pub open spec fn path_bytes(parts: Seq<Seq<u8>>) -> Seq<u8> {
    seq![SLASH] + text::join(parts, SLASH)
}

/// A name that can stand between two slashes.
pub open spec fn valid_part(part: Seq<u8>) -> bool {
    names_component(part) && !part.contains(SLASH)
}

pub open spec fn valid_parts(parts: Seq<Seq<u8>>) -> bool {
    forall|i: int| 0 <= i < parts.len() ==> valid_part(#[trigger] parts[i])
}

/// What remains once every `..` has removed the component before it. A `..`
/// at the root goes nowhere.
pub open spec fn resolved(parts: Seq<Seq<u8>>) -> Seq<Seq<u8>>
    decreases parts.len(),
{
    if parts.len() == 0 {
        Seq::empty()
    } else {
        step(resolved(parts.drop_last()), parts.last())
    }
}

/// Where following one component leads.
pub open spec fn step(from: Seq<Seq<u8>>, part: Seq<u8>) -> Seq<Seq<u8>> {
    if part == seq![DOT, DOT] {
        if from.len() == 0 {
            from
        } else {
            from.drop_last()
        }
    } else {
        from.push(part)
    }
}

/// Whether a path holds no `..`.
pub open spec fn clean_parts(parts: Seq<Seq<u8>>) -> bool {
    forall|i: int| 0 <= i < parts.len() ==> #[trigger] parts[i] != seq![DOT, DOT]
}

/// `path_clean::clean` on a path that starts with a slash: repeated slashes and
/// `.` components go, each `..` goes with the component before it, and a `..`
/// at the root goes alone.
#[verifier::external_body]
fn clean(path: &str) -> (r: String)
    requires
        rooted(encode_utf8(path@)),
    ensures
        encode_utf8(r@) == path_bytes(resolved(path_parts(encode_utf8(path@)))),
{
    path_clean::clean(path).to_string_lossy().into_owned()
}

/// Where a path leads from a directory: an absolute one replaces it.
pub open spec fn pushed(base: Seq<Seq<u8>>, path: Seq<u8>) -> Seq<Seq<u8>> {
    if rooted(path) {
        path_parts(path)
    } else {
        base + path_parts(path)
    }
}

/// The components of a list of runs are all of them, once none is skipped.
pub proof fn components_all(runs: Seq<Seq<u8>>)
    requires
        forall|i: int| 0 <= i < runs.len() ==> names_component(#[trigger] runs[i]),
    ensures
        components(runs) == runs,
    decreases runs.len(),
{
    if runs.len() > 0 {
        assert(names_component(runs[runs.len() - 1]));
        assert forall|i: int| 0 <= i < runs.drop_last().len() implies names_component(
            #[trigger] runs.drop_last()[i],
        ) by {
            assert(runs.drop_last()[i] == runs[i]);
        }
        components_all(runs.drop_last());
        assert(runs.drop_last().push(runs.last()) =~= runs);
    } else {
        assert(components(runs) =~= runs);
    }
}

proof fn components_after_empty(runs: Seq<Seq<u8>>)
    ensures
        components(seq![Seq::<u8>::empty()] + runs) == components(runs),
    decreases runs.len(),
{
    let whole = seq![Seq::<u8>::empty()] + runs;
    if runs.len() == 0 {
        reveal_with_fuel(components, 2);
        assert(whole.drop_last() =~= runs);
    } else {
        components_after_empty(runs.drop_last());
        assert(whole.drop_last() =~= seq![Seq::<u8>::empty()] + runs.drop_last());
    }
}

proof fn join_after_empty(parts: Seq<Seq<u8>>)
    requires
        parts.len() > 0,
    ensures
        text::join(seq![Seq::<u8>::empty()] + parts, SLASH) == seq![SLASH] + text::join(parts, SLASH),
    decreases parts.len(),
{
    let whole = seq![Seq::<u8>::empty()] + parts;
    if parts.len() == 1 {
        reveal_with_fuel(text::join, 2);
        assert(whole.drop_last() =~= seq![Seq::<u8>::empty()]);
        assert(text::join(whole, SLASH) =~= seq![SLASH] + text::join(parts, SLASH));
    } else {
        join_after_empty(parts.drop_last());
        assert(whole.drop_last() =~= seq![Seq::<u8>::empty()] + parts.drop_last());
        assert(text::join(whole, SLASH) =~= seq![SLASH] + text::join(parts, SLASH));
    }
}

/// Writing a path's components out and reading them back changes nothing.
pub proof fn path_round_trip(parts: Seq<Seq<u8>>)
    requires
        valid_parts(parts),
    ensures
        rooted(path_bytes(parts)),
        path_parts(path_bytes(parts)) == parts,
{
    let empty = Seq::<u8>::empty();
    if parts.len() == 0 {
        let b = path_bytes(parts);
        reveal_with_fuel(text::split, 2);
        reveal_with_fuel(components, 3);
        assert(b =~= seq![SLASH]);
        assert(b.drop_last() =~= empty);
        assert(text::split(b, SLASH) =~= seq![empty, empty]);
        assert(seq![empty, empty].drop_last() =~= seq![empty]);
        assert(seq![empty].drop_last() =~= Seq::<Seq<u8>>::empty());
        assert(components(seq![empty]) =~= Seq::<Seq<u8>>::empty());
        assert(path_parts(b) =~= parts);
    } else {
        let whole = seq![empty] + parts;
        join_after_empty(parts);
        assert forall|i: int| 0 <= i < whole.len() implies !(#[trigger] whole[i]).contains(
            SLASH,
        ) by {
            if i > 0 {
                assert(valid_part(parts[i - 1]));
            }
        }
        text::split_join(whole, SLASH);
        components_after_empty(parts);
        components_all(parts);
    }
}

/// A path that holds no `..` resolves to itself.
pub proof fn resolved_clean(parts: Seq<Seq<u8>>)
    requires
        clean_parts(parts),
    ensures
        resolved(parts) == parts,
    decreases parts.len(),
{
    if parts.len() > 0 {
        assert forall|i: int| 0 <= i < parts.drop_last().len() implies #[trigger] parts.drop_last()[i]
            != seq![DOT, DOT] by {
            assert(parts.drop_last()[i] == parts[i]);
        }
        resolved_clean(parts.drop_last());
        assert(parts.last() == parts[parts.len() - 1]);
        assert(parts.drop_last().push(parts.last()) =~= parts);
    } else {
        assert(resolved(parts) =~= parts);
    }
}

/// Resolving leaves no `..`, so it is idempotent.
pub proof fn resolved_is_clean(parts: Seq<Seq<u8>>)
    ensures
        clean_parts(resolved(parts)),
        resolved(resolved(parts)) == resolved(parts),
        valid_parts(parts) ==> valid_parts(resolved(parts)),
    decreases parts.len(),
{
    if parts.len() > 0 {
        resolved_is_clean(parts.drop_last());
        let before = resolved(parts.drop_last());
        if valid_parts(parts) {
            assert forall|i: int| 0 <= i < parts.drop_last().len() implies valid_part(
                #[trigger] parts.drop_last()[i],
            ) by {
                assert(parts.drop_last()[i] == parts[i]);
            }
            assert(valid_part(parts[parts.len() - 1]));
        }
    }
    resolved_clean(resolved(parts));
}

/// The components of a path's bytes are valid names.
pub proof fn path_parts_valid(bytes: Seq<u8>)
    ensures
        valid_parts(path_parts(bytes)),
{
    text::split_runs_lack_separator(bytes, SLASH);
    let runs = text::split(bytes, SLASH);
    assert forall|i: int| 0 <= i < runs.len() implies !(#[trigger] runs[i]).contains(SLASH) by {
        if runs[i].contains(SLASH) {
            let j = choose|j: int| 0 <= j < runs[i].len() && runs[i][j] == SLASH;
            assert(text::split(bytes, SLASH)[i][j] != SLASH);
        }
    }
    components_valid(runs);
}

proof fn components_valid(runs: Seq<Seq<u8>>)
    requires
        forall|i: int| 0 <= i < runs.len() ==> !(#[trigger] runs[i]).contains(SLASH),
    ensures
        valid_parts(components(runs)),
    decreases runs.len(),
{
    if runs.len() > 0 {
        assert forall|i: int| 0 <= i < runs.drop_last().len() implies !(
        #[trigger] runs.drop_last()[i]).contains(SLASH) by {
            assert(runs.drop_last()[i] == runs[i]);
        }
        components_valid(runs.drop_last());
        assert(!runs[runs.len() - 1].contains(SLASH));
    }
}

proof fn components_concat(a: Seq<Seq<u8>>, b: Seq<Seq<u8>>)
    ensures
        components(a + b) == components(a) + components(b),
    decreases b.len(),
{
    if b.len() > 0 {
        components_concat(a, b.drop_last());
        assert((a + b).drop_last() =~= a + b.drop_last());
        assert(components(a + b) =~= components(a) + components(b));
    } else {
        assert(a + b =~= a);
        assert(components(a + b) =~= components(a) + components(b));
    }
}

proof fn split_around(a: Seq<u8>, b: Seq<u8>)
    ensures
        text::split(a + seq![47u8] + b, 47u8) == text::split(a, 47u8) + text::split(b, 47u8),
    decreases b.len(),
{
    let whole = a + seq![47u8] + b;
    if b.len() == 0 {
        assert(whole =~= a.push(47u8));
        assert(whole.drop_last() =~= a);
        assert(text::split(b, 47u8) =~= seq![Seq::<u8>::empty()]);
        assert(text::split(whole, 47u8) =~= text::split(a, 47u8) + text::split(b, 47u8));
    } else {
        let front = b.drop_last();
        split_around(a, front);
        text::split_nonempty(front, 47u8);
        assert(whole.drop_last() =~= a + seq![47u8] + front);
        assert(whole.last() == b.last());
        let (x, y) = (text::split(a, 47u8), text::split(front, 47u8));
        assert((x + y).drop_last() =~= x + y.drop_last());
        assert((x + y).last() == y.last());
        assert(text::split(whole, 47u8) =~= x + text::split(b, 47u8));
    }
}

/// A path has the parts of what comes before a slash and of what comes after it. A
/// name is a part of its own; a single dot, or nothing at all, is none.
pub proof fn slashes_separate_parts(a: Seq<u8>, b: Seq<u8>, name: Seq<u8>)
    ensures
        path_parts(a + seq![47u8] + b) == path_parts(a) + path_parts(b),
        path_parts(Seq::empty()) == Seq::<Seq<u8>>::empty(),
        path_parts(seq![46u8]) == Seq::<Seq<u8>>::empty(),
        !name.contains(47u8) && name.len() > 0 && name != seq![46u8] ==> path_parts(name)
            == seq![name],
{
    split_around(a, b);
    components_concat(text::split(a, 47u8), text::split(b, 47u8));
    let nothing = Seq::<u8>::empty();
    let dot = seq![46u8];
    text::split_single(nothing, 47u8);
    text::split_single(dot, 47u8);
    assert(seq![nothing].drop_last() =~= Seq::<Seq<u8>>::empty());
    assert(seq![dot].drop_last() =~= Seq::<Seq<u8>>::empty());
    assert(components(Seq::<Seq<u8>>::empty()) =~= Seq::<Seq<u8>>::empty());
    assert(components(seq![nothing]) =~= Seq::<Seq<u8>>::empty());
    assert(components(seq![dot]) =~= Seq::<Seq<u8>>::empty());
    if !name.contains(47u8) && name.len() > 0 && name != dot {
        text::split_single(name, 47u8);
        assert(seq![name].drop_last() =~= Seq::<Seq<u8>>::empty());
        assert(components(seq![name]) =~= seq![name]);
    }
}

/// A part followed by two dots comes to nothing, and so do two dots at the root. What
/// is resolved in two steps is resolved in one.
pub proof fn two_dots_lead_up(a: Seq<Seq<u8>>, part: Seq<u8>, b: Seq<Seq<u8>>)
    ensures
        part != seq![46u8, 46u8] ==> resolved(a.push(part).push(seq![46u8, 46u8])) == resolved(a),
        part != seq![46u8, 46u8] ==> resolved(a.push(part)) == resolved(a).push(part),
        resolved(seq![seq![46u8, 46u8]]) == Seq::<Seq<u8>>::empty(),
        resolved(resolved(a) + b) == resolved(a + b),
    decreases b.len(),
{
    let up = seq![46u8, 46u8];
    assert(a.push(part).drop_last() =~= a);
    assert(a.push(part).push(up).drop_last() =~= a.push(part));
    if part != up {
        assert(resolved(a.push(part)) =~= resolved(a).push(part));
        assert(resolved(a).push(part).drop_last() =~= resolved(a));
    }
    assert(seq![up].drop_last() =~= Seq::<Seq<u8>>::empty());
    assert(resolved(Seq::<Seq<u8>>::empty()) =~= Seq::<Seq<u8>>::empty());
    assert(resolved(seq![up]) =~= Seq::<Seq<u8>>::empty());
    if b.len() > 0 {
        two_dots_lead_up(a, part, b.drop_last());
        assert((a + b).drop_last() =~= a + b.drop_last());
        assert((resolved(a) + b).drop_last() =~= resolved(a) + b.drop_last());
    } else {
        assert(a + b =~= a);
        assert(resolved(a) + b =~= resolved(a));
        resolved_is_clean(a);
    }
}

/// An absolute path. Its view is the sequence of its component names.
pub struct FilePath {
    pub parts: Vec<Vec<u8>>,
}

impl View for FilePath {
    type V = Seq<Seq<u8>>;

    open spec fn view(&self) -> Seq<Seq<u8>> {
        text::views(self.parts@)
    }
}

fn named_components(runs: &Vec<Vec<u8>>) -> (r: Vec<Vec<u8>>)
    ensures
        text::views(r@) == components(text::views(runs@)),
{
    let mut r: Vec<Vec<u8>> = Vec::new();
    let mut i: usize = 0;
    assert(text::views(r@) =~= Seq::<Seq<u8>>::empty());
    while i < runs.len()
        invariant
            i <= runs.len(),
            text::views(r@) == components(text::views(runs@).take(i as int)),
        decreases runs.len() - i,
    {
        let ghost before = text::views(r@);
        let run = &runs[i];
        assert(text::views(runs@).take(i + 1).drop_last() =~= text::views(runs@).take(i as int));
        assert(text::views(runs@).take(i + 1).last() == run@);
        let dot: bool = run.len() == 1 && run[0] == DOT;
        assert(dot == (run@ == seq![DOT])) by {
            if dot {
                assert(run@ =~= seq![DOT]);
            }
        }
        if run.len() > 0 && !dot {
            r.push(copy_bytes(run));
            assert(text::views(r@) =~= before.push(run@));
        }
        i += 1;
    }
    assert(text::views(runs@).take(i as int) =~= text::views(runs@));
    r
}

impl FilePath {
    /// Whether every component is a name.
    pub open spec fn valid(&self) -> bool {
        valid_parts(self@)
    }

    /// The path of the root directory.
    pub fn root() -> (r: FilePath)
        ensures
            r@ == Seq::<Seq<u8>>::empty(),
            r.valid(),
    {
        let r = FilePath { parts: Vec::new() };
        assert(r@ =~= Seq::<Seq<u8>>::empty());
        r
    }

    /// Reads an absolute path; `None` if it does not start with a slash.
    pub fn parse(bytes: &Vec<u8>) -> (r: Option<FilePath>)
        ensures
            r is Some <==> rooted(bytes@),
            r matches Some(p) ==> p@ == path_parts(bytes@) && p.valid(),
    {
        if bytes.len() == 0 || bytes[0] != SLASH {
            return None;
        }
        let runs = split_bytes(bytes, SLASH);
        let parts = named_components(&runs);
        proof {
            path_parts_valid(bytes@);
        }
        Some(FilePath { parts })
    }

    /// The bytes of this path.
    pub fn to_bytes(&self) -> (r: Vec<u8>)
        ensures
            r@ == path_bytes(self@),
    {
        let mut r: Vec<u8> = Vec::new();
        r.push(SLASH);
        let rest = join_bytes(&self.parts, SLASH);
        append_bytes(&mut r, &rest);
        assert(r@ =~= path_bytes(self@));
        r
    }

    /// Takes every `..` out, together with the component before it.
    pub fn without_parents(&self) -> (r: FilePath)
        ensures
            r@ == resolved(self@),
            clean_parts(r@),
            self.valid() ==> r.valid(),
    {
        let ghost all = self@;
        let mut parts: Vec<Vec<u8>> = Vec::new();
        assert(text::views(parts@) =~= resolved(all.take(0)));
        let mut i: usize = 0;
        while i < self.parts.len()
            invariant
                i <= self.parts.len(),
                all == text::views(self.parts@),
                text::views(parts@) == resolved(all.take(i as int)),
            decreases self.parts.len() - i,
        {
            let ghost before = text::views(parts@);
            let part = &self.parts[i];
            assert(all.take(i + 1).drop_last() =~= all.take(i as int));
            let up: bool = part.len() == 2 && part[0] == DOT && part[1] == DOT;
            assert(up == (part@ == seq![DOT, DOT])) by {
                if up {
                    assert(part@ =~= seq![DOT, DOT]);
                }
            }
            if up {
                if parts.len() > 0 {
                    let _removed = parts.pop();
                    assert(text::views(parts@) =~= before.drop_last());
                }
            } else {
                parts.push(copy_bytes(part));
                assert(text::views(parts@) =~= before.push(part@));
            }
            i += 1;
        }
        proof {
            assert(all.take(i as int) =~= all);
            resolved_is_clean(all);
        }
        FilePath { parts }
    }

    /// This path with every `..` taken out, together with the component before it.
    pub fn cleaned(&self) -> (r: FilePath)
        requires
            self.valid(),
        ensures
            r@ == resolved(self@),
            r.valid(),
            clean_parts(r@),
    {
        let bytes = self.to_bytes();
        if !is_utf8(&bytes) {
            return self.without_parents();
        }
        let cleaned = {
            let text = lossy_text(&bytes);
            proof {
                decode_utf8_encode_utf8(bytes@);
                path_round_trip(self@);
            }
            clean(text.as_str())
        };
        let cleaned_bytes = cleaned.as_str().as_bytes_vec();
        proof {
            resolved_is_clean(self@);
            path_round_trip(resolved(self@));
        }
        let runs = split_bytes(&cleaned_bytes, SLASH);
        FilePath { parts: named_components(&runs) }
    }

    /// Follows `path` from this directory: absolute paths replace it, and `..`
    /// leads to the parent.
    pub fn resolve(base: &FilePath, path: &Vec<u8>) -> (r: FilePath)
        requires
            base.valid(),
        ensures
            r.valid(),
            clean_parts(r@),
            r@ == resolved(pushed(base@, path@)),
    {
        base.push(path).cleaned()
    }

    /// The path that another one leads to from here: an absolute one replaces this.
    pub fn push(&self, path: &Vec<u8>) -> (r: FilePath)
        ensures
            r@ == pushed(self@, path@),
            self.valid() ==> r.valid(),
    {
        match FilePath::parse(path) {
            Some(p) => p,
            None => self.join(path),
        }
    }

    /// The path that a relative one leads to from here.
    pub fn join(&self, relative: &Vec<u8>) -> (r: FilePath)
        ensures
            r@ == self@ + path_parts(relative@),
            self.valid() ==> r.valid(),
    {
        let runs = split_bytes(relative, SLASH);
        let mut more = named_components(&runs);
        let mut parts = copy_all(&self.parts);
        let ghost added = text::views(more@);
        parts.append(&mut more);
        let r = FilePath { parts };
        proof {
            assert(r@ =~= self@ + added);
            path_parts_valid(relative@);
        }
        r
    }

    pub fn copy(&self) -> (r: FilePath)
        ensures
            r@ == self@,
    {
        FilePath { parts: copy_all(&self.parts) }
    }

    /// Whether this is the root directory.
    pub fn is_root(&self) -> (r: bool)
        ensures
            r == (self@.len() == 0),
    {
        self.parts.len() == 0
    }

    /// Whether two paths have the same components.
    pub fn same(&self, other: &FilePath) -> (r: bool)
        ensures
            r == (self@ == other@),
    {
        if self.parts.len() != other.parts.len() {
            assert(self@.len() != other@.len());
            return false;
        }
        self.starts_with(other)
    }

    /// Whether this path is `ancestor` or lies somewhere below it.
    pub fn starts_with(&self, ancestor: &FilePath) -> (r: bool)
        ensures
            r == ancestor@.is_prefix_of(self@),
            self@.len() == ancestor@.len() ==> r == (self@ == ancestor@),
    {
        if ancestor.parts.len() > self.parts.len() {
            return false;
        }
        let mut i: usize = 0;
        while i < ancestor.parts.len()
            invariant
                i <= ancestor.parts.len(),
                ancestor.parts.len() <= self.parts.len(),
                forall|k: int| 0 <= k < i ==> #[trigger] self@[k] == ancestor@[k],
            decreases ancestor.parts.len() - i,
        {
            if !equal_bytes(&self.parts[i], &ancestor.parts[i]) {
                assert(self@[i as int] != ancestor@[i as int]);
                assert(self@.subrange(0, ancestor@.len() as int)[i as int]
                    != ancestor@[i as int]);
                return false;
            }
            assert(self@[i as int] == ancestor@[i as int]);
            i += 1;
        }
        assert(self@.subrange(0, ancestor@.len() as int) =~= ancestor@);
        if self.parts.len() == ancestor.parts.len() {
            assert(self@ =~= ancestor@);
        }
        true
    }

    /// The directory that holds this path; the root has none.
    pub fn parent(&self) -> (r: Option<FilePath>)
        ensures
            r is None <==> self@.len() == 0,
            r matches Some(p) ==> p@ == self@.drop_last() && (self.valid() ==> p.valid()),
    {
        if self.parts.len() == 0 {
            return None;
        }
        let mut parts = copy_all(&self.parts);
        let _last = parts.pop();
        assert(text::views(parts@) =~= self@.drop_last());
        let p = FilePath { parts };
        assert(self.valid() ==> p.valid()) by {
            if self.valid() {
                assert forall|i: int| 0 <= i < p@.len() implies valid_part(#[trigger] p@[i]) by {
                    assert(p@[i] == self@[i]);
                }
            }
        }
        Some(p)
    }

    /// Whether `dir` is the directory that holds this path.
    pub fn is_child_of(&self, dir: &FilePath) -> (r: bool)
        ensures
            r == (self@.len() > 0 && self@.drop_last() == dir@),
    {
        if self.parts.len() == 0 || self.parts.len() - 1 != dir.parts.len() {
            assert(self@.len() > 0 && self@.drop_last() == dir@ ==> self@.len() - 1 == dir@.len());
            return false;
        }
        let r = self.starts_with(dir);
        assert(self@.subrange(0, dir@.len() as int) =~= self@.drop_last());
        r
    }

    /// The last component; the root has none, and `..` is not a name.
    pub fn file_name(&self) -> (r: Option<Vec<u8>>)
        ensures
            r is Some <==> self@.len() > 0 && self@.last() != seq![DOT, DOT],
            r matches Some(n) ==> n@ == self@.last(),
    {
        if self.parts.len() == 0 {
            return None;
        }
        let last = &self.parts[self.parts.len() - 1];
        let up: bool = last.len() == 2 && last[0] == DOT && last[1] == DOT;
        assert(up == (last@ == seq![DOT, DOT])) by {
            if up {
                assert(last@ =~= seq![DOT, DOT]);
            }
        }
        if up {
            None
        } else {
            Some(copy_bytes(last))
        }
    }

    /// This path with one more component.
    pub fn join_name(&self, name: &Vec<u8>) -> (r: FilePath)
        ensures
            r@ == self@.push(name@),
            self.valid() && valid_part(name@) ==> r.valid(),
    {
        let mut parts = copy_all(&self.parts);
        parts.push(copy_bytes(name));
        let r = FilePath { parts };
        assert(r@ =~= self@.push(name@));
        r
    }

    /// Component-wise comparison.
    pub fn compare(&self, other: &FilePath) -> (r: Order)
        ensures
            r == order::parts_order(self@, other@),
    {
        let mut i: usize = 0;
        assert(self@.skip(0) =~= self@);
        assert(other@.skip(0) =~= other@);
        while i < self.parts.len() && i < other.parts.len()
            invariant
                i <= self.parts.len(),
                i <= other.parts.len(),
                order::parts_order(self@, other@) == order::parts_order(
                    self@.skip(i as int),
                    other@.skip(i as int),
                ),
            decreases self.parts.len() - i,
        {
            assert(self@.skip(i as int).drop_first() =~= self@.skip(i + 1));
            assert(other@.skip(i as int).drop_first() =~= other@.skip(i + 1));
            let o = compare_bytes(&self.parts[i], &other.parts[i]);
            match o {
                Order::Equal => {},
                _ => {
                    return o;
                },
            }
            i += 1;
        }
        if i < other.parts.len() {
            Order::Less
        } else if i < self.parts.len() {
            Order::Greater
        } else {
            Order::Equal
        }
    }
}

} // verus!
