//! The context menu.
use ahash::AHashMap;
use vstd::prelude::*;
use vstd::string::*;
use vstd::utf8::*;

use crate::actions::{self, CustomAction};
use crate::collections::{self, get_pair, no_pairs, set_pair};
use crate::config::{ContextMenuEntry, ContextMenuGroup};
use crate::entry::Entry;
use crate::path::FilePath;
use crate::strings::{self, split_once, trim_start, Strip};
use crate::text::{decimal_string, same_text};

verus! {

/// A command of the menu. Those that set something are shown with the state
/// that they set.
#[derive(Clone, Copy, Debug, PartialEq, Eq, Structural)]
pub enum MenuCommand {
    Display,
    SortMode,
    SortDir,
    Action,
}

impl MenuCommand {
    pub open spec fn spec_action(self) -> Seq<char> {
        match self {
            MenuCommand::Display => "Display"@,
            MenuCommand::SortMode => "SortBy"@,
            MenuCommand::SortDir => "SortDir"@,
            MenuCommand::Action => "action"@,
        }
    }

    pub fn action(self) -> (r: &'static str)
        ensures
            r@ == self.spec_action(),
    {
        match self {
            MenuCommand::Display => "Display",
            MenuCommand::SortMode => "SortBy",
            MenuCommand::SortDir => "SortDir",
            MenuCommand::Action => "action",
        }
    }

    /// The command that a text stands for, and its argument.
    pub open spec fn parsed(command: Seq<char>) -> (MenuCommand, Seq<char>) {
        match strings::split_at_first(command, ' ') {
            Some((cmd, arg)) => {
                let arg = strings::strip_start(arg, Strip::Space);
                if cmd == "Display"@ {
                    (MenuCommand::Display, arg)
                } else if cmd == "SortBy"@ {
                    (MenuCommand::SortMode, arg)
                } else if cmd == "SortDir"@ {
                    (MenuCommand::SortDir, arg)
                } else {
                    (MenuCommand::Action, command)
                }
            },
            None => (MenuCommand::Action, command),
        }
    }

    pub fn parse(command: &str) -> (r: (MenuCommand, String))
        ensures
            (r.0, r.1@) == MenuCommand::parsed(command@),
    {
        match split_once(command, ' ') {
            Some((cmd, arg)) => {
                let arg = trim_start(arg.as_str());
                if same_text(cmd.as_str(), "Display") {
                    return (MenuCommand::Display, arg);
                }
                if same_text(cmd.as_str(), "SortBy") {
                    return (MenuCommand::SortMode, arg);
                }
                if same_text(cmd.as_str(), "SortDir") {
                    return (MenuCommand::SortDir, arg);
                }
            },
            None => {},
        }
        (MenuCommand::Action, command.to_owned())
    }
}

/// The name under which a custom action can be triggered.
pub fn custom_name(n: usize) -> (r: String)
    ensures
        r@ == "custom-"@ + crate::text::decimal(n as nat),
{
    let mut t = "custom-".to_owned();
    t.append(decimal_string(n as u64).as_str());
    t
}

/// A part of the menu. Numbers are positions among the custom actions or the
/// configured entries.
pub enum MenuPart {
    Custom(usize),
    Entry(usize),
    Group { submenu: bool, name: String, items: Vec<usize> },
}

/// A part of the menu, as a mathematical value.
pub enum PartView {
    Custom(usize),
    Entry(usize),
    Group { submenu: bool, name: Seq<char>, items: Seq<usize> },
}

impl View for MenuPart {
    type V = PartView;

    open spec fn view(&self) -> PartView {
        match self {
            MenuPart::Custom(i) => PartView::Custom(*i),
            MenuPart::Entry(i) => PartView::Entry(*i),
            MenuPart::Group { submenu, name, items } => PartView::Group {
                submenu: *submenu,
                name: name@,
                items: items@,
            },
        }
    }
}

pub open spec fn part_views(parts: Seq<MenuPart>) -> Seq<PartView> {
    Seq::new(parts.len(), |i: int| parts[i]@)
}

/// The group that an entry belongs to: whether it is a submenu, and its name.
pub open spec fn group_of(e: ContextMenuEntry) -> Option<(bool, Seq<char>)> {
    match e.group {
        Some(ContextMenuGroup::Submenu(n)) => Some((true, n@)),
        Some(ContextMenuGroup::Section(n)) => Some((false, n@)),
        None => None,
    }
}

/// Whether a part is the given group.
pub open spec fn is_group(p: PartView, submenu: bool, name: Seq<char>) -> bool {
    p matches PartView::Group { submenu: s, name: n, .. } && s == submenu && n == name
}

/// The position of the given group, or the number of parts.
pub open spec fn group_at(parts: Seq<PartView>, submenu: bool, name: Seq<char>) -> int
    decreases parts.len(),
{
    if parts.len() == 0 {
        0
    } else {
        let k = group_at(parts.drop_last(), submenu, name);
        if k < parts.len() - 1 {
            k
        } else if is_group(parts.last(), submenu, name) {
            parts.len() - 1
        } else {
            parts.len() as int
        }
    }
}

/// The menu with one more entry. A group stands where its first entry is.
pub open spec fn placed(parts: Seq<PartView>, i: usize, group: Option<(bool, Seq<char>)>) -> Seq<
    PartView,
> {
    match group {
        None => parts.push(PartView::Entry(i)),
        Some((submenu, name)) => {
            let k = group_at(parts, submenu, name);
            if k < parts.len() {
                parts.update(
                    k,
                    PartView::Group { submenu, name, items: parts[k]->Group_items.push(i) },
                )
            } else {
                parts.push(PartView::Group { submenu, name, items: seq![i] })
            }
        },
    }
}

/// The menu after the first `n` configured entries.
pub open spec fn with_entries(
    parts: Seq<PartView>,
    entries: Seq<ContextMenuEntry>,
    n: nat,
) -> Seq<PartView>
    decreases n,
{
    if n == 0 {
        parts
    } else {
        placed(
            with_entries(parts, entries, (n - 1) as nat),
            (n - 1) as usize,
            group_of(entries[n - 1]),
        )
    }
}

/// The custom actions from `from` up to `to`.
pub open spec fn custom_parts(from: nat, to: nat) -> Seq<PartView>
    decreases to,
{
    if to <= from {
        Seq::empty()
    } else {
        custom_parts(from, (to - 1) as nat).push(PartView::Custom((to - 1) as usize))
    }
}

/// The number of custom actions at the start that have a negative priority.
pub open spec fn leading(acts: Seq<CustomAction>) -> nat
    decreases acts.len(),
{
    if acts.len() == 0 || acts[0].settings@.priority >= 0 {
        0
    } else {
        1 + leading(acts.skip(1))
    }
}

/// The whole menu: custom actions of negative priority, the configured entries,
/// the other custom actions.
pub open spec fn menu_parts(acts: Seq<CustomAction>, entries: Seq<ContextMenuEntry>) -> Seq<
    PartView,
> {
    with_entries(custom_parts(0, leading(acts)), entries, entries.len()) + custom_parts(
        leading(acts),
        acts.len(),
    )
}

proof fn group_at_found(parts: Seq<PartView>, submenu: bool, name: Seq<char>)
    ensures
        0 <= group_at(parts, submenu, name) <= parts.len(),
        group_at(parts, submenu, name) < parts.len() ==> is_group(
            parts[group_at(parts, submenu, name)],
            submenu,
            name,
        ),
        forall|j: int|
            0 <= j < group_at(parts, submenu, name) ==> !is_group(
                #[trigger] parts[j],
                submenu,
                name,
            ),
    decreases parts.len(),
{
    if parts.len() > 0 {
        group_at_found(parts.drop_last(), submenu, name);
        assert forall|j: int| 0 <= j < group_at(parts, submenu, name) implies !is_group(
            #[trigger] parts[j],
            submenu,
            name,
        ) by {
            if j < parts.len() - 1 {
                assert(parts[j] == parts.drop_last()[j]);
            }
        }
    }
}

proof fn group_at_unique(parts: Seq<PartView>, submenu: bool, name: Seq<char>, k: int)
    requires
        0 <= k <= parts.len(),
        k < parts.len() ==> is_group(parts[k], submenu, name),
        forall|j: int| 0 <= j < k ==> !is_group(#[trigger] parts[j], submenu, name),
    ensures
        group_at(parts, submenu, name) == k,
{
    group_at_found(parts, submenu, name);
    let g = group_at(parts, submenu, name);
    if g < k {
        assert(!is_group(parts[g], submenu, name));
    }
    if k < g {
        assert(!is_group(parts[k], submenu, name));
    }
}

/// Whether a part of the menu stands for a configured entry.
pub open spec fn stands_for(p: PartView, i: usize) -> bool {
    match p {
        PartView::Custom(_) => false,
        PartView::Entry(k) => k == i,
        PartView::Group { items, .. } => items.contains(i),
    }
}

/// Whether a part of the menu is one for entries of a group, or for one without.
pub open spec fn fits(p: PartView, group: Option<(bool, Seq<char>)>) -> bool {
    match group {
        None => p is Entry,
        Some((submenu, name)) => is_group(p, submenu, name),
    }
}

/// Whether an entry is among the parts of the menu, where its group is.
pub open spec fn has_place(
    parts: Seq<PartView>,
    entries: Seq<ContextMenuEntry>,
    i: usize,
) -> bool {
    exists|k: int|
        0 <= k < parts.len() && #[trigger] stands_for(parts[k], i) && fits(
            parts[k],
            group_of(entries[i as int]),
        )
}

/// Whether parts of the menu hold the first `n` entries, each where its group is, and
/// no group twice.
pub open spec fn in_place(parts: Seq<PartView>, entries: Seq<ContextMenuEntry>, n: nat) -> bool {
    &&& forall|i: usize| i < n ==> #[trigger] has_place(parts, entries, i)
    &&& forall|k: int, i: usize|
        0 <= k < parts.len() && #[trigger] stands_for(parts[k], i) ==> i < n && fits(
            parts[k],
            group_of(entries[i as int]),
        )
    &&& forall|j: int, k: int, submenu: bool, name: Seq<char>|
        0 <= j < parts.len() && 0 <= k < parts.len() && #[trigger] is_group(
            parts[j],
            submenu,
            name,
        ) && #[trigger] is_group(parts[k], submenu, name) ==> j == k
}

proof fn placing_keeps_places(parts: Seq<PartView>, entries: Seq<ContextMenuEntry>, n: nat)
    requires
        in_place(parts, entries, n),
        n < entries.len() <= usize::MAX,
    ensures
        in_place(
            placed(parts, n as usize, group_of(entries[n as int])),
            entries,
            n + 1,
        ),
{
    let group = group_of(entries[n as int]);
    let after = placed(parts, n as usize, group);
    match group {
        None => {
            assert forall|i: usize| i < n + 1 implies #[trigger] has_place(after, entries, i) by {
                if i < n {
                    assert(has_place(parts, entries, i));
                    let k = choose|k: int|
                        0 <= k < parts.len() && #[trigger] stands_for(parts[k], i) && fits(
                            parts[k],
                            group_of(entries[i as int]),
                        );
                    assert(stands_for(after[k], i));
                } else {
                    assert(stands_for(after[parts.len() as int], i));
                }
            }
        },
        Some((submenu, name)) => {
            group_at_finds(parts, submenu, name);
            let at = group_at(parts, submenu, name);
            assert forall|i: usize| i < n + 1 implies #[trigger] has_place(after, entries, i) by {
                if i < n {
                    assert(has_place(parts, entries, i));
                    let k = choose|k: int|
                        0 <= k < parts.len() && #[trigger] stands_for(parts[k], i) && fits(
                            parts[k],
                            group_of(entries[i as int]),
                        );
                    if k == at {
                        let items = parts[k]->Group_items;
                        let j = items.index_of(i);
                        assert(items.push(n as usize)[j] == i);
                    }
                    assert(stands_for(after[k], i));
                } else if at < parts.len() {
                    let items = parts[at]->Group_items;
                    assert(items.push(i)[items.len() as int] == i);
                    assert(stands_for(after[at], i));
                } else {
                    assert(seq![i][0] == i);
                    assert(stands_for(after[at], i));
                }
            }
            assert forall|k: int, i: usize|
                0 <= k < after.len() && #[trigger] stands_for(after[k], i) implies i < n + 1
                && fits(after[k], group_of(entries[i as int])) by {
                if k == at {
                    if i != n {
                        if at < parts.len() {
                            let items = parts[at]->Group_items;
                            let j = items.push(n as usize).index_of(i);
                            assert(items[j] == i);
                            assert(stands_for(parts[at], i));
                        }
                    }
                } else {
                    assert(stands_for(parts[k], i));
                }
            }
            assert forall|j: int, k: int, sub: bool, called: Seq<char>|
                0 <= j < after.len() && 0 <= k < after.len() && #[trigger] is_group(
                    after[j],
                    sub,
                    called,
                ) && #[trigger] is_group(after[k], sub, called) implies j == k by {
                if j < parts.len() {
                    assert(is_group(parts[j], sub, called));
                }
                if k < parts.len() {
                    assert(is_group(parts[k], sub, called));
                }
            }
        },
    }
}

proof fn group_at_finds(parts: Seq<PartView>, submenu: bool, name: Seq<char>)
    ensures
        0 <= group_at(parts, submenu, name) <= parts.len(),
        group_at(parts, submenu, name) < parts.len() ==> is_group(
            parts[group_at(parts, submenu, name)],
            submenu,
            name,
        ),
        group_at(parts, submenu, name) == parts.len() ==> forall|k: int|
            0 <= k < parts.len() ==> !is_group(#[trigger] parts[k], submenu, name),
    decreases parts.len(),
{
    if parts.len() > 0 {
        group_at_finds(parts.drop_last(), submenu, name);
        assert forall|k: int|
            0 <= k < parts.len() && group_at(parts, submenu, name)
                == parts.len() implies !is_group(#[trigger] parts[k], submenu, name) by {
            if k < parts.len() - 1 {
                assert(parts.drop_last()[k] == parts[k]);
            }
        }
    }
}

proof fn entries_in_place(parts: Seq<PartView>, entries: Seq<ContextMenuEntry>, n: nat)
    requires
        n <= entries.len() <= usize::MAX,
        forall|k: int| 0 <= k < parts.len() ==> (#[trigger] parts[k]) is Custom,
    ensures
        in_place(with_entries(parts, entries, n), entries, n),
        with_entries(parts, entries, n).len() >= parts.len(),
        forall|k: int|
            0 <= k < parts.len() ==> #[trigger] with_entries(parts, entries, n)[k] == parts[k],
        forall|k: int|
            parts.len() <= k < with_entries(parts, entries, n).len() ==> !((
            #[trigger] with_entries(parts, entries, n)[k]) is Custom),
    decreases n,
{
    if n > 0 {
        let before = with_entries(parts, entries, (n - 1) as nat);
        entries_in_place(parts, entries, (n - 1) as nat);
        placing_keeps_places(before, entries, (n - 1) as nat);
        if let Some((submenu, name)) = group_of(entries[n - 1]) {
            group_at_finds(before, submenu, name);
            let at = group_at(before, submenu, name);
            if at < parts.len() {
                assert(before[at] == parts[at]);
            }
        }
    }
}

proof fn customs_in_order(from: nat, to: nat)
    requires
        from <= to <= usize::MAX,
    ensures
        custom_parts(from, to).len() == to - from,
        forall|k: int|
            0 <= k < to - from ==> #[trigger] custom_parts(from, to)[k] == PartView::Custom(
                (from + k) as usize,
            ),
    decreases to,
{
    if from < to {
        customs_in_order(from, (to - 1) as nat);
    }
}

/// Every configured entry is in the menu, in the section or submenu that it names and
/// nowhere else, and each section and submenu is there once. Every action is there
/// once, in order: those that lead come before all else and the others after it.
pub proof fn menu_is_complete(acts: Seq<CustomAction>, entries: Seq<ContextMenuEntry>)
    requires
        acts.len() + entries.len() < usize::MAX,
    ensures
        ({
            let parts = menu_parts(acts, entries);
            let first = leading(acts) as int;
            let last = parts.len() - (acts.len() - leading(acts));
            &&& in_place(parts, entries, entries.len())
            &&& 0 <= first <= last
            &&& forall|k: int|
                0 <= k < parts.len() ==> ((#[trigger] parts[k]) is Custom <==> k < first || k
                    >= last)
            &&& forall|k: int|
                0 <= k < first ==> #[trigger] parts[k] == PartView::Custom(k as usize)
            &&& forall|k: int|
                last <= k < parts.len() ==> #[trigger] parts[k] == PartView::Custom(
                    (first + k - last) as usize,
                )
        }),
{
    leading_bounds(acts);
    let before = custom_parts(0, leading(acts));
    let middle = with_entries(before, entries, entries.len());
    let after = custom_parts(leading(acts), acts.len());
    let parts = menu_parts(acts, entries);
    customs_in_order(0, leading(acts));
    customs_in_order(leading(acts), acts.len());
    entries_in_place(before, entries, entries.len());
    assert forall|i: usize| i < entries.len() implies #[trigger] has_place(parts, entries, i) by {
        assert(has_place(middle, entries, i));
        let k = choose|k: int|
            0 <= k < middle.len() && #[trigger] stands_for(middle[k], i) && fits(
                middle[k],
                group_of(entries[i as int]),
            );
        assert(parts[k] == middle[k]);
        assert(stands_for(parts[k], i));
    }
    assert forall|k: int, i: usize|
        0 <= k < parts.len() && #[trigger] stands_for(parts[k], i) implies i < entries.len()
        && fits(parts[k], group_of(entries[i as int])) by {
        if k < middle.len() {
            assert(parts[k] == middle[k]);
            assert(stands_for(middle[k], i));
        } else {
            assert(parts[k] == after[k - middle.len()]);
        }
    }
    assert forall|j: int, k: int, submenu: bool, name: Seq<char>|
        0 <= j < parts.len() && 0 <= k < parts.len() && #[trigger] is_group(
            parts[j],
            submenu,
            name,
        ) && #[trigger] is_group(parts[k], submenu, name) implies j == k by {
        if j < middle.len() {
            assert(is_group(middle[j], submenu, name));
        } else {
            assert(parts[j] == after[j - middle.len()]);
        }
        if k < middle.len() {
            assert(is_group(middle[k], submenu, name));
        } else {
            assert(parts[k] == after[k - middle.len()]);
        }
    }
    assert forall|k: int| 0 <= k < middle.len() implies parts[k] == middle[k] by {}
    assert forall|k: int| middle.len() <= k < parts.len() implies #[trigger] parts[k] == after[k
        - middle.len()] by {}
    assert forall|k: int| 0 <= k < before.len() implies #[trigger] parts[k] == PartView::Custom(
        k as usize,
    ) by {
        assert(middle[k] == before[k]);
    }
}

/// Where each group is remembered to stand.
spec fn remembers(m: Map<(Seq<u8>, Seq<u8>), u64>, parts: Seq<PartView>) -> bool {
    forall|submenu: bool, name: Seq<char>|
        #![trigger group_at(parts, submenu, name)]
        {
            let key = (tag(submenu), encode_utf8(name));
            let k = group_at(parts, submenu, name);
            &&& m.dom().contains(key) <==> k < parts.len()
            &&& k < parts.len() ==> m[key] == k
        }
}

spec fn tag(submenu: bool) -> Seq<u8> {
    seq![
        if submenu {
            1u8
        } else {
            0u8
        },
    ]
}

fn tag_bytes(submenu: bool) -> (r: Vec<u8>)
    ensures
        r@ == tag(submenu),
{
    let mut v: Vec<u8> = Vec::new();
    v.push(
        if submenu {
            1
        } else {
            0
        },
    );
    assert(v@ =~= tag(submenu));
    v
}

proof fn remembers_without_groups(m: Map<(Seq<u8>, Seq<u8>), u64>, parts: Seq<PartView>)
    requires
        m.dom().is_empty(),
        forall|j: int| 0 <= j < parts.len() ==> !((#[trigger] parts[j]) is Group),
    ensures
        remembers(m, parts),
{
    assert forall|submenu: bool, name: Seq<char>|
        #![trigger group_at(parts, submenu, name)]
        {
            let key = (tag(submenu), encode_utf8(name));
            let k = group_at(parts, submenu, name);
            &&& m.dom().contains(key) <==> k < parts.len()
            &&& k < parts.len() ==> m[key] == k
        } by {
        group_at_unique(parts, submenu, name, parts.len() as int);
    }
}

/// Putting in an entry that belongs to no group or to one that stands already
/// moves no group.
proof fn placing_keeps_groups(
    parts: Seq<PartView>,
    i: usize,
    group: Option<(bool, Seq<char>)>,
    submenu: bool,
    name: Seq<char>,
)
    requires
        group matches Some((s, n)) ==> group_at(parts, s, n) < parts.len(),
    ensures
        ({
            let k = group_at(parts, submenu, name);
            let new = placed(parts, i, group);
            group_at(new, submenu, name) == (if k < parts.len() {
                k
            } else {
                new.len() as int
            })
        }),
{
    let k = group_at(parts, submenu, name);
    let new = placed(parts, i, group);
    group_at_found(parts, submenu, name);
    match group {
        None => {
            let at = if k < parts.len() {
                k
            } else {
                new.len() as int
            };
            assert forall|j: int| 0 <= j < at implies !is_group(
                #[trigger] new[j],
                submenu,
                name,
            ) by {
                if j < parts.len() {
                    assert(new[j] == parts[j]);
                }
            }
            group_at_unique(new, submenu, name, at);
        },
        Some((s, n)) => {
            group_at_found(parts, s, n);
            let at = if k < parts.len() {
                k
            } else {
                new.len() as int
            };
            assert forall|j: int| 0 <= j < at implies !is_group(
                #[trigger] new[j],
                submenu,
                name,
            ) by {
                assert(!is_group(parts[j], submenu, name));
            }
            group_at_unique(new, submenu, name, at);
        },
    }
}

proof fn new_group_at(
    parts: Seq<PartView>,
    p: PartView,
    s: bool,
    n: Seq<char>,
    submenu: bool,
    name: Seq<char>,
)
    requires
        is_group(p, s, n),
        group_at(parts, s, n) >= parts.len(),
    ensures
        ({
            let k = group_at(parts, submenu, name);
            group_at(parts.push(p), submenu, name) == (if k < parts.len() {
                k
            } else if s == submenu && n == name {
                parts.len() as int
            } else {
                parts.len() as int + 1
            })
        }),
{
    let k = group_at(parts, submenu, name);
    group_at_found(parts, submenu, name);
    assert(parts.push(p).drop_last() =~= parts);
}

fn place(
    parts: &mut Vec<MenuPart>,
    seen: &mut AHashMap<(Vec<u8>, Vec<u8>), u64>,
    i: usize,
    entry: &ContextMenuEntry,
)
    requires
        remembers(collections::pairs(*old(seen)), part_views(old(parts)@)),
        old(parts)@.len() < u64::MAX,
    ensures
        part_views(final(parts)@) == placed(part_views(old(parts)@), i, group_of(*entry)),
        remembers(collections::pairs(*final(seen)), part_views(final(parts)@)),
        final(parts)@.len() <= old(parts)@.len() + 1,
{
    let ghost before = part_views(parts@);
    let ghost group = group_of(*entry);
    let (submenu, name): (bool, &String) = match &entry.group {
        None => {
            parts.push(MenuPart::Entry(i));
            proof {
                let after = part_views(parts@);
                assert(after =~= before.push(PartView::Entry(i)));
                assert forall|s: bool, n: Seq<char>|
                    #![trigger group_at(after, s, n)]
                    {
                        let key = (tag(s), encode_utf8(n));
                        let k = group_at(after, s, n);
                        let m = collections::pairs(*seen);
                        &&& m.dom().contains(key) <==> k < after.len()
                        &&& k < after.len() ==> m[key] == k
                    } by {
                    placing_keeps_groups(before, i, group, s, n);
                }
            }
            return;
        },
        Some(ContextMenuGroup::Submenu(n)) => (true, n),
        Some(ContextMenuGroup::Section(n)) => (false, n),
    };
    let bytes = name.as_str().as_bytes_vec();
    proof {
        group_at_found(before, submenu, name@);
    }
    let ghost at = group_at(before, submenu, name@);
    assert({
        let key = (tag(submenu), encode_utf8(name@));
        let m = collections::pairs(*seen);
        &&& m.dom().contains(key) <==> at < before.len()
        &&& at < before.len() ==> m[key] == at
    });
    let known: Option<u64> = get_pair(seen, tag_bytes(submenu), name.as_str().as_bytes_vec());
    assert(bytes@ == encode_utf8(name@));
    assert(known == if at < before.len() {
        Some(at as u64)
    } else {
        None
    });
    match known {
        Some(position) => {
            assert(at < before.len() && position == at as u64);
            assert(before.len() == parts@.len() && parts@.len() == parts.len());
            let k: usize = position as usize;
            assert(k == at && k < parts.len());
            assert(before[k as int] == parts@[k as int]@);
            let mut items: Vec<usize> = match &parts[k] {
                MenuPart::Group { items, .. } => copy_numbers(items),
                _ => Vec::new(),
            };
            items.push(i);
            parts.set(k, MenuPart::Group { submenu, name: name.clone(), items });
            proof {
                let after = part_views(parts@);
                assert(after =~= placed(before, i, group));
                assert forall|s: bool, n: Seq<char>|
                    #![trigger group_at(after, s, n)]
                    {
                        let key = (tag(s), encode_utf8(n));
                        let g = group_at(after, s, n);
                        let m = collections::pairs(*seen);
                        &&& m.dom().contains(key) <==> g < after.len()
                        &&& g < after.len() ==> m[key] == g
                    } by {
                    placing_keeps_groups(before, i, group, s, n);
                }
            }
        },
        None => {
            let mut items: Vec<usize> = Vec::new();
            items.push(i);
            assert(items@ =~= seq![i]);
            let ghost old_map = collections::pairs(*seen);
            set_pair(seen, tag_bytes(submenu), bytes, parts.len() as u64);
            let new = MenuPart::Group { submenu, name: name.clone(), items };
            parts.push(new);
            proof {
                let after = part_views(parts@);
                let p = new@;
                assert(after =~= before.push(p));
                let m = collections::pairs(*seen);
                assert forall|s: bool, n: Seq<char>|
                    #![trigger group_at(after, s, n)]
                    {
                        let key = (tag(s), encode_utf8(n));
                        let g = group_at(after, s, n);
                        &&& m.dom().contains(key) <==> g < after.len()
                        &&& g < after.len() ==> m[key] == g
                    } by {
                    new_group_at(before, p, submenu, name@, s, n);
                    group_at_found(before, s, n);
                    encode_utf8_decode_utf8(n);
                    encode_utf8_decode_utf8(name@);
                    assert(tag(s)[0] == tag(submenu)[0] ==> s == submenu);
                    let g = group_at(before, s, n);
                    assert(old_map.dom().contains((tag(s), encode_utf8(n))) <==> g < before.len());
                }
            }
        },
    }
}

fn copy_numbers(v: &Vec<usize>) -> (r: Vec<usize>)
    ensures
        r@ == v@,
{
    let mut r: Vec<usize> = Vec::new();
    let mut i: usize = 0;
    while i < v.len()
        invariant
            i <= v.len(),
            r@ =~= v@.take(i as int),
        decreases v.len() - i,
    {
        r.push(v[i]);
        i += 1;
    }
    assert(r@ =~= v@);
    r
}

proof fn leading_bounds(acts: Seq<CustomAction>)
    ensures
        leading(acts) <= acts.len(),
    decreases acts.len(),
{
    if acts.len() > 0 && acts[0].settings@.priority < 0 {
        leading_bounds(acts.skip(1));
    }
}

/// Lays out the menu.
pub fn rebuild_menu(acts: &Vec<CustomAction>, entries: &Vec<ContextMenuEntry>) -> (r: Vec<MenuPart>)
    requires
        acts@.len() + entries@.len() < usize::MAX,
    ensures
        part_views(r@) == menu_parts(acts@, entries@),
{
    let mut parts: Vec<MenuPart> = Vec::new();
    let mut seen = no_pairs();
    let mut c: usize = 0;
    assert(acts@.skip(0) =~= acts@);
    proof {
        leading_bounds(acts@);
        assert(part_views(parts@) =~= custom_parts(0, 0));
    }
    while c < acts.len() && acts[c].settings.priority < 0
        invariant
            c <= acts.len(),
            leading(acts@) == c + leading(acts@.skip(c as int)),
            part_views(parts@) == custom_parts(0, c as nat),
            parts@.len() == c,
            forall|j: int| 0 <= j < part_views(parts@).len() ==> !((#[trigger] part_views(parts@)[j])
                is Group),
        decreases acts.len() - c,
    {
        let ghost before = part_views(parts@);
        assert(acts@.skip(c as int).skip(1) =~= acts@.skip(c + 1));
        parts.push(MenuPart::Custom(c));
        assert(part_views(parts@) =~= before.push(PartView::Custom(c)));
        c += 1;
    }
    assert(leading(acts@) == c);
    proof {
        remembers_without_groups(collections::pairs(seen), part_views(parts@));
    }
    let ghost first = part_views(parts@);
    let mut i: usize = 0;
    while i < entries.len()
        invariant
            i <= entries.len(),
            c <= acts.len(),
            acts@.len() + entries@.len() < usize::MAX,
            parts@.len() <= c + i,
            part_views(parts@) == with_entries(first, entries@, i as nat),
            remembers(collections::pairs(seen), part_views(parts@)),
        decreases entries.len() - i,
    {
        place(&mut parts, &mut seen, i, &entries[i]);
        i += 1;
    }
    let ghost middle = part_views(parts@);
    let ghost lead = c as nat;
    assert(middle + custom_parts(lead, lead) =~= middle);
    while c < acts.len()
        invariant
            lead <= c <= acts.len(),
            part_views(parts@) == middle + custom_parts(lead, c as nat),
        decreases acts.len() - c,
    {
        let ghost before = part_views(parts@);
        parts.push(MenuPart::Custom(c));
        assert(part_views(parts@) =~= before.push(PartView::Custom(c)));
        c += 1;
        assert(middle + custom_parts(lead, c as nat) =~= (middle + custom_parts(
            lead,
            (c - 1) as nat,
        )).push(PartView::Custom((c - 1) as usize)));
    }
    parts
}

/// Decides which custom actions are shown for the items, or for the directory
/// if there are none.
pub fn prepare(acts: &Vec<CustomAction>, entries: &Vec<&Entry>, dir: &FilePath) -> (r: Vec<bool>)
    ensures
        r@.len() == acts@.len(),
        forall|i: int|
            0 <= i < acts@.len() ==> #[trigger] r@[i] == acts@[i].settings@.spec_offered(
                entries@,
                dir@,
            ),
{
    let mut r: Vec<bool> = Vec::new();
    let mut i: usize = 0;
    while i < acts.len()
        invariant
            i <= acts.len(),
            r@.len() == i,
            forall|k: int|
                0 <= k < i ==> #[trigger] r@[k] == acts@[k].settings@.spec_offered(
                    entries@,
                    dir@,
                ),
        decreases acts.len() - i,
    {
        r.push(acts[i].settings.offered(entries, dir));
        i += 1;
    }
    r
}

/// In actions that are sorted, those of negative priority all come first.
pub proof fn negative_priorities_lead(acts: Seq<CustomAction>, i: int)
    requires
        actions::sorted_actions(acts),
        0 <= i < acts.len(),
    ensures
        acts[i].settings@.priority < 0 <==> i < leading(acts),
    decreases acts.len(),
{
    leading_bounds(acts);
    if acts[0].settings@.priority < 0 {
        if i > 0 {
            assert(actions::sorted_actions(acts.skip(1))) by {
                assert forall|a: int, b: int| 0 <= a < b < acts.skip(1).len() implies !(
                actions::action_order(
                    #[trigger] &acts.skip(1)[a],
                    #[trigger] &acts.skip(1)[b],
                ) is Greater) by {
                    assert(!(actions::action_order(&acts[a + 1], &acts[b + 1]) is Greater));
                }
            }
            negative_priorities_lead(acts.skip(1), i - 1);
        }
    } else if i > 0 {
        assert(!(actions::action_order(&acts[0], &acts[i]) is Greater));
    }
}

/// A command of the menu that sets how a directory is shown is known by its first word,
/// and what follows is what it sets. All other commands are kept as they are.
pub proof fn first_words(arg: Seq<char>, command: Seq<char>)
    requires
        arg.len() > 0,
        !strings::is_space(arg[0]),
    ensures
        MenuCommand::parsed("Display"@ + seq![' '] + arg) == (MenuCommand::Display, arg),
        MenuCommand::parsed("SortBy"@ + seq![' '] + arg) == (MenuCommand::SortMode, arg),
        MenuCommand::parsed("SortDir"@ + seq![' '] + arg) == (MenuCommand::SortDir, arg),
        MenuCommand::parsed(command).0 is Action ==> MenuCommand::parsed(command).1 == command,
        !command.contains(' ') ==> MenuCommand::parsed(command) == (MenuCommand::Action, command),
{
    reveal_strlit("Display");
    reveal_strlit("SortBy");
    reveal_strlit("SortDir");
    let (a, b, c) = ("Display"@, "SortBy"@, "SortDir"@);
    assert forall|i: int| 0 <= i < a.len() implies #[trigger] a[i] != ' ' by {}
    assert forall|i: int| 0 <= i < b.len() implies #[trigger] b[i] != ' ' by {}
    assert forall|i: int| 0 <= i < c.len() implies #[trigger] c[i] != ' ' by {}
    assert(a.len() == 7 && b.len() == 6 && c.len() == 7 && a[0] != c[0]);
    strings::first_separator_splits(a, arg, ' ');
    strings::first_separator_splits(b, arg, ' ');
    strings::first_separator_splits(c, arg, ' ');
    if !command.contains(' ') {
        strings::first_separator_splits(command, Seq::empty(), ' ');
    }
}

} // verus!
