//! What an update of the file system means for the entries that are in use.
use std::sync::Arc;

use vstd::prelude::*;

use crate::contents::{self, Contents, Item, PartiallyAppliedUpdate};
use crate::entry::Entry;
use crate::objects::Objects;
use crate::path::{self, FilePath};
use crate::rows;
use crate::search::ThumbRequest;
use crate::update::Update;

verus! {

/// Whether an entry is in use, and whether a directory's own rows show it.
pub enum ExistingEntry {
    /// It is shown, in this row.
    Present(Arc<Entry>, usize),
    /// Only a search shows it.
    NotLocal(Arc<Entry>),
    Missing,
}

impl ExistingEntry {
    pub open spec fn entry(self) -> Option<Arc<Entry>> {
        match self {
            ExistingEntry::Present(e, _) => Some(e),
            ExistingEntry::NotLocal(e) => Some(e),
            ExistingEntry::Missing => None,
        }
    }
}

/// How an update is applied.
pub struct Effect {
    /// To the rows of the directory itself.
    pub own: Option<PartiallyAppliedUpdate>,
    /// To searches that started elsewhere.
    pub searches: Option<PartiallyAppliedUpdate>,
}

/// The first row for a file with the given inode.
pub open spec fn with_inode(list: Seq<Item>, inode: u64) -> Option<Arc<Entry>>
    decreases list.len(),
{
    if list.len() == 0 {
        None
    } else if list[0].entry.inode == inode {
        Some(list[0].entry)
    } else {
        with_inode(list.drop_first(), inode)
    }
}

/// Whether a file is one that NFS keeps because it was removed while open.
pub open spec fn silly_name(p: Seq<Seq<u8>>) -> bool {
    p.len() > 0 && p.last().len() >= 4 && p.last().take(4) == seq![46u8, 110u8, 102u8, 115u8]
}

/// The entry that an update is about. Removing an open file on NFS renames it,
/// so it is found by its inode.
pub open spec fn subject(
    o: Objects,
    list: Seq<Item>,
    up: Update,
    inode: Option<u64>,
) -> Option<Arc<Entry>> {
    match (o.entry_of(up.spec_path()), up, inode) {
        (None, Update::Removed(p), Some(n)) if silly_name(p@) => with_inode(list, n),
        (found, _, _) => found,
    }
}

/// How an update is applied, given the entry it is about and whether the
/// directory shows it.
pub open spec fn effect(up: Update, found: Option<Arc<Entry>>, shown: bool) -> Effect {
    match (up, found) {
        (Update::Entry(e), Some(x)) => if shown {
            if x.same_as(&e) {
                Effect { own: None, searches: None }
            } else {
                let u = PartiallyAppliedUpdate::Mutate(x, e);
                Effect { own: Some(u), searches: Some(u) }
            }
        } else if x.same_as(&e) {
            Effect { own: Some(PartiallyAppliedUpdate::Insert(x)), searches: None }
        } else {
            Effect {
                own: Some(PartiallyAppliedUpdate::Insert(e)),
                searches: Some(PartiallyAppliedUpdate::Mutate(x, e)),
            }
        },
        (Update::Entry(e), None) => Effect {
            own: Some(PartiallyAppliedUpdate::Insert(e)),
            searches: None,
        },
        (Update::Removed(_), Some(x)) => if shown {
            Effect { own: Some(PartiallyAppliedUpdate::Delete(x)), searches: None }
        } else {
            Effect { own: None, searches: Some(PartiallyAppliedUpdate::Delete(x)) }
        },
        (Update::Removed(_), None) => Effect { own: None, searches: None },
    }
}

fn find_inode(list: &Vec<Item>, inode: u64) -> (r: Option<Arc<Entry>>)
    ensures
        r == with_inode(list@, inode),
        r matches Some(e) ==> exists|i: int| 0 <= i < list@.len() && (#[trigger] list@[i]).entry == e,
{
    let mut i: usize = 0;
    assert(list@.skip(0) =~= list@);
    while i < list.len()
        invariant
            i <= list@.len(),
            with_inode(list@, inode) == with_inode(list@.skip(i as int), inode),
        decreases list@.len() - i,
    {
        assert(list@.skip(i as int).drop_first() =~= list@.skip(i + 1));
        if list[i].entry.inode == inode {
            return Some(list[i].entry.clone());
        }
        i += 1;
    }
    None
}

fn is_silly_name(p: &FilePath) -> (r: bool)
    ensures
        r == silly_name(p@),
{
    match p.file_name() {
        Some(n) => {
            let r = n.len() >= 4 && n[0] == 46 && n[1] == 110 && n[2] == 102 && n[3] == 115;
            proof {
                if n@.len() >= 4 {
                    assert(r <==> n@.take(4) =~= seq![46u8, 110u8, 102u8, 115u8]);
                }
            }
            r
        },
        None => false,
    }
}

/// Looks for the entry that an update is about. `inode` is that of the file
/// that was reported as removed, if it still exists.
pub fn liststore_entry_for_update(
    contents: &Contents,
    all: &Objects,
    up: &Update,
    inode: Option<u64>,
) -> (r: ExistingEntry)
    requires
        all.valid(),
        rows::sound(*contents, *all),
        path::valid_parts(up.spec_path()),
    ensures
        r.entry() == subject(*all, contents.list@, *up, inode),
        r matches ExistingEntry::Present(e, p) ==> p < contents.list@.len()
            && contents.list@[p as int].entry == e,
        r.entry() matches Some(e) ==> {
            &&& all.entry_of(e.abs_path@) == Some(e)
            &&& e.ready()
            &&& path::valid_parts(e.abs_path@)
            &&& (r is Present <==> rows::path_set(contents.list@).contains(e.abs_path@))
            &&& all.entry_of(up.spec_path()) is Some ==> e.abs_path@ == up.spec_path()
            &&& all.entry_of(up.spec_path()) is None ==> r is Present
        },
{
    let mut global = all.find_entry(up.path());
    let ghost known = global is Some;
    proof {
        if known {
            let id = all.id_of(up.spec_path())->0;
            assert(all.object(id) matches Some(o) && o.entry.abs_path@ == up.spec_path());
            assert(all.slots@[id as int] is Some);
        }
    }
    if global.is_none() {
        if let (Update::Removed(p), Some(n)) = (up, inode) {
            if is_silly_name(p) {
                global = find_inode(&contents.list, n);
                let ghost named = global;
                proof {
                    if let Some(e) = named {
                        let i = choose|i: int|
                            0 <= i < contents.list@.len() && (#[trigger] contents.list@[i]).entry == e;
                        rows::valid_row(contents.list@, *all, i);
                        rows::row_in_set(contents.list@, i);
                    }
                }
            }
        }
    }
    match global {
        Some(e) => {
            proof {
                rows::sound_is_locatable(*contents, *all, &e);
            }
            match contents.total_position_by_sorted(&e) {
                Some(p) => {
                    proof {
                        assert(all.entry_of(contents.list@[p as int].entry.abs_path@) == Some(
                            contents.list@[p as int].entry,
                        ));
                        rows::row_in_set(contents.list@, p as int);
                    }
                    ExistingEntry::Present(e, p)
                },
                None => ExistingEntry::NotLocal(e),
            }
        },
        None => ExistingEntry::Missing,
    }
}

/// Brings the entries in use up to date, and says what is left to do. Also
/// returns a thumbnail that is to be loaded.
pub fn decide(all: &mut Objects, up: Update, found: ExistingEntry) -> (r: (
    Effect,
    Option<ThumbRequest>,
))
    requires
        old(all).valid(),
        old(all).slots@.len() < usize::MAX,
        path::valid_parts(up.spec_path()),
        up matches Update::Entry(e) ==> e.ready() && found.entry() == old(all).entry_of(
            e.abs_path@,
        ),
        found.entry() matches Some(e) ==> old(all).entry_of(e.abs_path@) == Some(e) && e.ready()
            && path::valid_parts(e.abs_path@),
    ensures
        final(all).valid(),
        final(all).config == old(all).config,
        old(all).slots@.len() <= final(all).slots@.len() <= old(all).slots@.len() + 1,
        r.0 == effect(up, found.entry(), found is Present),
        r.0.own matches Some(u) ==> rows::tells(u, *old(all), *final(all)),
        r.0.searches matches Some(u) ==> rows::tells(u, *old(all), *final(all)),
        !(r.0.searches matches Some(PartiallyAppliedUpdate::Mutate(..))) ==> rows::kept(
            *old(all),
            *final(all),
        ),
        match up {
            Update::Entry(e) => {
                let reg = old(all).registers(e, true);
                &&& old(all).registered(e, true, *final(all))
                &&& rows::same_but(*old(all), *final(all), e.abs_path@)
                &&& final(all).entry_of(e.abs_path@) == (match found.entry() {
                    Some(x) if x.same_as(&e) => Some(x),
                    _ => Some(e),
                })
                &&& match reg.1 {
                    Some((priority, from_event)) => final(all).id_of(e.abs_path@) matches Some(id)
                        && r.1 == Some(ThumbRequest { id, priority, from_event }),
                    None => r.1 is None,
                }
            },
            Update::Removed(_) => *final(all) == *old(all) && r.1 is None,
        },
{
    match up {
        Update::Entry(e) => {
            let ghost before = *all;
            let reg = all.create_or_update(e.clone(), true);
            proof {
                if !(before.entry_of(e.abs_path@) matches Some(x) && !x.same_as(&e)) {
                    assert forall|q: Seq<Seq<u8>>|
                        path::valid_parts(q) && before.entry_of(q) is Some implies
                        #[trigger] all.entry_of(q) == before.entry_of(q) by {}
                }
            }
            let thumb = match reg.queue {
                Some((priority, from_event)) => Some(
                    ThumbRequest { id: reg.id, priority, from_event },
                ),
                None => None,
            };
            let effect = match (found, reg.old) {
                (ExistingEntry::Present(_, _), Some(x)) => Effect {
                    own: Some(PartiallyAppliedUpdate::Mutate(x.clone(), e.clone())),
                    searches: Some(PartiallyAppliedUpdate::Mutate(x, e)),
                },
                (ExistingEntry::Present(_, _), None) => Effect { own: None, searches: None },
                (ExistingEntry::NotLocal(_), Some(x)) => Effect {
                    own: Some(PartiallyAppliedUpdate::Insert(e.clone())),
                    searches: Some(PartiallyAppliedUpdate::Mutate(x, e)),
                },
                (ExistingEntry::NotLocal(x), None) => Effect {
                    own: Some(PartiallyAppliedUpdate::Insert(x)),
                    searches: None,
                },
                (ExistingEntry::Missing, _) => Effect {
                    own: Some(PartiallyAppliedUpdate::Insert(e)),
                    searches: None,
                },
            };
            (effect, thumb)
        },
        Update::Removed(_) => {
            let effect = match found {
                ExistingEntry::Present(x, _) => Effect {
                    own: Some(PartiallyAppliedUpdate::Delete(x)),
                    searches: None,
                },
                ExistingEntry::NotLocal(x) => Effect {
                    own: None,
                    searches: Some(PartiallyAppliedUpdate::Delete(x)),
                },
                ExistingEntry::Missing => Effect { own: None, searches: None },
            };
            (effect, None)
        },
    }
}

/// An update that reports what is known already changes nothing.
pub proof fn known_changes_nothing(e: Arc<Entry>)
    ensures
        e.same_as(&e),
        effect(Update::Entry(e), Some(e), true) == (Effect { own: None, searches: None }),
{
}

/// Searches elsewhere only ever see an entry change or go: what they show, they
/// found themselves.
pub proof fn searches_gain_nothing(up: Update, found: Option<Arc<Entry>>, shown: bool)
    ensures
        !(effect(up, found, shown).searches matches Some(PartiallyAppliedUpdate::Insert(_))),
{
}

/// A file that is new here gets a row, one that has changed gets its row changed, and
/// one that is as it was changes nothing. Searches hear of every change.
pub proof fn changes_are_shown(e: Arc<Entry>, found: Option<Arc<Entry>>, shown: bool)
    requires
        shown ==> found is Some,
    ensures
        ({
            let r = effect(Update::Entry(e), found, shown);
            &&& !shown ==> (r.own matches Some(PartiallyAppliedUpdate::Insert(new)) && new.same_as(
                &e,
            ))
            &&& shown && found->0.same_as(&e) ==> r.own is None
            &&& shown && !found->0.same_as(&e) ==> r.own == Some(
                PartiallyAppliedUpdate::Mutate(found->0, e),
            )
            &&& found is Some && !found->0.same_as(&e) ==> r.searches == Some(
                PartiallyAppliedUpdate::Mutate(found->0, e),
            )
            &&& found is None || found->0.same_as(&e) ==> r.searches is None
        }),
{
}

/// A file that is gone loses its row where it has one, or else its place in searches.
pub proof fn removals_are_shown(up: Update, found: Option<Arc<Entry>>, shown: bool)
    requires
        up is Removed,
    ensures
        ({
            let r = effect(up, found, shown);
            &&& found is None ==> r.own is None && r.searches is None
            &&& found matches Some(x) ==> if shown {
                r.own == Some(PartiallyAppliedUpdate::Delete(x)) && r.searches is None
            } else {
                r.searches == Some(PartiallyAppliedUpdate::Delete(x)) && r.own is None
            }
        }),
{
}

/// A file is found by its inode where one of the rows has it, and only there.
pub proof fn found_by_inode(list: Seq<Item>, inode: u64)
    ensures
        with_inode(list, inode) matches Some(e) ==> e.inode == inode && exists|i: int|
            0 <= i < list.len() && (#[trigger] list[i]).entry == e,
        with_inode(list, inode) is None ==> forall|i: int|
            0 <= i < list.len() ==> (#[trigger] list[i]).entry.inode != inode,
    decreases list.len(),
{
    if list.len() > 0 {
        let rest = list.drop_first();
        if list[0].entry.inode != inode {
            found_by_inode(rest, inode);
            if let Some(e) = with_inode(rest, inode) {
                let i = choose|i: int| 0 <= i < rest.len() && (#[trigger] rest[i]).entry == e;
                assert(list[i + 1].entry == e);
            } else {
                assert forall|i: int| 0 <= i < list.len() implies (
                #[trigger] list[i]).entry.inode != inode by {
                    if i > 0 {
                        assert(rest[i - 1] == list[i]);
                    }
                }
            }
        } else {
            assert(list[0].entry == with_inode(list, inode)->0);
        }
    }
}

/// A file that is renamed because it was removed while it is open is found by its
/// inode. Every other change is about the file that is in use for its path.
pub proof fn what_changes_are_about(
    o: Objects,
    list: Seq<Item>,
    up: Update,
    inode: Option<u64>,
    dir: Seq<Seq<u8>>,
    rest: Seq<u8>,
)
    ensures
        up is Entry || inode is None || o.entry_of(up.spec_path()) is Some ==> subject(
            o,
            list,
            up,
            inode,
        ) == o.entry_of(up.spec_path()),
        up is Removed && inode is Some && o.entry_of(up.spec_path()) is None && up.spec_path()
            == dir.push(seq![46u8, 110u8, 102u8, 115u8] + rest) ==> subject(o, list, up, inode)
            == with_inode(list, inode->0),
{
    let name = seq![46u8, 110u8, 102u8, 115u8] + rest;
    assert(dir.push(name).last() == name);
    assert(name.take(4) =~= seq![46u8, 110u8, 102u8, 115u8]);
}

} // verus!
