//! Opening files and directories.
use std::sync::Arc;

use ahash::{AHashMap, AHashSet};
use vstd::prelude::*;
use vstd::string::*;
use vstd::utf8::*;

use crate::collections::{
    self, empty_set, get_pair, no_pairs, remove_pair, set_contains, set_insert, set_pair,
};
use crate::entry::{Entry, EntryKind};
use crate::natsort::{self, to_lowercase};
use crate::operations;
use crate::path::FilePath;
use crate::properties::{self, partition};
use crate::strings::{self, lossy_text};
use crate::text::{self, contains_bytes, decimal_string, same_text};

verus! {

/// New tabs are only opened for so many directories.
pub const DIR_OPEN_LIMIT: usize = 10;

/// What opening entries comes down to.
pub enum OpenAction {
    /// Directories and files cannot be opened together.
    Both,
    /// The file is run.
    Execute(Arc<Entry>),
    /// The files are opened by their applications.
    Launch(Vec<Arc<Entry>>),
    /// There are too many directories.
    TooMany,
    /// The tab goes to the directory.
    Navigate(Arc<Entry>),
    /// Tabs are opened after this one, the last directory first.
    OpenTabs(Vec<Arc<Entry>>),
}

/// Whether a file can be run.
pub open spec fn is_executable(e: &Entry) -> bool {
    e.kind matches EntryKind::File { executable, .. } && executable
}

/// Whether opening entries comes down to the given action.
pub open spec fn opens_as(entries: Seq<Arc<Entry>>, execute: bool, r: OpenAction) -> bool {
    let files = properties::only(entries, false);
    let dirs = properties::only(entries, true);
    if files.len() > 0 && dirs.len() > 0 {
        r is Both
    } else if execute && files.len() == 1 && is_executable(&files[0]) {
        r == OpenAction::Execute(files[0])
    } else if files.len() > 0 {
        r matches OpenAction::Launch(v) && v@ == files
    } else if dirs.len() > DIR_OPEN_LIMIT {
        r is TooMany
    } else if dirs.len() == 1 {
        r == OpenAction::Navigate(dirs[0])
    } else {
        r matches OpenAction::OpenTabs(v) && v@ == dirs.reverse()
    }
}

proof fn of_one_kind(entries: Seq<Arc<Entry>>, dirs: bool)
    requires
        forall|i: int|
            0 <= i < entries.len() ==> ((#[trigger] entries[i]).kind is Directory) == dirs,
    ensures
        properties::only(entries, dirs) == entries,
        properties::only(entries, !dirs) == Seq::<Arc<Entry>>::empty(),
    decreases entries.len(),
{
    if entries.len() > 0 {
        let front = entries.drop_last();
        assert((entries[entries.len() - 1].kind is Directory) == dirs);
        assert forall|i: int| 0 <= i < front.len() implies ((#[trigger] front[i]).kind is Directory)
            == dirs by {
            assert(front[i] == entries[i]);
        }
        of_one_kind(front, dirs);
        assert(front.push(entries.last()) =~= entries);
    } else {
        assert(properties::only(entries, dirs) =~= entries);
    }
}

/// Files are all launched, in their order, unless it is a single one that can be run
/// and was asked to be. Nothing is ever run otherwise.
pub proof fn files_are_launched(entries: Seq<Arc<Entry>>, execute: bool, r: OpenAction)
    requires
        opens_as(entries, execute, r),
        entries.len() > 0,
        forall|i: int| 0 <= i < entries.len() ==> !((#[trigger] entries[i]).kind is Directory),
    ensures
        r is Execute <==> execute && entries.len() == 1 && (
        entries[0].kind matches EntryKind::File { executable, .. } && executable),
        r matches OpenAction::Execute(e) ==> e == entries[0],
        !(r is Execute) ==> (r matches OpenAction::Launch(v) && v@ == entries),
{
    of_one_kind(entries, false);
}

/// A single directory is gone to, up to ten get tabs of their own, and more are
/// refused.
pub proof fn directories_get_tabs(entries: Seq<Arc<Entry>>, execute: bool, r: OpenAction)
    requires
        opens_as(entries, execute, r),
        entries.len() > 0,
        forall|i: int| 0 <= i < entries.len() ==> (#[trigger] entries[i]).kind is Directory,
    ensures
        r is TooMany <==> entries.len() > 10,
        r is Navigate <==> entries.len() == 1,
        r matches OpenAction::Navigate(e) ==> e == entries[0],
        1 < entries.len() <= 10 ==> (r matches OpenAction::OpenTabs(v) && v@.len() == entries.len()
            && forall|i: int|
            0 <= i < entries.len() ==> #[trigger] v@[i] == entries[entries.len() - 1 - i]),
{
    of_one_kind(entries, true);
}

/// Directories and files are not opened together.
pub proof fn kinds_are_opened_apart(
    entries: Seq<Arc<Entry>>,
    execute: bool,
    r: OpenAction,
    i: int,
    j: int,
)
    requires
        opens_as(entries, execute, r),
        0 <= i < entries.len(),
        0 <= j < entries.len(),
        entries[i].kind is Directory,
        !(entries[j].kind is Directory),
    ensures
        r is Both,
{
    holds_its_kind(entries, i);
    holds_its_kind(entries, j);
}

proof fn holds_its_kind(entries: Seq<Arc<Entry>>, i: int)
    requires
        0 <= i < entries.len(),
    ensures
        properties::only(entries, entries[i].kind is Directory).len() > 0,
    decreases entries.len(),
{
    if i < entries.len() - 1 {
        assert(entries.drop_last()[i] == entries[i]);
        holds_its_kind(entries.drop_last(), i);
    }
}

/// Decides what opening entries comes down to. `execute` says whether a single
/// file that can be run is.
pub fn open(entries: &Vec<Arc<Entry>>, execute: bool) -> (r: OpenAction)
    ensures
        opens_as(entries@, execute, r),
{
    let (files, dirs) = partition(entries);
    if files.len() > 0 && dirs.len() > 0 {
        return OpenAction::Both;
    }
    if execute && files.len() == 1 {
        if let EntryKind::File { executable: true, .. } = files[0].kind {
            return OpenAction::Execute(files[0].clone());
        }
    }
    if files.len() > 0 {
        return OpenAction::Launch(files);
    }
    if dirs.len() > DIR_OPEN_LIMIT {
        return OpenAction::TooMany;
    }
    if dirs.len() == 1 {
        return OpenAction::Navigate(dirs[0].clone());
    }
    let mut back: Vec<Arc<Entry>> = Vec::new();
    let mut i: usize = dirs.len();
    while i > 0
        invariant
            i <= dirs.len(),
            back@ =~= dirs@.skip(i as int).reverse(),
        decreases i,
    {
        i -= 1;
        back.push(dirs[i].clone());
    }
    assert(back@ =~= dirs@.reverse());
    OpenAction::OpenTabs(back)
}

/// The default applications that were looked up, by mime type, so that none is
/// looked up twice, even if nothing was found. A number stands for an
/// application.
pub struct DefaultCache {
    pub map: AHashMap<(Vec<u8>, Vec<u8>), u64>,
}

impl DefaultCache {
    /// What is remembered for a mime type.
    pub open spec fn known(self, mime: Seq<char>) -> Option<Option<u64>> {
        let key = (encode_utf8(mime), Seq::<u8>::empty());
        let m = collections::pairs(self.map);
        if m.dom().contains(key) {
            Some(
                if m[key] == 0 {
                    None
                } else {
                    Some((m[key] - 1) as u64)
                },
            )
        } else {
            None
        }
    }

    pub fn new() -> (r: DefaultCache)
        ensures
            forall|m: Seq<char>| #[trigger] r.known(m) is None,
    {
        DefaultCache { map: no_pairs() }
    }

    /// What is remembered for a mime type.
    pub fn get(&self, mime: &str) -> (r: Option<Option<u64>>)
        ensures
            r == self.known(mime@),
    {
        let nothing: Vec<u8> = Vec::new();
        assert(nothing@ =~= Seq::empty());
        match get_pair(&self.map, mime.as_bytes_vec(), nothing) {
            Some(n) => Some(
                if n == 0 {
                    None
                } else {
                    Some(n - 1)
                },
            ),
            None => None,
        }
    }

    /// Remembers what was found for a mime type.
    pub fn put(&mut self, mime: &str, app: Option<u64>)
        requires
            app matches Some(a) ==> a < u64::MAX,
        ensures
            final(self).known(mime@) == Some(app),
            forall|m: Seq<char>|
                m != mime@ ==> #[trigger] final(self).known(m) == old(self).known(m),
    {
        let nothing: Vec<u8> = Vec::new();
        assert(nothing@ =~= Seq::empty());
        let n: u64 = match app {
            Some(a) => a + 1,
            None => 0,
        };
        set_pair(&mut self.map, mime.as_bytes_vec(), nothing, n);
        proof {
            assert forall|m: Seq<char>| m != mime@ implies #[trigger] self.known(m) == old(
                self,
            ).known(m) by {
                encode_utf8_decode_utf8(m);
                encode_utf8_decode_utf8(mime@);
            }
        }
    }

    /// Forgets a mime type, whose default has changed.
    pub fn forget(&mut self, mime: &str)
        ensures
            final(self).known(mime@) is None,
            forall|m: Seq<char>|
                m != mime@ ==> #[trigger] final(self).known(m) == old(self).known(m),
    {
        let nothing: Vec<u8> = Vec::new();
        assert(nothing@ =~= Seq::empty());
        remove_pair(&mut self.map, mime.as_bytes_vec(), nothing);
        proof {
            assert forall|m: Seq<char>| m != mime@ implies #[trigger] self.known(m) == old(
                self,
            ).known(m) by {
                encode_utf8_decode_utf8(m);
                encode_utf8_decode_utf8(mime@);
            }
        }
    }
}

/// An application and the positions of the files that it opens.
pub struct Launch {
    pub app: u64,
    pub files: Vec<usize>,
}

pub open spec fn launch_views(v: Seq<Launch>) -> Seq<(u64, Seq<usize>)> {
    Seq::new(v.len(), |i: int| (v[i].app, v[i].files@))
}

/// Where an application stands among the launches, or their number.
pub open spec fn launch_at(v: Seq<(u64, Seq<usize>)>, app: u64, i: int) -> int
    decreases v.len() - i,
{
    if i >= v.len() {
        v.len() as int
    } else if v[i].0 == app {
        i
    } else {
        launch_at(v, app, i + 1)
    }
}

/// The launches for the first `n` files. Each application is launched once, in
/// the order of its first file; a file without an application is left out.
pub open spec fn launches(apps: Seq<Option<u64>>, n: nat) -> Seq<(u64, Seq<usize>)>
    decreases n,
{
    if n == 0 {
        Seq::empty()
    } else {
        let before = launches(apps, (n - 1) as nat);
        match apps[n - 1] {
            None => before,
            Some(app) => {
                let k = launch_at(before, app, 0);
                if k < before.len() {
                    before.update(k, (app, before[k].1.push((n - 1) as usize)))
                } else {
                    before.push((app, seq![(n - 1) as usize]))
                }
            },
        }
    }
}

/// The first file without an application, or the number of files.
pub open spec fn first_unknown(apps: Seq<Option<u64>>, i: int) -> int
    decreases apps.len() - i,
{
    if i >= apps.len() {
        apps.len() as int
    } else if apps[i] is None {
        i
    } else {
        first_unknown(apps, i + 1)
    }
}

fn find_launch(v: &Vec<Launch>, app: u64) -> (r: usize)
    ensures
        r == launch_at(launch_views(v@), app, 0),
        r <= v.len(),
{
    let mut i: usize = 0;
    while i < v.len()
        invariant
            i <= v.len(),
            launch_at(launch_views(v@), app, 0) == launch_at(launch_views(v@), app, i as int),
        decreases v.len() - i,
    {
        if v[i].app == app {
            return i;
        }
        i += 1;
    }
    i
}

/// Groups files by the application that opens each of them. Also returns the
/// first file for which there is none; only that one is reported.
pub fn partition_and_launch(apps: &Vec<Option<u64>>) -> (r: (Vec<Launch>, Option<usize>))
    ensures
        launch_views(r.0@) == launches(apps@, apps@.len()),
        r.1 == (if first_unknown(apps@, 0) < apps@.len() {
            Some(first_unknown(apps@, 0) as usize)
        } else {
            None
        }),
{
    let mut v: Vec<Launch> = Vec::new();
    let mut unknown: Option<usize> = None;
    let mut i: usize = 0;
    assert(launch_views(v@) =~= Seq::empty());
    while i < apps.len()
        invariant
            i <= apps.len(),
            launch_views(v@) == launches(apps@, i as nat),
            match unknown {
                Some(k) => k == first_unknown(apps@, 0) && k < i,
                None => first_unknown(apps@, 0) == first_unknown(apps@, i as int),
            },
        decreases apps.len() - i,
    {
        let ghost before = launch_views(v@);
        match apps[i] {
            None => {
                if unknown.is_none() {
                    unknown = Some(i);
                }
            },
            Some(app) => {
                let k: usize = find_launch(&v, app);
                proof {
                    launch_at_found(before, app, 0);
                }
                if k < v.len() {
                    let mut l = v.remove(k);
                    let ghost files = l.files@;
                    l.files.push(i);
                    v.insert(k, l);
                    assert(before[k as int] == (app, files));
                    assert(launch_views(v@) =~= before.update(k as int, (app, files.push(i))));
                } else {
                    let mut files: Vec<usize> = Vec::new();
                    files.push(i);
                    assert(files@ =~= seq![i]);
                    v.push(Launch { app, files });
                    assert(launch_views(v@) =~= before.push((app, seq![i])));
                }
            },
        }
        i += 1;
    }
    (v, unknown)
}

/// Every file that has an application is opened by it.
pub proof fn every_file_is_launched(apps: Seq<Option<u64>>, n: nat, i: int) -> (k: int)
    requires
        0 <= i < n <= apps.len(),
        apps.len() <= usize::MAX,
        apps[i] is Some,
    ensures
        0 <= k < launches(apps, n).len(),
        launches(apps, n)[k].0 == apps[i]->0,
        launches(apps, n)[k].1.contains(i as usize),
    decreases n,
{
    let before = launches(apps, (n - 1) as nat);
    let after = launches(apps, n);
    if i == n - 1 {
        let app = apps[i]->0;
        let k = launch_at(before, app, 0);
        launch_at_found(before, app, 0);
        if k < before.len() {
            let files = before[k].1.push(i as usize);
            assert(files[files.len() - 1] == i as usize);
            k
        } else {
            assert(after[before.len() as int].1[0] == i as usize);
            before.len() as int
        }
    } else {
        let k = every_file_is_launched(apps, (n - 1) as nat, i);
        match apps[n - 1] {
            None => {},
            Some(app) => {
                let j = launch_at(before, app, 0);
                launch_at_found(before, app, 0);
                if j < before.len() && j == k {
                    let x = before[k].1.index_of(i as usize);
                    assert(after[k].1[x] == i as usize);
                }
            },
        }
        k
    }
}

proof fn launch_at_found(v: Seq<(u64, Seq<usize>)>, app: u64, i: int)
    requires
        0 <= i <= v.len(),
    ensures
        i <= launch_at(v, app, i) <= v.len(),
        launch_at(v, app, i) < v.len() ==> v[launch_at(v, app, i)].0 == app,
    decreases v.len() - i,
{
    if i < v.len() && v[i].0 != app {
        launch_at_found(v, app, i + 1);
    }
}

/// An application. Numbers stand for what it is and for its id.
#[derive(Clone, Copy, Debug, PartialEq, Eq, Structural)]
pub struct AppInfo {
    pub handle: u64,
    pub id: Option<u64>,
    pub should_show: bool,
}

/// Whether an application is among those that were taken: by its id, or by
/// itself if it has none.
pub open spec fn taken(a: AppInfo, ids: Set<u64>, v: Seq<AppInfo>) -> bool {
    match a.id {
        Some(id) => ids.contains(id),
        None => exists|i: int| 0 <= i < v.len() && (#[trigger] v[i]).handle == a.handle,
    }
}

/// The ids of applications.
pub open spec fn ids_of(v: Seq<AppInfo>) -> Set<u64> {
    Set::new(|id: u64| exists|i: int| 0 <= i < v.len() && (#[trigger] v[i]).id == Some(id))
}

/// The applications of `offered` that are new, after those in `before`.
pub open spec fn fresh(offered: Seq<AppInfo>, before: Seq<AppInfo>) -> Seq<AppInfo>
    decreases offered.len(),
{
    if offered.len() == 0 {
        Seq::empty()
    } else {
        let sofar = fresh(offered.drop_last(), before);
        let a = offered.last();
        if taken(a, ids_of(before + sofar), before + sofar) {
            sofar
        } else {
            sofar.push(a)
        }
    }
}

/// The applications of `all` that were not taken, shown or not.
pub open spec fn others(all: Seq<AppInfo>, before: Seq<AppInfo>, shown: bool) -> Seq<AppInfo>
    decreases all.len(),
{
    if all.len() == 0 {
        Seq::empty()
    } else {
        let a = all.last();
        let rest = others(all.drop_last(), before, shown);
        if !taken(a, ids_of(before), before) && a.should_show == shown {
            rest.push(a)
        } else {
            rest
        }
    }
}

/// Which applications are offered, and where.
pub struct PartitionedAppInfos {
    pub defaults: Vec<AppInfo>,
    pub recommended: Vec<AppInfo>,
    pub normal: Vec<AppInfo>,
    pub hidden: Vec<AppInfo>,
}

/// Whether a list holds the same applications as another, by their numbers.
pub open spec fn sorted_from(v: Seq<AppInfo>, from: Seq<AppInfo>) -> bool {
    &&& v.to_multiset() == from.to_multiset()
    &&& forall|i: int, j: int|
        0 <= i < j < v.len() ==> (#[trigger] v[i]).handle <= (#[trigger] v[j]).handle
}

fn is_taken(a: AppInfo, ids: &AHashSet<u64>, x: &Vec<AppInfo>, y: &Vec<AppInfo>) -> (r: bool)
    ensures
        r == taken(a, collections::members(*ids), x@ + y@),
{
    match a.id {
        Some(id) => set_contains(ids, id),
        None => {
            let mut i: usize = 0;
            while i < x.len()
                invariant
                    i <= x.len(),
                    a.id is None,
                    forall|k: int| 0 <= k < i ==> (#[trigger] x@[k]).handle != a.handle,
                decreases x.len() - i,
            {
                if x[i].handle == a.handle {
                    assert((x@ + y@)[i as int].handle == a.handle);
                    return true;
                }
                i += 1;
            }
            i = 0;
            while i < y.len()
                invariant
                    i <= y.len(),
                    a.id is None,
                    forall|k: int| 0 <= k < x@.len() ==> (#[trigger] x@[k]).handle != a.handle,
                    forall|k: int| 0 <= k < i ==> (#[trigger] y@[k]).handle != a.handle,
                decreases y.len() - i,
            {
                if y[i].handle == a.handle {
                    assert((x@ + y@)[x@.len() + i].handle == a.handle);
                    return true;
                }
                i += 1;
            }
            assert forall|k: int| 0 <= k < (x@ + y@).len() implies (#[trigger] (x@ + y@)[k]).handle
                != a.handle by {
                if k < x@.len() {
                    assert((x@ + y@)[k] == x@[k]);
                } else {
                    assert((x@ + y@)[k] == y@[k - x@.len()]);
                }
            }
            false
        },
    }
}

proof fn ids_grow(v: Seq<AppInfo>, a: AppInfo)
    ensures
        ids_of(v.push(a)) == (match a.id {
            Some(id) => ids_of(v).insert(id),
            None => ids_of(v),
        }),
{
    let w = v.push(a);
    assert forall|id: u64| ids_of(w).contains(id) == (match a.id {
        Some(x) => ids_of(v).insert(x),
        None => ids_of(v),
    }).contains(id) by {
        if exists|i: int| 0 <= i < v.len() && (#[trigger] v[i]).id == Some(id) {
            let i = choose|i: int| 0 <= i < v.len() && (#[trigger] v[i]).id == Some(id);
            assert(w[i].id == Some(id));
        }
        if a.id == Some(id) {
            assert(w[v.len() as int].id == Some(id));
        }
        if exists|i: int| 0 <= i < w.len() && (#[trigger] w[i]).id == Some(id) {
            let i = choose|i: int| 0 <= i < w.len() && (#[trigger] w[i]).id == Some(id);
            if i < v.len() {
                assert(v[i].id == Some(id));
            }
        }
    }
    assert(ids_of(w) =~= (match a.id {
        Some(x) => ids_of(v).insert(x),
        None => ids_of(v),
    }));
}

/// Takes the applications that are new, and their ids.
fn take_fresh(offered: &Vec<AppInfo>, before: &Vec<AppInfo>, ids: &mut AHashSet<u64>) -> (r: Vec<
    AppInfo,
>)
    requires
        collections::members(*old(ids)) == ids_of(before@),
    ensures
        r@ == fresh(offered@, before@),
        collections::members(*final(ids)) == ids_of(before@ + r@),
{
    let mut r: Vec<AppInfo> = Vec::new();
    let mut i: usize = 0;
    assert(before@ + r@ =~= before@);
    while i < offered.len()
        invariant
            i <= offered.len(),
            r@ == fresh(offered@.take(i as int), before@),
            collections::members(*ids) == ids_of(before@ + r@),
        decreases offered.len() - i,
    {
        assert(offered@.take(i + 1).drop_last() =~= offered@.take(i as int));
        let a = offered[i];
        if !is_taken(a, ids, before, &r) {
            proof {
                ids_grow(before@ + r@, a);
                assert((before@ + r@).push(a) =~= before@ + r@.push(a));
            }
            match a.id {
                Some(id) => {
                    set_insert(ids, id);
                },
                None => {},
            }
            r.push(a);
        }
        i += 1;
    }
    assert(offered@.take(i as int) =~= offered@);
    r
}

/// Puts applications in the order of their numbers.
fn sort_apps(v: Vec<AppInfo>) -> (r: Vec<AppInfo>)
    ensures
        sorted_from(r@, v@),
{
    broadcast use vstd::seq_lib::group_to_multiset_ensures;

    let mut r = v;
    let ghost start = v@;
    let mut i: usize = 0;
    while i < r.len()
        invariant
            i <= r.len(),
            r@.len() == start.len(),
            r@.to_multiset() == start.to_multiset(),
            forall|a: int, b: int|
                0 <= a < b < i ==> (#[trigger] r@[a]).handle <= (#[trigger] r@[b]).handle,
            forall|a: int, b: int|
                0 <= a < i <= b < r@.len() ==> (#[trigger] r@[a]).handle <= (
                #[trigger] r@[b]).handle,
        decreases r.len() - i,
    {
        let mut m: usize = i;
        let mut j: usize = i + 1;
        while j < r.len()
            invariant
                i <= m < r.len(),
                i < j <= r.len(),
                forall|b: int| i <= b < j ==> r@[m as int].handle <= (#[trigger] r@[b]).handle,
            decreases r.len() - j,
        {
            if r[j].handle < r[m].handle {
                m = j;
            }
            j += 1;
        }
        let ghost before = r@;
        let x = r[i];
        let y = r[m];
        proof {
            swap_keeps(before, i as int, m as int);
        }
        r.set(i, y);
        r.set(m, x);
        assert(r@ =~= before.update(i as int, before[m as int]).update(m as int, before[i as int]));
        i += 1;
    }
    r
}

proof fn swap_keeps(v: Seq<AppInfo>, i: int, j: int)
    requires
        0 <= i < v.len(),
        0 <= j < v.len(),
    ensures
        v.update(i, v[j]).update(j, v[i]).to_multiset() == v.to_multiset(),
{
    broadcast use vstd::seq_lib::group_to_multiset_ensures;

    let w = v.update(i, v[j]).update(j, v[i]);
    assert(v.update(i, v[j]).to_multiset() == v.to_multiset().insert(v[j]).remove(v[i]));
    let u = v.update(i, v[j]);
    assert(w.to_multiset() == u.to_multiset().insert(v[i]).remove(u[j]));
    assert(u[j] == v[j]);
    assert(v.to_multiset().contains(v[i])) by {
        assert(v.contains(v[i]));
    }
    assert(v.to_multiset().contains(v[j])) by {
        assert(v.contains(v[j]));
    }
    assert(w.to_multiset() =~= v.to_multiset());
}

/// Decides where each application is offered: the default ones, those that are
/// recommended, and all others. None is offered twice. `defaults` and
/// `recommended` hold those for each mime type in turn.
pub fn partition_app_infos(
    defaults: &Vec<AppInfo>,
    recommended: &Vec<AppInfo>,
    all: &Vec<AppInfo>,
) -> (r: PartitionedAppInfos)
    ensures
        ({
            let d = fresh(defaults@, Seq::empty());
            let c = fresh(recommended@, d);
            &&& sorted_from(r.defaults@, d)
            &&& sorted_from(r.recommended@, c)
            &&& sorted_from(r.normal@, others(all@, d + c, true))
            &&& sorted_from(r.hidden@, others(all@, d + c, false))
        }),
{
    let mut ids = empty_set();
    let nothing: Vec<AppInfo> = Vec::new();
    assert(nothing@ =~= Seq::empty());
    assert(ids_of(nothing@) =~= Set::empty());
    let d = take_fresh(defaults, &nothing, &mut ids);
    assert(nothing@ + d@ =~= d@);
    let c = take_fresh(recommended, &d, &mut ids);
    let mut normal: Vec<AppInfo> = Vec::new();
    let mut hidden: Vec<AppInfo> = Vec::new();
    let mut i: usize = 0;
    while i < all.len()
        invariant
            i <= all.len(),
            collections::members(ids) == ids_of(d@ + c@),
            normal@ == others(all@.take(i as int), d@ + c@, true),
            hidden@ == others(all@.take(i as int), d@ + c@, false),
        decreases all.len() - i,
    {
        assert(all@.take(i + 1).drop_last() =~= all@.take(i as int));
        let a = all[i];
        if !is_taken(a, &ids, &d, &c) {
            if a.should_show {
                normal.push(a);
            } else {
                hidden.push(a);
            }
        }
        i += 1;
    }
    assert(all@.take(i as int) =~= all@);
    PartitionedAppInfos {
        defaults: sort_apps(d),
        recommended: sort_apps(c),
        normal: sort_apps(normal),
        hidden: sort_apps(hidden),
    }
}

/// No application with an id is offered twice among the default and the
/// recommended ones.
pub proof fn fresh_ids_are_new(offered: Seq<AppInfo>, before: Seq<AppInfo>, i: int)
    requires
        0 <= i < fresh(offered, before).len(),
    ensures
        fresh(offered, before)[i].id matches Some(id) ==> !ids_of(
            before + fresh(offered, before).take(i),
        ).contains(id),
    decreases offered.len(),
{
    let sofar = fresh(offered.drop_last(), before);
    let all = fresh(offered, before);
    if i < sofar.len() {
        fresh_ids_are_new(offered.drop_last(), before, i);
        assert(all.take(i) =~= sofar.take(i));
    } else {
        assert(all.take(i) =~= sofar);
    }
}

/// The heading that an application stands under.
pub fn heading(app: AppInfo, apps: &PartitionedAppInfos) -> (r: &'static str)
    ensures
        r@ == (if holds(apps.defaults@, app) {
            "Default"@
        } else if holds(apps.recommended@, app) {
            "Recommended"@
        } else if holds(apps.hidden@, app) {
            "Hidden"@
        } else {
            "Normal"@
        }),
{
    if is_in(&apps.defaults, app) {
        "Default"
    } else if is_in(&apps.recommended, app) {
        "Recommended"
    } else if is_in(&apps.hidden, app) {
        "Hidden"
    } else {
        "Normal"
    }
}

/// Whether an application is in a list.
pub open spec fn holds(v: Seq<AppInfo>, app: AppInfo) -> bool {
    exists|i: int| 0 <= i < v.len() && (#[trigger] v[i]).handle == app.handle
}

fn is_in(v: &Vec<AppInfo>, app: AppInfo) -> (r: bool)
    ensures
        r == holds(v@, app),
{
    let mut i: usize = 0;
    while i < v.len()
        invariant
            i <= v.len(),
            forall|k: int| 0 <= k < i ==> (#[trigger] v@[k]).handle != app.handle,
        decreases v.len() - i,
    {
        if v[i].handle == app.handle {
            return true;
        }
        i += 1;
    }
    false
}

/// Whether an application is shown while a text is typed to filter by. The text
/// is in lower case.
pub fn name_matches(name: &str, filter: &str) -> (r: bool)
    ensures
        r == text::occurs(encode_utf8(filter@), natsort::lowercase_text(name@)),
{
    contains_bytes(&to_lowercase(name), &filter.as_bytes_vec())
}

/// The mime types of entries, each once, in the order in which they come up.
pub open spec fn mimes(entries: Seq<Arc<Entry>>) -> Seq<Seq<char>>
    decreases entries.len(),
{
    if entries.len() == 0 {
        Seq::empty()
    } else {
        let before = mimes(entries.drop_last());
        if before.contains(entries.last().mime@) {
            before
        } else {
            before.push(entries.last().mime@)
        }
    }
}

fn has_text(v: &Vec<String>, t: &str) -> (r: bool)
    ensures
        r == text::texts(v@).contains(t@),
{
    let ghost w = text::texts(v@);
    let mut i: usize = 0;
    while i < v.len()
        invariant
            w == text::texts(v@),
            i <= v.len(),
            forall|k: int| 0 <= k < i ==> w[k] != t@,
        decreases v.len() - i,
    {
        if same_text(v[i].as_str(), t) {
            assert(w[i as int] == t@);
            return true;
        }
        i += 1;
    }
    false
}

/// The mime types of entries, each once.
pub fn mimetypes(entries: &Vec<Arc<Entry>>) -> (r: Vec<String>)
    ensures
        text::texts(r@) == mimes(entries@),
{
    let mut r: Vec<String> = Vec::new();
    let mut i: usize = 0;
    assert(text::texts(r@) =~= Seq::empty());
    while i < entries.len()
        invariant
            i <= entries.len(),
            text::texts(r@) == mimes(entries@.take(i as int)),
        decreases entries.len() - i,
    {
        assert(entries@.take(i + 1).drop_last() =~= entries@.take(i as int));
        let ghost before = text::texts(r@);
        if !has_text(&r, entries[i].mime.as_str()) {
            r.push(entries[i].mime.clone());
            assert(text::texts(r@) =~= before.push(entries@[i as int].mime@));
        }
        i += 1;
    }
    assert(entries@.take(i as int) =~= entries@);
    r
}

/// What the dialog asks for.
pub open spec fn choose_text(entries: Seq<Arc<Entry>>) -> Seq<char> {
    let m = mimes(entries);
    if entries.len() == 1 {
        "Choose an application for "@ + strings::lossy(entries[0].name.name@)
    } else if m.len() == 1 && !(entries[0].kind is Directory) {
        "Choose an application for these "@ + text::decimal(entries.len()) + " "@ + m[0] + " files"@
    } else if m.len() == 1 {
        "Choose an application for these "@ + text::decimal(entries.len()) + " directories"@
    } else {
        "Choose an application for the "@ + text::decimal(entries.len()) + " selected files"@
    }
}

/// What the dialog asks for.
pub fn top_text(entries: &Vec<Arc<Entry>>) -> (r: String)
    requires
        entries@.len() > 0,
    ensures
        r@ == choose_text(entries@),
{
    if entries.len() == 1 {
        let mut t = "Choose an application for ".to_owned();
        t.append(lossy_text(&entries[0].name.name).as_str());
        return t;
    }
    let m = mimetypes(entries);
    let ghost views = text::texts(m@);
    if m.len() == 1 {
        assert(views[0] == m@[0]@);
        let mut t = "Choose an application for these ".to_owned();
        t.append(decimal_string(entries.len() as u64).as_str());
        if entries[0].dir() {
            t.append(" directories");
        } else {
            t.append(" ");
            t.append(m[0].as_str());
            t.append(" files");
        }
        t
    } else {
        let mut t = "Choose an application for the ".to_owned();
        t.append(decimal_string(entries.len() as u64).as_str());
        t.append(" selected files");
        t
    }
}

/// The mime type whose default application can be set: that of the files, if
/// they all have the same.
pub fn settable_mime(entries: &Vec<Arc<Entry>>) -> (r: Option<String>)
    requires
        entries@.len() > 0,
    ensures
        match r {
            Some(m) => mimes(entries@) == seq![m@] && !(entries@[0].kind is Directory),
            None => mimes(entries@).len() != 1 || entries@[0].kind is Directory,
        },
{
    let m = mimetypes(entries);
    if m.len() == 1 && !entries[0].dir() {
        assert(text::texts(m@) =~= seq![m@[0]@]);
        Some(m[0].clone())
    } else {
        None
    }
}

/// The name of an application that is made from a command line: that of its
/// program.
pub fn program_name(program: &FilePath) -> (r: String)
    ensures
        r@ == strings::lossy(
            match operations::name_of(program@) {
                Some(n) => n,
                None => crate::path::path_bytes(program@),
            },
        ),
{
    match program.file_name() {
        Some(n) => lossy_text(&n),
        None => lossy_text(&program.to_bytes()),
    }
}

/// Of the applications that are left, each is listed once for each time it is offered,
/// in its order, among those to be shown or those to be hidden.
pub proof fn others_one_by_one(
    x: Seq<AppInfo>,
    a: AppInfo,
    y: Seq<AppInfo>,
    before: Seq<AppInfo>,
    shown: bool,
)
    ensures
        others(seq![a], before, shown) == (if a.should_show == shown && !taken(
            a,
            ids_of(before),
            before,
        ) {
            seq![a]
        } else {
            Seq::empty()
        }),
        others(x + y, before, shown) == others(x, before, shown) + others(y, before, shown),
    decreases y.len(),
{
    let none = Seq::<AppInfo>::empty();
    assert(seq![a].drop_last() =~= none);
    assert(others(none, before, shown) =~= none);
    assert(a.should_show == shown && !taken(a, ids_of(before), before) ==> others(
        seq![a],
        before,
        shown,
    ) =~= seq![a]);
    if y.len() > 0 {
        others_one_by_one(x, a, y.drop_last(), before, shown);
        assert((x + y).drop_last() =~= x + y.drop_last());
        assert(others(x + y, before, shown) =~= others(x, before, shown) + others(
            y,
            before,
            shown,
        ));
    } else {
        assert(x + y =~= x);
        assert(others(x + y, before, shown) =~= others(x, before, shown) + others(
            y,
            before,
            shown,
        ));
    }
}

/// Every application that is offered is listed, by its id, and nothing else is.
pub proof fn offered_is_listed(offered: Seq<AppInfo>, before: Seq<AppInfo>, i: int)
    requires
        0 <= i < offered.len(),
    ensures
        offered[i].id matches Some(id) ==> ids_of(before + fresh(offered, before)).contains(id),
        forall|k: int|
            0 <= k < fresh(offered, before).len() ==> offered.contains(
                #[trigger] fresh(offered, before)[k],
            ),
    decreases offered.len(),
{
    let front = offered.drop_last();
    let sofar = fresh(front, before);
    let now = fresh(offered, before);
    let a = offered.last();
    if i < front.len() {
        offered_is_listed(front, before, i);
        assert(front[i] == offered[i]);
        if let Some(id) = offered[i].id {
            let k = choose|k: int|
                0 <= k < (before + sofar).len() && (#[trigger] (before + sofar)[k]).id == Some(id);
            assert((before + now)[k].id == Some(id));
        }
    } else if let Some(id) = a.id {
        if taken(a, ids_of(before + sofar), before + sofar) {
            assert(now == sofar);
        } else {
            assert((before + now)[before.len() as int + sofar.len()] == a);
        }
    }
    assert forall|k: int| 0 <= k < now.len() implies offered.contains(#[trigger] now[k]) by {
        if k < sofar.len() {
            offered_is_listed(front, before, 0);
            assert(front.contains(sofar[k]));
            let j = front.index_of(sofar[k]);
            assert(offered[j] == now[k]);
        } else {
            assert(offered[offered.len() - 1] == now[k]);
        }
    }
}

/// The first file without an application is the one that the user is asked about.
pub proof fn first_without_application(apps: Seq<Option<u64>>, i: int)
    requires
        0 <= i <= apps.len(),
    ensures
        i <= first_unknown(apps, i) <= apps.len(),
        first_unknown(apps, i) < apps.len() ==> apps[first_unknown(apps, i)] is None,
        forall|k: int| i <= k < first_unknown(apps, i) ==> (#[trigger] apps[k]) is Some,
    decreases apps.len() - i,
{
    if i < apps.len() && apps[i] is Some {
        first_without_application(apps, i + 1);
    }
}

/// Each application is launched once, with files that are its own.
pub proof fn launched_with_its_own(apps: Seq<Option<u64>>, n: nat)
    requires
        n <= apps.len() <= usize::MAX,
    ensures
        forall|j: int, k: int|
            0 <= j < k < launches(apps, n).len() ==> (#[trigger] launches(apps, n)[j]).0 != (
            #[trigger] launches(apps, n)[k]).0,
        forall|k: int, m: int|
            0 <= k < launches(apps, n).len() && 0 <= m < launches(apps, n)[k].1.len()
                ==> #[trigger] launches(apps, n)[k].1[m] < n && apps[launches(
                apps,
                n,
            )[k].1[m] as int] == Some(launches(apps, n)[k].0),
    decreases n,
{
    if n > 0 {
        let before = launches(apps, (n - 1) as nat);
        launched_with_its_own(apps, (n - 1) as nat);
        if let Some(a) = apps[n - 1] {
            launch_found(before, a, 0);
        }
    }
}

proof fn launch_found(v: Seq<(u64, Seq<usize>)>, a: u64, i: int)
    requires
        0 <= i <= v.len(),
    ensures
        i <= launch_at(v, a, i) <= v.len(),
        launch_at(v, a, i) < v.len() ==> v[launch_at(v, a, i)].0 == a,
        forall|k: int| i <= k < launch_at(v, a, i) ==> (#[trigger] v[k]).0 != a,
    decreases v.len() - i,
{
    if i < v.len() && v[i].0 != a {
        launch_found(v, a, i + 1);
    }
}

/// The types of entries are listed once each.
pub proof fn types_are_listed_once(entries: Seq<Arc<Entry>>)
    ensures
        mimes(entries).no_duplicates(),
        forall|i: int|
            0 <= i < entries.len() ==> mimes(entries).contains((#[trigger] entries[i]).mime@),
        forall|k: int|
            0 <= k < mimes(entries).len() ==> exists|i: int|
                0 <= i < entries.len() && #[trigger] mimes(entries)[k] == (
                #[trigger] entries[i]).mime@,
    decreases entries.len(),
{
    if entries.len() > 0 {
        let front = entries.drop_last();
        let before = mimes(front);
        let now = mimes(entries);
        types_are_listed_once(front);
        assert forall|i: int| 0 <= i < entries.len() implies now.contains(
            (#[trigger] entries[i]).mime@,
        ) by {
            if i < front.len() {
                assert(front[i] == entries[i]);
                assert(before.contains(front[i].mime@));
                let k = before.index_of(front[i].mime@);
                assert(now[k] == entries[i].mime@);
            } else if !before.contains(entries[i].mime@) {
                assert(now[before.len() as int] == entries[i].mime@);
            }
        }
        assert forall|k: int| 0 <= k < now.len() implies exists|i: int|
            0 <= i < entries.len() && #[trigger] now[k] == (#[trigger] entries[i]).mime@ by {
            if k < before.len() {
                assert(now[k] == before[k]);
                let i = choose|i: int|
                    0 <= i < front.len() && before[k] == (#[trigger] front[i]).mime@;
                assert(entries[i] == front[i]);
                assert(now[k] == entries[i].mime@);
            } else {
                assert(now[k] == entries[entries.len() - 1].mime@);
            }
        }
    }
}

} // verus!
