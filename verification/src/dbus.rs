//! What other programs ask for over the bus.
use std::sync::Arc;

use vstd::prelude::*;

use crate::nav::NavTarget;
use crate::path::FilePath;
use crate::text::same_text;

verus! {

/// A method that other programs call.
#[derive(Clone, Copy, Debug, PartialEq, Eq, Structural)]
pub enum BusMethod {
    ShowItems,
    ShowFolders,
    ShowItemProperties,
}

impl BusMethod {
    pub open spec fn parsed(name: Seq<char>) -> Option<BusMethod> {
        if name == "ShowItems"@ {
            Some(BusMethod::ShowItems)
        } else if name == "ShowFolders"@ {
            Some(BusMethod::ShowFolders)
        } else if name == "ShowItemProperties"@ {
            Some(BusMethod::ShowItemProperties)
        } else {
            None
        }
    }

    pub fn parse(name: &str) -> (r: Option<BusMethod>)
        ensures
            r == BusMethod::parsed(name@),
    {
        if same_text(name, "ShowItems") {
            Some(BusMethod::ShowItems)
        } else if same_text(name, "ShowFolders") {
            Some(BusMethod::ShowFolders)
        } else if same_text(name, "ShowItemProperties") {
            Some(BusMethod::ShowItemProperties)
        } else {
            None
        }
    }
}

pub open spec fn goes_to(m: BusMethod, p: Arc<FilePath>, t: NavTarget) -> bool {
    match m {
        BusMethod::ShowItems => if p@.len() > 0 {
            t.dir@ == p@.drop_last() && t.scroll == Some(p)
        } else {
            t.dir == p && t.scroll is None
        },
        _ => t.dir == p && t.scroll is None,
    }
}

/// The tabs that a method opens, one for each path, in their order. An item is
/// shown in its directory; properties are not shown.
pub fn handle_dbus_method(m: BusMethod, paths: &Vec<Arc<FilePath>>) -> (r: Vec<NavTarget>)
    ensures
        m is ShowItemProperties ==> r@.len() == 0,
        !(m is ShowItemProperties) ==> r@.len() == paths@.len() && forall|i: int|
            0 <= i < r@.len() ==> goes_to(m, paths@[i], #[trigger] r@[i]),
{
    let mut r: Vec<NavTarget> = Vec::new();
    if m == BusMethod::ShowItemProperties {
        return r;
    }
    let mut i: usize = 0;
    while i < paths.len()
        invariant
            i <= paths.len(),
            r@.len() == i,
            !(m is ShowItemProperties),
            forall|k: int| 0 <= k < i ==> goes_to(m, paths@[k], #[trigger] r@[k]),
        decreases paths.len() - i,
    {
        let p = paths[i].clone();
        let t = match m {
            BusMethod::ShowItems => match p.parent() {
                Some(parent) => NavTarget::assume_jump(Arc::new(parent), p),
                None => NavTarget::assume_dir(p),
            },
            _ => NavTarget::assume_dir(p),
        };
        r.push(t);
        i += 1;
    }
    r
}

/// Items are shown in their directory, and folders are opened.
pub proof fn items_and_folders(
    dir: Seq<Seq<u8>>,
    name: Seq<u8>,
    p: Arc<FilePath>,
    t: NavTarget,
)
    requires
        p@ == dir.push(name),
    ensures
        goes_to(BusMethod::ShowItems, p, t) ==> t.dir@ == dir && t.scroll == Some(p),
        goes_to(BusMethod::ShowFolders, p, t) ==> t.dir == p && t.scroll is None,
{
    assert(dir.push(name).drop_last() =~= dir);
}

} // verus!
