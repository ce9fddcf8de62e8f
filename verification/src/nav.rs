//! Where a tab is, where it can go, and what it shows there.
use std::sync::Arc;

use vstd::prelude::*;

use crate::path::{self, FilePath};
use crate::settings::DisplayMode;

verus! {

/// An exact scroll offset. It is ignored once the view or the number of items
/// has changed.
#[derive(Clone, Copy, Debug, PartialEq, Eq, Structural)]
pub struct PrecisePosition {
    /// The bits of the offset.
    pub position: u64,
    pub view: DisplayMode,
    pub width: i32,
    pub height: i32,
    pub count: u32,
}

pub struct ScrollPosition {
    /// If nothing meaningful has changed, the exact same state is restored.
    pub precise: Option<PrecisePosition>,
    pub path: Arc<FilePath>,
    /// Used as a backup if the path is gone.
    pub index: u32,
}

pub struct FocusState {
    pub path: Arc<FilePath>,
    /// Whether the item becomes the only selected one.
    pub select: bool,
}

/// What a pane shows of its directory.
pub struct PaneState {
    pub scroll: Option<ScrollPosition>,
    pub focus: Option<FocusState>,
}

impl PaneState {
    /// The state that scrolls to an item, focuses it and selects it.
    pub open spec fn jumping_to(jump: Option<Arc<FilePath>>) -> PaneState {
        match jump {
            Some(path) => PaneState {
                scroll: Some(ScrollPosition { precise: None, path, index: 0 }),
                focus: Some(FocusState { path, select: true }),
            },
            None => PaneState { scroll: None, focus: None },
        }
    }

    pub fn for_jump(jump: Option<Arc<FilePath>>) -> (r: PaneState)
        ensures
            r == PaneState::jumping_to(jump),
    {
        match jump {
            Some(path) => PaneState {
                scroll: Some(ScrollPosition { precise: None, path: path.clone(), index: 0 }),
                focus: Some(FocusState { path, select: true }),
            },
            None => PaneState { scroll: None, focus: None },
        }
    }

    pub fn copy(&self) -> (r: PaneState)
        ensures
            r == *self,
    {
        let scroll = match &self.scroll {
            Some(s) => Some(
                ScrollPosition { precise: s.precise, path: s.path.clone(), index: s.index },
            ),
            None => None,
        };
        let focus = match &self.focus {
            Some(f) => Some(FocusState { path: f.path.clone(), select: f.select }),
            None => None,
        };
        PaneState { scroll, focus }
    }
}

/// One step of a tab's history.
pub struct HistoryEntry {
    pub location: Arc<FilePath>,
    pub search: Option<String>,
    pub state: PaneState,
}

pub fn copy_search(s: &Option<String>) -> (r: Option<String>)
    ensures
        r == *s,
{
    match s {
        Some(q) => Some(q.clone()),
        None => None,
    }
}

impl HistoryEntry {
    pub fn copy(&self) -> (r: HistoryEntry)
        ensures
            r == *self,
    {
        HistoryEntry {
            location: self.location.clone(),
            search: copy_search(&self.search),
            state: self.state.copy(),
        }
    }
}

pub fn copy_history(h: &Vec<HistoryEntry>) -> (r: Vec<HistoryEntry>)
    ensures
        r@ == h@,
{
    let mut r: Vec<HistoryEntry> = Vec::new();
    let mut i: usize = 0;
    while i < h.len()
        invariant
            i <= h.len(),
            r@ =~= h@.take(i as int),
        decreases h.len() - i,
    {
        r.push(h[i].copy());
        i += 1;
    }
    assert(r@ =~= h@);
    r
}

/// A directory to go to, and possibly something in it to scroll to.
pub struct NavTarget {
    /// A clean and absolute but not canonical path.
    pub dir: Arc<FilePath>,
    pub scroll: Option<Arc<FilePath>>,
}

/// Why there is nowhere to go.
#[derive(Clone, Copy, Debug, PartialEq, Eq, Structural)]
pub enum NavError {
    /// The path does not exist.
    CouldNotLocate,
    /// The path's parent is not a directory.
    CouldNotOpen,
    /// The path is relative and there is nothing that it is relative to.
    NotAbsolute,
}

/// What the file system says of a path that is to be visited.
#[derive(Clone, Copy, Debug, PartialEq, Eq, Structural)]
pub struct PathFacts {
    pub exists: bool,
    pub is_dir: bool,
    pub parent_is_dir: bool,
}

/// Whether going to a path, or jumping to it, succeeds with the given target.
pub open spec fn jump_result(
    target: Arc<FilePath>,
    facts: PathFacts,
    r: Result<NavTarget, NavError>,
) -> bool {
    if !facts.exists || target@.len() == 0 {
        r == Err::<NavTarget, NavError>(NavError::CouldNotLocate)
    } else if !facts.parent_is_dir {
        r == Err::<NavTarget, NavError>(NavError::CouldNotOpen)
    } else {
        r matches Ok(t) && t.dir@ == target@.drop_last() && t.scroll == Some(target)
    }
}

/// A jump goes to the directory of the item and scrolls to the item. It fails exactly
/// if the item does not exist, is the root, or is in no directory.
pub proof fn jump_shows_the_item(
    dir: Seq<Seq<u8>>,
    name: Seq<u8>,
    target: Arc<FilePath>,
    facts: PathFacts,
    r: Result<NavTarget, NavError>,
)
    requires
        target@ == dir.push(name),
        jump_result(target, facts, r),
    ensures
        r is Ok <==> facts.exists && facts.parent_is_dir,
        r matches Ok(t) ==> t.dir@ == dir && t.scroll == Some(target),
        r == Err::<NavTarget, NavError>(NavError::CouldNotLocate) <==> !facts.exists,
{
    assert(dir.push(name).drop_last() =~= dir);
}

impl NavTarget {
    /// Opens a directory, or jumps to a file in its parent directory.
    pub fn open_or_jump_abs(target: Arc<FilePath>, facts: PathFacts) -> (r: Result<
        NavTarget,
        NavError,
    >)
        ensures
            facts.exists && facts.is_dir ==> r == Ok::<NavTarget, NavError>(
                NavTarget { dir: target, scroll: None },
            ),
            !(facts.exists && facts.is_dir) ==> jump_result(target, facts, r),
    {
        if facts.exists && facts.is_dir {
            return Ok(NavTarget { dir: target, scroll: None });
        }
        NavTarget::jump(target, facts)
    }

    /// Jumps to an item in its parent directory.
    pub fn jump(target: Arc<FilePath>, facts: PathFacts) -> (r: Result<NavTarget, NavError>)
        ensures
            jump_result(target, facts, r),
    {
        if !facts.exists {
            return Err(NavError::CouldNotLocate);
        }
        match target.parent() {
            Some(parent) => {
                if !facts.parent_is_dir {
                    return Err(NavError::CouldNotOpen);
                }
                Ok(NavTarget { dir: Arc::new(parent), scroll: Some(target) })
            },
            None => Err(NavError::CouldNotLocate),
        }
    }

    pub fn assume_dir(dir: Arc<FilePath>) -> (r: NavTarget)
        ensures
            r == (NavTarget { dir, scroll: None }),
    {
        NavTarget { dir, scroll: None }
    }

    pub fn assume_jump(dir: Arc<FilePath>, jump: Arc<FilePath>) -> (r: NavTarget)
        ensures
            r == (NavTarget { dir, scroll: Some(jump) }),
    {
        NavTarget { dir, scroll: Some(jump) }
    }

    /// Makes a path clean and absolute. Relative paths start in the active
    /// directory, or else in the working directory.
    pub fn cleaned_abs(
        p: &Vec<u8>,
        active: Option<&FilePath>,
        current_dir: Option<&FilePath>,
    ) -> (r: Result<FilePath, NavError>)
        requires
            active matches Some(d) ==> d.valid(),
            current_dir matches Some(d) ==> d.valid(),
        ensures
            r matches Ok(c) ==> c.valid() && path::clean_parts(c@),
            ({
                let parts = path::path_parts(p@);
                if path::rooted(p@) {
                    r matches Ok(c) && c@ == path::resolved(parts)
                } else {
                    match (active, current_dir) {
                        (Some(d), _) => r matches Ok(c) && c@ == path::resolved(d@ + parts),
                        (None, Some(d)) => r matches Ok(c) && c@ == path::resolved(d@ + parts),
                        (None, None) => r == Err::<FilePath, NavError>(NavError::NotAbsolute),
                    }
                }
            }),
    {
        if p.len() > 0 && p[0] == path::SLASH {
            let root = FilePath::root();
            return Ok(FilePath::resolve(&root, p));
        }
        match (active, current_dir) {
            (Some(d), _) => Ok(FilePath::resolve(d, p)),
            (None, Some(d)) => Ok(FilePath::resolve(d, p)),
            (None, None) => Err(NavError::NotAbsolute),
        }
    }
}

/// The path that the program starts in: the one that was asked for, or else
/// the working directory, or else the root. `None` if it starts empty.
pub fn initial_path(
    empty: bool,
    file_name: Option<Vec<u8>>,
    current_dir: Option<Vec<u8>>,
) -> (r: Option<Vec<u8>>)
    ensures
        r is None <==> empty && file_name is None,
        r matches Some(p) ==> match (file_name, current_dir) {
            (Some(f), _) => p == f,
            (None, Some(d)) => p == d,
            (None, None) => p@ == seq![path::SLASH],
        },
{
    match (file_name, current_dir) {
        (Some(f), _) => Some(f),
        (None, d) => if empty {
            None
        } else {
            match d {
                Some(d) => Some(d),
                None => {
                    let mut root: Vec<u8> = Vec::new();
                    root.push(path::SLASH);
                    assert(root@ =~= seq![path::SLASH]);
                    Some(root)
                },
            }
        },
    }
}

/// A jump scrolls to its item and selects it. Without one nothing is focused.
pub proof fn jumps_select(jump: Option<Arc<FilePath>>)
    ensures
        ({
            let s = PaneState::jumping_to(jump);
            &&& s.scroll is Some <==> jump is Some
            &&& s.focus is Some <==> jump is Some
            &&& jump matches Some(p) ==> s.scroll->0.path == p && s.focus->0.path == p
                && s.focus->0.select
        }),
{
}

} // verus!
