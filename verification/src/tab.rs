//! One tab: its location, its history and the state of its pane.
use std::sync::Arc;

use vstd::prelude::*;

use crate::contents::{self, Contents};
use crate::nav::{copy_history, copy_search, HistoryEntry, NavTarget, PaneState, ScrollPosition, FocusState};
use crate::pane::TabId;
use crate::path::FilePath;

verus! {

/// The state of a tab's pane.
pub enum TabPane {
    Displayed,
    /// Displayed while the contents are loading. Once they are there the state
    /// is applied.
    Loading(PaneState),
    /// Not displayed. If the state is pending, it is applied once it is.
    Detached { state: PaneState, pending: bool },
}

impl TabPane {
    pub open spec fn spec_visible(self) -> bool {
        !(self is Detached)
    }

    pub fn visible(&self) -> (r: bool)
        ensures
            r == self.spec_visible(),
    {
        match self {
            TabPane::Detached { .. } => false,
            _ => true,
        }
    }

    /// The state to go back to later. `shown` is what a displayed pane shows.
    pub open spec fn state_now(self, shown: PaneState) -> PaneState {
        match self {
            TabPane::Displayed => shown,
            TabPane::Loading(state) => state,
            TabPane::Detached { state, .. } => state,
        }
    }

    pub fn clone_state(&self, shown: &PaneState) -> (r: PaneState)
        ensures
            r == self.state_now(*shown),
    {
        match self {
            TabPane::Displayed => shown.copy(),
            TabPane::Loading(state) => state.copy(),
            TabPane::Detached { state, .. } => state.copy(),
        }
    }

    /// The pane once it is to show a new state.
    pub open spec fn overwritten(self, new_state: PaneState) -> TabPane {
        match self {
            TabPane::Displayed => TabPane::Loading(new_state),
            TabPane::Loading(_) => TabPane::Loading(new_state),
            TabPane::Detached { .. } => TabPane::Detached { state: new_state, pending: true },
        }
    }

    pub fn overwrite_state(&mut self, new_state: PaneState)
        ensures
            *final(self) == old(self).overwritten(new_state),
    {
        let detached = !self.visible();
        if detached {
            *self = TabPane::Detached { state: new_state, pending: true };
        } else {
            *self = TabPane::Loading(new_state);
        }
    }

    /// The pane once it is displayed or hidden. `shown` is what it shows if it is
    /// displayed.
    pub open spec fn displayed(self, visible: bool, shown: PaneState) -> TabPane {
        match self {
            TabPane::Displayed => if visible {
                self
            } else {
                TabPane::Detached { state: shown, pending: false }
            },
            TabPane::Loading(state) => if visible {
                self
            } else {
                TabPane::Detached { state, pending: true }
            },
            TabPane::Detached { state, pending } => if !visible {
                self
            } else if pending {
                TabPane::Loading(state)
            } else {
                TabPane::Displayed
            },
        }
    }

    /// Displays the pane.
    pub fn make_visible(&mut self)
        requires
            !old(self).spec_visible(),
        ensures
            *old(self) matches TabPane::Detached { state, pending } ==> *final(self) == (if pending {
                TabPane::Loading(state)
            } else {
                TabPane::Displayed
            }),
    {
        let next = match self {
            TabPane::Detached { state, pending } => if *pending {
                TabPane::Loading(state.copy())
            } else {
                TabPane::Displayed
            },
            _ => TabPane::Displayed,
        };
        *self = next;
    }

    /// Hides the pane. `shown` is what it shows if it is displayed.
    pub fn mark_detached(&mut self, shown: PaneState)
        requires
            old(self).spec_visible(),
        ensures
            *final(self) == (match *old(self) {
                TabPane::Displayed => TabPane::Detached { state: shown, pending: false },
                TabPane::Loading(state) => TabPane::Detached { state, pending: true },
                detached => detached,
            }),
    {
        let next = match self {
            TabPane::Loading(state) => TabPane::Detached { state: state.copy(), pending: true },
            _ => TabPane::Detached { state: shown, pending: false },
        };
        *self = next;
    }

    /// The pane once the contents are unloaded.
    pub open spec fn unloaded(self, shown: PaneState) -> TabPane {
        match self {
            TabPane::Displayed => TabPane::Loading(shown),
            TabPane::Loading(state) => TabPane::Loading(state),
            TabPane::Detached { state, .. } => TabPane::Detached { state, pending: true },
        }
    }

    /// Remembers the state for when the contents have been loaded again.
    pub fn prepare_for_unload(&mut self, shown: PaneState)
        ensures
            *final(self) == old(self).unloaded(shown),
    {
        let next = match self {
            TabPane::Displayed => TabPane::Loading(shown),
            TabPane::Loading(state) => TabPane::Loading(state.copy()),
            TabPane::Detached { state, .. } => TabPane::Detached {
                state: state.copy(),
                pending: true,
            },
        };
        *self = next;
    }

    /// The state to apply now, if there is one and the pane is displayed.
    pub fn maybe_resolve_pending(&mut self) -> (r: Option<PaneState>)
        ensures
            match *old(self) {
                TabPane::Loading(state) => r == Some(state) && *final(self) is Displayed,
                other => r is None && *final(self) == other,
            },
    {
        let state = match self {
            TabPane::Loading(state) => state.copy(),
            _ => {
                return None;
            },
        };
        *self = TabPane::Displayed;
        Some(state)
    }

    pub fn set_detached_pending_flag(&mut self)
        ensures
            *final(self) == (match *old(self) {
                TabPane::Detached { state, .. } => TabPane::Detached { state, pending: true },
                other => other,
            }),
    {
        let next = match self {
            TabPane::Detached { state, .. } => TabPane::Detached {
                state: state.copy(),
                pending: true,
            },
            _ => {
                return;
            },
        };
        *self = next;
    }
}

pub struct Tab {
    pub id: TabId,
    pub dir: Arc<FilePath>,
    pub search: Option<String>,
    pub past: Vec<HistoryEntry>,
    pub future: Vec<HistoryEntry>,
    pub pane: TabPane,
}

/// What is left of a tab after it was closed.
pub struct ClosedTab {
    pub id: TabId,
    /// The tab that it stood behind.
    pub after: Option<TabId>,
    pub current: HistoryEntry,
    pub past: Vec<HistoryEntry>,
    pub future: Vec<HistoryEntry>,
}

impl ClosedTab {
    /// Whether `tab` is this tab opened again, where it was and with the history
    /// that it had.
    pub open spec fn reopened_as(&self, tab: &Tab) -> bool {
        &&& tab.id == self.id
        &&& tab.dir == self.current.location
        &&& tab.search == self.current.search
        &&& tab.past == self.past
        &&& tab.future == self.future
        &&& tab.pane == (TabPane::Detached { state: self.current.state, pending: true })
    }
}

impl Tab {
    /// The tab with its pane displayed or hidden.
    pub open spec fn displayed(self, visible: bool, shown: PaneState) -> Tab {
        Tab { pane: self.pane.displayed(visible, shown), ..self }
    }

    /// The tab once its contents are unloaded.
    pub open spec fn unloaded(self, shown: PaneState) -> Tab {
        Tab { pane: self.pane.unloaded(shown), ..self }
    }

    /// Whether the tab is a new one that has yet to show `target`.
    pub open spec fn opened_at(&self, target: NavTarget) -> bool {
        &&& self.dir == target.dir
        &&& self.search is None
        &&& self.past@ == Seq::<HistoryEntry>::empty()
        &&& self.future@ == Seq::<HistoryEntry>::empty()
        &&& self.pane == (TabPane::Detached {
            state: PaneState::jumping_to(target.scroll),
            pending: true,
        })
    }

    /// A tab that will open a directory once it becomes visible.
    pub fn new(id: TabId, target: NavTarget) -> (r: Tab)
        ensures
            r.id == id,
            r.opened_at(target),
    {
        Tab {
            id,
            dir: target.dir,
            search: None,
            past: Vec::new(),
            future: Vec::new(),
            pane: TabPane::Detached { state: PaneState::for_jump(target.scroll), pending: true },
        }
    }

    /// A hidden tab with the same location and history as `source`.
    pub fn cloned(id: TabId, source: &Tab, shown: &PaneState) -> (r: Tab)
        ensures
            r.id == id,
            r.dir == source.dir,
            r.search == source.search,
            r.past@ == source.past@,
            r.future@ == source.future@,
            r.pane == (TabPane::Detached { state: source.pane.state_now(*shown), pending: true }),
    {
        Tab {
            id,
            dir: source.dir.clone(),
            search: copy_search(&source.search),
            past: copy_history(&source.past),
            future: copy_history(&source.future),
            pane: TabPane::Detached { state: source.pane.clone_state(shown), pending: true },
        }
    }

    /// Whether `closed` is what is left of this tab.
    pub open spec fn closed_as(
        &self,
        after: Option<TabId>,
        shown: PaneState,
        closed: &ClosedTab,
    ) -> bool {
        &&& closed.id == self.id
        &&& closed.after == after
        &&& closed.current == self.now(shown)
        &&& closed.past == self.past
        &&& closed.future == self.future
    }

    /// Closes the tab.
    pub fn close(self, after: Option<TabId>, shown: &PaneState) -> (r: ClosedTab)
        ensures
            self.closed_as(after, *shown, &r),
    {
        let current = self.current_history(shown);
        ClosedTab { id: self.id, after, current, past: self.past, future: self.future }
    }

    /// Opens a closed tab again, where it was and with the history it had.
    pub fn reopen(closed: ClosedTab) -> (r: Tab)
        ensures
            closed.reopened_as(&r),
    {
        Tab {
            id: closed.id,
            dir: closed.current.location,
            search: closed.current.search,
            past: closed.past,
            future: closed.future,
            pane: TabPane::Detached { state: closed.current.state, pending: true },
        }
    }

    /// The present as a step of history.
    pub open spec fn now(&self, shown: PaneState) -> HistoryEntry {
        HistoryEntry {
            location: self.dir,
            search: self.search,
            state: self.pane.state_now(shown),
        }
    }

    pub fn current_history(&self, shown: &PaneState) -> (r: HistoryEntry)
        ensures
            r == self.now(*shown),
    {
        HistoryEntry {
            location: self.dir.clone(),
            search: copy_search(&self.search),
            state: self.pane.clone_state(shown),
        }
    }

    /// Whether the tab is at the given step of history.
    pub open spec fn at(&self, h: HistoryEntry) -> bool {
        self.dir == h.location && self.search == h.search
    }

    /// Goes to a place that history recorded.
    fn apply_history(&mut self, hist: HistoryEntry)
        ensures
            final(self).id == old(self).id,
            final(self).at(hist),
            final(self).pane == old(self).pane.overwritten(hist.state),
            final(self).past == old(self).past,
            final(self).future == old(self).future,
    {
        self.dir = hist.location;
        self.search = hist.search;
        self.pane.overwrite_state(hist.state);
    }

    /// Whether going to `target` changes anything about the location: another
    /// directory, or the end of a search.
    pub open spec fn moves_to(&self, target: NavTarget) -> bool {
        self.dir@ != target.dir@ || self.search is Some
    }

    /// Goes to a directory. Going forward appends to the past; going to a
    /// parent for lack of a past makes the present the future instead. A target
    /// in the present directory is a jump to what it wants to scroll to.
    fn navigate_inner(&mut self, target: NavTarget, shown: &PaneState, forward: bool)
        ensures
            final(self).id == old(self).id,
            old(self).moves_to(target) ==> {
                &&& final(self).search is None
                &&& final(self).dir@ == target.dir@
                &&& final(self).pane == (if old(self).dir@ == target.dir@ {
                    old(self).pane
                } else {
                    old(self).pane.overwritten(PaneState::jumping_to(target.scroll))
                })
                &&& final(self).past@ == (if forward {
                    old(self).past@.push(old(self).now(*shown))
                } else {
                    Seq::<HistoryEntry>::empty()
                })
                &&& final(self).future@ == (if forward {
                    Seq::<HistoryEntry>::empty()
                } else {
                    old(self).future@.push(old(self).now(*shown))
                })
            },
            !old(self).moves_to(target) ==> {
                &&& final(self).dir == old(self).dir
                &&& final(self).search == old(self).search
                &&& final(self).past == old(self).past
                &&& final(self).future == old(self).future
                &&& final(self).pane == (match target.scroll {
                    Some(_) => old(self).pane.overwritten(PaneState::jumping_to(target.scroll)),
                    None => old(self).pane,
                })
            },
    {
        let history = self.current_history(shown);
        let same = self.dir.same(&target.dir);
        if same && self.search.is_none() {
            match target.scroll {
                Some(path) => {
                    let state = PaneState {
                        scroll: Some(
                            ScrollPosition { precise: None, path: path.clone(), index: 0 },
                        ),
                        focus: Some(FocusState { path, select: true }),
                    };
                    self.pane.overwrite_state(state);
                },
                None => {},
            }
            return;
        }
        if !same {
            self.pane.overwrite_state(PaneState::for_jump(target.scroll));
            self.dir = target.dir;
        }
        self.search = None;
        if forward {
            self.past.push(history);
            self.future = Vec::new();
        } else {
            self.past = Vec::new();
            self.future.push(history);
        }
    }

    /// Whether `next` is this tab once it has gone to `target`.
    pub open spec fn navigated(&self, target: NavTarget, shown: PaneState, next: &Tab) -> bool {
        &&& next.id == self.id
        &&& next.dir@ == target.dir@
        &&& next.search is None
        &&& if self.moves_to(target) {
            &&& next.past@ == self.past@.push(self.now(shown))
            &&& next.future@ == Seq::<HistoryEntry>::empty()
            &&& next.pane == (if self.dir@ == target.dir@ {
                self.pane
            } else {
                self.pane.overwritten(PaneState::jumping_to(target.scroll))
            })
        } else {
            &&& next.past == self.past
            &&& next.future == self.future
            &&& next.pane == (match target.scroll {
                Some(_) => self.pane.overwritten(PaneState::jumping_to(target.scroll)),
                None => self.pane,
            })
        }
    }

    /// Goes somewhere.
    pub fn navigate(&mut self, target: NavTarget, shown: &PaneState)
        ensures
            old(self).navigated(target, *shown, final(self)),
    {
        self.navigate_inner(target, shown, true);
    }

    /// Whether a step of history is a child of the present directory.
    pub open spec fn leads_to_child(&self, history: Seq<HistoryEntry>) -> bool {
        history.len() > 0 && history.last().location@.len() > 0
            && history.last().location@.drop_last() == self.dir@
    }

    /// The only subdirectory among the rows. Directories come first, so it is
    /// the first row.
    pub open spec fn sole_child(contents: &Contents) -> Option<Arc<crate::entry::Entry>> {
        if contents.list@.len() > 0 && contents.list@[0].entry.kind is Directory && !(
        contents.list@.len() > 1 && contents.list@[1].entry.kind is Directory) {
            Some(contents.list@[0].entry)
        } else {
            None
        }
    }

    /// Whether `next` is this tab one step back.
    pub open spec fn went_back(&self, shown: PaneState, next: &Tab) -> bool {
        &&& next.id == self.id
        &&& if self.past@.len() == 0 {
            *next == *self
        } else {
            &&& next.at(self.past@.last())
            &&& next.pane == self.pane.overwritten(self.past@.last().state)
            &&& next.past@ == self.past@.drop_last()
            &&& next.future@ == self.future@.push(self.now(shown))
        }
    }

    /// Whether `next` is this tab one step forward.
    pub open spec fn went_forward(&self, shown: PaneState, next: &Tab) -> bool {
        &&& next.id == self.id
        &&& if self.future@.len() == 0 {
            *next == *self
        } else {
            &&& next.at(self.future@.last())
            &&& next.pane == self.pane.overwritten(self.future@.last().state)
            &&& next.past@ == self.past@.push(self.now(shown))
            &&& next.future@ == self.future@.drop_last()
        }
    }

    /// Whether `next` is this tab in its parent directory, with the present
    /// directory selected there. The present becomes the past, or for lack of a
    /// past the future.
    pub open spec fn went_to_parent(&self, shown: PaneState, forward: bool, next: &Tab) -> bool {
        &&& next.id == self.id
        &&& if self.dir@.len() == 0 {
            *next == *self
        } else {
            &&& next.dir@ == self.dir@.drop_last()
            &&& next.search is None
            &&& next.pane == self.pane.overwritten(PaneState::jumping_to(Some(self.dir)))
            &&& next.past@ == (if forward {
                self.past@.push(self.now(shown))
            } else {
                Seq::<HistoryEntry>::empty()
            })
            &&& next.future@ == (if forward {
                Seq::<HistoryEntry>::empty()
            } else {
                self.future@.push(self.now(shown))
            })
        }
    }

    /// Whether `next` is this tab once it has gone back, or to the parent for
    /// lack of a past.
    pub open spec fn went_back_or_up(&self, shown: PaneState, next: &Tab) -> bool {
        if self.past@.len() > 0 {
            self.went_back(shown, next)
        } else {
            self.went_to_parent(shown, false, next)
        }
    }

    /// Whether `next` is this tab in the child directory that was open before,
    /// or in the only one there is.
    pub open spec fn went_to_child(&self, contents: &Contents, shown: PaneState, next: &Tab) -> bool {
        if self.search is Some {
            *next == *self
        } else if self.leads_to_child(self.past@) {
            self.went_back(shown, next)
        } else if self.leads_to_child(self.future@) {
            self.went_forward(shown, next)
        } else {
            match Tab::sole_child(contents) {
                None => *next == *self,
                Some(e) => {
                    &&& next.id == self.id
                    &&& next.dir@ == e.abs_path@
                    &&& next.search is None
                    &&& next.past@ == self.past@.push(self.now(shown))
                    &&& next.future == self.future
                    &&& next.pane == self.pane.overwritten(PaneState { scroll: None, focus: None })
                },
            }
        }
    }

    fn parent_inner(&mut self, shown: &PaneState, forward: bool)
        ensures
            old(self).went_to_parent(*shown, forward, final(self)),
    {
        match self.dir.parent() {
            Some(parent) => {
                let target = NavTarget::assume_jump(Arc::new(parent), self.dir.clone());
                self.navigate_inner(target, shown, forward);
            },
            None => {},
        }
    }

    /// Goes to the parent directory, with the present one selected in it.
    pub fn parent(&mut self, shown: &PaneState)
        ensures
            old(self).went_to_parent(*shown, true, final(self)),
    {
        self.parent_inner(shown, true);
    }

    /// Goes one step forward, if there is a future.
    pub fn forward(&mut self, shown: &PaneState)
        ensures
            old(self).went_forward(*shown, final(self)),
    {
        if self.future.len() == 0 {
            return;
        }
        let history = self.current_history(shown);
        match self.future.pop() {
            Some(next) => {
                self.past.push(history);
                self.apply_history(next);
            },
            None => {},
        }
    }

    /// Goes one step back, if there is a past. The result says whether there
    /// was.
    pub fn back(&mut self, shown: &PaneState) -> (r: bool)
        ensures
            r == (old(self).past@.len() > 0),
            old(self).went_back(*shown, final(self)),
    {
        if self.past.len() == 0 {
            return false;
        }
        let history = self.current_history(shown);
        match self.past.pop() {
            Some(prev) => {
                self.future.push(history);
                self.apply_history(prev);
            },
            None => {},
        }
        true
    }

    /// Goes back, or to the parent for lack of a past.
    pub fn back_or_parent(&mut self, shown: &PaneState)
        ensures
            old(self).went_back_or_up(*shown, final(self)),
    {
        if !self.back(shown) {
            self.parent_inner(shown, false);
        }
    }

    /// Goes to the child directory that was open before, or to the only one.
    pub fn child(&mut self, contents: &Contents, shown: &PaneState)
        ensures
            old(self).went_to_child(contents, *shown, final(self)),
    {
        if self.search.is_some() {
            return;
        }
        if self.past.len() > 0 && self.past[self.past.len() - 1].location.is_child_of(&self.dir) {
            let _moved = self.back(shown);
            return;
        }
        if self.future.len() > 0 && self.future[self.future.len() - 1].location.is_child_of(
            &self.dir,
        ) {
            self.forward(shown);
            return;
        }
        if contents.list.len() == 0 || !contents.list[0].entry.dir() {
            return;
        }
        if contents.list.len() >= 2 && contents.list[1].entry.dir() {
            return;
        }
        let history = self.current_history(shown);
        self.past.push(history);
        self.pane.overwrite_state(PaneState { scroll: None, focus: None });
        self.dir = Arc::new(contents.list[0].entry.abs_path.copy());
    }

    /// Whether `next` is this tab with a search for `query`.
    pub open spec fn searched(&self, query: String, shown: PaneState, next: &Tab) -> bool {
        &&& next.id == self.id
        &&& next.dir == self.dir
        &&& next.search == Some(query)
        &&& next.pane == self.pane
        &&& if self.search is Some {
            next.past == self.past && next.future == self.future
        } else {
            next.past@ == self.past@.push(self.now(shown)) && next.future@ == Seq::<
                HistoryEntry,
            >::empty()
        }
    }

    /// Starts a search. A search that is open already only changes its text.
    pub fn search(&mut self, query: String, shown: &PaneState)
        ensures
            old(self).searched(query, *shown, final(self)),
    {
        if self.search.is_none() {
            let history = self.current_history(shown);
            self.past.push(history);
            self.future = Vec::new();
        }
        self.search = Some(query);
    }

    /// Whether `next` is the tab after its directory was deleted, where `nearest`
    /// is what is left above it.
    pub open spec fn displaced(&self, nearest: Seq<Seq<u8>>, next: &Tab) -> bool {
        &&& next.id == self.id
        &&& next.past == self.past
        &&& next.future == self.future
        &&& next.dir@ == nearest
        &&& next.search is None
        &&& next.pane == (if self.dir@ == nearest {
            self.pane
        } else {
            self.pane.overwritten(PaneState::jumping_to(None))
        })
    }

    /// Moves to the nearest directory that still exists, without a trace in the
    /// history. Ends a search.
    pub fn handle_directory_deleted(&mut self, nearest: Arc<FilePath>)
        ensures
            old(self).displaced(nearest@, final(self)),
    {
        if !self.dir.same(&nearest) {
            self.pane.overwrite_state(PaneState::for_jump(None));
            self.dir = nearest;
        }
        self.search = None;
    }
}

/// What a pane shows is kept while it is hidden, while its contents are unloaded, and
/// when it is displayed again.
pub proof fn state_is_kept(pane: TabPane, shown: PaneState, later: PaneState)
    ensures
        pane.displayed(false, shown).state_now(later) == pane.state_now(shown),
        pane.unloaded(shown).state_now(later) == pane.state_now(shown),
        pane.unloaded(shown).spec_visible() == pane.spec_visible(),
        !pane.displayed(false, shown).spec_visible(),
        pane.displayed(true, shown).spec_visible(),
        pane.spec_visible() ==> pane.displayed(false, shown).displayed(true, later) == pane,
{
}

/// A pane that is to show a new state shows it, once it is displayed and loaded.
pub proof fn new_state_is_shown(pane: TabPane, new_state: PaneState, shown: PaneState)
    ensures
        pane.overwritten(new_state).state_now(shown) == new_state,
        pane.overwritten(new_state).spec_visible() == pane.spec_visible(),
        pane.overwritten(new_state).displayed(true, shown) == TabPane::Loading(new_state),
{
}

/// Going somewhere and then back returns to the same place and to what was shown
/// there, with the past as it was.
pub proof fn navigate_then_back(
    tab: Tab,
    target: NavTarget,
    there: Tab,
    returned: Tab,
    shown: PaneState,
    shown_there: PaneState,
)
    requires
        tab.dir@ != target.dir@,
        tab.navigated(target, shown, &there),
        there.went_back(shown_there, &returned),
    ensures
        there.dir@ == target.dir@ && there.search is None,
        there.future@.len() == 0,
        returned.dir == tab.dir && returned.search == tab.search,
        returned.past@ == tab.past@,
        returned.future@.len() == 1,
        returned.future@[0].location@ == target.dir@,
        returned.pane.state_now(shown) == tab.pane.state_now(shown),
{
}

/// Going to the parent selects the directory that was left, and back from there
/// returns to it.
pub proof fn parent_then_back(
    tab: Tab,
    above: Tab,
    returned: Tab,
    shown: PaneState,
    shown_above: PaneState,
)
    requires
        tab.dir@.len() > 0,
        tab.went_to_parent(shown, true, &above),
        above.went_back(shown_above, &returned),
    ensures
        tab.dir@ == above.dir@.push(tab.dir@.last()),
        above.pane.state_now(shown).focus matches Some(f) && f.path == tab.dir && f.select,
        above.pane.state_now(shown).scroll matches Some(p) && p.path == tab.dir,
        returned.at(tab.now(shown)),
        returned.past@ == tab.past@,
{
}

/// A search is left by going back, to the directory as it was.
pub proof fn search_then_back(
    tab: Tab,
    query: String,
    searching: Tab,
    returned: Tab,
    shown: PaneState,
    shown_there: PaneState,
)
    requires
        tab.search is None,
        tab.searched(query, shown, &searching),
        searching.went_back(shown_there, &returned),
    ensures
        searching.search == Some(query) && searching.dir == tab.dir,
        returned.dir == tab.dir,
        returned.search is None,
        returned.past@ == tab.past@,
        returned.future@.len() == 1 && returned.future@[0].search == Some(query),
{
}

/// Going back and then forward returns to the same place, and restores the
/// past and the future around it.
pub proof fn back_then_forward(
    tab: Tab,
    there: Tab,
    returned: Tab,
    shown: PaneState,
    shown_there: PaneState,
)
    requires
        tab.past@.len() > 0,
        tab.went_back(shown, &there),
        there.went_forward(shown_there, &returned),
    ensures
        returned.at(tab.now(shown)),
        returned.future@ == tab.future@,
        returned.past@.len() == tab.past@.len(),
        returned.past@.drop_last() == tab.past@.drop_last(),
        returned.past@.last().location == tab.past@.last().location,
        returned.past@.last().search == tab.past@.last().search,
{
}

/// Going forward and then back returns to the same place, and restores the
/// past and the future around it.
pub proof fn forward_then_back(
    tab: Tab,
    there: Tab,
    returned: Tab,
    shown: PaneState,
    shown_there: PaneState,
)
    requires
        tab.future@.len() > 0,
        tab.went_forward(shown, &there),
        there.went_back(shown_there, &returned),
    ensures
        returned.at(tab.now(shown)),
        returned.past@ == tab.past@,
        returned.future@.len() == tab.future@.len(),
        returned.future@.drop_last() == tab.future@.drop_last(),
        returned.future@.last().location == tab.future@.last().location,
        returned.future@.last().search == tab.future@.last().search,
{
}

/// Going to the parent and then to the child returns to the same directory.
pub proof fn parent_then_child(
    tab: Tab,
    above: Tab,
    returned: Tab,
    contents: &Contents,
    shown: PaneState,
    shown_above: PaneState,
)
    requires
        tab.dir@.len() > 0,
        tab.went_to_parent(shown, true, &above),
        above.went_to_child(contents, shown_above, &returned),
    ensures
        returned.at(tab.now(shown)),
        returned.past@ == tab.past@,
{
    assert(above.past@.last() == tab.now(shown));
}

/// Going to the parent for lack of a past and then to the child also returns to
/// the same directory.
pub proof fn back_or_parent_then_child(
    tab: Tab,
    above: Tab,
    returned: Tab,
    contents: &Contents,
    shown: PaneState,
    shown_above: PaneState,
)
    requires
        tab.dir@.len() > 0,
        tab.past@.len() == 0,
        tab.went_back_or_up(shown, &above),
        above.went_to_child(contents, shown_above, &returned),
    ensures
        returned.at(tab.now(shown)),
        returned.future@ == tab.future@,
{
    assert(above.future@.last() == tab.now(shown));
}

/// Closing a tab and opening it again keeps its place and its history.
pub proof fn close_then_reopen(
    tab: Tab,
    closed: ClosedTab,
    reopened: Tab,
    after: Option<TabId>,
    shown: PaneState,
)
    requires
        tab.closed_as(after, shown, &closed),
        closed.reopened_as(&reopened),
    ensures
        reopened.id == tab.id,
        reopened.at(tab.now(shown)),
        reopened.past == tab.past,
        reopened.future == tab.future,
{
}

/// A tab goes to the only directory among its rows, if there is just one.
pub proof fn only_directory(c: &Contents, i: int)
    requires
        contents::in_order(c.list@, c.sort),
        contents::all_ready(c.list@),
        0 <= i < c.list@.len(),
        c.list@[i].entry.kind is Directory,
    ensures
        (forall|k: int|
            0 <= k < c.list@.len() && k != i ==> !((#[trigger] c.list@[k]).entry.kind is Directory))
            ==> Tab::sole_child(c) == Some(c.list@[i].entry),
        (exists|k: int|
            0 <= k < c.list@.len() && k != i && (#[trigger] c.list@[k]).entry.kind is Directory)
            ==> Tab::sole_child(c) is None,
{
    assert forall|k: int|
        0 <= k < i && k < c.list@.len() implies (#[trigger] c.list@[k]).entry.kind is Directory by {
        assert(c.list@[k].entry.ready());
        if !(c.list@[k].entry.kind is Directory) {
            crate::entry::directories_come_first(&c.list@[i].entry, &c.list@[k].entry, c.sort);
            crate::entry::entry_order_antisymmetric(&c.list@[i].entry, &c.list@[k].entry, c.sort);
        }
    }
    if exists|k: int|
        0 <= k < c.list@.len() && k != i && (#[trigger] c.list@[k]).entry.kind is Directory {
        let k = choose|k: int|
            0 <= k < c.list@.len() && k != i && (#[trigger] c.list@[k]).entry.kind is Directory;
        let last = if i < k {
            k
        } else {
            i
        };
        assert forall|m: int| 0 <= m < last implies (#[trigger] c.list@[m]).entry.kind
            is Directory by {
            assert(c.list@[m].entry.ready());
            if !(c.list@[m].entry.kind is Directory) {
                crate::entry::directories_come_first(
                    &c.list@[last].entry,
                    &c.list@[m].entry,
                    c.sort,
                );
                crate::entry::entry_order_antisymmetric(
                    &c.list@[last].entry,
                    &c.list@[m].entry,
                    c.sort,
                );
            }
        }
        assert(c.list@[0].entry.kind is Directory);
        assert(c.list@[1].entry.kind is Directory);
    } else {
        assert(i == 0) by {
            if i > 0 {
                assert(c.list@[0].entry.kind is Directory);
            }
        }
    }
}

/// A tab whose directory was deleted goes to what is left above it, without a search and
/// with its history as it was. Where the directory is still there, it stays.
pub proof fn deleted_directories_are_left(tab: Tab, nearest: Seq<Seq<u8>>, next: Tab)
    requires
        tab.displaced(nearest, &next),
    ensures
        next.dir@ == nearest,
        next.search is None,
        next.past@ == tab.past@ && next.future@ == tab.future@,
        tab.dir@ == nearest ==> next.pane == tab.pane,
        tab.dir@ != nearest ==> next.pane.spec_visible() == tab.pane.spec_visible(),
{
}

/// Going to where a tab is changes nothing in its history, and a search that is open
/// only changes its text.
pub proof fn staying_leaves_no_trace(
    tab: Tab,
    target: NavTarget,
    query: String,
    next: Tab,
    searching: Tab,
    shown: PaneState,
)
    requires
        tab.navigated(target, shown, &next),
        tab.searched(query, shown, &searching),
    ensures
        tab.dir@ == target.dir@ && tab.search is None ==> next.past@ == tab.past@ && next.future@
            == tab.future@ && next.dir@ == tab.dir@,
        tab.dir@ == target.dir@ && tab.search is None && target.scroll is None ==> next.pane
            == tab.pane,
        tab.dir@ == target.dir@ && tab.search is None ==> (target.scroll matches Some(p)
            ==> next.pane.state_now(shown).focus matches Some(f) && f.path == p),
        tab.search is Some ==> searching.past@ == tab.past@ && searching.future@ == tab.future@,
        tab.dir@ == target.dir@ && tab.search is Some ==> next.search is None && next.past@.len()
            == tab.past@.len() + 1,
{
}

/// Once its contents are unloaded, no pane shows them, and one that is hidden has them
/// loaded before it is shown again.
pub proof fn unloaded_panes_wait(pane: TabPane, shown: PaneState)
    ensures
        pane.unloaded(shown) !is Displayed,
        pane.unloaded(shown) is Detached <==> pane is Detached,
        pane.unloaded(shown) matches TabPane::Detached { pending, .. } ==> pending,
{
}

} // verus!
