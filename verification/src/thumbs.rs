//! The thumbnails of entries: when they are loaded, and when they are dropped.
use std::cmp::Ordering;
use std::sync::Arc;

use vstd::prelude::*;
use vstd::string::*;
use vstd::utf8::*;

use crate::entry::{self, Entry, EntryKind, FileTime};
use crate::settings::SortSettings;
use crate::text::{self, contains_bytes};

verus! {

/// How large thumbnails are.
#[derive(Clone, Copy, Debug, PartialEq, Eq, Structural)]
pub enum ThumbSize {
    Normal,
    Large,
    XLarge,
    XXLarge,
}

/// How urgent a thumbnail is.
#[derive(Clone, Copy, Debug, PartialEq, Eq, Structural)]
pub enum ThumbPriority {
    /// Nothing shows it.
    Low,
    /// It is only made, not loaded.
    Generate,
    /// Something could show it soon.
    Medium,
    /// Something shows it.
    High,
}

/// What is configured of thumbnails.
#[derive(Clone, Copy, Debug, PartialEq, Eq, Structural)]
pub struct ThumbConfig {
    pub enabled: bool,
    /// Whether those that nothing shows are dropped.
    pub unload_low: bool,
    pub initial: ThumbPriority,
}

impl ThumbConfig {
    pub fn new(max_thumbnailers: u8, background_thumbnailers: i16) -> (r: ThumbConfig)
        ensures
            r.enabled == (max_thumbnailers > 0),
            r.unload_low == (background_thumbnailers < 0),
            r.initial == (if background_thumbnailers >= 0 {
                ThumbPriority::Low
            } else {
                ThumbPriority::Generate
            }),
    {
        ThumbConfig {
            enabled: max_thumbnailers > 0,
            unload_low: background_thumbnailers < 0,
            initial: if background_thumbnailers >= 0 {
                ThumbPriority::Low
            } else {
                ThumbPriority::Generate
            },
        }
    }
}

/// What is shown for an entry. A number stands for a picture.
#[derive(Clone, Copy, Debug, PartialEq, Eq, Structural)]
pub enum Thumbnail {
    Texture(u64),
    Pending,
    Absent,
}

impl Thumbnail {
    /// The picture, if there is one.
    pub fn texture(self) -> (r: Option<u64>)
        ensures
            r == match self {
                Thumbnail::Texture(t) => Some(t),
                _ => None,
            },
    {
        match self {
            Thumbnail::Texture(t) => Some(t),
            Thumbnail::Pending | Thumbnail::Absent => None,
        }
    }
}

/// How many widgets hold an entry, and how many of them are shown.
#[derive(Clone, Copy, Debug, PartialEq, Eq, Structural)]
pub struct WidgetCounter {
    pub bound: u16,
    pub mapped: u16,
}

impl WidgetCounter {
    pub open spec fn spec_priority(self) -> ThumbPriority {
        if self.mapped > 0 {
            ThumbPriority::High
        } else if self.bound > 0 {
            ThumbPriority::Medium
        } else {
            ThumbPriority::Low
        }
    }

    pub fn priority(self) -> (r: ThumbPriority)
        ensures
            r == self.spec_priority(),
    {
        if self.mapped > 0 {
            ThumbPriority::High
        } else if self.bound > 0 {
            ThumbPriority::Medium
        } else {
            ThumbPriority::Low
        }
    }

    /// Whether the counts can change by so much.
    pub open spec fn can_change(self, bound: int, mapped: int) -> bool {
        0 <= self.bound + bound <= u16::MAX && 0 <= self.mapped + mapped <= u16::MAX
    }

    pub open spec fn changed(self, bound: int, mapped: int) -> WidgetCounter {
        WidgetCounter {
            bound: (self.bound + bound) as u16,
            mapped: (self.mapped + mapped) as u16,
        }
    }
}

/// Where the thumbnail of an entry is.
#[derive(Clone, Copy, Debug, PartialEq, Eq, Structural)]
pub enum Thumb {
    Never,
    Unloaded,
    Loading(ThumbSize),
    Loaded(u64, ThumbSize),
    /// The file has changed since. Another one may be loading.
    Outdated(u64, Option<ThumbSize>),
    Failed,
}

impl Thumb {
    pub open spec fn spec_needs_load(self, size: ThumbSize) -> bool {
        match self {
            Thumb::Loading(sz) => sz != size,
            Thumb::Loaded(_, sz) => sz != size,
            Thumb::Outdated(_, Some(sz)) => sz != size,
            Thumb::Never | Thumb::Failed => false,
            Thumb::Unloaded | Thumb::Outdated(_, None) => true,
        }
    }

    /// Whether there is a reason to load a thumbnail of this size.
    pub fn needs_load(self, size: ThumbSize) -> (r: bool)
        ensures
            r == self.spec_needs_load(size),
    {
        match self {
            Thumb::Loading(sz) => sz != size,
            Thumb::Loaded(_, sz) => sz != size,
            Thumb::Outdated(_, Some(sz)) => sz != size,
            Thumb::Never | Thumb::Failed => false,
            Thumb::Unloaded | Thumb::Outdated(_, None) => true,
        }
    }

    pub open spec fn spec_renderable(self, from_event: bool) -> Thumbnail {
        match self {
            Thumb::Never | Thumb::Failed => Thumbnail::Absent,
            Thumb::Unloaded | Thumb::Loading(_) => if from_event {
                Thumbnail::Absent
            } else {
                Thumbnail::Pending
            },
            Thumb::Loaded(t, _) | Thumb::Outdated(t, _) => Thumbnail::Texture(t),
        }
    }

    /// What is shown. While the first thumbnail of a file that changed is
    /// loading, its icon is shown rather than nothing.
    pub fn renderable(self, from_event: bool) -> (r: Thumbnail)
        ensures
            r == self.spec_renderable(from_event),
    {
        match self {
            Thumb::Never | Thumb::Failed => Thumbnail::Absent,
            Thumb::Unloaded | Thumb::Loading(_) => {
                if from_event {
                    Thumbnail::Absent
                } else {
                    Thumbnail::Pending
                }
            },
            Thumb::Loaded(t, _) | Thumb::Outdated(t, _) => Thumbnail::Texture(t),
        }
    }

    /// The thumbnail once the file has changed. A failure is tried again.
    pub open spec fn after_update(self) -> Thumb {
        match self {
            Thumb::Never | Thumb::Unloaded | Thumb::Loading(_) | Thumb::Failed => Thumb::Unloaded,
            Thumb::Loaded(t, _) | Thumb::Outdated(t, _) => Thumb::Outdated(t, None),
        }
    }

    /// The thumbnail once one of this size is being loaded.
    pub open spec fn started(self, size: ThumbSize) -> Thumb {
        match self {
            Thumb::Never | Thumb::Unloaded | Thumb::Loading(_) | Thumb::Failed => Thumb::Loading(
                size,
            ),
            Thumb::Loaded(t, _) | Thumb::Outdated(t, _) => Thumb::Outdated(t, Some(size)),
        }
    }

    /// Whether a thumbnail of this size that was loaded is of use.
    pub open spec fn takes(self, size: ThumbSize) -> bool {
        match self {
            Thumb::Loaded(_, sz) => sz != size,
            Thumb::Loading(sz) => sz == size,
            Thumb::Outdated(_, Some(sz)) => sz == size,
            _ => false,
        }
    }

    /// Whether there is something to drop.
    pub open spec fn occupied(self) -> bool {
        self is Loading || self is Loaded || self is Outdated
    }
}

/// A picture that was loaded stays in view while the file changes and while another
/// one is loaded, and a change of the file always leads to another load.
pub proof fn pictures_stay_in_view(t: Thumb, size: ThumbSize, from_event: bool)
    ensures
        t.spec_renderable(from_event) matches Thumbnail::Texture(x)
            ==> t.after_update().spec_renderable(true) == Thumbnail::Texture(x) && t.started(
            size,
        ).spec_renderable(true) == Thumbnail::Texture(x),
        t.after_update().spec_needs_load(size),
        !t.after_update().takes(size),
        !(t.spec_renderable(from_event) is Texture) ==> !(t.started(size).spec_renderable(
            from_event,
        ) is Texture),
{
}

/// What is in view comes before what could be, and that before all else.
pub proof fn what_is_seen_comes_first(w: WidgetCounter)
    ensures
        w.spec_priority() is High <==> w.mapped > 0,
        w.spec_priority() is Medium <==> w.mapped == 0 && w.bound > 0,
        w.spec_priority() is Low <==> w.mapped == 0 && w.bound == 0,
{
}

/// A thumbnail that is being loaded needs no second load of its size.
pub proof fn started_needs_no_load(t: Thumb, size: ThumbSize)
    ensures
        !t.started(size).spec_needs_load(size),
        t.started(size).takes(size),
{
}

/// What follows from a change of the widgets that hold an entry.
#[derive(Clone, Copy, Debug, PartialEq, Eq, Structural)]
pub enum WidgetChange {
    Nothing,
    /// A thumbnail is to be loaded.
    Queue(ThumbPriority),
    /// The thumbnail is to be dropped, once the widgets have settled.
    ScheduleUnload,
    /// The thumbnail is not to be dropped any more.
    KeepLoaded(Option<ThumbPriority>),
}

/// One for a widget that is shown.
pub open spec fn spec_sign(mapped: bool) -> int {
    if mapped {
        1
    } else {
        0
    }
}

/// An entry together with its thumbnail.
pub struct EntryObject {
    pub entry: Arc<Entry>,
    pub widgets: WidgetCounter,
    pub thumbnail: Thumb,
    pub updated_from_event: bool,
}

impl EntryObject {
    /// The thumbnail that an entry starts with, and how urgent it is.
    pub open spec fn initial_thumb(kind: EntryKind, from_event: bool, config: ThumbConfig) -> (
        Thumb,
        Option<ThumbPriority>,
    ) {
        if config.enabled && kind is File {
            (
                Thumb::Unloaded,
                Some(
                    if from_event {
                        ThumbPriority::Low
                    } else {
                        config.initial
                    },
                ),
            )
        } else {
            (Thumb::Never, None)
        }
    }

    /// An entry that nothing shows yet, and how urgent its thumbnail is. One that
    /// came from an event is never urgent.
    pub fn create(entry: Arc<Entry>, from_event: bool, config: ThumbConfig) -> (r: (
        EntryObject,
        Option<ThumbPriority>,
    ))
        requires
            entry.ready(),
        ensures
            r.0.entry == entry,
            r.0.widgets == (WidgetCounter { bound: 0, mapped: 0 }),
            r.0.updated_from_event == from_event,
            (r.0.thumbnail, r.1) == EntryObject::initial_thumb(entry.kind, from_event, config),
    {
        let (thumbnail, p) = if config.enabled {
            match entry.kind {
                EntryKind::File { .. } => {
                    let p = if from_event {
                        ThumbPriority::Low
                    } else {
                        config.initial
                    };
                    (Thumb::Unloaded, Some(p))
                },
                _ => (Thumb::Never, None),
            }
        } else {
            (Thumb::Never, None)
        };
        let widgets = WidgetCounter { bound: 0, mapped: 0 };
        (EntryObject { entry, widgets, thumbnail, updated_from_event: from_event }, p)
    }

    /// Replaces the entry by a newer one. Returns how urgent its thumbnail is.
    pub fn update_inner(&mut self, entry: Arc<Entry>, config: ThumbConfig) -> (r: Option<
        ThumbPriority,
    >)
        requires
            entry.ready(),
        ensures
            final(self).entry == entry,
            final(self).widgets == old(self).widgets,
            final(self).updated_from_event,
            config.enabled && entry.kind is File ==> final(self).thumbnail
                == old(self).thumbnail.after_update() && r == Some(
                old(self).widgets.spec_priority(),
            ),
            !(config.enabled && entry.kind is File) ==> final(self).thumbnail == Thumb::Never
                && r is None,
    {
        let (thumbnail, p) = if config.enabled {
            match entry.kind {
                EntryKind::File { .. } => {
                    let thumb = match self.thumbnail {
                        Thumb::Never | Thumb::Unloaded | Thumb::Loading(_) | Thumb::Failed => {
                            Thumb::Unloaded
                        },
                        Thumb::Loaded(t, _) | Thumb::Outdated(t, _) => Thumb::Outdated(t, None),
                    };
                    (thumb, Some(self.widgets.priority()))
                },
                _ => (Thumb::Never, None),
            }
        } else {
            (Thumb::Never, None)
        };
        self.entry = entry;
        self.thumbnail = thumbnail;
        self.updated_from_event = true;
        p
    }

    /// Whether a load of this priority and size goes ahead. One that only makes
    /// the thumbnail does if nothing has happened since the entry was created.
    pub open spec fn spec_goes_ahead(self, p: ThumbPriority, size: ThumbSize) -> bool {
        self.thumbnail.spec_needs_load(size) && (if p is Generate {
            self.widgets.spec_priority() is Low && self.thumbnail is Unloaded
        } else {
            self.widgets.spec_priority() == p
        })
    }

    /// Marks the thumbnail as loading if it matches the given priority and size.
    pub fn mark_thumbnail_loading(&mut self, p: ThumbPriority, size: ThumbSize) -> (r: bool)
        ensures
            r == old(self).spec_goes_ahead(p, size),
            *final(self) == (EntryObject {
                thumbnail: if r && !(p is Generate) {
                    old(self).thumbnail.started(size)
                } else {
                    old(self).thumbnail
                },
                ..*old(self)
            }),
    {
        if !self.thumbnail.needs_load(size) {
            return false;
        }
        let current = self.widgets.priority();
        if p == ThumbPriority::Generate {
            return current == ThumbPriority::Low && self.thumbnail == Thumb::Unloaded;
        }
        if current != p {
            return false;
        }
        self.thumbnail = match self.thumbnail {
            Thumb::Never | Thumb::Unloaded | Thumb::Loading(_) | Thumb::Failed => Thumb::Loading(
                size,
            ),
            Thumb::Loaded(t, _) | Thumb::Outdated(t, _) => Thumb::Outdated(t, Some(size)),
        };
        true
    }

    /// What follows from a change of the widgets.
    pub open spec fn widget_change(
        self,
        bound: int,
        mapped: int,
        config: ThumbConfig,
        size: ThumbSize,
    ) -> WidgetChange {
        let before = self.widgets.spec_priority();
        let after = self.widgets.changed(bound, mapped).spec_priority();
        let load = if after != before && self.thumbnail.spec_needs_load(size) {
            Some(after)
        } else {
            None
        };
        if config.unload_low && after is Low {
            if self.thumbnail.occupied() {
                WidgetChange::ScheduleUnload
            } else {
                WidgetChange::Nothing
            }
        } else if config.unload_low && before is Low {
            WidgetChange::KeepLoaded(load)
        } else {
            match load {
                Some(p) => WidgetChange::Queue(p),
                None => WidgetChange::Nothing,
            }
        }
    }

    /// Counts widgets that hold or show the entry.
    pub fn change_widgets(
        &mut self,
        bound: i16,
        mapped: i16,
        config: ThumbConfig,
        size: ThumbSize,
    ) -> (r: WidgetChange)
        requires
            old(self).widgets.can_change(bound as int, mapped as int),
        ensures
            *final(self) == (EntryObject {
                widgets: old(self).widgets.changed(bound as int, mapped as int),
                ..*old(self)
            }),
            r == old(self).widget_change(bound as int, mapped as int, config, size),
    {
        let before = self.widgets.priority();
        let new_bound: u16 = (self.widgets.bound as i32 + bound as i32) as u16;
        let new_mapped: u16 = (self.widgets.mapped as i32 + mapped as i32) as u16;
        self.widgets = WidgetCounter { bound: new_bound, mapped: new_mapped };
        let after = self.widgets.priority();
        let load = if after != before && self.thumbnail.needs_load(size) {
            Some(after)
        } else {
            None
        };
        if config.unload_low {
            if after == ThumbPriority::Low {
                return match self.thumbnail {
                    Thumb::Loading(_)
                    | Thumb::Loaded(..)
                    | Thumb::Outdated(..) => WidgetChange::ScheduleUnload,
                    Thumb::Never | Thumb::Failed | Thumb::Unloaded => WidgetChange::Nothing,
                };
            }
            if before == ThumbPriority::Low {
                return WidgetChange::KeepLoaded(load);
            }
        }
        match load {
            Some(p) => WidgetChange::Queue(p),
            None => WidgetChange::Nothing,
        }
    }

    /// Counts a widget that now holds the entry; `mapped` says whether it is
    /// shown.
    pub fn mark_bound(&mut self, mapped: bool, config: ThumbConfig, size: ThumbSize) -> (r:
        WidgetChange)
        requires
            old(self).widgets.can_change(1, spec_sign(mapped)),
        ensures
            *final(self) == (EntryObject {
                widgets: old(self).widgets.changed(1, spec_sign(mapped)),
                ..*old(self)
            }),
            r == old(self).widget_change(1, spec_sign(mapped), config, size),
    {
        self.change_widgets(
            1,
            if mapped {
                1
            } else {
                0
            },
            config,
            size,
        )
    }

    /// Counts a widget that no longer holds the entry; `mapped` says whether it
    /// was shown.
    pub fn mark_unbound(&mut self, mapped: bool, config: ThumbConfig, size: ThumbSize) -> (r:
        WidgetChange)
        requires
            old(self).widgets.can_change(-1, -spec_sign(mapped)),
        ensures
            *final(self) == (EntryObject {
                widgets: old(self).widgets.changed(-1, -spec_sign(mapped)),
                ..*old(self)
            }),
            r == old(self).widget_change(-1, -spec_sign(mapped), config, size),
    {
        self.change_widgets(
            -1,
            if mapped {
                -1
            } else {
                0
            },
            config,
            size,
        )
    }

    /// Counts a widget that holds the entry and is now shown, or no longer.
    pub fn mark_mapped_changed(&mut self, mapped: bool, config: ThumbConfig, size: ThumbSize) -> (r:
        WidgetChange)
        requires
            old(self).widgets.can_change(
                0,
                if mapped {
                    1
                } else {
                    -1
                },
            ),
        ensures
            ({
                let by: int = if mapped {
                    1
                } else {
                    -1
                };
                &&& *final(self) == (EntryObject {
                    widgets: old(self).widgets.changed(0, by),
                    ..*old(self)
                })
                &&& r == old(self).widget_change(0, by, config, size)
            }),
    {
        self.change_widgets(
            0,
            if mapped {
                1
            } else {
                -1
            },
            config,
            size,
        )
    }

    /// How urgent another load is when the size of thumbnails changes, if one is
    /// needed.
    pub fn needs_reload_for_size(&self, size: ThumbSize) -> (r: Option<ThumbPriority>)
        ensures
            r == (if self.thumbnail.spec_needs_load(size) {
                Some(self.widgets.spec_priority())
            } else {
                None
            }),
    {
        if self.thumbnail.needs_load(size) {
            Some(self.widgets.priority())
        } else {
            None
        }
    }

    /// Takes a thumbnail that was loaded for the file as it was at `mtime`.
    /// Returns whether what is shown changes. A thumbnail of a file that has
    /// changed since is dropped.
    pub fn update_thumbnail(&mut self, texture: u64, mtime: FileTime, size: ThumbSize) -> (r: bool)
        ensures
            r == (old(self).entry.mtime == mtime && old(self).thumbnail.takes(size)),
            *final(self) == (EntryObject {
                thumbnail: if r {
                    Thumb::Loaded(texture, size)
                } else {
                    old(self).thumbnail
                },
                updated_from_event: old(self).updated_from_event && old(self).entry.mtime != mtime,
                ..*old(self)
            }),
    {
        if self.entry.mtime != mtime {
            return false;
        }
        self.updated_from_event = false;
        let taken = match self.thumbnail {
            Thumb::Loaded(_, sz) => sz != size,
            Thumb::Loading(sz) => sz == size,
            Thumb::Outdated(_, Some(sz)) => sz == size,
            _ => false,
        };
        if taken {
            self.thumbnail = Thumb::Loaded(texture, size);
        }
        taken
    }

    /// Notes that no thumbnail could be loaded for the file as it was at
    /// `mtime`. Returns whether what is shown may change.
    pub fn fail_thumbnail(&mut self, mtime: FileTime) -> (r: bool)
        ensures
            r == (old(self).entry.mtime == mtime && !(old(self).thumbnail is Never)
                && !(old(self).thumbnail is Failed)),
            *final(self) == (EntryObject {
                thumbnail: if r {
                    Thumb::Failed
                } else {
                    old(self).thumbnail
                },
                updated_from_event: old(self).updated_from_event && old(self).entry.mtime != mtime,
                ..*old(self)
            }),
    {
        if self.entry.mtime != mtime {
            return false;
        }
        self.updated_from_event = false;
        match self.thumbnail {
            Thumb::Never | Thumb::Failed => {
                return false;
            },
            _ => {},
        }
        self.thumbnail = Thumb::Failed;
        true
    }

    /// What is shown for the entry.
    pub fn thumbnail(&self) -> (r: Thumbnail)
        ensures
            r == self.thumbnail.spec_renderable(self.updated_from_event),
    {
        self.thumbnail.renderable(self.updated_from_event)
    }

    /// The picture that is shown for the entry, if there is one.
    pub fn thumbnail_no_defer(&self) -> (r: Option<u64>)
        ensures
            r == match self.thumbnail {
                Thumb::Loaded(t, _) | Thumb::Outdated(t, _) => Some(t),
                _ => None,
            },
    {
        self.thumbnail().texture()
    }

    /// Whether it makes sense to wait for a thumbnail.
    pub fn can_sync_thumbnail(&self) -> (r: bool)
        ensures
            r == (self.thumbnail is Unloaded || self.thumbnail is Loading || self.thumbnail
                is Outdated),
    {
        match self.thumbnail {
            Thumb::Never | Thumb::Loaded(..) | Thumb::Failed => false,
            Thumb::Unloaded | Thumb::Loading(_) | Thumb::Outdated(..) => true,
        }
    }

    /// How two entries are sorted.
    pub fn cmp(&self, other: &EntryObject, settings: SortSettings) -> (r: Ordering)
        requires
            self.entry.ready(),
            other.entry.ready(),
        ensures
            r is Less <==> entry::entry_order(&self.entry, &other.entry, settings) is Less,
            r is Equal <==> entry::entry_order(&self.entry, &other.entry, settings) is Equal,
            r is Greater <==> entry::entry_order(&self.entry, &other.entry, settings) is Greater,
    {
        self.entry.cmp(&other.entry, settings)
    }

    /// Whether the name holds the text, which is in lower case.
    pub fn matches_seek(&self, lowercase: &str) -> (r: bool)
        ensures
            r == text::occurs(encode_utf8(lowercase@), self.entry.name.lowercase@),
    {
        contains_bytes(&self.entry.name.lowercase, &lowercase.as_bytes_vec())
    }
}

/// Once something shows a thumbnail that is not loaded, it is to be loaded at once, and
/// nothing is ever dropped that something could show.
pub proof fn shown_thumbnails_are_loaded(
    o: EntryObject,
    bound: int,
    mapped: int,
    config: ThumbConfig,
    size: ThumbSize,
)
    requires
        o.widgets.can_change(bound, mapped),
    ensures
        ({
            let after = o.widgets.changed(bound, mapped);
            let r = o.widget_change(bound, mapped, config, size);
            &&& after.bound == o.widgets.bound + bound && after.mapped == o.widgets.mapped + mapped
            &&& o.widgets.mapped == 0 && after.mapped > 0 && o.thumbnail is Unloaded ==> (r
                == WidgetChange::Queue(ThumbPriority::High) || r == WidgetChange::KeepLoaded(
                Some(ThumbPriority::High),
            ))
            &&& r is ScheduleUnload ==> after.bound == 0 && after.mapped == 0 && config.unload_low
            &&& config.unload_low && after.bound == 0 && after.mapped == 0 && o.thumbnail is Loaded
                ==> r is ScheduleUnload
            &&& config.unload_low && o.widgets.bound == 0 && o.widgets.mapped == 0 && after.bound
                > 0 ==> r is KeepLoaded
            &&& o.thumbnail is Never ==> !(r is Queue)
        }),
{
}

/// A load goes ahead only for a thumbnail that needs it, and only while it is as urgent
/// as when it was asked for. One that is only made is made while nothing shows it.
pub proof fn loads_that_go_ahead(o: EntryObject, p: ThumbPriority, size: ThumbSize)
    ensures
        o.spec_goes_ahead(p, size) ==> o.thumbnail.spec_needs_load(size),
        o.thumbnail is Unloaded && p == o.widgets.spec_priority() ==> o.spec_goes_ahead(p, size),
        p is Generate ==> (o.spec_goes_ahead(p, size) <==> o.thumbnail is Unloaded
            && o.widgets.mapped == 0 && o.widgets.bound == 0),
        p is High && o.spec_goes_ahead(p, size) ==> o.widgets.mapped > 0,
        o.thumbnail == Thumb::Loading(size) ==> !o.spec_goes_ahead(p, size),
{
}

/// A picture is taken by a thumbnail that waits for one of its size, and by one that was
/// loaded in another size. Others have no use for it.
pub proof fn pictures_that_are_taken(t: Thumb, size: ThumbSize, other: ThumbSize, x: u64)
    requires
        size != other,
    ensures
        Thumb::Loading(size).takes(size) && Thumb::Outdated(x, Some(size)).takes(size),
        !Thumb::Loading(other).takes(size) && !Thumb::Outdated(x, Some(other)).takes(size),
        !Thumb::Loaded(x, size).takes(size),
        t is Never || t is Unloaded || t is Failed ==> !t.takes(size),
        t.takes(size) ==> t.occupied(),
        t is Never || t is Failed ==> !t.spec_needs_load(size),
        !Thumb::Loaded(x, size).spec_needs_load(size) && Thumb::Loaded(x, size).spec_needs_load(
            other,
        ),
{
}

/// What comes from an event can wait, and other files are loaded as configured.
pub proof fn first_priorities(kind: EntryKind, from_event: bool, config: ThumbConfig)
    ensures
        ({
            let (thumb, queue) = EntryObject::initial_thumb(kind, from_event, config);
            &&& queue is Some <==> config.enabled && kind is File
            &&& queue matches Some(p) ==> p == (if from_event {
                ThumbPriority::Low
            } else {
                config.initial
            })
            &&& queue is Some ==> thumb is Unloaded
            &&& queue is None ==> thumb is Never
        }),
{
}

} // verus!
