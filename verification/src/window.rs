//! The window: its messages, and what other instances ask of it.
use vstd::prelude::*;

use crate::nav::{NavError, NavTarget};
use crate::path::{self, FilePath};

verus! {

/// The message that is shown over the window. A warning goes away by itself; an
/// error stays until it is dismissed.
pub struct Toast {
    pub text: String,
    pub visible: bool,
    /// The number of the timer that hides a warning.
    pub timer: Option<u64>,
}

impl Toast {
    /// Whether an error is shown.
    pub open spec fn shows_error(self) -> bool {
        self.visible && self.timer is None
    }

    pub fn new() -> (r: Toast)
        ensures
            !r.visible,
            r.timer is None,
            r.text@ == Seq::<char>::empty(),
    {
        let text = String::new();
        assert(text@ =~= Seq::<char>::empty());
        Toast { text, visible: false, timer: None }
    }

    /// Shows a warning, which `timer` will hide, unless an error is shown.
    /// Returns whether it is shown, and the timer of the warning that it
    /// replaces.
    pub fn warning(&mut self, msg: String, timer: u64) -> (r: (bool, Option<u64>))
        ensures
            r.0 == !old(self).shows_error(),
            r.1 == old(self).timer,
            r.0 ==> *final(self) == (Toast { text: msg, visible: true, timer: Some(timer) }),
            !r.0 ==> *final(self) == *old(self),
    {
        let last: Option<u64> = self.timer;
        if self.visible && last.is_none() {
            return (false, None);
        }
        self.text = msg;
        self.visible = true;
        self.timer = Some(timer);
        (true, last)
    }

    /// Shows an error. Returns the timer of the warning that it replaces.
    pub fn error(&mut self, msg: String) -> (r: Option<u64>)
        ensures
            r == old(self).timer,
            *final(self) == (Toast { text: msg, visible: true, timer: None }),
    {
        let last: Option<u64> = self.timer;
        self.timer = None;
        self.text = msg;
        self.visible = true;
        last
    }

    /// Hides a warning once its time is over.
    pub fn timed_out(&mut self)
        ensures
            *final(self) == (Toast { text: old(self).text, visible: false, timer: None }),
    {
        self.visible = false;
        self.timer = None;
    }

    /// Hides whatever is shown. Returns the timer that is to be stopped.
    pub fn dismiss(&mut self) -> (r: Option<u64>)
        ensures
            r == old(self).timer,
            *final(self) == (Toast { text: old(self).text, visible: false, timer: None }),
    {
        let last: Option<u64> = self.timer;
        self.visible = false;
        self.timer = None;
        last
    }
}

/// The path that another instance asks to open: its argument, or else the
/// directory that it runs in. A relative path starts there.
pub fn command_line_path(arg: Option<&Vec<u8>>, cwd: Option<&FilePath>) -> (r: Result<
    FilePath,
    NavError,
>)
    requires
        cwd matches Some(d) ==> d.valid(),
    ensures
        match (arg, cwd) {
            (None, None) => r == Err::<FilePath, NavError>(NavError::NotAbsolute),
            (None, Some(d)) => r matches Ok(p) && p@ == path::resolved(d@),
            (Some(a), _) => {
                let parts = path::path_parts(a@);
                if path::rooted(a@) {
                    r matches Ok(p) && p@ == path::resolved(parts)
                } else {
                    match cwd {
                        Some(d) => r matches Ok(p) && p@ == path::resolved(d@ + parts),
                        None => r == Err::<FilePath, NavError>(NavError::NotAbsolute),
                    }
                }
            },
        },
{
    match arg {
        Some(a) => NavTarget::cleaned_abs(a, None, cwd),
        None => match cwd {
            Some(d) => Ok(d.cleaned()),
            None => Err(NavError::NotAbsolute),
        },
    }
}

/// The size that a window starts with, if the saved one is not tiny.
pub fn initial_size(width: u32, height: u32) -> (r: Option<(u32, u32)>)
    ensures
        r == (if width >= 100 && height >= 100 {
            Some((width, height))
        } else {
            None
        }),
{
    if width >= 100 && height >= 100 {
        Some((width, height))
    } else {
        None
    }
}

/// An error stays in view whatever warnings come; a warning gives way to the next, and
/// so does what is hidden.
pub proof fn errors_stay(text: String, timer: u64, t: Toast)
    ensures
        (Toast { text, visible: true, timer: None }).shows_error(),
        !(Toast { text, visible: true, timer: Some(timer) }).shows_error(),
        !t.visible ==> !t.shows_error(),
{
}

} // verus!
