//! User settings that the library decides on: the editor layout and where
//! the workspace folder is.

use vstd::prelude::*;
use crate::text::{trim, trim_str};

verus! {

/// Default editor layout.
#[derive(Clone, Copy, PartialEq, Eq, Debug, Structural)]
pub enum ViewMode {
    Markdown,
    Preview,
    Split,
}

impl Default for ViewMode {
    fn default() -> (m: ViewMode)
        ensures
            m == ViewMode::Split,
    {
        ViewMode::Split
    }
}

impl ViewMode {
    /// The markdown source pane is on screen (`[MD]` and `[SPLIT]`).
    pub fn shows_editor(&self) -> (b: bool)
        ensures
            b == (*self == ViewMode::Markdown || *self == ViewMode::Split),
    {
        match self {
            ViewMode::Markdown => true,
            ViewMode::Preview => false,
            ViewMode::Split => true,
        }
    }

    /// The rendered preview pane is on screen (`[PREVIEW]` and `[SPLIT]`).
    pub fn shows_preview(&self) -> (b: bool)
        ensures
            b == (*self == ViewMode::Preview || *self == ViewMode::Split),
    {
        match self {
            ViewMode::Markdown => false,
            ViewMode::Preview => true,
            ViewMode::Split => true,
        }
    }
}

/// The configured workspace folder, trimmed; `None` when unset (blank), so
/// the default location applies.
pub fn configured_workspace(dir: &str) -> (r: Option<String>)
    ensures
        match r {
            Some(s) => trim(dir@).len() > 0 && s@ == trim(dir@),
            None => trim(dir@).len() == 0,
        },
{
    let t = trim_str(dir);
    if t.as_str().is_empty() {
        None
    } else {
        Some(t)
    }
}

} // verus!
