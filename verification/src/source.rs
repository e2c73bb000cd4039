//! Which app was frontmost when an entry was captured.
//!
//! Recorded at capture time because it can't be recovered later: by the time
//! you open the menu, the app you copied from may be long gone.

use vstd::prelude::*;

use crate::text;

verus! {

/// The app a clipboard entry came from.
#[derive(Debug, Clone, PartialEq, Eq)]
pub struct Source {
    /// Display name, e.g. "Safari".
    pub name: Option<String>,
    /// Bundle id, e.g. "com.apple.Safari", used to look up the app's icon.
    pub bundle_id: Option<String>,
}

/// What a [`Source`] holds: a name and a bundle id.
pub struct SourceView {
    pub name: Option<Seq<char>>,
    pub bundle_id: Option<Seq<char>>,
}

impl View for Source {
    type V = SourceView;

    open spec fn view(&self) -> SourceView {
        SourceView {
            name: text::option_view(self.name),
            bundle_id: text::option_view(self.bundle_id),
        }
    }
}

impl Default for Source {
    fn default() -> (source: Self)
        ensures
            source.name is None,
            source.bundle_id is None,
    {
        Source { name: None, bundle_id: None }
    }
}

impl Source {
    /// Whether the source says nothing at all. A name with no bundle id still
    /// labels the row; a bundle id with no name still finds the icon.
    pub fn is_empty(&self) -> (r: bool)
        ensures
            r == (self.name is None && self.bundle_id is None),
    {
        self.name.is_none() && self.bundle_id.is_none()
    }
}

/// What a window system that was asked said about its frontmost app, as a source
/// worth recording. `None` where it named no app, or neither its name nor its
/// bundle id.
///
/// This is a best-effort attribution: the capture happens up to one poll
/// interval after the copy, so switching apps right after copying can credit the
/// wrong one. Being occasionally wrong is worth more than being absent.
pub fn attributed(app: Option<Source>) -> (r: Option<Source>)
    ensures
        r == match app {
            Some(source) => if source.name is None && source.bundle_id is None {
                None
            } else {
                Some(source)
            },
            None => None,
        },
{
    match app {
        Some(source) => if source.is_empty() {
            None
        } else {
            Some(source)
        },
        None => None,
    }
}

/// The frontmost app where there is no window system to ask: none.
pub fn frontmost() -> (r: Option<Source>)
    ensures
        r is None,
{
    attributed(None)
}

} // verus!
