//! A line of text as the surrounding editor shell handles it: the
//! characters plus the caret and selection annotations that arrive with it.
//! The shell keeps a cache of these and renders each one through a
//! `TextLayout`.

use vstd::prelude::*;

verus! {

/// One line of text with its annotations.
pub struct Line {
    /// The line's characters.
    pub text: String,
    /// Caret position within the line, as a byte offset, if the caret is on
    /// this line.
    pub cursor: Option<u64>,
    /// Selected range within the line, as byte offsets, if a selection
    /// touches this line.
    pub selection: Option<(u64, u64)>,
}

impl Line {
    /// The stand-in shown for a line whose contents have not arrived yet.
    pub fn placeholder() -> (l: Line)
        ensures
            l.text@ == ">>> NOT IN CACHE <<<"@,
            l.cursor is None,
            l.selection is None,
    {
        Line { text: ">>> NOT IN CACHE <<<".to_owned(), cursor: None, selection: None }
    }
}

} // verus!
