//! Moving between the placeholders of a snippet.

use crate::mode::Mode;
use crate::range::Direction;
use vstd::prelude::*;

verus! {

/// What moving between placeholders does.
#[derive(Clone, Copy, Debug, PartialEq, Eq, Structural)]
pub enum TabstopMove {
    /// There is no snippet to move in.
    NoSnippet,
    /// There was no placeholder before the first; the snippet is left.
    Left,
    /// The placeholder is selected. The snippet stays active unless it was the last one, and the
    /// next character replaces the placeholder when text is being inserted.
    Selected { stays: bool, replaces: bool },
}

/// The error that there is no snippet to move in.
pub fn no_snippet_message() -> (m: &'static str)
    ensures
        m@ == "no snippet is currently active"@,
{
    "no snippet is currently active"
}

/// Moves to the next or the previous placeholder. `found` tells whether there is one, and whether
/// it is the last of the snippet; the way back never reports the last.
pub fn goto_next_tabstop_impl(active: bool, direction: Direction, found: Option<bool>, mode: Mode) -> (
step: TabstopMove)
    requires
        active && direction == Direction::Forward ==> found is Some,
    ensures
        step == if !active {
            TabstopMove::NoSnippet
        } else {
            match found {
                None => TabstopMove::Left,
                Some(last) => TabstopMove::Selected {
                    stays: direction == Direction::Backward || !last,
                    replaces: mode == Mode::Insert,
                },
            }
        },
{
    if !active {
        return TabstopMove::NoSnippet;
    }
    match found {
        None => TabstopMove::Left,
        Some(last) => {
            let last_tabstop: bool = match direction {
                Direction::Forward => last,
                Direction::Backward => false,
            };
            TabstopMove::Selected { stays: !last_tabstop, replaces: mode == Mode::Insert }
        },
    }
}

} // verus!
