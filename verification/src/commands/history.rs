//! Going back and forth in the history of a document.

use vstd::prelude::*;

verus! {

/// A way through the history.
#[derive(Clone, Copy, Debug, PartialEq, Eq, Structural)]
pub enum HistoryMove {
    Undo,
    Redo,
    Earlier,
    Later,
}

/// What follows a step through the history.
#[derive(Clone, Copy, Debug)]
pub enum HistoryStep {
    /// Another step is taken.
    Again,
    /// All steps were taken.
    Finished,
    /// There is no change left in that direction.
    AtEnd(&'static str),
}

/// What is shown at the end of the history.
pub open spec fn end_text(kind: HistoryMove) -> Seq<char> {
    match kind {
        HistoryMove::Undo | HistoryMove::Earlier => "Already at oldest change"@,
        HistoryMove::Redo | HistoryMove::Later => "Already at newest change"@,
    }
}

/// What is shown at the end of the history.
pub fn end_message(kind: HistoryMove) -> (m: &'static str)
    ensures
        m@ == end_text(kind),
{
    match kind {
        HistoryMove::Undo | HistoryMove::Earlier => "Already at oldest change",
        HistoryMove::Redo | HistoryMove::Later => "Already at newest change",
    }
}

/// Takes the outcome of a step: `taken` steps were taken before it, of `count`.
pub fn history_step(kind: HistoryMove, taken: usize, count: usize, moved: bool) -> (step: HistoryStep)
    requires
        taken < count,
    ensures
        match step {
            HistoryStep::AtEnd(m) => !moved && m@ == end_text(kind),
            HistoryStep::Again => moved && taken + 1 < count,
            HistoryStep::Finished => moved && taken + 1 == count,
        },
{
    if !moved {
        HistoryStep::AtEnd(end_message(kind))
    } else if taken + 1 < count {
        HistoryStep::Again
    } else {
        HistoryStep::Finished
    }
}

} // verus!
