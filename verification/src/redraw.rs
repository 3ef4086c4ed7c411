//! When the editor draws a frame.
//!
//! A redraw is requested by raising a signal, and drawing waits until no task holds the frame.

use vstd::prelude::*;

verus! {

/// The redraw signal of one editor, and how many tasks hold its next frame back.
#[derive(Clone, Copy, Debug, PartialEq, Eq, Structural)]
pub struct Redraw {
    pub requested: bool,
    pub locks: usize,
}

impl Default for Redraw {
    fn default() -> (signal: Redraw)
        ensures
            !signal.requested,
            signal.locks == 0,
    {
        Redraw { requested: false, locks: 0 }
    }
}

/// The signal once a redraw has been requested.
pub open spec fn raised(signal: Redraw) -> Redraw {
    Redraw { requested: true, ..signal }
}

/// The signal once its request has been taken.
pub open spec fn lowered(signal: Redraw) -> Redraw {
    Redraw { requested: false, ..signal }
}

/// Requests that the editor is redrawn. Requests are not counted, so this can be called many
/// times without causing as many frames to be drawn.
pub fn request_redraw(signal: &mut Redraw)
    ensures
        *final(signal) == raised(*old(signal)),
{
    signal.requested = true;
}

/// Takes a request: tells whether a redraw has been requested since the last one was taken.
pub fn redraw_requested(signal: &mut Redraw) -> (ready: bool)
    ensures
        ready == old(signal).requested,
        *final(signal) == lowered(*old(signal)),
{
    let ready: bool = signal.requested;
    signal.requested = false;
    ready
}

/// Begins a frame unless a task holds it back. A frame that begins answers every request made
/// before it.
pub fn start_frame(signal: &mut Redraw) -> (started: bool)
    ensures
        started == (old(signal).locks == 0),
        *final(signal) == if old(signal).locks == 0 {
            lowered(*old(signal))
        } else {
            *old(signal)
        },
{
    if signal.locks == 0 {
        signal.requested = false;
        true
    } else {
        false
    }
}

/// Holds the next frame back until the lock is given up.
pub fn lock_frame(signal: &mut Redraw)
    requires
        old(signal).locks < usize::MAX,
    ensures
        *final(signal) == (Redraw { locks: (old(signal).locks + 1) as usize, ..*old(signal) }),
{
    signal.locks = signal.locks + 1;
}

/// Gives up one lock on the next frame.
pub fn unlock_frame(signal: &mut Redraw)
    requires
        old(signal).locks > 0,
    ensures
        *final(signal) == (Redraw { locks: (old(signal).locks - 1) as usize, ..*old(signal) }),
{
    signal.locks = signal.locks - 1;
}

/// Requests collapse: two in a row leave the signal as one does, and taking the request leaves
/// none behind.
pub proof fn requests_collapse(signal: Redraw)
    ensures
        raised(raised(signal)) == raised(signal),
        lowered(raised(raised(signal))) == lowered(signal),
        !lowered(signal).requested,
{
}

} // verus!
