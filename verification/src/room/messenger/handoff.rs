//! What becomes of a task that asked to wait.
use vstd::prelude::*;

verus! {

/// What becomes of the caller.
#[derive(Debug, PartialEq, Eq)]
pub enum Handoff<T> {
    /// It goes on at once, with this answer.
    Resume(T),
    /// It has left the hart; this frame is resumed.
    Switch(usize),
    /// It has left the hart, and nobody is ready there: the hart fetches work.
    Idle,
    /// It is doomed: it quits.
    Quit,
}

/// Why something was refused.
#[derive(Clone, Copy, Debug, PartialEq, Eq, Structural)]
pub enum GateError {
    /// Not now: nobody runs on the hart, a slot is full, or it is empty.
    Busy,
    /// There is no memory for it.
    OoM,
    /// It may not be, or there is no such thing.
    Denied,
    /// The resource is gone.
    Dead,
    /// The size is not one of whole pages.
    NotAligned,
}

} // verus!
