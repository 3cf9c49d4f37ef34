//! The control signal of a car and the kinds of sources that write it.

use vstd::prelude::*;

verus! {

/// The source that produces a car's control signal each tick.
#[derive(Debug, Clone, Copy, PartialEq, Eq, Structural)]
pub enum ControlKind {
    /// A human at a keyboard; the host mirrors key state into the flags.
    Keys,
    /// A scripted traffic car: drives forward forever, never steers.
    Dummy,
    /// An autonomous car: its controller output overwrites the flags.
    AI,
}

/// Four independent control flags, owned by the car that obeys them.
#[derive(Debug, Clone, Copy, PartialEq, Eq, Structural)]
pub struct Controls {
    pub forward: bool,
    pub left: bool,
    pub right: bool,
    pub reverse: bool,
}

impl Controls {
    /// A fresh control signal for the given source kind: every flag clear,
    /// except that a scripted dummy holds forward permanently. Keyboard
    /// wiring lives with the host, which only flips these flags afterwards.
    pub fn new(kind: ControlKind) -> (r: Controls)
        ensures
            r.forward == (kind is Dummy),
            !r.left,
            !r.right,
            !r.reverse,
    {
        Controls {
            forward: kind == ControlKind::Dummy,
            left: false,
            right: false,
            reverse: false,
        }
    }
}

} // verus!
