use vstd::prelude::*;

verus! {

/// A unit of movement in one direction.
#[derive(Debug, Copy, Clone, Hash, PartialEq, Eq, Structural)]
pub enum Step {
    /// To the parent.
    Up,
    /// To the first child.
    Down,
    /// To the previous sibling.
    Left,
    /// To the next sibling.
    Right,
    /// To where the trail stood one step earlier.
    Back,
}

/// Why a cursor could not move: one variant for each direction.
#[derive(Debug, Clone, Copy, PartialEq, Eq, Structural)]
pub enum ZipperErr {
    CannotGoUp,
    CannotGoLeft,
    CannotGoRight,
    CannotGoDown,
    CannotGoBack,
}

} // verus!
