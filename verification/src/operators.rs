use vstd::prelude::*;

verus! {

/// The supported image compositing operators.
#[derive(Clone, Copy, Debug, PartialEq, Eq, Structural)]
pub enum Operator {
    /// Draws the source layer on top of the destination layer.
    Over,
}

} // verus!
