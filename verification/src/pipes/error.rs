//! The two ways in which an input can be rejected.

use vstd::prelude::*;

verus! {

/// Why a grid was rejected. Both are final for the given input: nothing is
/// retried and no partial result is produced.
#[derive(Clone, Copy, Debug, PartialEq, Eq, Structural)]
pub enum LoopError {
    /// The text holds a symbol outside the alphabet, holds no start symbol or
    /// more than one, or the start cell is joined by a number of neighbours
    /// other than two.
    Format,
    /// The pipes that leave the start cell do not lead back to it within as
    /// many steps as the grid has cells.
    Cycle,
}

} // verus!
