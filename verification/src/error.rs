//! Errors of the parsing boundary.

use vstd::prelude::*;

verus! {

/// What can go wrong when a grid is read from the flat digit encoding.
/// Malformed input never reaches the solver or the pruner.
#[derive(Copy, Clone, Debug, PartialEq, Eq, Structural)]
pub enum Error {
    /// The encoding did not hold exactly 81 cell values.
    InvalidLength,
    /// A cell value lay outside the digits 0 to 9.
    InvalidToken,
}

} // verus!
