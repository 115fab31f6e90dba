//! What can go wrong between a list of lines and its statistics.

use vstd::prelude::*;

verus! {

/// Why no result came about.
#[derive(Debug, Clone, Copy, PartialEq, Eq, Structural)]
pub enum GraphError {
    /// The line with the number `line`, the first line being number 0, holds
    /// no comma, so it has no second field.
    MalformedRecord { line: usize },
}

} // verus!
