//! The ways in which an operation on the sorter fails.

use vstd::prelude::*;

verus! {

/// Why an operation was refused. A refused operation changes nothing.
#[derive(Clone, Copy, Debug, PartialEq, Eq, Structural)]
pub enum SortError {
    /// An attribute array is absent or empty, or the arrays do not agree on
    /// the number of instances.
    InvalidInput,
    /// The depth of an instance is a NaN. `index` is the first such instance
    /// and `x`, `y`, `z` are the bit patterns of its position.
    NonFiniteDepth { index: u32, x: u32, y: u32, z: u32 },
}

} // verus!
