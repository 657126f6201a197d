//! Errors reported by the generators.

use vstd::prelude::*;

verus! {

/// Ways in which a request to a generator can be refused.
#[derive(Clone, Copy, Debug, PartialEq, Eq, Structural)]
pub enum Error {
    /// More axes were requested than the direction-number table supports.
    InvalidDimension,
    /// The output buffer is shorter than the generator's dimensionality.
    BufferTooSmall,
}

} // verus!
