//! Typed failures of the codec.

use vstd::prelude::*;

verus! {

/// Every failure the codec can report.  Each is a deterministic,
/// structural condition detected at its point of origin; none is retried.
#[derive(Clone, Copy, Debug, PartialEq, Eq, Structural)]
pub enum HuffmanError {
    /// Tree construction was attempted with zero weighted symbols.
    EmptyAlphabet,
    /// Decoding ran out of bits in the middle of a tree walk.
    TruncatedStream,
    /// Unpacking requested more bits than the stream stores.
    BitRequestOutOfRange,
}

} // verus!
