//! Why a block of bytes or words was rejected.

use vstd::prelude::*;

verus! {

/// The reason a decoder gives for rejecting its input.
#[derive(Clone, Copy, Debug, PartialEq, Eq)]
pub enum DecodeError {
    /// The block is shorter than the shortest wire image of the type asked for.
    TruncatedInput,
    /// The block is long enough, but its length is not that of any wire image
    /// of the type asked for: units are left over, or two halves differ.
    LengthMismatch,
}

} // verus!
