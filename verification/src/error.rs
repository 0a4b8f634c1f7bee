//! The ways in which decoding can fail.

use vstd::prelude::*;

verus! {

/// Why a buffer could not be decoded.
#[derive(Debug, Clone, Copy, PartialEq, Eq, Structural)]
pub enum NbsError {
    /// A value or a byte string would extend past the end of the buffer.
    UnexpectedEndOfData,
    /// The buffer starts with a nonzero marker: it is in the older layout,
    /// which has a single implicit layer and which this codec does not read.
    UnsupportedFormatVariant,
}

} // verus!
