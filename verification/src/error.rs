//! The failures that packing and unpacking report.

use vstd::prelude::*;

verus! {

/// Why a call to pack or unpack a field was refused.
#[derive(Debug, Clone, Copy, PartialEq, Eq, Structural)]
pub enum PackError {
    /// The width of the field is not between 1 and 64 bits.
    InvalidWidth,
    /// The field is wider than what is left to read.
    BufferExhausted,
}

/// The widths that a field may have.
pub open spec fn valid_width(bits: nat) -> bool {
    1 <= bits <= 64
}

} // verus!
