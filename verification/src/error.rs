//! What can go wrong while decoding a tape.

use vstd::prelude::*;

verus! {

/// The ways in which a tape can be malformed.
#[derive(Debug, Clone, Copy, PartialEq, Eq)]
pub enum DecodeError {
    /// The block's body has fewer than ten bytes, so it cannot be classified.
    TruncatedHeader,
    /// A binary or Basic header is the last block: the data block is missing.
    DanglingHeader,
    /// The name field of a header is not UTF-8.
    InvalidName,
    /// The data block of a binary file is too short to hold the three addresses.
    MissingAddresses,
}

} // verus!
