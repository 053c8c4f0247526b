//! Decode-time failure taxonomy shared by every decoder in the crate.

use vstd::prelude::*;

verus! {

/// Everything that can go wrong while decoding, plus the one sentinel
/// condition callers branch on explicitly.
#[derive(Debug, Clone, Copy, PartialEq, Eq, Structural)]
pub enum Error {
    /// The input ended before the structure was complete.
    UnexpectedEof,
    /// A compact size used a longer form than its value requires.
    NonMinimal,
    /// A zero key length: the end-of-map sentinel, not a parse failure.
    NoMorePairs,
    /// A key length shorter than the compact-size encoding of its type value.
    KeyLengthMismatch,
    /// A declared length above the maximum allocation guard.
    OversizedAllocation,
    /// A proprietary key was rebuilt from a key whose type value is not 0xFC.
    InvalidProprietaryKey,
}

/// A compound decode failure, tagged with the field that failed.
#[derive(Debug, Clone, Copy, PartialEq, Eq, Structural)]
pub enum Decoder3Error {
    /// The first field failed.
    First(Error),
    /// The second field failed.
    Second(Error),
    /// The third field failed.
    Third(Error),
    /// The record decoded, but bytes trailed it in a whole-buffer decode.
    UnusedBytes,
}

} // verus!
