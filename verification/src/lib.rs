//! Streaming consensus codec for Bitcoin's compact-size integers and the
//! raw PSBT key/value record format built on top of them.
//!
//! The crate is organised leaf to root:
//! - [`compact_size`]: the canonical variable-length unsigned-integer codec,
//!   with whole-buffer and resumable (chunked) entry points;
//! - [`stream`]: resumable decoders that accept input split across arbitrary
//!   chunk boundaries, and a fixed-arity combinator driving sub-decoders in
//!   declared field order;
//! - [`records`]: the raw PSBT `Key` / `Pair` / `ProprietaryKey` wire format.

use vstd::prelude::*;

pub mod byte_vec;
pub mod compact_size;
pub mod error;
pub mod records;
pub mod stream;

verus! {

/// Cap on any single variable-length allocation driven by a decoded length
/// field; a declared length above this fails before the allocation happens.
pub const MAX_VEC_SIZE: usize = 4_000_000;

} // verus!
