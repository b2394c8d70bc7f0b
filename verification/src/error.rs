//! Failure kinds reported by the stream layer and the decoders.

use vstd::prelude::*;

verus! {

/// Why a read or a decode stopped.
#[derive(Clone, Copy, Debug, PartialEq, Eq, Structural)]
pub enum Error {
    /// The input holds no more bits.
    EndOfStream,
    /// The input cannot have been produced by the matching encoder.
    CorruptStream,
}

/// What decoding yields: the bytes produced, and whether it stopped because
/// the input is corrupt.
pub struct Decoded {
    pub bytes: Seq<u8>,
    pub corrupt: bool,
}

} // verus!
