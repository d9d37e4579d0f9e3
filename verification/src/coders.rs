//! Fixed-size binary encodings.

use vstd::prelude::*;

verus! {

/// A value that encodes into at most `max_len` bytes.
pub trait Encode {
    /// Most bytes an encoding takes.
    fn max_len() -> usize;

    /// Encodes into the front of `buffer`, which holds `max_len` bytes, and
    /// returns how many bytes it used.
    fn encode(&self, buffer: &mut [u8]) -> usize;
}

/// A value that decodes from what `encode` wrote.
pub trait Decode: Encode + Sized {
    /// Decodes from the front of `buffer`.
    fn decode(buffer: &[u8]) -> Self;
}

} // verus!
