//! A [`SketchHasher`] backed by the 128-bit MurmurHash3 (x64 variant).

use vstd::prelude::*;

use crate::hasher::BuildSketchHasher;
use crate::hasher::SketchHasher;

verus! {

/// The low 64 bits of the 128-bit MurmurHash3 (x64 variant, seed 0) of a
/// byte sequence.
pub uninterp spec fn murmur3_low64_of(bytes: Seq<u8>) -> u64;

/// Relies on fasthash::murmur3::Hash128_x64::hash: the 128-bit MurmurHash3
/// (x64 variant, seed 0) of the input, a function of the input bytes alone;
/// the cast keeps its low 64 bits. The binding passes the input length to C
/// as a 32-bit signed integer, so only inputs below 2^31 bytes are admitted.
#[verifier::external_body]
fn murmur3_low64(bytes: &Vec<u8>) -> (r: u64)
    requires
        bytes@.len() < 0x8000_0000,
    ensures
        r == murmur3_low64_of(bytes@),
{
    <fasthash::murmur3::Hash128_x64 as fasthash::FastHash>::hash(bytes.as_slice()) as u64
}

/// Accumulates bytes and reads out the low 64 bits of their MurmurHash3.
pub struct Murmur3Hasher {
    bytes: Vec<u8>,
}

impl SketchHasher for Murmur3Hasher {
    open spec fn hash_spec(bytes: Seq<u8>) -> u64 {
        murmur3_low64_of(bytes)
    }

    open spec fn max_input_len() -> nat {
        0x7fff_ffff
    }

    closed spec fn buffered(&self) -> Seq<u8> {
        self.bytes@
    }

    fn write_u8(&mut self, byte: u8) {
        self.bytes.push(byte);
    }

    fn finish(&self) -> u64 {
        murmur3_low64(&self.bytes)
    }
}

/// Builds [`Murmur3Hasher`]s in their virgin state.
pub struct Murmur3BuildHasher;

impl BuildSketchHasher for Murmur3BuildHasher {
    type Hasher = Murmur3Hasher;

    fn build_hasher(&self) -> (h: Murmur3Hasher) {
        Murmur3Hasher { bytes: Vec::new() }
    }
}

} // verus!
