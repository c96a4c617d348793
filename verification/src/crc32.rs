//! A [`SketchHasher`] backed by the IEEE CRC-32 checksum.

use vstd::prelude::*;

use crate::hasher::BuildSketchHasher;
use crate::hasher::SketchHasher;

verus! {

/// The IEEE CRC-32 (the ISO-HDLC algorithm) of a byte sequence.
pub uninterp spec fn crc32_of(bytes: Seq<u8>) -> u32;

/// Relies on crc::Crc::<u32>::checksum with the CRC_32_ISO_HDLC algorithm:
/// the IEEE CRC-32 of the input, a function of the input bytes alone.
#[verifier::external_body]
fn crc32_checksum(bytes: &Vec<u8>) -> (r: u32)
    ensures
        r == crc32_of(bytes@),
{
    crc::Crc::<u32>::new(&crc::CRC_32_ISO_HDLC).checksum(bytes.as_slice())
}

/// Accumulates bytes and reads out their IEEE CRC-32, widened to 64 bits.
pub struct CRC32Hasher {
    bytes: Vec<u8>,
}

impl SketchHasher for CRC32Hasher {
    open spec fn hash_spec(bytes: Seq<u8>) -> u64 {
        crc32_of(bytes) as u64
    }

    open spec fn max_input_len() -> nat {
        usize::MAX as nat
    }

    closed spec fn buffered(&self) -> Seq<u8> {
        self.bytes@
    }

    fn write_u8(&mut self, byte: u8) {
        self.bytes.push(byte);
    }

    fn finish(&self) -> u64 {
        crc32_checksum(&self.bytes) as u64
    }
}

/// Builds [`CRC32Hasher`]s in their virgin state.
pub struct CRC32BuildHasher;

impl BuildSketchHasher for CRC32BuildHasher {
    type Hasher = CRC32Hasher;

    fn build_hasher(&self) -> (h: CRC32Hasher) {
        CRC32Hasher { bytes: Vec::new() }
    }
}

} // verus!
