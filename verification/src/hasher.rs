//! The rolling-hash capability that sketch construction consumes.
//!
//! A hasher accumulates bytes; `finish` reads the 64-bit hash of everything
//! accumulated so far without disturbing the state. A builder hands out
//! fresh hashers, one per phrase.

use vstd::prelude::*;

verus! {

/// A resettable, byte-consuming hash accumulator. Determinism is part of
/// the capability: the hash read out is a function of the accumulated bytes
/// alone, named by `hash_spec`. An implementation may only be able to hash
/// inputs up to `max_input_len` bytes (a binding that takes a 32-bit
/// length, say); callers never accumulate more than that.
pub trait SketchHasher {
    /// The hash this implementation assigns to a byte sequence.
    spec fn hash_spec(bytes: Seq<u8>) -> u64;

    /// The most bytes one hasher may be asked to accumulate.
    spec fn max_input_len() -> nat;

    /// The bytes accumulated since this hasher was built.
    spec fn buffered(&self) -> Seq<u8>;

    /// Feed one byte into the accumulator.
    fn write_u8(&mut self, byte: u8)
        requires
            old(self).buffered().len() < Self::max_input_len(),
        ensures
            final(self).buffered() == old(self).buffered().push(byte),
    ;

    /// The 64-bit hash of the accumulated bytes; does not reset the state.
    fn finish(&self) -> (r: u64)
        requires
            self.buffered().len() <= Self::max_input_len(),
        ensures
            r == Self::hash_spec(self.buffered()),
    ;
}

/// A factory for fresh [`SketchHasher`] instances.
pub trait BuildSketchHasher {
    type Hasher: SketchHasher;

    /// Build a hasher in its virgin state.
    fn build_hasher(&self) -> (h: Self::Hasher)
        ensures
            h.buffered() == Seq::<u8>::empty(),
    ;
}

} // verus!
