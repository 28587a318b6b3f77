//! Helpers that let a random number generator with one native output
//! (32-bit words, 64-bit words or bytes) offer the other two, always in
//! little-endian order so that derived values are the same on every platform.
//!
//! A generator's capability comes in three parts, [`NextU32`], [`NextU64`]
//! and [`FillBytes`], one trait each, so that a generator can implement the
//! part that is native to it and build the others on it with the functions
//! of [`impls`]: the implementation of one part may call a function that
//! asks for another part only.
//!
//! A generator is modelled by what it may do next. Each part has a spec
//! relation between the state before a call, the output, and the state after
//! the call, and its operation promises an outcome that the relation admits.
//! A deterministic generator admits exactly one outcome for each state. The
//! relations as given here admit every outcome, which suits an entropy
//! source; a generator that wants more known of it overrides them.

use vstd::prelude::*;

pub mod impls;
pub mod laws;
pub mod le;

verus! {

/// A generator that produces 32-bit words.
pub trait NextU32 {
    /// From state `self` the generator may hand out `word` as its next 32-bit
    /// word and be in state `next` afterwards.
    open spec fn draws_u32(&self, word: u32, next: &Self) -> bool {
        true
    }

    /// Returns the next 32-bit word.
    fn next_u32(&mut self) -> (word: u32)
        ensures
            old(self).draws_u32(word, final(self)),
    ;
}

/// A generator that produces 64-bit words.
pub trait NextU64 {
    /// From state `self` the generator may hand out `word` as its next 64-bit
    /// word and be in state `next` afterwards.
    open spec fn draws_u64(&self, word: u64, next: &Self) -> bool {
        true
    }

    /// Returns the next 64-bit word.
    fn next_u64(&mut self) -> (word: u64)
        ensures
            old(self).draws_u64(word, final(self)),
    ;
}

/// A generator that fills byte buffers.
pub trait FillBytes {
    /// From state `self` the generator, given a buffer that holds `held`,
    /// may fill it with `bytes` and be in state `next` afterwards.
    open spec fn draws_bytes(&self, held: Seq<u8>, bytes: Seq<u8>, next: &Self) -> bool {
        true
    }

    /// Fills all of `dest` with random bytes.
    fn fill_bytes(&mut self, dest: &mut [u8])
        ensures
            final(dest)@.len() == old(dest)@.len(),
            old(self).draws_bytes(old(dest)@, final(dest)@, final(self)),
    ;
}

/// A generator with all three outputs.
pub trait RngCore: NextU32 + NextU64 + FillBytes {}

impl<R: NextU32 + NextU64 + FillBytes + ?Sized> RngCore for R {}

} // verus!
