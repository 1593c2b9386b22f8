//! The hashing capability a key type must provide, and the sentinel remap.
//!
//! A stored hash of zero marks an empty slot, so a raw hash of zero is
//! remapped to one before it is stored or compared.

use vstd::prelude::*;

verus! {

/// A key type usable by the probing tables: it can hash itself and
/// compare itself for equality.
///
/// The exec methods are tied to spec-level meaning, so verified table code
/// can reason about what they return.
pub trait SimpleHash: Sized + Copy {
    /// The mathematical hash of this key.
    spec fn spec_hash(self) -> usize;

    /// Compute the hash.
    fn hash(self) -> (h: usize)
        ensures
            h == self.spec_hash(),
    ;

    /// Decide equality of two keys.
    fn key_eq(self, other: Self) -> (b: bool)
        ensures
            b == (self == other),
    ;

    /// A key value used to fill slots that hold no resident key.
    /// Nothing is assumed about it; empty slots are recognised by the
    /// hash sentinel alone.
    fn filler() -> Self;
}

impl SimpleHash for u64 {
    open spec fn spec_hash(self) -> usize {
        self as usize
    }

    /// The trivial identity hash for integer keys.
    fn hash(self) -> usize {
        self as usize
    }

    fn key_eq(self, other: Self) -> bool {
        self == other
    }

    fn filler() -> Self {
        0
    }
}

/// The hash actually stored in a slot: a raw hash of zero is remapped to
/// one, because zero is the empty-slot sentinel.
pub open spec fn spec_stored_hash<T: SimpleHash>(key: T) -> usize {
    if key.spec_hash() == 0 {
        1
    } else {
        key.spec_hash()
    }
}

} // verus!
