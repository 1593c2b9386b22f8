//! Properties that hold across the library's functions, stated and proved
//! once over the shared model.
//!
//! The round-trip law (a resident key is always found, with probe length
//! at least one) is [`crate::model::lemma_resident_is_found`], and the
//! no-false-positives law (a key never inserted is never reported found)
//! is [`crate::model::lemma_found_is_resident`]; both layouts' `lookup`
//! contracts are proved from them. The laws here relate the two layouts
//! and the sentinel remap.

use vstd::prelude::*;
use crate::aos::AosTable;
use crate::hashing::{SimpleHash, spec_stored_hash};
use crate::model::{
    lemma_insert_effect, lemma_resident_is_found, occupied_count, resident, slots_wf, spec_insert,
    spec_probe,
};
use crate::soa::Table;

verus! {

/// Round trip: inserting a fresh key into a well-formed table with room
/// leaves that key — and every key that was already resident — found by
/// lookup, with a probe length between one and the capacity. Applied once
/// per insertion, this extends to any set of distinct keys that fits.
pub proof fn lemma_round_trip<T: SimpleHash>(
    hashes: Seq<usize>,
    keys: Seq<T>,
    cap: int,
    rh: bool,
    key: T,
    x: T,
)
    requires
        slots_wf(hashes, keys, cap),
        !resident(hashes, keys, key),
        occupied_count(hashes) < cap,
        resident(hashes, keys, x) || x == key,
    ensures
        ({
            let r = spec_insert(hashes, keys, cap, rh, key);
            &&& resident(r.0, r.1, x)
            &&& spec_probe(r.0, r.1, cap, x) is Ok
            &&& 1 <= spec_probe(r.0, r.1, cap, x)->Ok_0 <= cap
        }),
{
    lemma_insert_effect(hashes, keys, cap, rh, key);
    let r = spec_insert(hashes, keys, cap, rh, key);
    lemma_resident_is_found(r.0, r.1, cap, x);
}

/// Layout equivalence: an array-of-structs table and a struct-of-arrays
/// table holding the same slot contents under the same policy yield the
/// identical probe result for every key, and identical contents again
/// after inserting the same key. Since each layout's `lookup` returns
/// exactly `spec_probe` of its contents and each layout's `insert` turns
/// its contents into exactly `spec_insert` of them, tables built by the
/// same insertions answer every lookup with bit-identical probe lengths.
pub proof fn lemma_layout_equivalence<T: SimpleHash>(aos: AosTable<T>, soa: Table<T>, key: T)
    requires
        aos.hashes_view() == soa.hashes_view(),
        aos.keys_view() == soa.keys_view(),
        aos.cap() == soa.cap(),
        aos.policy() == soa.policy(),
    ensures
        spec_probe(aos.hashes_view(), aos.keys_view(), aos.cap(), key) == spec_probe(
            soa.hashes_view(),
            soa.keys_view(),
            soa.cap(),
            key,
        ),
        spec_insert(aos.hashes_view(), aos.keys_view(), aos.cap(), aos.policy(), key)
            == spec_insert(soa.hashes_view(), soa.keys_view(), soa.cap(), soa.policy(), key),
{
}

/// Sentinel correctness: the hash under which a key is stored and looked
/// up is never the empty-slot sentinel `0`; a raw hash of zero is remapped
/// to one and every other raw hash is kept. Both insertion and lookup go
/// through this one remap, so a key whose raw hash is zero round-trips
/// like any other (see [`crate::model::lemma_resident_is_found`]).
pub proof fn lemma_sentinel_remap<T: SimpleHash>(key: T)
    ensures
        spec_stored_hash(key) != 0,
        key.spec_hash() == 0 ==> spec_stored_hash(key) == 1,
        key.spec_hash() != 0 ==> spec_stored_hash(key) == key.spec_hash(),
{
}

} // verus!
