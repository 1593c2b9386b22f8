//! The struct-of-arrays table layout: all stored hashes in one array, all
//! keys in a parallel one, so a probing pass touches mostly the hash array
//! and dereferences a key only on a hash match.

use vstd::prelude::*;
use vstd::pervasive::VecAdditionalExecFns;
use vstd::arithmetic::power2::{pow2, lemma_pow2_unfold, lemma_pow2_strictly_increases, lemma2_to64};
use crate::hashing::{SimpleHash, spec_stored_hash};
use crate::model::{
    advance, dist_of, insert_rec, lemma_found_is_resident, lemma_insert_effect,
    lemma_not_full_has_empty, lemma_occupied_count_le, lemma_resident_is_found, occupied,
    occupied_count, probe_rec, resident, slots_wf, spec_insert, spec_probe, InsertError,
};

verus! {

/// A fixed-capacity open-addressing hash table over two parallel arrays.
///
/// The capacity is a power of two fixed at construction; `mask` is
/// `capacity - 1` and drives all modular position arithmetic. A stored
/// hash of `0` marks an empty slot. Insertion probes linearly and, when
/// the Robin Hood policy is chosen at construction, displaces incumbents
/// that sit closer to their home slot than the inserted key does.
pub struct Table<T> {
    mask: usize,
    robin_hood: bool,
    count: usize,
    hashes: Vec<usize>,
    keys: Vec<T>,
}

impl<T: SimpleHash> Table<T> {
    /// The number of slots.
    pub closed spec fn cap(self) -> int {
        self.mask as int + 1
    }

    /// The stored hashes, slot by slot.
    pub closed spec fn hashes_view(self) -> Seq<usize> {
        self.hashes@
    }

    /// The stored keys, slot by slot.
    pub closed spec fn keys_view(self) -> Seq<T> {
        self.keys@
    }

    /// Whether Robin Hood displacement was chosen at construction.
    pub closed spec fn policy(self) -> bool {
        self.robin_hood
    }

    /// How many keys are resident.
    pub closed spec fn spec_len(self) -> nat {
        occupied_count(self.hashes@)
    }

    /// Whether `key` is resident.
    pub open spec fn resident_key(self, key: T) -> bool {
        resident(self.hashes_view(), self.keys_view(), key)
    }

    /// Well-formedness: the slot arrays satisfy the probing invariants and
    /// the cached occupancy count is correct. The size bound keeps all the
    /// position arithmetic within `usize`.
    pub closed spec fn wf(self) -> bool {
        &&& slots_wf(self.hashes@, self.keys@, self.cap())
        &&& self.mask as int + self.mask as int + 1 <= usize::MAX as int
        &&& self.count as nat == occupied_count(self.hashes@)
    }

    /// The sentinel-remapped hash under which a key is stored and looked
    /// up: a raw hash of zero becomes one, so that zero always means an
    /// empty slot.
    pub fn hash_key(key: T) -> (h: usize)
        ensures
            h == spec_stored_hash(key),
    {
        let h = key.hash();
        if h == 0 {
            1
        } else {
            h
        }
    }

    /// Allocate a table of `2^log_capacity` empty slots. The exponent is
    /// bounded so that every position computation fits in `usize` on any
    /// platform.
    pub fn new(log_capacity: usize, robin_hood: bool) -> (t: Self)
        requires
            log_capacity < 32,
        ensures
            t.wf(),
            t.cap() == pow2(log_capacity as nat),
            t.spec_len() == 0,
            forall|k: T| !(#[trigger] t.resident_key(k)),
            t.policy() == robin_hood,
    {
        let mut n: usize = 1;
        let mut i: usize = 0;
        proof {
            lemma2_to64();
        }
        while i < log_capacity
            invariant
                i <= log_capacity,
                log_capacity < 32,
                n as nat == pow2(i as nat),
                pow2(31) == 0x80000000,
            decreases log_capacity - i,
        {
            proof {
                if i + 1 < 31 {
                    lemma_pow2_strictly_increases((i + 1) as nat, 31nat);
                }
                lemma_pow2_unfold((i + 1) as nat);
            }
            n = n * 2;
            i = i + 1;
        }
        proof {
            if log_capacity < 31 {
                lemma_pow2_strictly_increases(log_capacity as nat, 31nat);
            }
        }
        let mut hashes: Vec<usize> = Vec::new();
        while hashes.len() < n
            invariant
                hashes@.len() <= n,
                forall|j: int| 0 <= j < hashes@.len() ==> hashes@[j] == 0,
            decreases n - hashes.len(),
        {
            hashes.push(0);
        }
        let mut keys: Vec<T> = Vec::new();
        while keys.len() < n
            invariant
                keys@.len() <= n,
            decreases n - keys.len(),
        {
            keys.push(T::filler());
        }
        let t = Table { mask: n - 1, robin_hood, count: 0, hashes, keys };
        proof {
            crate::model::lemma_all_empty_count_zero(t.hashes@);
            assert forall|j: int| 0 <= j < t.cap() implies !occupied(t.hashes@, j) by {}
            assert forall|k: T| !(#[trigger] t.resident_key(k)) by {
                if resident(t.hashes@, t.keys@, k) {
                    let j = choose|j: int|
                        0 <= j < t.hashes@.len() && #[trigger] occupied(t.hashes@, j) && t.keys@[j]
                            == k;
                    assert(false);
                }
            }
        }
        t
    }

    /// Insert a key that is not yet resident into a table that has room.
    /// The key (or, under Robin Hood displacement, a relocated incumbent)
    /// lands in the first suitable empty slot; exactly one slot turns from
    /// empty to occupied, and no resident key is lost.
    pub fn insert(&mut self, key: T)
        requires
            old(self).wf(),
            !old(self).resident_key(key),
            old(self).spec_len() < old(self).cap(),
        ensures
            final(self).wf(),
            (final(self).hashes_view(), final(self).keys_view()) == spec_insert(
                old(self).hashes_view(),
                old(self).keys_view(),
                old(self).cap(),
                old(self).policy(),
                key,
            ),
            forall|x: T|
                #[trigger] final(self).resident_key(x) <==> old(self).resident_key(x) || x == key,
            final(self).spec_len() == old(self).spec_len() + 1,
            final(self).cap() == old(self).cap(),
            final(self).policy() == old(self).policy(),
    {
        let ghost orig = *self;
        proof {
            lemma_not_full_has_empty(self.hashes@);
        }
        let ghost e = choose|j: int| 0 <= j < orig.hashes@.len() && !(#[trigger] occupied(orig.hashes@, j));
        let cap = self.mask + 1;
        let mut cur_hash = Self::hash_key(key);
        let mut cur_key = key;
        let mut pos = cur_hash % cap;
        let mut dist: usize = 0;
        let ghost fuel: nat = cap as nat;
        loop
            invariant
                self.mask == orig.mask,
                self.robin_hood == orig.robin_hood,
                self.count == orig.count,
                orig == *old(self),
                orig.wf(),
                !resident(orig.hashes@, orig.keys@, key),
                occupied_count(orig.hashes@) < orig.cap(),
                cap as int == self.cap(),
                self.mask as int + self.mask as int + 1 <= usize::MAX as int,
                self.hashes@.len() == cap as int,
                self.keys@.len() == cap as int,
                pos < cap,
                dist as int + fuel <= 2 * (cap as int) - 1,
                0 <= e < cap as int,
                self.hashes@[e] == 0,
                dist_of(pos as int, e, cap as int) < fuel,
                insert_rec(
                    self.hashes@,
                    self.keys@,
                    cap as int,
                    orig.robin_hood,
                    cur_hash,
                    cur_key,
                    pos as int,
                    dist as int,
                    fuel,
                ) == spec_insert(orig.hashes@, orig.keys@, orig.cap(), orig.policy(), key),
            decreases fuel,
        {
            let h_at = self.hashes[pos];
            if h_at == 0 {
                self.hashes.set(pos, cur_hash);
                self.keys.set(pos, cur_key);
                self.count = self.count + 1;
                proof {
                    lemma_insert_effect(orig.hashes@, orig.keys@, orig.cap(), orig.policy(), key);
                }
                return ;
            }
            let home_inc = h_at % cap;
            let ed = if pos >= home_inc {
                pos - home_inc
            } else {
                pos + cap - home_inc
            };
            if self.robin_hood && ed < dist {
                let inc_key = self.keys[pos];
                self.hashes.set(pos, cur_hash);
                self.keys.set(pos, cur_key);
                cur_hash = h_at;
                cur_key = inc_key;
                dist = ed;
            }
            pos = if pos + 1 == cap {
                0
            } else {
                pos + 1
            };
            dist = dist + 1;
            proof {
                fuel = (fuel - 1) as nat;
            }
        }
    }

    /// Look a key up: `Ok(p)` when it is found after examining `p` slots,
    /// `Err(p)` when it is absent, `p` counting the slots examined until
    /// that was decided. A key is found if and only if it is resident.
    pub fn lookup(&self, key: T) -> (r: Result<usize, usize>)
        requires
            self.wf(),
        ensures
            (match r {
                Ok(p) => spec_probe(self.hashes_view(), self.keys_view(), self.cap(), key) == Ok::<int, int>(
                    p as int,
                ) && 1 <= p as int <= self.cap(),
                Err(p) => spec_probe(self.hashes_view(), self.keys_view(), self.cap(), key) == Err::<int, int>(
                    p as int,
                ),
            }),
            r is Ok <==> self.resident_key(key),
    {
        let cap = self.mask + 1;
        let hash = Self::hash_key(key);
        let mut pos = hash % cap;
        let mut probes: usize = 1;
        loop
            invariant
                self.wf(),
                cap as int == self.cap(),
                pos < cap,
                1 <= probes <= cap,
                hash == spec_stored_hash(key),
                spec_probe(self.hashes@, self.keys@, cap as int, key) == probe_rec(
                    self.hashes@,
                    self.keys@,
                    cap as int,
                    hash,
                    key,
                    pos as int,
                    probes as int,
                    (cap - probes + 1) as nat,
                ),
            decreases cap - probes,
        {
            let h_at = self.hashes[pos];
            if h_at == 0 {
                proof {
                    if self.resident_key(key) {
                        lemma_resident_is_found(self.hashes@, self.keys@, cap as int, key);
                    }
                }
                return Err(probes);
            }
            if h_at == hash {
                let k_at = self.keys[pos];
                if k_at.key_eq(key) {
                    proof {
                        lemma_found_is_resident(self.hashes@, self.keys@, cap as int, key);
                    }
                    return Ok(probes);
                }
            }
            if probes == cap {
                proof {
                    assert(probe_rec(
                        self.hashes@,
                        self.keys@,
                        cap as int,
                        hash,
                        key,
                        pos as int,
                        probes as int,
                        1nat,
                    ) == probe_rec(
                        self.hashes@,
                        self.keys@,
                        cap as int,
                        hash,
                        key,
                        advance(pos as int, cap as int),
                        probes as int + 1,
                        0nat,
                    ));
                    assert(spec_probe(self.hashes@, self.keys@, cap as int, key) == Err::<int, int>(
                        probes as int + 1,
                    ));
                    if self.resident_key(key) {
                        lemma_resident_is_found(self.hashes@, self.keys@, cap as int, key);
                    }
                }
                return Err(probes + 1);
            }
            pos = if pos + 1 == cap {
                0
            } else {
                pos + 1
            };
            probes = probes + 1;
        }
    }

    /// The probe length of a resident key: the 1-based number of slots a
    /// lookup examines until it finds the key.
    pub fn probe_len(&self, key: T) -> (p: usize)
        requires
            self.wf(),
            self.resident_key(key),
        ensures
            spec_probe(self.hashes_view(), self.keys_view(), self.cap(), key) == Ok::<int, int>(p as int),
            1 <= p as int <= self.cap(),
    {
        match self.lookup(key) {
            Ok(p) => p,
            Err(p) => {
                proof {
                    assert(false);
                }
                p
            },
        }
    }

    /// Whether a key is resident.
    pub fn contains(&self, key: T) -> (b: bool)
        requires
            self.wf(),
        ensures
            b == self.resident_key(key),
    {
        match self.lookup(key) {
            Ok(_) => true,
            Err(_) => false,
        }
    }

    /// The validating form of insertion: it checks the preconditions that
    /// [`Table::insert`] asks its caller to guarantee, and reports a full
    /// table or a duplicate key instead of inserting.
    pub fn try_insert(&mut self, key: T) -> (r: Result<(), InsertError>)
        requires
            old(self).wf(),
        ensures
            final(self).wf(),
            (r is Ok <==> (!old(self).resident_key(key) && old(self).spec_len() < old(self).cap())),
            old(self).spec_len() == old(self).cap() ==> r == Err::<(), InsertError>(
                InsertError::Full,
            ),
            (old(self).spec_len() < old(self).cap() && old(self).resident_key(key)) ==> r == Err::<
                (),
                InsertError,
            >(InsertError::Duplicate),
            r is Ok ==> (final(self).hashes_view(), final(self).keys_view()) == spec_insert(
                old(self).hashes_view(),
                old(self).keys_view(),
                old(self).cap(),
                old(self).policy(),
                key,
            ),
            r is Ok ==> forall|x: T|
                #[trigger] final(self).resident_key(x) <==> old(self).resident_key(x) || x == key,
            r is Ok ==> final(self).spec_len() == old(self).spec_len() + 1,
            r is Err ==> *final(self) == *old(self),
            final(self).cap() == old(self).cap(),
            final(self).policy() == old(self).policy(),
    {
        proof {
            lemma_occupied_count_le(self.hashes@);
        }
        if self.count > self.mask {
            return Err(InsertError::Full);
        }
        match self.lookup(key) {
            Ok(_) => Err(InsertError::Duplicate),
            Err(_) => {
                self.insert(key);
                Ok(())
            },
        }
    }

    /// The number of slots.
    pub fn capacity(&self) -> (c: usize)
        requires
            self.wf(),
        ensures
            c as int == self.cap(),
    {
        self.mask + 1
    }

    /// The number of resident keys.
    pub fn len(&self) -> (n: usize)
        requires
            self.wf(),
        ensures
            n as nat == self.spec_len(),
    {
        self.count
    }
}

} // verus!
