//! Deduplication of a randomly drawn working set of keys.
//!
//! The benchmark harness draws machine-random values until it has the
//! requested number of distinct keys. Drawing may repeat values for an
//! unbounded number of rounds, so the draw loop itself stays in the
//! harness; the decision — accept a draw exactly when it is new — lives
//! here, and guarantees that the collected keys are distinct.

use vstd::prelude::*;
use std::collections::HashSet;

verus! {

broadcast use vstd::std_specs::hash::group_hash_axioms;

/// A growing set of distinct keys: a vector of the keys in the order they
/// were accepted, deduplicated through a hash set.
pub struct KeySet {
    seen: HashSet<u64>,
    keys: Vec<u64>,
}

impl KeySet {
    /// The accepted keys, in acceptance order.
    pub closed spec fn keys_view(self) -> Seq<u64> {
        self.keys@
    }

    /// The keys are distinct and the dedup set mirrors them exactly.
    pub closed spec fn wf(self) -> bool {
        &&& self.keys@.no_duplicates()
        &&& self.seen@ == self.keys@.to_set()
    }

    /// An empty key set.
    pub fn new() -> (s: Self)
        ensures
            s.wf(),
            s.keys_view().len() == 0,
    {
        let s = KeySet { seen: HashSet::new(), keys: Vec::new() };
        proof {
            assert(s.seen@ =~= s.keys@.to_set());
        }
        s
    }

    /// Offer a drawn value: it is appended exactly when it is new.
    pub fn offer(&mut self, x: u64) -> (added: bool)
        requires
            old(self).wf(),
        ensures
            final(self).wf(),
            added == !old(self).keys_view().contains(x),
            added ==> final(self).keys_view() == old(self).keys_view().push(x),
            !added ==> final(self).keys_view() == old(self).keys_view(),
    {
        proof {
            assert(old(self).seen@.contains(x) == old(self).keys@.contains(x));
        }
        if self.seen.contains(&x) {
            return false;
        }
        let ghost keys_old = self.keys@;
        self.seen.insert(x);
        self.keys.push(x);
        proof {
            let keys_new = self.keys@;
            assert forall|i: int, j: int| 0 <= i < j < keys_new.len() implies keys_new[i]
                != keys_new[j] by {
                if j == keys_new.len() - 1 {
                    if keys_new[i] == x {
                        assert(keys_old.contains(x));
                    }
                }
            }
            assert(self.seen@ =~= keys_new.to_set()) by {
                assert forall|y: u64| keys_new.to_set().contains(y) implies keys_old.to_set().insert(
                    x,
                ).contains(y) by {
                    let i = choose|i: int| 0 <= i < keys_new.len() && keys_new[i] == y;
                    if i < keys_old.len() {
                        assert(keys_old.contains(y));
                    }
                }
                assert forall|y: u64| keys_old.to_set().insert(x).contains(y) implies keys_new.to_set().contains(
                    y,
                ) by {
                    if y == x {
                        assert(keys_new[keys_new.len() - 1] == y);
                    } else {
                        let i = choose|i: int| 0 <= i < keys_old.len() && keys_old[i] == y;
                        assert(keys_new[i] == y);
                    }
                }
            }
        }
        true
    }

    /// How many distinct keys have been accepted.
    pub fn len(&self) -> (n: usize)
        ensures
            n == self.keys_view().len(),
    {
        self.keys.len()
    }

    /// Hand the collected keys out.
    pub fn into_keys(self) -> (v: Vec<u64>)
        requires
            self.wf(),
        ensures
            v@ == self.keys_view(),
            v@.no_duplicates(),
    {
        self.keys
    }
}

} // verus!
