//! The mathematical model shared by both table layouts.
//!
//! A table's contents are two parallel sequences of equal length `cap`:
//! the stored hashes (with `0` as the empty-slot sentinel) and the keys.
//! Probing and insertion are modelled as recursive functions over these
//! sequences, and the well-formedness invariant ties every resident key to
//! an unbroken run of occupied slots from its home position to where it
//! sits, which is what makes linear probing find it again.

use vstd::prelude::*;
use crate::hashing::{SimpleHash, spec_stored_hash};

verus! {

/// Why a checked insertion was refused.
#[derive(Clone, Copy, Debug, PartialEq, Eq, Structural)]
pub enum InsertError {
    /// Every slot is occupied; inserting would never terminate.
    Full,
    /// The key is already resident; duplicates are not supported.
    Duplicate,
}

/// The position `d` steps past `home`, wrapping at `cap`.
/// Meaningful for `0 <= home < cap` and `0 <= d < cap`.
pub open spec fn step(home: int, d: int, cap: int) -> int {
    if home + d < cap {
        home + d
    } else {
        home + d - cap
    }
}

/// The next probe position after `pos`, wrapping at `cap`.
pub open spec fn advance(pos: int, cap: int) -> int {
    if pos + 1 == cap {
        0
    } else {
        pos + 1
    }
}

/// The home (ideal) slot of a stored hash: its value modulo the capacity.
pub open spec fn home_of(h: usize, cap: int) -> int {
    h as int % cap
}

/// The probe distance from `home` to `pos`: how many advances from `home`
/// reach `pos`. Meaningful for `0 <= home < cap` and `0 <= pos < cap`.
pub open spec fn dist_of(home: int, pos: int, cap: int) -> int {
    if pos >= home {
        pos - home
    } else {
        pos + cap - home
    }
}

/// Whether slot `i` holds a resident entry: the hash sentinel `0` marks an
/// empty slot.
pub open spec fn occupied(hashes: Seq<usize>, i: int) -> bool {
    hashes[i] != 0
}

/// Whether `key` is resident somewhere in the slots.
pub open spec fn resident<T: SimpleHash>(hashes: Seq<usize>, keys: Seq<T>, key: T) -> bool {
    exists|i: int| 0 <= i < hashes.len() && #[trigger] occupied(hashes, i) && keys[i] == key
}

/// The run of slots from the home position of the entry at slot `i` up to
/// (but excluding) `i` is fully occupied. This is the reachability
/// invariant of linear probing: a lookup walking from the home slot can
/// never meet an empty slot before it meets the entry.
pub open spec fn path_occupied(hashes: Seq<usize>, cap: int, i: int) -> bool {
    forall|d: int|
        0 <= d < dist_of(home_of(hashes[i], cap), i, cap) ==> occupied(
            hashes,
            #[trigger] step(home_of(hashes[i], cap), d, cap),
        )
}

/// Well-formedness of a table's contents:
/// every occupied slot stores the (sentinel-remapped) hash of its key,
/// every occupied slot is reachable from its home slot through occupied
/// slots only, and no key is resident twice.
pub open spec fn slots_wf<T: SimpleHash>(hashes: Seq<usize>, keys: Seq<T>, cap: int) -> bool {
    &&& cap >= 1
    &&& hashes.len() == cap
    &&& keys.len() == cap
    &&& forall|i: int|
        0 <= i < cap && #[trigger] occupied(hashes, i) ==> hashes[i] == spec_stored_hash(keys[i])
    &&& forall|i: int| 0 <= i < cap && #[trigger] occupied(hashes, i) ==> path_occupied(hashes, cap, i)
    &&& forall|i: int, j: int|
        0 <= i < cap && 0 <= j < cap && i != j && #[trigger] occupied(hashes, i)
            && #[trigger] occupied(hashes, j) ==> keys[i] != keys[j]
}

/// The probing walk, `fuel` bounding how many slots may still be examined.
/// `probes` is the 1-based count of slots examined so far, including the
/// one at `pos`. Returns `Ok(probes)` when the entry is met, `Err(probes)`
/// when an empty slot is met, and `Err(probes)` with `probes` one past the
/// last examined slot when the fuel runs out.
pub open spec fn probe_rec<T: SimpleHash>(
    hashes: Seq<usize>,
    keys: Seq<T>,
    cap: int,
    h: usize,
    key: T,
    pos: int,
    probes: int,
    fuel: nat,
) -> Result<int, int>
    decreases fuel,
{
    if fuel == 0 {
        Err(probes)
    } else if hashes[pos] == 0 {
        Err(probes)
    } else if hashes[pos] == h && keys[pos] == key {
        Ok(probes)
    } else {
        probe_rec(hashes, keys, cap, h, key, advance(pos, cap), probes + 1, (fuel - 1) as nat)
    }
}

/// The probe result for `key` against a table's contents: the walk starts
/// at the key's home slot with one probe charged, and may examine each slot
/// once.
pub open spec fn spec_probe<T: SimpleHash>(
    hashes: Seq<usize>,
    keys: Seq<T>,
    cap: int,
    key: T,
) -> Result<int, int> {
    probe_rec(
        hashes,
        keys,
        cap,
        spec_stored_hash(key),
        key,
        home_of(spec_stored_hash(key), cap),
        1,
        cap as nat,
    )
}

/// The insertion walk. The candidate entry `(h, key)` is `dist` steps past
/// its home slot. It lands in the first empty slot met; under the Robin
/// Hood policy (`rh`), when the incumbent of an occupied slot is closer to
/// its own home than the candidate is to its home, the two change places
/// and the incumbent walks on instead.
pub open spec fn insert_rec<T: SimpleHash>(
    hashes: Seq<usize>,
    keys: Seq<T>,
    cap: int,
    rh: bool,
    h: usize,
    key: T,
    pos: int,
    dist: int,
    fuel: nat,
) -> (Seq<usize>, Seq<T>)
    decreases fuel,
{
    if fuel == 0 {
        (hashes, keys)
    } else if hashes[pos] == 0 {
        (hashes.update(pos, h), keys.update(pos, key))
    } else {
        let ed = dist_of(home_of(hashes[pos], cap), pos, cap);
        if rh && ed < dist {
            insert_rec(
                hashes.update(pos, h),
                keys.update(pos, key),
                cap,
                rh,
                hashes[pos],
                keys[pos],
                advance(pos, cap),
                ed + 1,
                (fuel - 1) as nat,
            )
        } else {
            insert_rec(hashes, keys, cap, rh, h, key, advance(pos, cap), dist + 1, (fuel - 1) as nat)
        }
    }
}

/// The contents after inserting `key`: the walk starts at the key's home
/// slot with distance `0`.
pub open spec fn spec_insert<T: SimpleHash>(
    hashes: Seq<usize>,
    keys: Seq<T>,
    cap: int,
    rh: bool,
    key: T,
) -> (Seq<usize>, Seq<T>) {
    insert_rec(
        hashes,
        keys,
        cap,
        rh,
        spec_stored_hash(key),
        key,
        home_of(spec_stored_hash(key), cap),
        0,
        cap as nat,
    )
}

/// How many slots are occupied.
pub open spec fn occupied_count(hashes: Seq<usize>) -> nat
    decreases hashes.len(),
{
    if hashes.len() == 0 {
        0
    } else {
        occupied_count(hashes.drop_last()) + (if hashes.last() != 0 {
            1nat
        } else {
            0nat
        })
    }
}

pub proof fn lemma_occupied_count_le(hashes: Seq<usize>)
    ensures
        occupied_count(hashes) <= hashes.len(),
    decreases hashes.len(),
{
    if hashes.len() > 0 {
        lemma_occupied_count_le(hashes.drop_last());
    }
}

/// Updating one slot changes the occupancy count by the difference of the
/// old and new sentinel bits.
pub proof fn lemma_occupied_count_update(hashes: Seq<usize>, i: int, v: usize)
    requires
        0 <= i < hashes.len(),
    ensures
        occupied_count(hashes.update(i, v)) + (if hashes[i] != 0 {
            1nat
        } else {
            0nat
        }) == occupied_count(hashes) + (if v != 0 {
            1nat
        } else {
            0nat
        }),
    decreases hashes.len(),
{
    if i == hashes.len() - 1 {
        assert(hashes.update(i, v).drop_last() =~= hashes.drop_last());
    } else {
        assert(hashes.update(i, v).drop_last() =~= hashes.drop_last().update(i, v));
        lemma_occupied_count_update(hashes.drop_last(), i, v);
    }
}

/// A table that is not full has an empty slot.
pub proof fn lemma_not_full_has_empty(hashes: Seq<usize>)
    requires
        occupied_count(hashes) < hashes.len(),
    ensures
        exists|i: int| 0 <= i < hashes.len() && !(#[trigger] occupied(hashes, i)),
    decreases hashes.len(),
{
    if hashes.last() == 0 {
        assert(!occupied(hashes, hashes.len() - 1));
    } else {
        lemma_not_full_has_empty(hashes.drop_last());
        let j = choose|i: int|
            0 <= i < hashes.drop_last().len() && !(#[trigger] occupied(hashes.drop_last(), i));
        assert(hashes.drop_last()[j] == hashes[j]);
        assert(!occupied(hashes, j));
    }
}

/// One leg of the probing walk toward a resident entry at slot `j`: from
/// `d` steps past the key's home slot, the walk still ends at `j`, because
/// every slot strictly before `j` on the path is occupied by some other
/// entry.
proof fn lemma_probe_walk<T: SimpleHash>(hashes: Seq<usize>, keys: Seq<T>, cap: int, key: T, j: int, d: int)
    requires
        slots_wf(hashes, keys, cap),
        0 <= j < cap,
        occupied(hashes, j),
        keys[j] == key,
        0 <= d <= dist_of(home_of(spec_stored_hash(key), cap), j, cap),
    ensures
        probe_rec(
            hashes,
            keys,
            cap,
            spec_stored_hash(key),
            key,
            step(home_of(spec_stored_hash(key), cap), d, cap),
            d + 1,
            (cap - d) as nat,
        ) == Ok::<int, int>(dist_of(home_of(spec_stored_hash(key), cap), j, cap) + 1),
    decreases dist_of(home_of(spec_stored_hash(key), cap), j, cap) - d,
{
    let h = spec_stored_hash(key);
    let home = home_of(h, cap);
    let dist = dist_of(home, j, cap);
    let pos = step(home, d, cap);
    assert(hashes[j] == spec_stored_hash(keys[j]));
    assert(0 <= home < cap);
    assert(0 <= dist < cap);
    if d == dist {
        assert(pos == j);
        assert(hashes[pos] != 0 && hashes[pos] == h && keys[pos] == key);
    } else {
        assert(path_occupied(hashes, cap, j));
        assert(occupied(hashes, step(home_of(hashes[j], cap), d, cap)));
        assert(occupied(hashes, pos));
        if hashes[pos] == h && keys[pos] == key {
            assert(pos != j);
            assert(false);
        }
        assert(advance(pos, cap) == step(home, d + 1, cap));
        lemma_probe_walk(hashes, keys, cap, key, j, d + 1);
    }
}

/// Round trip: a key resident in a well-formed table is found by the
/// probing walk, with a probe length between one and the capacity.
pub proof fn lemma_resident_is_found<T: SimpleHash>(hashes: Seq<usize>, keys: Seq<T>, cap: int, key: T)
    requires
        slots_wf(hashes, keys, cap),
        resident(hashes, keys, key),
    ensures
        spec_probe(hashes, keys, cap, key) is Ok,
        1 <= spec_probe(hashes, keys, cap, key)->Ok_0 <= cap,
{
    let j = choose|i: int| 0 <= i < hashes.len() && #[trigger] occupied(hashes, i) && keys[i] == key;
    let h = spec_stored_hash(key);
    let home = home_of(h, cap);
    lemma_probe_walk(hashes, keys, cap, key, j, 0);
    assert(step(home, 0, cap) == home);
    assert(spec_probe(hashes, keys, cap, key) == Ok::<int, int>(dist_of(home, j, cap) + 1));
}

/// Helper for [`lemma_found_is_resident`]: if the walk reports the entry
/// found, some slot indeed holds `key` under a non-zero hash.
proof fn lemma_probe_rec_ok<T: SimpleHash>(
    hashes: Seq<usize>,
    keys: Seq<T>,
    cap: int,
    h: usize,
    key: T,
    pos: int,
    probes: int,
    fuel: nat,
)
    requires
        hashes.len() == cap,
        keys.len() == cap,
        0 <= pos < cap,
        h != 0,
        probe_rec(hashes, keys, cap, h, key, pos, probes, fuel) is Ok,
    ensures
        resident(hashes, keys, key),
    decreases fuel,
{
    if fuel == 0 {
    } else if hashes[pos] == 0 {
    } else if hashes[pos] == h && keys[pos] == key {
        assert(occupied(hashes, pos));
    } else {
        assert(0 <= advance(pos, cap) < cap);
        lemma_probe_rec_ok(hashes, keys, cap, h, key, advance(pos, cap), probes + 1, (fuel - 1) as nat);
    }
}

/// No false positives: only a resident key is ever reported found.
pub proof fn lemma_found_is_resident<T: SimpleHash>(hashes: Seq<usize>, keys: Seq<T>, cap: int, key: T)
    requires
        cap >= 1,
        hashes.len() == cap,
        keys.len() == cap,
        spec_probe(hashes, keys, cap, key) is Ok,
    ensures
        resident(hashes, keys, key),
{
    let h = spec_stored_hash(key);
    assert(h != 0);
    assert(0 <= home_of(h, cap) < cap);
    lemma_probe_rec_ok(hashes, keys, cap, h, key, home_of(h, cap), 1, cap as nat);
}

/// The heart of insertion. From a state where the candidate entry
/// `(h, key)` stands `dist` steps past its home slot with every slot on
/// that path occupied, the insertion walk lands the candidate (or, under
/// Robin Hood swaps, a displaced incumbent) in the first empty slot it
/// meets. Well-formedness is preserved, exactly `key` joins the resident
/// keys, and the occupancy count rises by one. The empty slot `e` bounds
/// the walk: the fuel covers the distance to it.
proof fn lemma_insert_rec<T: SimpleHash>(
    hashes: Seq<usize>,
    keys: Seq<T>,
    cap: int,
    rh: bool,
    h: usize,
    key: T,
    pos: int,
    dist: int,
    fuel: nat,
    e: int,
)
    requires
        slots_wf(hashes, keys, cap),
        h == spec_stored_hash(key),
        !resident(hashes, keys, key),
        0 <= pos < cap,
        dist == dist_of(home_of(h, cap), pos, cap),
        forall|d: int| 0 <= d < dist ==> occupied(hashes, #[trigger] step(home_of(h, cap), d, cap)),
        0 <= e < cap,
        hashes[e] == 0,
        dist_of(pos, e, cap) < fuel,
    ensures
        ({
            let r = insert_rec(hashes, keys, cap, rh, h, key, pos, dist, fuel);
            &&& slots_wf(r.0, r.1, cap)
            &&& forall|x: T|
                #[trigger] resident(r.0, r.1, x) <==> resident(hashes, keys, x) || x == key
            &&& occupied_count(r.0) == occupied_count(hashes) + 1
        }),
    decreases fuel,
{
    let home = home_of(h, cap);
    assert(0 <= home < cap);
    assert(h != 0);
    if hashes[pos] == 0 {
        let h2 = hashes.update(pos, h);
        let k2 = keys.update(pos, key);
        assert forall|x: int| 0 <= x < cap && occupied(hashes, x) implies occupied(h2, x) by {
            assert(x != pos);
        }
        assert forall|i: int| 0 <= i < cap && #[trigger] occupied(h2, i) implies h2[i]
            == spec_stored_hash(k2[i]) by {
            if i != pos {
                assert(occupied(hashes, i));
            }
        }
        assert forall|i: int| 0 <= i < cap && #[trigger] occupied(h2, i) implies path_occupied(
            h2,
            cap,
            i,
        ) by {
            if i == pos {
                assert forall|d: int|
                    0 <= d < dist_of(home_of(h2[i], cap), i, cap) implies occupied(
                    h2,
                    #[trigger] step(home_of(h2[i], cap), d, cap),
                ) by {
                    assert(occupied(hashes, step(home, d, cap)));
                }
            } else {
                assert(occupied(hashes, i));
                assert(path_occupied(hashes, cap, i));
                assert forall|d: int|
                    0 <= d < dist_of(home_of(h2[i], cap), i, cap) implies occupied(
                    h2,
                    #[trigger] step(home_of(h2[i], cap), d, cap),
                ) by {
                    assert(occupied(hashes, step(home_of(hashes[i], cap), d, cap)));
                }
            }
        }
        assert forall|i: int, j: int|
            0 <= i < cap && 0 <= j < cap && i != j && #[trigger] occupied(h2, i)
                && #[trigger] occupied(h2, j) implies k2[i] != k2[j] by {
            if i == pos {
                assert(occupied(hashes, j));
                assert(k2[j] == keys[j]);
            } else if j == pos {
                assert(occupied(hashes, i));
                assert(k2[i] == keys[i]);
            } else {
                assert(occupied(hashes, i));
                assert(occupied(hashes, j));
            }
        }
        assert forall|x: T| #[trigger] resident(h2, k2, x) <==> resident(hashes, keys, x) || x
            == key by {
            if resident(h2, k2, x) {
                let i = choose|i: int|
                    0 <= i < h2.len() && #[trigger] occupied(h2, i) && k2[i] == x;
                if i != pos {
                    assert(occupied(hashes, i));
                    assert(resident(hashes, keys, x));
                }
            }
            if resident(hashes, keys, x) {
                let i = choose|i: int|
                    0 <= i < hashes.len() && #[trigger] occupied(hashes, i) && keys[i] == x;
                assert(i != pos);
                assert(occupied(h2, i) && k2[i] == x);
                assert(resident(h2, k2, x));
            }
            if x == key {
                assert(occupied(h2, pos) && k2[pos] == x);
                assert(resident(h2, k2, x));
            }
        }
        lemma_occupied_count_update(hashes, pos, h);
    } else {
        assert(pos != e);
        assert(dist_of(pos, e, cap) >= 1);
        let de = dist_of(home, e, cap);
        assert(de > dist) by {
            if de < dist {
                assert(occupied(hashes, step(home, de, cap)));
                assert(step(home, de, cap) == e);
                assert(false);
            } else if de == dist {
                assert(step(home, de, cap) == pos);
                assert(step(home, de, cap) == e);
                assert(false);
            }
        }
        assert(dist + 1 < cap);
        let ed = dist_of(home_of(hashes[pos], cap), pos, cap);
        if rh && ed < dist {
            let h2 = hashes.update(pos, h);
            let k2 = keys.update(pos, key);
            let nh = hashes[pos];
            let nk = keys[pos];
            let nhome = home_of(nh, cap);
            assert(occupied(hashes, pos));
            assert(nh == spec_stored_hash(nk));
            assert(resident(hashes, keys, nk)) by {
                assert(occupied(hashes, pos) && keys[pos] == nk);
            }
            assert(key != nk);
            assert forall|x: int| 0 <= x < cap implies occupied(h2, x) == occupied(
                hashes,
                x,
            ) by {}
            // well-formedness of the swapped state
            assert forall|i: int| 0 <= i < cap && #[trigger] occupied(h2, i) implies h2[i]
                == spec_stored_hash(k2[i]) by {
                if i != pos {
                    assert(occupied(hashes, i));
                }
            }
            assert forall|i: int| 0 <= i < cap && #[trigger] occupied(h2, i) implies path_occupied(
                h2,
                cap,
                i,
            ) by {
                if i == pos {
                    assert forall|d: int|
                        0 <= d < dist_of(home_of(h2[i], cap), i, cap) implies occupied(
                        h2,
                        #[trigger] step(home_of(h2[i], cap), d, cap),
                    ) by {
                        assert(occupied(hashes, step(home, d, cap)));
                    }
                } else {
                    assert(occupied(hashes, i));
                    assert(path_occupied(hashes, cap, i));
                    assert forall|d: int|
                        0 <= d < dist_of(home_of(h2[i], cap), i, cap) implies occupied(
                        h2,
                        #[trigger] step(home_of(h2[i], cap), d, cap),
                    ) by {
                        assert(occupied(hashes, step(home_of(hashes[i], cap), d, cap)));
                    }
                }
            }
            assert forall|i: int, j: int|
                0 <= i < cap && 0 <= j < cap && i != j && #[trigger] occupied(h2, i)
                    && #[trigger] occupied(h2, j) implies k2[i] != k2[j] by {
                if i == pos {
                    assert(occupied(hashes, j));
                    if keys[j] == key {
                        assert(resident(hashes, keys, key));
                    }
                } else if j == pos {
                    assert(occupied(hashes, i));
                    if keys[i] == key {
                        assert(resident(hashes, keys, key));
                    }
                } else {
                    assert(occupied(hashes, i));
                    assert(occupied(hashes, j));
                }
            }
            // the displaced incumbent is no longer resident
            assert(!resident(h2, k2, nk)) by {
                if resident(h2, k2, nk) {
                    let i = choose|i: int|
                        0 <= i < h2.len() && #[trigger] occupied(h2, i) && k2[i] == nk;
                    if i == pos {
                        assert(k2[pos] == key);
                        assert(false);
                    } else {
                        assert(occupied(hashes, i));
                        assert(keys[i] == nk);
                        assert(keys[pos] == nk);
                        assert(false);
                    }
                }
            }
            // the incumbent's path, one step further
            assert(ed + 1 < cap);
            assert(dist_of(nhome, advance(pos, cap), cap) == ed + 1);
            assert(path_occupied(hashes, cap, pos));
            assert forall|d: int| 0 <= d < ed + 1 implies occupied(
                h2,
                #[trigger] step(nhome, d, cap),
            ) by {
                if d < ed {
                    assert(occupied(hashes, step(home_of(hashes[pos], cap), d, cap)));
                } else {
                    assert(step(nhome, ed, cap) == pos);
                    assert(occupied(h2, pos));
                }
            }
            assert(h2[e] == 0);
            assert(dist_of(advance(pos, cap), e, cap) == dist_of(pos, e, cap) - 1);
            lemma_insert_rec(h2, k2, cap, rh, nh, nk, advance(pos, cap), ed + 1, (fuel - 1) as nat, e);
            let r = insert_rec(h2, k2, cap, rh, nh, nk, advance(pos, cap), ed + 1, (fuel - 1) as nat);
            assert forall|x: T| #[trigger] resident(r.0, r.1, x) <==> resident(hashes, keys, x)
                || x == key by {
                assert(resident(r.0, r.1, x) <==> resident(h2, k2, x) || x == nk);
                if resident(h2, k2, x) {
                    let i = choose|i: int|
                        0 <= i < h2.len() && #[trigger] occupied(h2, i) && k2[i] == x;
                    if i == pos {
                        assert(x == key);
                    } else {
                        assert(occupied(hashes, i));
                        assert(resident(hashes, keys, x));
                    }
                }
                if resident(hashes, keys, x) && x != nk {
                    let i = choose|i: int|
                        0 <= i < hashes.len() && #[trigger] occupied(hashes, i) && keys[i] == x;
                    assert(i != pos);
                    assert(occupied(h2, i) && k2[i] == x);
                    assert(resident(h2, k2, x));
                }
                if x == key {
                    assert(occupied(h2, pos) && k2[pos] == x);
                    assert(resident(h2, k2, x));
                }
            }
            lemma_occupied_count_update(hashes, pos, h);
        } else {
            assert(dist_of(home, advance(pos, cap), cap) == dist + 1);
            assert forall|d: int| 0 <= d < dist + 1 implies occupied(
                hashes,
                #[trigger] step(home, d, cap),
            ) by {
                if d == dist {
                    assert(step(home, dist, cap) == pos);
                }
            }
            assert(dist_of(advance(pos, cap), e, cap) == dist_of(pos, e, cap) - 1);
            lemma_insert_rec(hashes, keys, cap, rh, h, key, advance(pos, cap), dist + 1, (fuel - 1) as nat, e);
        }
    }
}

/// What one insertion does to a well-formed, not-full table that does not
/// already hold the key: the result is well formed, exactly `key` joins
/// the resident keys, and one more slot is occupied.
pub proof fn lemma_insert_effect<T: SimpleHash>(
    hashes: Seq<usize>,
    keys: Seq<T>,
    cap: int,
    rh: bool,
    key: T,
)
    requires
        slots_wf(hashes, keys, cap),
        !resident(hashes, keys, key),
        occupied_count(hashes) < cap,
    ensures
        ({
            let r = spec_insert(hashes, keys, cap, rh, key);
            &&& slots_wf(r.0, r.1, cap)
            &&& forall|x: T|
                #[trigger] resident(r.0, r.1, x) <==> resident(hashes, keys, x) || x == key
            &&& occupied_count(r.0) == occupied_count(hashes) + 1
        }),
{
    lemma_not_full_has_empty(hashes);
    let e = choose|i: int| 0 <= i < hashes.len() && !(#[trigger] occupied(hashes, i));
    let h = spec_stored_hash(key);
    let home = home_of(h, cap);
    assert(0 <= home < cap);
    assert(dist_of(home, e, cap) < cap);
    lemma_insert_rec(hashes, keys, cap, rh, h, key, home, 0, cap as nat, e);
}

/// A sequence of all-zero hashes has no occupied slot.
pub proof fn lemma_all_empty_count_zero(hashes: Seq<usize>)
    requires
        forall|i: int| 0 <= i < hashes.len() ==> hashes[i] == 0,
    ensures
        occupied_count(hashes) == 0,
    decreases hashes.len(),
{
    if hashes.len() > 0 {
        lemma_all_empty_count_zero(hashes.drop_last());
    }
}

} // verus!
