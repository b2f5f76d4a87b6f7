//! A fixed-capacity open-addressing array probed by double hashing. Slots are
//! written once and never cleared; an update to an existing key replaces the
//! value in place. Lookup may stop at the first empty slot along the probe
//! sequence because entries are never deleted.

use vstd::prelude::*;

use crate::hashing::gcd_spec;
use crate::hashing::hash_params;
use crate::hashing::probe_index;
use crate::hashing::probe_slot;
use crate::hashing::spec_h1;
use crate::hashing::spec_h2;

verus! {

/// One occupied slot: a key with its stored value.
pub struct Entry<V> {
    pub key: u64,
    pub value: V,
}

/// A fixed-capacity open-addressing array. `capacity` is set at construction
/// and never changes; `count` tracks the occupied slots.
pub struct SubArray<V> {
    pub slots: Vec<Option<Entry<V>>>,
    pub count: usize,
    pub capacity: usize,
}

/// The number of occupied slots in a slot sequence.
pub open spec fn count_occupied<V>(s: Seq<Option<Entry<V>>>) -> nat
    decreases s.len(),
{
    if s.len() == 0 {
        0
    } else {
        count_occupied(s.drop_last()) + (if s.last() is Some {
            1nat
        } else {
            0nat
        })
    }
}

/// When every slot is occupied, the occupied count is the slot count.
pub proof fn lemma_count_occupied_full<V>(s: Seq<Option<Entry<V>>>)
    requires
        forall|i: int| 0 <= i < s.len() ==> s[i] is Some,
    ensures
        count_occupied(s) == s.len(),
    decreases s.len(),
{
    if s.len() > 0 {
        lemma_count_occupied_full(s.drop_last());
    }
}

/// Occupied slots never outnumber slots.
pub proof fn lemma_count_occupied_le_len<V>(s: Seq<Option<Entry<V>>>)
    ensures
        count_occupied(s) <= s.len(),
    decreases s.len(),
{
    if s.len() > 0 {
        lemma_count_occupied_le_len(s.drop_last());
    }
}

/// Overwriting one slot with an entry raises the occupied count by one when
/// the slot was empty and leaves it unchanged when it was occupied.
pub proof fn lemma_count_occupied_update<V>(s: Seq<Option<Entry<V>>>, i: int, e: Entry<V>)
    requires
        0 <= i < s.len(),
    ensures
        count_occupied(s.update(i, Some(e))) == count_occupied(s) + (if s[i] is Some {
            0nat
        } else {
            1nat
        }),
    decreases s.len(),
{
    let t = s.update(i, Some(e));
    if i == s.len() - 1 {
        assert(t.drop_last() =~= s.drop_last());
    } else {
        assert(t.drop_last() =~= s.drop_last().update(i, Some(e)));
        lemma_count_occupied_update(s.drop_last(), i, e);
    }
}

impl<V> SubArray<V> {
    /// Structural soundness: the slot vector matches the fixed capacity,
    /// `count` is exactly the number of occupied slots, and every stored key
    /// is reachable on its own probe walk. The last conjunct is the
    /// no-deletion invariant that justifies stopping a lookup at the first
    /// empty slot: slots only ever fill, so a stored key is never preceded by
    /// an empty slot on its own probe sequence.
    pub open spec fn wf(self) -> bool {
        &&& self.slots@.len() == self.capacity
        &&& self.count == count_occupied(self.slots@)
        &&& self.keys_reachable()
    }

    /// Slot `sl` lies at some step `p` of `k`'s probe walk, with every
    /// earlier step of that walk landing on an occupied slot.
    pub open spec fn reachable_at(self, k: u64, sl: int) -> bool {
        exists|p: int|
            {
                &&& 0 <= p < self.capacity
                &&& #[trigger] probe_index(k, self.capacity as u64, p) == sl
                &&& (forall|q: int|
                    0 <= q < p ==> self.slots@[#[trigger] probe_index(k, self.capacity as u64, q)]
                        is Some)
            }
    }

    /// Every occupied slot is reachable on its own key's probe walk.
    pub open spec fn keys_reachable(self) -> bool {
        forall|sl: int|
            0 <= sl < self.slots@.len() ==> match #[trigger] self.slots@[sl] {
                Some(e) => self.reachable_at(e.key, sl),
                None => true,
            }
    }

    /// The slot inspected at step `i` of `key`'s probe sequence.
    pub open spec fn slot_at(self, key: u64, i: int) -> Option<Entry<V>> {
        self.slots@[probe_index(key, self.capacity as u64, i)]
    }

    /// Step `i` of `key`'s probe sequence lands on a slot held by another key.
    pub open spec fn occupied_other(self, key: u64, i: int) -> bool {
        match self.slot_at(key, i) {
            Some(e) => e.key != key,
            None => false,
        }
    }

    /// The value the probe walk yields for `key` starting at step `i`:
    /// continue past other keys, stop at a match or at the first empty slot.
    pub open spec fn scan_from(self, key: u64, i: int) -> Option<V>
        decreases self.capacity - i,
    {
        if i < 0 || i >= self.capacity {
            None::<V>
        } else {
            match self.slot_at(key, i) {
                None => None::<V>,
                Some(e) => if e.key == key {
                    Some(e.value)
                } else {
                    self.scan_from(key, i + 1)
                },
            }
        }
    }

    /// What a lookup of `key` in this sub-array yields.
    pub open spec fn spec_lookup(self, key: u64) -> Option<V> {
        self.scan_from(key, 0)
    }

    /// Some slot holds `key`.
    pub open spec fn contains_key(self, key: u64) -> bool {
        exists|j: int|
            0 <= j < self.slots@.len() && match #[trigger] self.slots@[j] {
                Some(e) => e.key == key,
                None => false,
            }
    }

    /// Allocates `capacity` empty slots. A capacity of zero is permitted and
    /// makes the array permanently non-functional.
    pub fn new(capacity: usize) -> (r: Self)
        ensures
            r.wf(),
            r.capacity == capacity,
            r.count == 0,
            forall|j: int| 0 <= j < capacity ==> r.slots@[j] is None,
    {
        let mut slots: Vec<Option<Entry<V>>> = Vec::new();
        let mut i: usize = 0;
        while i < capacity
            invariant
                i <= capacity,
                slots@.len() == i,
                count_occupied(slots@) == 0,
                forall|j: int| 0 <= j < i ==> slots@[j] is None,
            decreases capacity - i,
        {
            proof {
                assert(slots@.push(None::<Entry<V>>).drop_last() =~= slots@);
            }
            slots.push(None);
            i = i + 1;
        }
        SubArray { slots, count: 0, capacity }
    }

    /// Fraction of occupied slots, in parts per million (ppm); reported as
    /// full (1 000 000 ppm) when the capacity is zero.
    pub fn load_factor(&self) -> (r: u64)
        requires
            self.wf(),
        ensures
            r == spec_load_factor_ppm(self.count as nat, self.capacity as nat),
            r <= 1_000_000,
    {
        if self.capacity == 0 {
            return 1_000_000;
        }
        proof {
            lemma_count_occupied_le_len(self.slots@);
            vstd::arithmetic::div_mod::lemma_div_is_ordered(
                (self.count as int) * 1_000_000,
                (self.capacity as int) * 1_000_000,
                self.capacity as int,
            );
            vstd::arithmetic::div_mod::lemma_div_by_multiple(
                1_000_000int,
                self.capacity as int,
            );
        }
        let lf: u128 = ((self.count as u128) * 1_000_000u128) / (self.capacity as u128);
        lf as u64
    }

    /// Emptiness in parts per million: one million minus the load factor.
    pub fn epsilon(&self) -> (r: u64)
        requires
            self.wf(),
        ensures
            r == 1_000_000 - spec_load_factor_ppm(self.count as nat, self.capacity as nat),
    {
        let lf = self.load_factor();
        1_000_000 - lf
    }

    /// Double-hashing parameters for `key` in this sub-array. The step `r.1`
    /// is coprime to the capacity, so the probe sequence covers every slot.
    pub fn hash_key(&self, key: u64) -> (r: (u64, u64))
        ensures
            r.0 == spec_h1(key, self.capacity as u64),
            r.1 == spec_h2(key, self.capacity as u64),
            gcd_spec(r.1 as nat, self.capacity as nat) == 1,
    {
        hash_params(key, self.capacity as u64)
    }

    /// Walks `key`'s probe sequence to its first empty or matching slot. A
    /// slot already holding `key` always has its value replaced in place — an
    /// update is never turned into a second copy of the key. An empty slot
    /// takes the new entry only within the probe budget: `limit` steps, or
    /// the whole array when `force` holds. On failure the array is untouched,
    /// the key is proved absent, the value is handed back, and the reported
    /// probe count is the budget the policy charges a failed attempt (so a
    /// zero-budget walk charges nothing). Returns success, the probes used,
    /// and the unconsumed value.
    pub fn insert_probe(&mut self, key: u64, value: V, limit: usize, force: bool) -> (r: (
        bool,
        usize,
        Option<V>,
    ))
        requires
            old(self).wf(),
        ensures
            final(self).wf(),
            final(self).capacity == old(self).capacity,
            !r.0 ==> {
                &&& *final(self) == *old(self)
                &&& r.2 == Some(value)
                &&& r.1 == spec_attempt_len(*old(self), limit, force)
                &&& !old(self).contains_key(key)
            },
            !r.0 && force && old(self).capacity > 0 ==> old(self).count == old(self).capacity,
            r.0 ==> {
                &&& r.2 is None
                &&& 1 <= r.1 <= old(self).capacity
                &&& sub_wrote(*old(self), *final(self), key, value, r.1 - 1)
                &&& (old(self).contains_key(key) <==> final(self).count == old(self).count)
            },
            r.0 && !old(self).contains_key(key) ==> r.1 <= spec_attempt_len(
                *old(self),
                limit,
                force,
            ),
    {
        if self.capacity == 0 {
            return (false, 0, Some(value));
        }
        let (h1, h2) = self.hash_key(key);
        let loop_limit = if force {
            self.capacity
        } else {
            limit
        };
        let mut i: usize = 0;
        let mut found = false;
        let mut matched = false;
        let mut hit: usize = 0;
        while i < self.capacity && !found
            invariant
                *self == *old(self),
                self.wf(),
                self.capacity > 0,
                h1 == spec_h1(key, self.capacity as u64),
                h2 == spec_h2(key, self.capacity as u64),
                i <= self.capacity,
                forall|q: int| 0 <= q < i ==> self.occupied_other(key, q),
                found ==> {
                    &&& (i as int) < self.capacity
                    &&& hit == probe_index(key, self.capacity as u64, i as int)
                    &&& (match self.slots@[hit as int] {
                        None => !matched,
                        Some(e) => matched && e.key == key,
                    })
                },
            decreases 2 * (self.capacity - i) + (if found {
                0int
            } else {
                1int
            }),
        {
            let idx = probe_slot(h1, h2, self.capacity, i);
            match &self.slots[idx] {
                None => {
                    found = true;
                    matched = false;
                    hit = idx;
                },
                Some(e) => {
                    if e.key == key {
                        found = true;
                        matched = true;
                        hit = idx;
                    } else {
                        i = i + 1;
                    }
                },
            }
        }
        if found && (matched || i < loop_limit) {
            proof {
                if !matched {
                    lemma_walk_absent(*self, key, i as int);
                } else {
                    assert(0 <= hit < self.slots@.len());
                    assert(self.contains_key(key));
                }
                lemma_count_occupied_update(self.slots@, hit as int, (Entry { key, value }));
                lemma_count_occupied_le_len(
                    self.slots@.update(hit as int, Some((Entry { key, value }))),
                );
            }
            let ghost pre_sub = *self;
            self.slots[hit] = Some(Entry { key, value });
            if !matched {
                self.count = self.count + 1;
            }
            proof {
                assert(sub_wrote(pre_sub, *self, key, value, i as int));
                lemma_reach_preserved(pre_sub, *self, key, value, i as int);
            }
            return (true, i + 1, None);
        }
        proof {
            if found {
                lemma_walk_absent(*self, key, i as int);
            } else {
                lemma_walk_absent(*self, key, self.capacity as int);
            }
            if force {
                assert(!found);
                assert forall|s: int| 0 <= s < self.slots@.len() implies self.slots@[s]
                    is Some by {
                    crate::hashing::lemma_probe_covers(key, self.capacity as u64, s);
                    let q = choose|q: int|
                        0 <= q < (self.capacity as u64) && #[trigger] probe_index(
                            key,
                            self.capacity as u64,
                            q,
                        ) == s;
                    assert(self.occupied_other(key, q));
                };
                lemma_count_occupied_full(self.slots@);
            }
        }
        (false, loop_limit, Some(value))
    }

    /// Walks `key`'s probe sequence over the whole array, returning the stored
    /// value on a key match and stopping early at the first empty slot, which
    /// proves the key absent because entries are never deleted.
    pub fn get(&self, key: u64) -> (r: Option<&V>)
        requires
            self.wf(),
        ensures
            match r {
                Some(v) => self.spec_lookup(key) == Some(*v),
                None => self.spec_lookup(key) is None,
            },
            r is None ==> !self.contains_key(key),
            r is Some ==> self.contains_key(key),
    {
        proof {
            if self.contains_key(key) {
                lemma_contains_found(*self, key);
            } else {
                lemma_scan_absent(*self, key, 0);
            }
        }
        if self.capacity == 0 {
            return None;
        }
        let (h1, h2) = self.hash_key(key);
        let mut i: usize = 0;
        while i < self.capacity
            invariant
                self.wf(),
                self.capacity > 0,
                h1 == spec_h1(key, self.capacity as u64),
                h2 == spec_h2(key, self.capacity as u64),
                i <= self.capacity,
                self.scan_from(key, 0) == self.scan_from(key, i as int),
            decreases self.capacity - i,
        {
            let idx = probe_slot(h1, h2, self.capacity, i);
            match &self.slots[idx] {
                None => {
                    proof {
                        if self.contains_key(key) {
                            lemma_contains_found(*self, key);
                        }
                    }
                    return None;
                },
                Some(e) => {
                    if e.key == key {
                        return Some(&e.value);
                    }
                },
            }
            i = i + 1;
        }
        None
    }
}

/// The load factor of `count` occupied slots out of `cap`, in parts per
/// million, with a zero-capacity array reported as full.
pub open spec fn spec_load_factor_ppm(count: nat, cap: nat) -> nat {
    if cap == 0 {
        1_000_000
    } else {
        count * 1_000_000 / cap
    }
}

/// How many probe steps an insertion attempt walks: none in a zero-capacity
/// array, the whole array when forced, the given limit otherwise.
pub open spec fn spec_attempt_len<V>(s: SubArray<V>, limit: usize, force: bool) -> int {
    if s.capacity == 0 {
        0int
    } else if force {
        s.capacity as int
    } else {
        limit as int
    }
}

/// A successful insertion attempt wrote `(key, value)` at step `p` of `key`'s
/// probe sequence: every earlier step was held by another key, the written
/// slot was empty or already held `key`, and the occupied count rose exactly
/// when the slot was empty.
pub open spec fn sub_wrote<V>(s0: SubArray<V>, s1: SubArray<V>, key: u64, value: V, p: int) -> bool {
    &&& s0.capacity == s1.capacity
    &&& s0.capacity > 0
    &&& 0 <= p < s0.capacity
    &&& (forall|q: int| 0 <= q < p ==> s0.occupied_other(key, q))
    &&& (match s0.slot_at(key, p) {
        None => true,
        Some(e) => e.key == key,
    })
    &&& s1.slots@ == s0.slots@.update(
        probe_index(key, s0.capacity as u64, p),
        Some((Entry { key, value })),
    )
    &&& s1.count == s0.count + (if s0.slot_at(key, p) is Some {
        0int
    } else {
        1int
    })
}

/// A probe walk that reached an empty slot (or ran the whole array) without
/// meeting `key` proves the key absent: a stored key is never preceded by an
/// empty slot on its own walk.
pub proof fn lemma_walk_absent<V>(s: SubArray<V>, key: u64, e: int)
    requires
        s.wf(),
        0 <= e <= s.capacity,
        forall|q: int| 0 <= q < e ==> s.occupied_other(key, q),
        e < s.capacity ==> s.slot_at(key, e) is None,
    ensures
        !s.contains_key(key),
{
    let cap = s.capacity as u64;
    if s.contains_key(key) {
        let sl = choose|j: int|
            0 <= j < s.slots@.len() && match #[trigger] s.slots@[j] {
                Some(en) => en.key == key,
                None => false,
            };
        assert(s.reachable_at(key, sl));
        let p = choose|p: int|
            {
                &&& 0 <= p < s.capacity
                &&& #[trigger] probe_index(key, cap, p) == sl
                &&& (forall|q: int| 0 <= q < p ==> s.slots@[probe_index(key, cap, q)] is Some)
            };
        if p < e {
            assert(s.occupied_other(key, p));
        } else if p == e {
            assert(s.slot_at(key, e) is None);
        } else {
            assert(s.slots@[probe_index(key, cap, e)] is Some);
        }
        assert(false);
    }
}

/// Writing an entry at a step whose walk prefix is occupied keeps every
/// stored key reachable: occupied slots never empty again.
pub proof fn lemma_reach_preserved<V>(
    s0: SubArray<V>,
    s1: SubArray<V>,
    key: u64,
    value: V,
    p: int,
)
    requires
        s0.slots@.len() == s0.capacity,
        s0.keys_reachable(),
        sub_wrote(s0, s1, key, value, p),
    ensures
        s1.keys_reachable(),
{
    let cap = s0.capacity as u64;
    let idx = probe_index(key, cap, p);
    assert forall|sl: int| 0 <= sl < s1.slots@.len() implies match #[trigger] s1.slots@[sl] {
        Some(e) => s1.reachable_at(e.key, sl),
        None => true,
    } by {
        match s1.slots@[sl] {
            Some(e) => {
                if sl == idx {
                    assert forall|q: int| 0 <= q < p implies s1.slots@[probe_index(key, cap, q)]
                        is Some by {
                        assert(s0.occupied_other(key, q));
                        if probe_index(key, cap, q) != idx {
                            assert(s1.slots@[probe_index(key, cap, q)] == s0.slots@[probe_index(
                                key,
                                cap,
                                q,
                            )]);
                        }
                    };
                    assert(probe_index(e.key, cap, p) == sl);
                    assert(s1.reachable_at(e.key, sl));
                } else {
                    assert(s1.slots@[sl] == s0.slots@[sl]);
                    assert(s0.reachable_at(e.key, sl));
                    let p2 = choose|p2: int|
                        {
                            &&& 0 <= p2 < s0.capacity
                            &&& #[trigger] probe_index(e.key, cap, p2) == sl
                            &&& (forall|q: int|
                                0 <= q < p2 ==> s0.slots@[probe_index(e.key, cap, q)] is Some)
                        };
                    assert forall|q: int| 0 <= q < p2 implies s1.slots@[probe_index(
                        e.key,
                        cap,
                        q,
                    )] is Some by {
                        assert(s0.slots@[probe_index(e.key, cap, q)] is Some);
                    };
                    assert(probe_index(e.key, cap, p2) == sl);
                    assert(s1.reachable_at(e.key, sl));
                }
            },
            None => {},
        }
    };
}

/// A probe walk reaches a matching slot no later than step `p` when the walk
/// up to `p` is fully occupied and step `p` holds the key.
pub proof fn lemma_scan_hits<V>(s: SubArray<V>, key: u64, i: int, p: int)
    requires
        s.slots@.len() == s.capacity,
        0 <= i <= p < s.capacity,
        forall|q: int|
            i <= q < p ==> s.slots@[#[trigger] probe_index(key, s.capacity as u64, q)] is Some,
        match s.slot_at(key, p) {
            Some(e) => e.key == key,
            None => false,
        },
    ensures
        s.scan_from(key, i) is Some,
    decreases p - i,
{
    if i < p {
        match s.slot_at(key, i) {
            Some(e) => {
                if e.key != key {
                    lemma_scan_hits(s, key, i + 1, p);
                }
            },
            None => {
                assert(s.slots@[probe_index(key, s.capacity as u64, i)] is Some);
            },
        }
    }
}

/// A key the sub-array holds is found by the probe walk.
pub proof fn lemma_contains_found<V>(s: SubArray<V>, key: u64)
    requires
        s.wf(),
        s.contains_key(key),
    ensures
        s.spec_lookup(key) is Some,
{
    let cap = s.capacity as u64;
    let sl = choose|j: int|
        0 <= j < s.slots@.len() && match #[trigger] s.slots@[j] {
            Some(en) => en.key == key,
            None => false,
        };
    assert(s.reachable_at(key, sl));
    let p = choose|p: int|
        {
            &&& 0 <= p < s.capacity
            &&& #[trigger] probe_index(key, cap, p) == sl
            &&& (forall|q: int| 0 <= q < p ==> s.slots@[probe_index(key, cap, q)] is Some)
        };
    lemma_scan_hits(s, key, 0, p);
}

/// If the first `p` steps of `key`'s probe walk are held by other keys and
/// step `p` holds `key`, the walk started anywhere in that prefix finds the
/// value stored at step `p`.
pub proof fn lemma_scan_finds_from<V>(s: SubArray<V>, key: u64, i: int, p: int)
    requires
        0 <= i <= p < s.capacity,
        s.slots@.len() == s.capacity,
        forall|q: int| i <= q < p ==> s.occupied_other(key, q),
        match s.slot_at(key, p) {
            Some(e) => e.key == key,
            None => false,
        },
    ensures
        match s.slot_at(key, p) {
            Some(e) => s.scan_from(key, i) == Some(e.value),
            None => false,
        },
    decreases p - i,
{
    if i < p {
        assert(s.occupied_other(key, i));
        lemma_scan_finds_from(s, key, i + 1, p);
    }
}

/// A probe walk over a sub-array that nowhere holds `key` yields nothing.
pub proof fn lemma_scan_absent<V>(s: SubArray<V>, key: u64, i: int)
    requires
        s.slots@.len() == s.capacity,
        !s.contains_key(key),
    ensures
        s.scan_from(key, i) is None,
    decreases s.capacity - i,
{
    if 0 <= i < s.capacity {
        let idx = probe_index(key, s.capacity as u64, i);
        match s.slots@[idx] {
            Some(e) => {
                if e.key == key {
                    assert(s.contains_key(key));
                } else {
                    lemma_scan_absent(s, key, i + 1);
                }
            },
            None => {},
        }
    }
}

/// A probe walk that yields a value found it at some step: the steps before
/// it are held by other keys and that step holds `key` with the yielded value.
pub proof fn lemma_scan_inverts<V>(s: SubArray<V>, key: u64, i: int)
    requires
        s.slots@.len() == s.capacity,
        0 <= i,
        s.scan_from(key, i) is Some,
    ensures
        exists|p: int|
            {
                &&& i <= p < s.capacity
                &&& (forall|q: int| i <= q < p ==> s.occupied_other(key, q))
                &&& (match #[trigger] s.slot_at(key, p) {
                    Some(e) => e.key == key && s.scan_from(key, i) == Some(e.value),
                    None => false,
                })
            },
    decreases s.capacity - i,
{
    let idx = probe_index(key, s.capacity as u64, i);
    match s.slots@[idx] {
        Some(e) => {
            if e.key != key {
                lemma_scan_inverts(s, key, i + 1);
                let p0 = choose|p: int|
                    {
                        &&& i + 1 <= p < s.capacity
                        &&& (forall|q: int| i + 1 <= q < p ==> s.occupied_other(key, q))
                        &&& (match #[trigger] s.slot_at(key, p) {
                            Some(e2) => e2.key == key && s.scan_from(key, i + 1) == Some(
                                e2.value,
                            ),
                            None => false,
                        })
                    };
                assert(forall|q: int| i <= q < p0 ==> s.occupied_other(key, q));
            }
        },
        None => {},
    }
}

/// A probe walk that yields a value proves the key occupies some slot.
pub proof fn lemma_scan_some_contains<V>(s: SubArray<V>, key: u64)
    requires
        s.slots@.len() == s.capacity,
        s.spec_lookup(key) is Some,
    ensures
        s.contains_key(key),
{
    lemma_scan_inverts(s, key, 0);
    let p = choose|p: int|
        {
            &&& 0 <= p < s.capacity
            &&& (forall|q: int| 0 <= q < p ==> s.occupied_other(key, q))
            &&& (match #[trigger] s.slot_at(key, p) {
                Some(e) => e.key == key && s.scan_from(key, 0) == Some(e.value),
                None => false,
            })
        };
    assert(0 <= probe_index(key, s.capacity as u64, p) < s.slots@.len());
}

/// After a write of `(key, value)` at step `p` of `key`'s probe walk, the
/// walk yields `value`.
pub proof fn lemma_sub_wrote_lookup<V>(s0: SubArray<V>, s1: SubArray<V>, key: u64, value: V, p: int)
    requires
        s0.wf(),
        sub_wrote(s0, s1, key, value, p),
    ensures
        s1.spec_lookup(key) == Some(value),
{
    let cap = s0.capacity as u64;
    let idx = probe_index(key, cap, p);
    assert forall|q: int| 0 <= q < p implies s1.occupied_other(key, q) by {
        let iq = probe_index(key, cap, q);
        assert(s0.occupied_other(key, q));
        assert(iq != idx);
    };
    assert(s1.slot_at(key, p) == Some((Entry { key, value })));
    lemma_scan_finds_from(s1, key, 0, p);
}

/// A write of some other key — into an empty slot or over that key's own
/// slot — leaves the probe walk of `key` yielding what it already yielded.
pub proof fn lemma_sub_wrote_other_key<V>(
    s0: SubArray<V>,
    s1: SubArray<V>,
    other: u64,
    value: V,
    p: int,
    key: u64,
)
    requires
        s0.wf(),
        sub_wrote(s0, s1, other, value, p),
        key != other,
        s0.spec_lookup(key) is Some,
    ensures
        s1.spec_lookup(key) == s0.spec_lookup(key),
{
    let cap = s0.capacity as u64;
    let idx = probe_index(other, cap, p);
    lemma_scan_inverts(s0, key, 0);
    let pk = choose|pk: int|
        {
            &&& 0 <= pk < s0.capacity
            &&& (forall|q: int| 0 <= q < pk ==> s0.occupied_other(key, q))
            &&& (match #[trigger] s0.slot_at(key, pk) {
                Some(e) => e.key == key && s0.scan_from(key, 0) == Some(e.value),
                None => false,
            })
        };
    assert forall|q: int| 0 <= q < pk implies s1.occupied_other(key, q) by {
        assert(s0.occupied_other(key, q));
        let iq = probe_index(key, cap, q);
        assert(0 <= iq < s0.slots@.len());
        if iq == idx {
            assert(s1.slots@[iq] == Some((Entry { key: other, value })));
        } else {
            assert(s1.slots@[iq] == s0.slots@[iq]);
        }
    };
    let ik = probe_index(key, cap, pk);
    assert(ik != idx);
    lemma_scan_finds_from(s1, key, 0, pk);
}

} // verus!
