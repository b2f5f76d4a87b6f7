//! The elastic table: an ordered cascade of sub-arrays of geometrically
//! decreasing capacity, with the case-based insertion policy and in-order
//! lookup.

use vstd::prelude::*;

use crate::sub_array::lemma_contains_found;
use crate::sub_array::lemma_count_occupied_le_len;
use crate::sub_array::lemma_scan_absent;
use crate::sub_array::lemma_scan_some_contains;
use crate::sub_array::lemma_sub_wrote_lookup;
use crate::sub_array::lemma_sub_wrote_other_key;
use crate::sub_array::spec_load_factor_ppm;
use crate::sub_array::sub_wrote;
use crate::sub_array::SubArray;
use crate::hashing::probe_index;

verus! {

/// Why an operation was refused.
#[derive(Clone, Copy, PartialEq, Eq, Structural, Debug)]
pub enum TableError {
    /// A construction-time argument was outside its documented range.
    InvalidParameter,
    /// The final sub-array's exhaustive insert found no slot for the key.
    CapacityExhausted,
    /// No sub-array accepted the key and the exhaustion check never fired;
    /// with the last sub-array always scanned exhaustively this arises only
    /// for a table constructed with zero capacity.
    InsertFailed,
}

/// The elastic hash table: sub-arrays in decreasing-capacity order, a target
/// overall emptiness `delta` in parts per million, and the probe-limit
/// multiplier `c_param`.
pub struct ElasticTable<V> {
    pub subarrays: Vec<SubArray<V>>,
    pub total_capacity: usize,
    pub delta: u64,
    pub c_param: u64,
}

/// Total occupied slots over a sequence of sub-arrays.
pub open spec fn counts_sum<V>(s: Seq<SubArray<V>>) -> nat
    decreases s.len(),
{
    if s.len() == 0 {
        0
    } else {
        counts_sum(s.drop_last()) + s.last().count as nat
    }
}

/// Replacing one sub-array shifts the total occupied count by the difference
/// of the two counts.
pub proof fn lemma_counts_sum_update<V>(s: Seq<SubArray<V>>, j: int, sub: SubArray<V>)
    requires
        0 <= j < s.len(),
    ensures
        counts_sum(s.update(j, sub)) + s[j].count == counts_sum(s) + sub.count,
    decreases s.len(),
{
    let t = s.update(j, sub);
    if j == s.len() - 1 {
        assert(t.drop_last() =~= s.drop_last());
    } else {
        assert(t.drop_last() =~= s.drop_last().update(j, sub));
        lemma_counts_sum_update(s.drop_last(), j, sub);
    }
}

/// Total slot capacity over a sequence of sub-arrays.
pub open spec fn caps_sum<V>(s: Seq<SubArray<V>>) -> nat
    decreases s.len(),
{
    if s.len() == 0 {
        0
    } else {
        caps_sum(s.drop_last()) + s.last().capacity as nat
    }
}

/// Extending a prefix by one sub-array adds its capacity to the prefix total.
pub proof fn lemma_caps_sum_take_step<V>(s: Seq<SubArray<V>>, j: int)
    requires
        0 <= j < s.len(),
    ensures
        caps_sum(s.take(j + 1)) == caps_sum(s.take(j)) + s[j].capacity as nat,
{
    assert(s.take(j + 1).drop_last() =~= s.take(j));
    assert(s.take(j + 1).last() == s[j]);
}

/// A prefix never exceeds the whole in total capacity.
pub proof fn lemma_caps_sum_take_le<V>(s: Seq<SubArray<V>>, j: int)
    requires
        0 <= j <= s.len(),
    ensures
        caps_sum(s.take(j)) <= caps_sum(s),
    decreases s.len() - j,
{
    if j == s.len() {
        assert(s.take(j) =~= s);
    } else {
        lemma_caps_sum_take_step(s, j);
        lemma_caps_sum_take_le(s, j + 1);
    }
}

/// The capacities of a sequence of sub-arrays, in order.
pub open spec fn subarray_caps<V>(s: Seq<SubArray<V>>) -> Seq<nat> {
    s.map_values(|sub: SubArray<V>| sub.capacity as nat)
}

/// The capacity partition rule: take everything when fewer than 16 slots
/// remain, else the ceiling of half, until nothing remains.
pub open spec fn split_sizes(remaining: nat) -> Seq<nat>
    decreases remaining,
{
    if remaining == 0 {
        Seq::empty()
    } else {
        let size: nat = if remaining < 16 {
            remaining
        } else {
            (remaining + 1) / 2
        };
        seq![size] + split_sizes((remaining - size) as nat)
    }
}

/// What looking `key` up from sub-array `j` onward yields: the first
/// sub-array whose probe walk finds the key wins.
pub open spec fn seq_lookup_from<V>(subs: Seq<SubArray<V>>, key: u64, j: int) -> Option<V>
    decreases subs.len() - j,
{
    if j < 0 || j >= subs.len() {
        None::<V>
    } else {
        match subs[j].spec_lookup(key) {
            Some(v) => Some(v),
            None => seq_lookup_from(subs, key, j + 1),
        }
    }
}

/// Some slot of some sub-array holds `key`.
pub open spec fn seq_contains_key<V>(subs: Seq<SubArray<V>>, key: u64) -> bool {
    exists|j: int| 0 <= j < subs.len() && (#[trigger] subs[j]).contains_key(key)
}

/// Slot `s` of sub-array `j` holds `key`.
pub open spec fn seq_holds_key<V>(subs: Seq<SubArray<V>>, j: int, s: int, key: u64) -> bool {
    &&& 0 <= j < subs.len()
    &&& 0 <= s < subs[j].slots@.len()
    &&& match subs[j].slots@[s] {
        Some(e) => e.key == key,
        None => false,
    }
}

/// At most one slot over all the sub-arrays holds `key`.
pub open spec fn seq_unique_key<V>(subs: Seq<SubArray<V>>, key: u64) -> bool {
    forall|j1: int, s1: int, j2: int, s2: int|
        #[trigger] seq_holds_key(subs, j1, s1, key) && #[trigger] seq_holds_key(subs, j2, s2, key)
            ==> j1 == j2 && s1 == s2
}

/// A key held nowhere is trivially held in at most one slot.
pub proof fn lemma_absent_unique_key<V>(subs: Seq<SubArray<V>>, key: u64)
    requires
        !seq_contains_key(subs, key),
    ensures
        seq_unique_key(subs, key),
{
    assert forall|j1: int, s1: int, j2: int, s2: int|
        #[trigger] seq_holds_key(subs, j1, s1, key) && #[trigger] seq_holds_key(
            subs,
            j2,
            s2,
            key,
        ) implies j1 == j2 && s1 == s2 by {
        assert(subs[j1].contains_key(key));
        assert(false);
    };
}

/// A sub-array with no occupied slot.
pub open spec fn sub_empty<V>(sub: SubArray<V>) -> bool {
    &&& sub.count == 0
    &&& forall|s: int| 0 <= s < sub.slots@.len() ==> sub.slots@[s] is None
}

impl<V> ElasticTable<V> {
    /// Structural soundness: every sub-array is well-formed and non-empty,
    /// no key is stored in more than one slot anywhere in the table, `delta`
    /// is a proper fraction in ppm, and the multiplier is fixed.
    pub open spec fn wf(self) -> bool {
        &&& (forall|j: int|
            0 <= j < self.subarrays@.len() ==> (#[trigger] self.subarrays@[j]).wf()
                && self.subarrays@[j].capacity >= 1)
        &&& (forall|k: u64| #[trigger] seq_unique_key(self.subarrays@, k))
        &&& 0 < self.delta < 1_000_000
        &&& self.c_param == 2
    }

    /// Total occupied slots across all sub-arrays.
    pub open spec fn total_count(self) -> nat {
        counts_sum(self.subarrays@)
    }

    /// What looking `key` up from sub-array `j` onward yields: the first
    /// sub-array whose probe walk finds the key wins.
    pub open spec fn lookup_from(self, key: u64, j: int) -> Option<V> {
        seq_lookup_from(self.subarrays@, key, j)
    }

    /// What looking `key` up in the whole table yields.
    pub open spec fn lookup(self, key: u64) -> Option<V> {
        seq_lookup_from(self.subarrays@, key, 0)
    }

    /// Some slot of some sub-array holds `key`.
    pub open spec fn contains_key(self, key: u64) -> bool {
        seq_contains_key(self.subarrays@, key)
    }

    /// Slot `s` of sub-array `j` holds `key`.
    pub open spec fn holds_key(self, j: int, s: int, key: u64) -> bool {
        seq_holds_key(self.subarrays@, j, s, key)
    }

    /// At most one slot in the whole table holds `key`.
    pub open spec fn unique_key(self, key: u64) -> bool {
        seq_unique_key(self.subarrays@, key)
    }

    /// A successful insert turned `pre` into `post` by writing `(key, value)`
    /// at step `p` of the key's probe walk in sub-array `j`; everything else
    /// is untouched.
    pub open spec fn wrote_entry_at(
        pre: Self,
        post: Self,
        key: u64,
        value: V,
        j: int,
        p: int,
    ) -> bool {
        &&& 0 <= j < pre.subarrays@.len()
        &&& post.subarrays@ == pre.subarrays@.update(j, post.subarrays@[j])
        &&& post.total_capacity == pre.total_capacity
        &&& post.delta == pre.delta
        &&& post.c_param == pre.c_param
        &&& sub_wrote(pre.subarrays@[j], post.subarrays@[j], key, value, p)
    }

    /// A successful insert wrote `(key, value)` at step `c - 1` of the key's
    /// probe walk in some sub-array: the reported probe count `c` is exactly
    /// the number of slots that walk inspected.
    pub open spec fn wrote_at_count(pre: Self, post: Self, key: u64, value: V, c: int) -> bool {
        exists|j: int| #[trigger] Self::wrote_entry_at(pre, post, key, value, j, c - 1)
    }

    /// A successful insert wrote `(key, value)` into exactly one slot of one
    /// sub-array and changed nothing else.
    pub open spec fn wrote_entry(pre: Self, post: Self, key: u64, value: V) -> bool {
        exists|j: int, p: int| Self::wrote_entry_at(pre, post, key, value, j, p)
    }

    /// Partitions `capacity` into the decreasing cascade of sub-arrays.
    /// Rejects a target emptiness outside the open interval (0, 1), given in
    /// parts per million.
    pub fn new(capacity: usize, delta: u64) -> (r: Result<Self, TableError>)
        ensures
            r is Ok <==> 0 < delta < 1_000_000,
            r is Err ==> r == Err::<Self, TableError>(TableError::InvalidParameter),
            match r {
                Ok(t) => {
                    &&& t.wf()
                    &&& t.delta == delta
                    &&& t.total_capacity == capacity
                    &&& t.total_count() == 0
                    &&& subarray_caps(t.subarrays@) == split_sizes(capacity as nat)
                    &&& forall|k: u64| t.lookup(k) is None
                    &&& forall|k: u64| !t.contains_key(k)
                },
                Err(_) => true,
            },
    {
        if delta == 0 || delta >= 1_000_000 {
            return Err(TableError::InvalidParameter);
        }
        let mut subarrays: Vec<SubArray<V>> = Vec::new();
        let mut remaining = capacity;
        while remaining > 0
            invariant
                subarray_caps(subarrays@) + split_sizes(remaining as nat) == split_sizes(
                    capacity as nat,
                ),
                counts_sum(subarrays@) == 0,
                forall|j: int|
                    0 <= j < subarrays@.len() ==> (#[trigger] subarrays@[j]).wf()
                        && subarrays@[j].capacity >= 1 && sub_empty(subarrays@[j]),
            decreases remaining,
        {
            let size = if remaining < 16 {
                remaining
            } else {
                remaining / 2 + remaining % 2
            };
            assert(size as nat == (if remaining < 16 {
                remaining as nat
            } else {
                ((remaining + 1) / 2) as nat
            }));
            let sub = SubArray::new(size);
            proof {
                let ghost snap = subarrays@;
                assert(counts_sum(snap.push(sub)) == counts_sum(snap) + sub.count) by {
                    assert(snap.push(sub).drop_last() =~= snap);
                }
                assert(subarray_caps(snap.push(sub)) =~= subarray_caps(snap).push(size as nat));
                assert(subarray_caps(snap).push(size as nat) + split_sizes(
                    (remaining - size) as nat,
                ) =~= subarray_caps(snap) + split_sizes(remaining as nat));
            }
            subarrays.push(sub);
            remaining = remaining - size;
        }
        proof {
            assert(subarray_caps(subarrays@) + split_sizes(0) =~= subarray_caps(subarrays@));
        }
        let t = ElasticTable { subarrays, total_capacity: capacity, delta, c_param: 2 };
        proof {
            assert forall|k: u64| t.lookup(k) is None by {
                lemma_lookup_from_absent(t.subarrays@, k, 0);
            }
            assert forall|k: u64| #[trigger] seq_unique_key(t.subarrays@, k) by {
                assert(!seq_contains_key(t.subarrays@, k));
                lemma_absent_unique_key(t.subarrays@, k);
            }
        }
        Ok(t)
    }

    /// Sizes the table for an expected number of items at a target load
    /// factor in parts per million: the capacity is the ceiling of
    /// `expected_items / load_factor` and the emptiness target is the
    /// complement of the load factor. Rejects load factors at or below one
    /// half and at or above 0.99.
    pub fn for_items(expected_items: usize, load_factor: u64) -> (r: Result<Self, TableError>)
        requires
            expected_items <= usize::MAX / 2,
        ensures
            r is Ok <==> 500_000 < load_factor < 990_000,
            r is Err ==> r == Err::<Self, TableError>(TableError::InvalidParameter),
            match r {
                Ok(t) => {
                    &&& t.wf()
                    &&& t.delta == 1_000_000 - load_factor
                    &&& t.total_capacity == spec_ceil_div(
                        expected_items as int * 1_000_000,
                        load_factor as int,
                    )
                    &&& subarray_caps(t.subarrays@) == split_sizes(t.total_capacity as nat)
                    &&& t.total_count() == 0
                    &&& forall|k: u64| t.lookup(k) is None
                    &&& forall|k: u64| !t.contains_key(k)
                },
                Err(_) => true,
            },
    {
        if load_factor <= 500_000 || load_factor >= 990_000 {
            return Err(TableError::InvalidParameter);
        }
        let num: u128 = (expected_items as u128) * 1_000_000u128;
        let lf: u128 = load_factor as u128;
        let q: u128 = num / lf;
        let m: u128 = num % lf;
        let cap128: u128 = if m == 0 {
            q
        } else {
            q + 1
        };
        proof {
            let a = num as int;
            let b = lf as int;
            let c = 2 * (expected_items as int);
            assert(a <= b * c) by (nonlinear_arith)
                requires
                    a == expected_items as int * 1_000_000,
                    b >= 500_000,
                    c == 2 * (expected_items as int),
                    expected_items >= 0,
            ;
            vstd::arithmetic::div_mod::lemma_fundamental_div_mod(a, b);
            assert(a / b <= c) by (nonlinear_arith)
                requires
                    a == b * (a / b) + a % b,
                    a % b >= 0,
                    a <= b * c,
                    b > 0,
            ;
            if a % b != 0 {
                assert(a / b < c) by (nonlinear_arith)
                    requires
                        a == b * (a / b) + a % b,
                        0 < a % b < b,
                        a <= b * c,
                        b > 0,
                ;
            }
            assert(cap128 <= 2 * (expected_items as u128));
        }
        let capacity: usize = cap128 as usize;
        match Self::new(capacity, 1_000_000 - load_factor) {
            Ok(t) => Ok(t),
            Err(_) => Err(TableError::InvalidParameter),
        }
    }

    /// Inserts or updates an entry. A first pass walks each sub-array's probe
    /// sequence with a zero budget: it can claim no fresh slot, but it
    /// replaces the value in place wherever the key is already stored, so an
    /// update never creates a second copy of the key and never changes the
    /// occupied count. When the key is absent everywhere, a second pass
    /// routes it through the sub-arrays by the case policy, comparing each
    /// sub-array's emptiness `eps1` and the next one's `eps2` against the
    /// targets in this fixed order: a bounded probe when `eps1` exceeds half
    /// of `delta` and `eps2` exceeds a quarter; no new slot when `eps1` is at
    /// most half of `delta` and a next sub-array exists; a forced exhaustive
    /// scan when `eps2` is at most a quarter or no next sub-array exists —
    /// the last sub-array is always scanned exhaustively, and
    /// `CapacityExhausted` is reported exactly when that scan finds it full.
    /// Returns the probes accumulated over the attempts; a failed insert
    /// leaves the table untouched.
    pub fn insert(&mut self, key: u64, value: V) -> (r: Result<usize, TableError>)
        requires
            old(self).wf(),
        ensures
            final(self).wf(),
            final(self).subarrays@.len() == old(self).subarrays@.len(),
            final(self).delta == old(self).delta,
            final(self).c_param == old(self).c_param,
            final(self).total_capacity == old(self).total_capacity,
            forall|j: int|
                0 <= j < old(self).subarrays@.len() ==> (#[trigger] final(self).subarrays@[j]).capacity
                    == old(self).subarrays@[j].capacity,
            r is Err ==> final(self).subarrays@ == old(self).subarrays@,
            r is Err ==> r == Err::<usize, TableError>(TableError::CapacityExhausted) || r
                == Err::<usize, TableError>(TableError::InsertFailed),
            r == Err::<usize, TableError>(TableError::InsertFailed) ==> old(
                self,
            ).subarrays@.len() == 0,
            r == Err::<usize, TableError>(TableError::CapacityExhausted) ==> {
                &&& old(self).subarrays@.len() > 0
                &&& old(self).subarrays@[old(self).subarrays@.len() - 1].count == old(
                    self,
                ).subarrays@[old(self).subarrays@.len() - 1].capacity
                &&& !old(self).contains_key(key)
            },
            r is Ok ==> Self::wrote_entry(*old(self), *final(self), key, value),
            r is Ok ==> final(self).lookup(key) == Some(value),
            r is Ok ==> forall|k2: u64|
                k2 != key ==> final(self).lookup(k2) == old(self).lookup(k2),
            r is Ok && old(self).contains_key(key) ==> final(self).total_count() == old(
                self,
            ).total_count(),
            r is Ok && !old(self).contains_key(key) ==> final(self).total_count() == old(
                self,
            ).total_count() + 1,
            r matches Ok(c) ==> c >= 1,
            r matches Ok(c) ==> c as int <= caps_sum(old(self).subarrays@) + 8192 * old(
                self,
            ).subarrays@.len(),
            r is Ok && old(self).contains_key(key) ==> Self::wrote_at_count(
                *old(self),
                *final(self),
                key,
                value,
                r->Ok_0 as int,
            ),
            old(self).contains_key(key) ==> r is Ok,
            old(self).subarrays@.len() > 0 && old(self).subarrays@[old(self).subarrays@.len()
                - 1].count < old(self).subarrays@[old(self).subarrays@.len() - 1].capacity ==> r
                is Ok,
            r is Ok && !old(self).contains_key(key) ==> exists|j: int, p: int|
                #[trigger] Self::wrote_entry_at(*old(self), *final(self), key, value, j, p) && (
                eps_gt_half_delta(
                    old(self).subarrays@[j].count as nat,
                    old(self).subarrays@[j].capacity as nat,
                    old(self).delta as nat,
                ) || j == old(self).subarrays@.len() - 1),
    {
        let ghost pre = *old(self);
        let n = self.subarrays.len();
        let mut val = value;
        let mut j: usize = 0;
        while j < n
            invariant
                self.subarrays@ == pre.subarrays@,
                self.delta == pre.delta,
                self.c_param == pre.c_param,
                self.total_capacity == pre.total_capacity,
                pre == *old(self),
                self.wf(),
                j <= n,
                n == self.subarrays@.len(),
                val == value,
                forall|j2: int| 0 <= j2 < j ==> !(#[trigger] pre.subarrays@[j2]).contains_key(key),
            decreases n - j,
        {
            let sub = &mut self.subarrays[j];
            let (success, probes, back) = sub.insert_probe(key, val, 0, false);
            if success {
                proof {
                    let s1 = self.subarrays@[j as int];
                    let p = probes - 1;
                    assert(pre.subarrays@[j as int].contains_key(key));
                    assert(pre.contains_key(key));
                    assert(Self::wrote_entry_at(pre, *self, key, value, j as int, p));
                    lemma_caps_sum_take_step(pre.subarrays@, j as int);
                    lemma_caps_sum_take_le(pre.subarrays@, j as int + 1);
                    lemma_counts_sum_update(pre.subarrays@, j as int, s1);
                    assert(seq_unique_key(pre.subarrays@, key));
                    lemma_update_insert_lookup(pre, *self, key, value);
                    lemma_unique_preserved(pre, *self, key, value);
                    assert forall|k2: u64| k2 != key implies (*self).lookup(k2) == pre.lookup(
                        k2,
                    ) by {
                        assert(seq_unique_key(pre.subarrays@, k2));
                        if pre.lookup(k2) is Some {
                            lemma_write_preserves_other_lookup(pre, *self, key, value, k2);
                        } else {
                            lemma_write_preserves_absent_lookup(pre, *self, key, value, k2);
                        }
                    };
                    assert(Self::wrote_entry_at(
                        *old(self),
                        *self,
                        key,
                        value,
                        j as int,
                        probes as int - 1,
                    ));
                    assert(Self::wrote_at_count(*old(self), *self, key, value, probes as int));
                }
                return Ok(probes);
            }
            proof {
                assert(self.subarrays@ =~= pre.subarrays@);
            }
            val = match back {
                Some(v) => v,
                None => vstd::pervasive::unreached(),
            };
            j = j + 1;
        }
        proof {
            assert(!pre.contains_key(key));
        }
        let mut total_probes: usize = 0;
        j = 0;
        while j < n
            invariant
                self.subarrays@ == pre.subarrays@,
                self.delta == pre.delta,
                self.c_param == pre.c_param,
                self.total_capacity == pre.total_capacity,
                pre == *old(self),
                self.wf(),
                j <= n,
                n == self.subarrays@.len(),
                val == value,
                !pre.contains_key(key),
                j == n ==> n == 0,
                total_probes as int <= caps_sum(pre.subarrays@.take(j as int)) + 8192 * j,
            decreases n - j,
        {
            let has_next = j + 1 < n;
            let n1 = self.subarrays[j].capacity;
            let c1 = self.subarrays[j].count;
            proof {
                lemma_count_occupied_le_len(self.subarrays@[j as int].slots@);
                assert((self.delta as u128) * (n1 as u128) <= 0xFFFF_FFFF_FFFF_FFFFu128
                    * 0xFFFF_FFFF_FFFF_FFFFu128) by (nonlinear_arith)
                    requires
                        self.delta as u128 <= 0xFFFF_FFFF_FFFF_FFFFu128,
                        n1 as u128 <= 0xFFFF_FFFF_FFFF_FFFFu128,
                ;
            }
            let eps1_gt_half = 2_000_000u128 * ((n1 - c1) as u128) > (self.delta as u128) * (
            n1 as u128);
            assert(eps1_gt_half == eps_gt_half_delta(c1 as nat, n1 as nat, self.delta as nat));
            let eps2_gt_quarter = if has_next {
                let n2 = self.subarrays[j + 1].capacity;
                let c2 = self.subarrays[j + 1].count;
                proof {
                    lemma_count_occupied_le_len(self.subarrays@[j as int + 1].slots@);
                }
                4u128 * ((n2 - c2) as u128) > (n2 as u128)
            } else {
                false
            };
            let is_case_1 = eps1_gt_half && eps2_gt_quarter;
            let is_case_2 = !eps1_gt_half;
            let is_case_3 = !eps2_gt_quarter;
            let mut attempt = false;
            let mut force = false;
            let mut lim: usize = 0;
            if is_case_1 {
                proof {
                    assert((self.delta as int) * (n1 as int) >= 1) by (nonlinear_arith)
                        requires
                            self.delta as int >= 1,
                            n1 as int >= 1,
                    ;
                }
                attempt = true;
                lim = probe_limit(self.c_param, c1, n1);
            } else if is_case_2 && has_next {
                // too full relative to the target: no new slot here, zero probes
            } else if is_case_3 || !has_next {
                attempt = true;
                force = true;
            } else {
                proof {
                    assert((self.delta as int) * (n1 as int) >= 1) by (nonlinear_arith)
                        requires
                            self.delta as int >= 1,
                            n1 as int >= 1,
                    ;
                }
                attempt = true;
                lim = probe_limit(self.c_param, c1, n1);
            }
            if attempt {
                let sub = &mut self.subarrays[j];
                let (success, probes, back) = sub.insert_probe(key, val, lim, force);
                total_probes = if probes > usize::MAX - total_probes {
                    usize::MAX
                } else {
                    total_probes + probes
                };
                if success {
                    proof {
                        let s1 = self.subarrays@[j as int];
                        let p = probes - 1;
                        assert(Self::wrote_entry_at(pre, *self, key, value, j as int, p));
                        lemma_caps_sum_take_step(pre.subarrays@, j as int);
                        lemma_caps_sum_take_le(pre.subarrays@, j as int + 1);
                        lemma_counts_sum_update(pre.subarrays@, j as int, s1);
                        lemma_fresh_insert_lookup(pre, *self, key, value);
                        lemma_unique_preserved(pre, *self, key, value);
                        assert forall|k2: u64| k2 != key implies (*self).lookup(k2) == pre.lookup(
                            k2,
                        ) by {
                            assert(seq_unique_key(pre.subarrays@, k2));
                            if pre.lookup(k2) is Some {
                                lemma_write_preserves_other_lookup(pre, *self, key, value, k2);
                            } else {
                                lemma_write_preserves_absent_lookup(pre, *self, key, value, k2);
                            }
                        };
                    }
                    return Ok(total_probes);
                }
                proof {
                    assert(self.subarrays@ =~= pre.subarrays@);
                }
                if force && !has_next {
                    return Err(TableError::CapacityExhausted);
                }
                val = match back {
                    Some(v) => v,
                    None => vstd::pervasive::unreached(),
                };
            }
            proof {
                lemma_caps_sum_take_step(pre.subarrays@, j as int);
            }
            j = j + 1;
        }
        Err(TableError::InsertFailed)
    }

    /// Looks `key` up in each sub-array in construction order (largest
    /// first); the first hit wins.
    pub fn get(&self, key: u64) -> (r: Option<&V>)
        requires
            self.wf(),
        ensures
            match r {
                Some(v) => self.lookup(key) == Some(*v),
                None => self.lookup(key) is None,
            },
            r is Some <==> self.contains_key(key),
    {
        let n = self.subarrays.len();
        let mut j: usize = 0;
        while j < n
            invariant
                self.wf(),
                j <= n,
                n == self.subarrays@.len(),
                self.lookup(key) == self.lookup_from(key, j as int),
            decreases n - j,
        {
            let res = self.subarrays[j].get(key);
            match res {
                Some(v) => {
                    proof {
                        assert(self.subarrays@[j as int].contains_key(key));
                    }
                    return Some(v);
                },
                None => {},
            }
            j = j + 1;
        }
        proof {
            lemma_lookup_none_nowhere(self.subarrays@, key);
        }
        None
    }

    /// One observation per sub-array, in construction order: its index, its
    /// occupied count, and its load factor in parts per million.
    pub fn stats(&self) -> (r: Vec<(usize, usize, u64)>)
        requires
            self.wf(),
        ensures
            r@.len() == self.subarrays@.len(),
            forall|j: int|
                0 <= j < r@.len() ==> r@[j] == (
                    (
                        j as usize,
                        self.subarrays@[j].count,
                        spec_load_factor_ppm(
                            self.subarrays@[j].count as nat,
                            self.subarrays@[j].capacity as nat,
                        ) as u64,
                    )
                ),
    {
        let n = self.subarrays.len();
        let mut r: Vec<(usize, usize, u64)> = Vec::new();
        let mut j: usize = 0;
        while j < n
            invariant
                self.wf(),
                j <= n,
                n == self.subarrays@.len(),
                r@.len() == j,
                forall|i: int|
                    0 <= i < j ==> r@[i] == (
                        (
                            i as usize,
                            self.subarrays@[i].count,
                            spec_load_factor_ppm(
                                self.subarrays@[i].count as nat,
                                self.subarrays@[i].capacity as nat,
                            ) as u64,
                        )
                    ),
            decreases n - j,
        {
            let lf = self.subarrays[j].load_factor();
            let count = self.subarrays[j].count;
            r.push((j, count, lf));
            j = j + 1;
        }
        r
    }
}

/// Integer ceiling of `a / b`.
pub open spec fn spec_ceil_div(a: int, b: int) -> int
    recommends
        a >= 0,
        b >= 1,
{
    a / b + (if a % b == 0 {
        0int
    } else {
        1int
    })
}

/// Ceiling of the base-two logarithm: 0 for 0 and 1, else one more than for
/// the ceiling of half.
pub open spec fn spec_log2_up(n: nat) -> nat
    decreases n,
{
    if n <= 1 {
        0
    } else {
        1 + spec_log2_up((n + 1) / 2)
    }
}

/// The probe budget for a sub-array with `count` of `cap` slots occupied:
/// `c_param` times the squared ceiling of `log2(1 / epsilon)`, where
/// `epsilon = (cap - count) / cap` is the sub-array's emptiness. Taking the
/// ceiling of the logarithm before squaring keeps the whole budget in exact
/// integer arithmetic; it is an upper bound of the real-valued budget
/// `ceiling(c_param * log2(1 / epsilon)^2)`, and equal to it whenever
/// `1 / epsilon` is a power of two, so the logarithmic shape of the budget is
/// preserved.
pub open spec fn spec_probe_limit(count: nat, cap: nat) -> nat
    recommends
        count < cap,
{
    let l = spec_log2_up(spec_ceil_div(cap as int, cap - count) as nat);
    2 * (l * l)
}

/// The emptiness `(cap - count) / cap` exceeds half of `delta` (in ppm).
pub open spec fn eps_gt_half_delta(count: nat, cap: nat, delta: nat) -> bool
    recommends
        count <= cap,
{
    2_000_000 * (cap - count) > delta * cap
}

/// The emptiness `(cap - count) / cap` exceeds one quarter.
pub open spec fn eps_gt_quarter(count: nat, cap: nat) -> bool
    recommends
        count <= cap,
{
    4 * (cap - count) > cap
}

/// Ceiling of the base-two logarithm of a positive machine word.
pub fn ceil_log2(n: u64) -> (r: u64)
    requires
        n >= 1,
    ensures
        r == spec_log2_up(n as nat),
        r <= 64,
{
    let mut m: u64 = n;
    let mut k: u64 = 0;
    proof {
        vstd::arithmetic::power2::lemma2_to64();
    }
    while m > 1
        invariant
            1 <= m <= n,
            k <= 64,
            spec_log2_up(n as nat) == k + spec_log2_up(m as nat),
            vstd::arithmetic::power2::pow2(k as nat) * ((m - 1) as nat) < n as nat,
        decreases m,
    {
        proof {
            let p = vstd::arithmetic::power2::pow2(k as nat);
            let m2 = (m as int) / 2 + (m as int) % 2;
            assert(2 * (m2 - 1) <= m - 1);
            vstd::arithmetic::mul::lemma_mul_inequality(2 * (m2 - 1), m - 1, p as int);
            assert(vstd::arithmetic::power2::pow2((k + 1) as nat) == 2 * p) by {
                vstd::arithmetic::power2::lemma_pow2_unfold((k + 1) as nat);
            }
            assert((2 * p) * (m2 - 1) == (2 * (m2 - 1)) * p) by (nonlinear_arith);
            assert(p * 1 <= p * ((m - 1) as int)) by (nonlinear_arith)
                requires
                    m >= 2,
                    p >= 0,
            ;
            assert(p < n as int);
            if k >= 64 {
                vstd::arithmetic::power2::lemma2_to64();
                if k > 64 {
                    vstd::arithmetic::power2::lemma_pow2_strictly_increases(64, k as nat);
                }
                assert(false);
            }
        }
        m = m / 2 + m % 2;
        k = k + 1;
    }
    k
}

/// The probe budget, computed from a sub-array's occupancy.
pub fn probe_limit(c_param: u64, count: usize, cap: usize) -> (r: usize)
    requires
        count < cap,
        c_param == 2,
    ensures
        r == spec_probe_limit(count as nat, cap as nat),
        r <= 8192,
{
    let gap = cap - count;
    proof {
        assert(cap / gap >= 1) by (nonlinear_arith)
            requires
                gap >= 1,
                cap >= gap,
        ;
        if cap % gap != 0 {
            vstd::arithmetic::div_mod::lemma_div_is_ordered_by_denominator(cap as int, 2, gap as int);
        }
    }
    let ratio = if cap % gap == 0 {
        cap / gap
    } else {
        cap / gap + 1
    };
    let l = ceil_log2(ratio as u64);
    proof {
        assert(l * l <= 4096) by (nonlinear_arith)
            requires
                0 <= l <= 64,
        ;
    }
    let ll = l * l;
    let limit = c_param * ll;
    limit as usize
}

/// Sub-arrays whose probe walks yield nothing do not affect the lookup.
pub proof fn lemma_lookup_from_skip<V>(subs: Seq<SubArray<V>>, key: u64, i: int, j: int)
    requires
        0 <= i <= j <= subs.len(),
        forall|j2: int| i <= j2 < j ==> (#[trigger] subs[j2]).spec_lookup(key) is None,
    ensures
        seq_lookup_from(subs, key, i) == seq_lookup_from(subs, key, j),
    decreases j - i,
{
    if i < j {
        assert(subs[i].spec_lookup(key) is None);
        lemma_lookup_from_skip(subs, key, i + 1, j);
    }
}

/// A lookup that yields a value found it in a first sub-array, every earlier
/// sub-array's probe walk yielding nothing.
pub proof fn lemma_lookup_from_inverts<V>(subs: Seq<SubArray<V>>, key: u64, j: int)
    requires
        0 <= j,
        seq_lookup_from(subs, key, j) is Some,
    ensures
        exists|js: int|
            {
                &&& j <= js < subs.len()
                &&& (forall|j2: int|
                    j <= j2 < js ==> (#[trigger] subs[j2]).spec_lookup(key) is None)
                &&& (#[trigger] subs[js]).spec_lookup(key) == seq_lookup_from(subs, key, j)
            },
    decreases subs.len() - j,
{
    if subs[j].spec_lookup(key) is Some {
        assert(subs[j].spec_lookup(key) == seq_lookup_from(subs, key, j));
    } else {
        lemma_lookup_from_inverts(subs, key, j + 1);
        let js0 = choose|js: int|
            {
                &&& j + 1 <= js < subs.len()
                &&& (forall|j2: int|
                    j + 1 <= j2 < js ==> (#[trigger] subs[j2]).spec_lookup(key) is None)
                &&& (#[trigger] subs[js]).spec_lookup(key) == seq_lookup_from(subs, key, j + 1)
            };
        assert(forall|j2: int| j <= j2 < js0 ==> (#[trigger] subs[j2]).spec_lookup(key) is None);
    }
}

/// A key absent from the table is found, with its new value, after a write;
/// the write fills a fresh slot, so the occupied count rises by one.
pub proof fn lemma_fresh_insert_lookup<V>(
    pre: ElasticTable<V>,
    post: ElasticTable<V>,
    key: u64,
    value: V,
)
    requires
        pre.wf(),
        !pre.contains_key(key),
        ElasticTable::wrote_entry(pre, post, key, value),
    ensures
        post.lookup(key) == Some(value),
        post.total_count() == pre.total_count() + 1,
{
    let (j, p) = choose|j: int, p: int| ElasticTable::wrote_entry_at(pre, post, key, value, j, p);
    let s0 = pre.subarrays@[j];
    let s1 = post.subarrays@[j];
    let cap = s0.capacity as u64;
    match s0.slot_at(key, p) {
        Some(e) => {
            assert(0 <= probe_index(key, cap, p) < s0.slots@.len());
            assert(s0.contains_key(key));
            assert(false);
        },
        None => {},
    }
    lemma_counts_sum_update(pre.subarrays@, j, s1);
    lemma_sub_wrote_lookup(s0, s1, key, value, p);
    assert forall|j2: int| 0 <= j2 < j implies (#[trigger] post.subarrays@[j2]).spec_lookup(key)
        is None by {
        assert(post.subarrays@[j2] == pre.subarrays@[j2]);
        assert(!pre.subarrays@[j2].contains_key(key));
        lemma_scan_absent(pre.subarrays@[j2], key, 0);
    };
    lemma_lookup_from_skip(post.subarrays@, key, 0, j);
}

/// A write that replaced an existing value in place — visible as an
/// unchanged occupied count — makes the lookup of a uniquely held key yield
/// the new value.
pub proof fn lemma_update_insert_lookup<V>(
    pre: ElasticTable<V>,
    post: ElasticTable<V>,
    key: u64,
    value: V,
)
    requires
        pre.wf(),
        pre.unique_key(key),
        ElasticTable::wrote_entry(pre, post, key, value),
        post.total_count() == pre.total_count(),
    ensures
        post.lookup(key) == Some(value),
{
    let (j, p) = choose|j: int, p: int| ElasticTable::wrote_entry_at(pre, post, key, value, j, p);
    let s0 = pre.subarrays@[j];
    let s1 = post.subarrays@[j];
    let cap = s0.capacity as u64;
    let idx = probe_index(key, cap, p);
    lemma_counts_sum_update(pre.subarrays@, j, s1);
    assert(s0.slot_at(key, p) is Some);
    assert(pre.holds_key(j, idx, key));
    lemma_sub_wrote_lookup(s0, s1, key, value, p);
    assert forall|j2: int| 0 <= j2 < j implies (#[trigger] post.subarrays@[j2]).spec_lookup(key)
        is None by {
        assert(post.subarrays@[j2] == pre.subarrays@[j2]);
        assert forall|s: int| 0 <= s < pre.subarrays@[j2].slots@.len() implies match (
        #[trigger] pre.subarrays@[j2].slots@[s]) {
            Some(e) => e.key != key,
            None => true,
        } by {
            match pre.subarrays@[j2].slots@[s] {
                Some(e) => {
                    if e.key == key {
                        assert(pre.holds_key(j2, s, key));
                        assert(false);
                    }
                },
                None => {},
            }
        };
        assert(!pre.subarrays@[j2].contains_key(key));
        lemma_scan_absent(pre.subarrays@[j2], key, 0);
    };
    lemma_lookup_from_skip(post.subarrays@, key, 0, j);
}

/// A write of one key does not disturb the lookup of any other key the table
/// holds in a single slot.
pub proof fn lemma_write_preserves_other_lookup<V>(
    pre: ElasticTable<V>,
    post: ElasticTable<V>,
    key: u64,
    value: V,
    k2: u64,
)
    requires
        pre.wf(),
        ElasticTable::wrote_entry(pre, post, key, value),
        k2 != key,
        pre.unique_key(k2),
        pre.lookup(k2) is Some,
    ensures
        post.lookup(k2) == pre.lookup(k2),
{
    let (j, p) = choose|j: int, p: int| ElasticTable::wrote_entry_at(pre, post, key, value, j, p);
    let s0 = pre.subarrays@[j];
    let s1 = post.subarrays@[j];
    lemma_lookup_from_inverts(pre.subarrays@, k2, 0);
    let js = choose|js: int|
        {
            &&& 0 <= js < pre.subarrays@.len()
            &&& (forall|j2: int|
                0 <= j2 < js ==> (#[trigger] pre.subarrays@[j2]).spec_lookup(k2) is None)
            &&& (#[trigger] pre.subarrays@[js]).spec_lookup(k2) == seq_lookup_from(pre.subarrays@, k2, 0)
        };
    lemma_scan_some_contains(pre.subarrays@[js], k2);
    let sk = choose|s: int|
        0 <= s < pre.subarrays@[js].slots@.len() && match #[trigger] pre.subarrays@[js].slots@[s] {
            Some(e) => e.key == k2,
            None => false,
        };
    assert(pre.holds_key(js, sk, k2));
    if j == js {
        lemma_sub_wrote_other_key(s0, s1, key, value, p, k2);
        assert forall|j2: int| 0 <= j2 < js implies (#[trigger] post.subarrays@[j2]).spec_lookup(
            k2,
        ) is None by {
            assert(post.subarrays@[j2] == pre.subarrays@[j2]);
        };
        lemma_lookup_from_skip(post.subarrays@, k2, 0, js);
    } else if j < js {
        let cap0 = s0.capacity as u64;
        let idx = probe_index(key, cap0, p);
        assert forall|s: int| 0 <= s < s1.slots@.len() implies match (#[trigger] s1.slots@[s]) {
            Some(e) => e.key != k2,
            None => true,
        } by {
            if s != idx {
                assert(s1.slots@[s] == s0.slots@[s]);
                match s0.slots@[s] {
                    Some(e) => {
                        if e.key == k2 {
                            assert(pre.holds_key(j, s, k2));
                            assert(false);
                        }
                    },
                    None => {},
                }
            }
        };
        assert(!s1.contains_key(k2));
        lemma_scan_absent(s1, k2, 0);
        assert forall|j2: int| 0 <= j2 < js implies (#[trigger] post.subarrays@[j2]).spec_lookup(
            k2,
        ) is None by {
            if j2 != j {
                assert(post.subarrays@[j2] == pre.subarrays@[j2]);
            }
        };
        lemma_lookup_from_skip(post.subarrays@, k2, 0, js);
        assert(post.subarrays@[js] == pre.subarrays@[js]);
    } else {
        assert forall|j2: int| 0 <= j2 < js implies (#[trigger] post.subarrays@[j2]).spec_lookup(
            k2,
        ) is None by {
            assert(post.subarrays@[j2] == pre.subarrays@[j2]);
        };
        lemma_lookup_from_skip(post.subarrays@, k2, 0, js);
        assert(post.subarrays@[js] == pre.subarrays@[js]);
    }
}

/// A sub-array whose probe walk yields a value makes every lookup started at
/// or before it yield a value too.
pub proof fn lemma_sub_some_lookup_some<V>(subs: Seq<SubArray<V>>, key: u64, i: int, j: int)
    requires
        0 <= i <= j < subs.len(),
        subs[j].spec_lookup(key) is Some,
    ensures
        seq_lookup_from(subs, key, i) is Some,
    decreases j - i,
{
    if i < j && subs[i].spec_lookup(key) is None {
        lemma_sub_some_lookup_some(subs, key, i + 1, j);
    }
}

/// A table lookup that yields a value proves the key is stored somewhere.
pub proof fn lemma_lookup_some_contains<V>(subs: Seq<SubArray<V>>, key: u64)
    requires
        forall|j: int| 0 <= j < subs.len() ==> (#[trigger] subs[j]).wf(),
        seq_lookup_from(subs, key, 0) is Some,
    ensures
        seq_contains_key(subs, key),
{
    lemma_lookup_from_inverts(subs, key, 0);
    let js = choose|js: int|
        {
            &&& 0 <= js < subs.len()
            &&& (forall|j2: int| 0 <= j2 < js ==> (#[trigger] subs[j2]).spec_lookup(key) is None)
            &&& (#[trigger] subs[js]).spec_lookup(key) == seq_lookup_from(subs, key, 0)
        };
    lemma_scan_some_contains(subs[js], key);
}

/// A table lookup that yields nothing proves the key stored nowhere.
pub proof fn lemma_lookup_none_nowhere<V>(subs: Seq<SubArray<V>>, key: u64)
    requires
        forall|j: int| 0 <= j < subs.len() ==> (#[trigger] subs[j]).wf(),
        seq_lookup_from(subs, key, 0) is None,
    ensures
        !seq_contains_key(subs, key),
        forall|j: int| 0 <= j < subs.len() ==> !(#[trigger] subs[j]).contains_key(key),
{
    assert forall|j: int| 0 <= j < subs.len() implies !(#[trigger] subs[j]).contains_key(key) by {
        if subs[j].contains_key(key) {
            lemma_contains_found(subs[j], key);
            lemma_sub_some_lookup_some(subs, key, 0, j);
        }
    };
}

/// A write of one key leaves the lookup of an absent other key yielding
/// nothing.
pub proof fn lemma_write_preserves_absent_lookup<V>(
    pre: ElasticTable<V>,
    post: ElasticTable<V>,
    key: u64,
    value: V,
    k2: u64,
)
    requires
        pre.wf(),
        ElasticTable::wrote_entry(pre, post, key, value),
        k2 != key,
        pre.lookup(k2) is None,
    ensures
        post.lookup(k2) is None,
{
    let (j, p) = choose|j: int, p: int| ElasticTable::wrote_entry_at(pre, post, key, value, j, p);
    let s0 = pre.subarrays@[j];
    let s1 = post.subarrays@[j];
    let cap0 = s0.capacity as u64;
    let idx = probe_index(key, cap0, p);
    lemma_lookup_none_nowhere(pre.subarrays@, k2);
    assert forall|j2: int| 0 <= j2 < post.subarrays@.len() implies (#[trigger] post.subarrays@[j2]).slots@.len()
        == post.subarrays@[j2].capacity && !post.subarrays@[j2].contains_key(k2) by {
        if j2 != j {
            assert(post.subarrays@[j2] == pre.subarrays@[j2]);
        } else {
            assert forall|s: int| 0 <= s < s1.slots@.len() implies match (#[trigger] s1.slots@[s]) {
                Some(e) => e.key != k2,
                None => true,
            } by {
                if s != idx {
                    assert(s1.slots@[s] == s0.slots@[s]);
                    match s0.slots@[s] {
                        Some(e) => {
                            if e.key == k2 {
                                assert(s0.contains_key(k2));
                            }
                        },
                        None => {},
                    }
                }
            };
        }
    };
    lemma_lookup_from_absent(post.subarrays@, k2, 0);
}

/// A write that replaced the key's own slot, or wrote a key the table did
/// not hold, keeps every key stored in at most one slot.
pub proof fn lemma_unique_preserved<V>(
    pre: ElasticTable<V>,
    post: ElasticTable<V>,
    key: u64,
    value: V,
)
    requires
        pre.wf(),
        ElasticTable::wrote_entry(pre, post, key, value),
        !pre.contains_key(key) || post.total_count() == pre.total_count(),
    ensures
        forall|k2: u64| #[trigger] seq_unique_key(post.subarrays@, k2),
{
    let (j, p) = choose|j: int, p: int| ElasticTable::wrote_entry_at(pre, post, key, value, j, p);
    let s0 = pre.subarrays@[j];
    let s1 = post.subarrays@[j];
    let cap0 = s0.capacity as u64;
    let idx = probe_index(key, cap0, p);
    lemma_counts_sum_update(pre.subarrays@, j, s1);
    assert forall|k2: u64| #[trigger] seq_unique_key(post.subarrays@, k2) by {
        assert forall|j1: int, sl1: int, j2: int, sl2: int|
            #[trigger] seq_holds_key(post.subarrays@, j1, sl1, k2) && #[trigger] seq_holds_key(
                post.subarrays@,
                j2,
                sl2,
                k2,
            ) implies j1 == j2 && sl1 == sl2 by {
            assert(seq_unique_key(pre.subarrays@, k2));
            if k2 != key {
                assert(seq_holds_key(pre.subarrays@, j1, sl1, k2));
                assert(seq_holds_key(pre.subarrays@, j2, sl2, k2));
            } else {
                if s0.slot_at(key, p) is Some {
                    assert(seq_holds_key(pre.subarrays@, j1, sl1, k2));
                    assert(seq_holds_key(pre.subarrays@, j2, sl2, k2));
                } else {
                    assert(0 <= idx < s0.slots@.len());
                    if j1 != j || sl1 != idx {
                        assert(seq_holds_key(pre.subarrays@, j1, sl1, k2));
                        assert(pre.subarrays@[j1].contains_key(key));
                        assert(false);
                    }
                    if j2 != j || sl2 != idx {
                        assert(seq_holds_key(pre.subarrays@, j2, sl2, k2));
                        assert(pre.subarrays@[j2].contains_key(key));
                        assert(false);
                    }
                }
            }
        };
    };
}

/// Looking up a key that no sub-array from `j` onward holds yields nothing.
pub proof fn lemma_lookup_from_absent<V>(subs: Seq<SubArray<V>>, key: u64, j: int)
    requires
        0 <= j,
        forall|j2: int|
            j <= j2 < subs.len() ==> (#[trigger] subs[j2]).slots@.len() == subs[j2].capacity
                && !subs[j2].contains_key(key),
    ensures
        seq_lookup_from(subs, key, j) is None,
    decreases subs.len() - j,
{
    if j < subs.len() {
        lemma_scan_absent(subs[j], key, 0);
        lemma_lookup_from_absent(subs, key, j + 1);
    }
}

} // verus!
