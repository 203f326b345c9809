//! A hash table with linear probing that deletes by leaving tombstones.

use vstd::prelude::*;
use vstd::pervasive::VecAdditionalExecFns;
use crate::entries::{
    contents, contents_after, holds_key, keys_unique, live_count, lemma_contents_absent,
    lemma_contents_at, lemma_contents_push, lemma_contents_update, lemma_live_count_bound,
    lemma_live_count_is_len, lemma_live_count_update, lemma_no_live,
};
use crate::probing::{
    dist, first_where, home, lemma_dist_probe, lemma_first_where, lemma_first_where_stable,
    lemma_probe_dist, probe_at, MAX_CAPACITY,
};
use crate::tombstone::{
    chains_unbroken, has_empty, insert_layout, lemma_chains_write, meets_tombstone, slot_of,
    stops_probe, tomb_entries, tombstone_free, TombstoneSlot,
};

verus! {

/// Keys map to slot `key % capacity` and probe forward one slot at a time;
/// deleted entries leave a tombstone that later inserts may reuse.
pub struct LinearProbingTombstoneHashTable {
    table: Vec<TombstoneSlot>,
    capacity: usize,
    size: usize,
}

impl View for LinearProbingTombstoneHashTable {
    type V = Map<usize, Seq<char>>;

    /// The live keys and their values.
    closed spec fn view(&self) -> Map<usize, Seq<char>> {
        contents(tomb_entries(self.table@))
    }
}

/// An empty slot array of `n` slots.
fn empty_slots(n: usize) -> (r: Vec<TombstoneSlot>)
    ensures
        r@.len() == n,
        forall|i: int| 0 <= i < n ==> #[trigger] r@[i] is Empty,
{
    let mut r: Vec<TombstoneSlot> = Vec::new();
    while r.len() < n
        invariant
            r@.len() <= n,
            forall|i: int| 0 <= i < r@.len() ==> #[trigger] r@[i] is Empty,
        decreases n - r@.len(),
    {
        r.push(TombstoneSlot::Empty);
    }
    r
}

impl LinearProbingTombstoneHashTable {
    /// The table's internal consistency.
    pub closed spec fn wf(&self) -> bool {
        &&& 0 < self.capacity <= MAX_CAPACITY
        &&& self.table@.len() == self.capacity
        &&& keys_unique(tomb_entries(self.table@))
        &&& self.size == live_count(tomb_entries(self.table@))
        &&& chains_unbroken(self.table@)
    }

    /// The number of slots.
    pub closed spec fn spec_capacity(&self) -> nat {
        self.capacity as nat
    }

    /// The slots in physical order.
    pub closed spec fn slots(&self) -> Seq<TombstoneSlot> {
        self.table@
    }

    /// Some slot is `Empty`.
    pub open spec fn has_empty_slot(&self) -> bool {
        has_empty(self.slots())
    }

    /// No slot is a tombstone.
    pub open spec fn no_tombstones(&self) -> bool {
        tombstone_free(self.slots())
    }

    /// Whether an insert may double the capacity without passing
    /// `MAX_CAPACITY`, or will not need to.
    pub open spec fn can_insert(&self) -> bool {
        self@.len() < self.spec_capacity() || self.spec_capacity() * 2 <= MAX_CAPACITY
    }

    /// Facts that every well-formed table has.
    pub proof fn lemma_wf(&self)
        requires
            self.wf(),
        ensures
            self@.dom().finite(),
            self@.len() <= self.spec_capacity(),
            self.slots().len() == self.spec_capacity(),
            self.spec_capacity() > 0,
            self.no_tombstones() && self@.len() < self.spec_capacity() ==> self.has_empty_slot(),
    {
        let e = tomb_entries(self.table@);
        lemma_live_count_is_len(e);
        lemma_live_count_bound(e);
        if self.no_tombstones() && self@.len() < self.spec_capacity() {
            let i = choose|i: int| 0 <= i < e.len() && #[trigger] e[i] is None;
            assert(!(self.table@[i] is Tombstone));
            assert(self.table@[i] is Empty);
        }
    }

    /// Follows a table through calls: starting from an empty table, when
    /// each state comes from the one before by the `insert` or `delete` of
    /// `ops` as their contracts state, a key is present at the end exactly
    /// when its last call is an insert, and then maps to that insert's value.
    pub proof fn lemma_follow_calls(states: Seq<Self>, ops: Seq<(bool, usize, Seq<char>)>)
        requires
            states.len() == ops.len() + 1,
            states[0]@ == Map::<usize, Seq<char>>::empty(),
            forall|i: int|
                0 <= i < ops.len() ==> #[trigger] states[i + 1]@ == crate::laws::apply_op(
                    states[i]@,
                    ops[i],
                ),
        ensures
            forall|k: usize|
                #[trigger] states.last()@.contains_key(k) <==> (crate::laws::last_call(ops, k) >= 0
                    && ops[crate::laws::last_call(ops, k)].0),
            forall|k: usize|
                #[trigger] states.last()@.contains_key(k) ==> states.last()@[k] == ops[crate::laws::last_call(
                    ops,
                    k,
                )].2,
    {
        let views = Seq::new(states.len(), |i: int| states[i]@);
        assert forall|i: int| 0 <= i < ops.len() implies #[trigger] views[i + 1] == crate::laws::apply_op(
            views[i],
            ops[i],
        ) by {
            assert(states[i + 1]@ == crate::laws::apply_op(states[i]@, ops[i]));
        }
        crate::laws::lemma_views_follow(views, ops);
        assert(views.last() == states.last()@);
    }

    /// Follows a table through resizes: when each state comes from the one
    /// before by `resize`, which doubles the capacity, the capacity after
    /// `n` resizes is the first one times `2^n`.
    pub proof fn lemma_follow_resizes(states: Seq<Self>)
        requires
            states.len() > 0,
            forall|i: int|
                0 <= i < states.len() - 1 ==> #[trigger] states[i + 1].spec_capacity() == 2
                    * states[i].spec_capacity(),
        ensures
            states.last().spec_capacity() == states[0].spec_capacity() * vstd::arithmetic::power2::pow2(
                (states.len() - 1) as nat,
            ),
    {
        let caps = Seq::new(states.len(), |i: int| states[i].spec_capacity());
        assert forall|i: int| 0 <= i < caps.len() - 1 implies #[trigger] caps[i + 1] == 2 * caps[i] by {
            assert(states[i + 1].spec_capacity() == 2 * states[i].spec_capacity());
        }
        crate::laws::lemma_capacity_doubling(caps);
        assert(caps.last() == states.last().spec_capacity());
    }

    /// Each key sits in one slot only.
    pub proof fn lemma_one_slot_per_key(&self, i: int, j: int)
        requires
            self.wf(),
            0 <= i < self.spec_capacity(),
            0 <= j < self.spec_capacity(),
            self.slots()[i] is Occupied,
            self.slots()[j] is Occupied,
            self.slots()[i].key() == self.slots()[j].key(),
        ensures
            i == j,
    {
        let e = tomb_entries(self.table@);
        assert(e[i] is Some && e[j] is Some);
    }

    /// A key is present exactly when a slot holds it, and `slot_of` names
    /// that slot, whose value is the key's value.
    pub proof fn lemma_slot_of(&self, key: usize)
        requires
            self.wf(),
        ensures
            self@.contains_key(key) <==> (0 <= slot_of(self.slots(), key) < self.spec_capacity()
                && self.slots()[slot_of(self.slots(), key)] is Occupied && self.slots()[slot_of(
                self.slots(),
                key,
            )].key() == key),
            self@.contains_key(key) ==> self@[key] == self.slots()[slot_of(
                self.slots(),
                key,
            )].entry().unwrap().1,
    {
        let e = tomb_entries(self.table@);
        if self@.contains_key(key) {
            let j = choose|j: int| holds_key(e, j, key);
            assert(self.table@[j] is Occupied);
            let k = slot_of(self.table@, key);
            assert(e[k] is Some);
            lemma_contents_at(e, k);
        } else {
            let k = slot_of(self.table@, key);
            if 0 <= k < self.capacity && self.table@[k] is Occupied && self.table@[k].key() == key {
                assert(holds_key(e, k, key));
            }
        }
    }

    /// A table of `capacity` empty slots; a capacity of zero, or above
    /// `MAX_CAPACITY`, is refused.
    pub fn new(capacity: usize) -> (r: Option<Self>)
        ensures
            r is None <==> capacity == 0 || capacity > MAX_CAPACITY,
            match r {
                Some(t) => t.wf() && t@ == Map::<usize, Seq<char>>::empty() && t.spec_capacity()
                    == capacity && t.no_tombstones() && forall|i: int|
                    0 <= i < capacity ==> #[trigger] t.slots()[i] is Empty,
                None => true,
            },
    {
        if capacity == 0 || capacity > MAX_CAPACITY {
            return None;
        }
        let table = empty_slots(capacity);
        proof {
            lemma_no_live(tomb_entries(table@));
        }
        Some(LinearProbingTombstoneHashTable { table, capacity, size: 0 })
    }

    /// The number of slots.
    pub fn capacity(&self) -> (r: usize)
        ensures
            r == self.spec_capacity(),
    {
        self.capacity
    }

    /// The number of live entries.
    pub fn size(&self) -> (r: usize)
        requires
            self.wf(),
        ensures
            r == self@.len(),
    {
        proof {
            lemma_live_count_is_len(tomb_entries(self.table@));
        }
        self.size
    }

    /// The slot at physical index `i`.
    pub fn slot(&self, i: usize) -> (r: &TombstoneSlot)
        requires
            i < self.slots().len(),
        ensures
            *r == self.slots()[i as int],
    {
        &self.table[i]
    }

    /// The slot a key prefers: `key % capacity`.
    pub fn get_preferred_index(&self, key: usize) -> (r: usize)
        requires
            self.wf(),
        ensures
            r == home(self.spec_capacity(), key),
            r < self.spec_capacity(),
    {
        key % self.capacity
    }

    /// Rebuilds the table with `new_capacity` slots by inserting every live
    /// entry again, in physical order; tombstones are dropped. A capacity
    /// below the current one is refused and leaves the table as it was.
    pub fn resize_to(&mut self, new_capacity: usize) -> (r: bool)
        requires
            old(self).wf(),
            new_capacity <= MAX_CAPACITY,
        ensures
            final(self).wf(),
            r == (new_capacity >= old(self).spec_capacity()),
            r ==> final(self).spec_capacity() == new_capacity,
            r ==> final(self).no_tombstones(),
            !r ==> *final(self) == *old(self),
            final(self)@ == old(self)@,
    {
        if new_capacity < self.capacity {
            return false;
        }
        let ghost orig = tomb_entries(self.table@);
        let ghost old_view = self@;
        let mut old_table = empty_slots(new_capacity);
        std::mem::swap(&mut self.table, &mut old_table);
        self.capacity = new_capacity;
        self.size = 0;
        proof {
            lemma_no_live(tomb_entries(self.table@));
            assert(contents(orig.subrange(0, 0)) =~= Map::<usize, Seq<char>>::empty());
        }
        let n = old_table.len();
        let mut i: usize = 0;
        while i < n
            invariant
                self.wf(),
                self.capacity == new_capacity,
                self.no_tombstones(),
                n == old_table@.len(),
                n == orig.len(),
                n <= new_capacity,
                i <= n,
                keys_unique(orig),
                old_view == contents(orig),
                forall|j: int| i <= j < n ==> #[trigger] old_table@[j].entry() == orig[j],
                self@ == contents(orig.subrange(0, i as int)),
                live_count(tomb_entries(self.table@)) == live_count(orig.subrange(0, i as int)),
            decreases n - i,
        {
            let mut taken = TombstoneSlot::Empty;
            old_table.set_and_swap(i, &mut taken);
            proof {
                let pre = orig.subrange(0, i as int + 1);
                assert(pre.drop_last() =~= orig.subrange(0, i as int));
                assert forall|a: int, b: int|
                    0 <= a < pre.len() && 0 <= b < pre.len() && a != b && #[trigger] pre[a] is Some
                        && #[trigger] pre[b] is Some implies pre[a].unwrap().0 != pre[b].unwrap().0 by {
                    assert(pre[a] == orig[a] && pre[b] == orig[b]);
                }
                lemma_contents_push(pre);
                lemma_live_count_bound(orig.subrange(0, i as int));
                lemma_live_count_is_len(tomb_entries(self.table@));
                self.lemma_wf();
                assert(taken.entry() == orig[i as int]);
                assert(pre.last() == orig[i as int]);
                assert(self.has_empty_slot());
            }
            match taken {
                TombstoneSlot::Occupied(key, value) => {
                    self.place(key, value);
                },
                _ => {},
            }
            proof {
                let pre = orig.subrange(0, i as int + 1);
                assert(self@ == contents(pre));
                lemma_live_count_is_len(tomb_entries(self.table@));
                lemma_live_count_is_len(pre);
            }
            i = i + 1;
        }
        proof {
            assert(orig.subrange(0, n as int) =~= orig);
        }
        true
    }

    /// Doubles the capacity, keeping every live entry and dropping the
    /// tombstones.
    pub fn resize(&mut self)
        requires
            old(self).wf(),
            old(self).spec_capacity() * 2 <= MAX_CAPACITY,
        ensures
            final(self).wf(),
            final(self).spec_capacity() == old(self).spec_capacity() * 2,
            final(self).no_tombstones(),
            final(self)@ == old(self)@,
    {
        let ok = self.resize_to(self.capacity * 2);
        assert(ok);
    }

    /// Inserts or overwrites `key`, doubling the capacity first when the
    /// table is full. On a table that is not full the slots change as
    /// `insert_layout` says: an earlier tombstone is reused, and an existing
    /// copy of the key further on becomes a tombstone.
    pub fn insert(&mut self, key: usize, value: Vec<char>)
        requires
            old(self).wf(),
            old(self).can_insert(),
        ensures
            final(self).wf(),
            final(self).spec_capacity() == if old(self)@.len() >= old(self).spec_capacity() {
                old(self).spec_capacity() * 2
            } else {
                old(self).spec_capacity()
            },
            final(self)@ == old(self)@.insert(key, value@),
            old(self)@.len() < old(self).spec_capacity() ==> final(self).slots() == insert_layout(
                old(self).slots(),
                key,
                value,
            ),
            old(self).no_tombstones() ==> final(self).no_tombstones(),
    {
        proof {
            lemma_live_count_is_len(tomb_entries(self.table@));
            self.lemma_wf();
        }
        if self.size >= self.capacity {
            self.resize();
            proof {
                self.lemma_wf();
                lemma_live_count_is_len(tomb_entries(self.table@));
            }
        }
        self.place(key, value);
    }

    /// The probing part of `insert`, on a table with a slot that holds no
    /// entry.
    fn place(&mut self, key: usize, value: Vec<char>)
        requires
            old(self).wf(),
            old(self).size < old(self).capacity,
        ensures
            final(self).wf(),
            final(self).capacity == old(self).capacity,
            final(self)@ == old(self)@.insert(key, value@),
            final(self).table@ == insert_layout(old(self).table@, key, value),
            old(self).no_tombstones() ==> final(self).no_tombstones(),
    {
        let ghost cap = self.capacity as nat;
        let ghost s0 = self.table@;
        let ghost e0 = tomb_entries(s0);
        let ghost stops = stops_probe(s0, key);
        let ghost tombs = meets_tombstone(s0, key);
        let preferred_index = self.get_preferred_index(key);
        proof {
            lemma_live_count_bound(e0);
        }
        let mut tombstone_found = false;
        let mut tombstone_idx: usize = 0;
        let ghost mut tombstone_step: int = 0;
        let mut i: usize = 0;
        while i < self.capacity
            invariant
                self.wf(),
                self.table@ == s0,
                self.capacity == cap,
                cap == old(self).capacity,
                live_count(e0) <= cap,
                self.size == old(self).size,
                self.size < cap,
                s0 == old(self).table@,
                e0 == tomb_entries(s0),
                stops == stops_probe(s0, key),
                tombs == meets_tombstone(s0, key),
                preferred_index == home(cap, key),
                i <= cap,
                first_where(i as int, stops) == i,
                tombstone_found <==> first_where(i as int, tombs) < i,
                forall|u: int|
                    0 <= u < i ==> !(s0[#[trigger] probe_at(cap, key, u)] is Empty) && !holds_key(
                        e0,
                        probe_at(cap, key, u),
                        key,
                    ),
                tombstone_found ==> tombstone_step == first_where(i as int, tombs) && 0
                    <= tombstone_step < i && tombstone_idx == probe_at(cap, key, tombstone_step)
                    && s0[tombstone_idx as int] is Tombstone,
            decreases cap - i,
        {
            let probe_index = (preferred_index + i) % self.capacity;
            proof {
                lemma_probe_dist(cap, key, i as int);
                lemma_first_where(i as int, tombs);
            }
            let is_empty = match &self.table[probe_index] {
                TombstoneSlot::Empty => true,
                _ => false,
            };
            if is_empty {
                proof {
                    self.lemma_key_absent_at_gap(key, i as int);
                    lemma_first_where_stable(i as int + 1, cap as int, stops);
                }
                let target = if tombstone_found {
                    tombstone_idx
                } else {
                    probe_index
                };
                proof {
                    let step = if tombstone_found {
                        tombstone_step
                    } else {
                        i as int
                    };
                    lemma_probe_dist(cap, key, step);
                    let x = TombstoneSlot::Occupied(key, value);
                    lemma_chains_write(s0, target as int, x);
                    assert forall|j: int| j != target implies !holds_key(e0, j, key) by {}
                    lemma_contents_update(e0, target as int, x.entry());
                    lemma_live_count_update(e0, target as int, x.entry());
                    assert(contents_after(contents(e0), None, x.entry()) =~= contents(e0).insert(
                        key,
                        value@,
                    ));
                    if old(self).no_tombstones() {
                        assert(!tombstone_found);
                    }
                }
                self.table.set(target, TombstoneSlot::Occupied(key, value));
                self.size = self.size + 1;
                return ;
            }
            let is_key = match &self.table[probe_index] {
                TombstoneSlot::Occupied(k, _) => *k == key,
                _ => false,
            };
            if is_key {
                proof {
                    assert(holds_key(e0, probe_index as int, key));
                    lemma_contents_at(e0, probe_index as int);
                    lemma_first_where_stable(i as int + 1, cap as int, stops);
                }
                if tombstone_found {
                    proof {
                        let tomb = TombstoneSlot::Tombstone;
                        lemma_chains_write(s0, probe_index as int, tomb);
                        lemma_contents_update(e0, probe_index as int, None);
                        lemma_live_count_update(e0, probe_index as int, None);
                        let s1 = s0.update(probe_index as int, tomb);
                        let e1 = tomb_entries(s1);
                        let x = TombstoneSlot::Occupied(key, value);
                        lemma_probe_dist(cap, key, tombstone_step);
                        assert forall|u: int|
                            0 <= u < dist(cap, key, tombstone_idx as int) implies !(s1[
                            #[trigger] probe_at(cap, key, u)
                        ] is Empty) by {
                            lemma_probe_dist(cap, key, u);
                        }
                        lemma_chains_write(s1, tombstone_idx as int, x);
                        assert forall|j: int| j != tombstone_idx implies !holds_key(e1, j, key) by {
                            if 0 <= j < cap && j != probe_index {
                                assert(e1[j] == e0[j]);
                                if holds_key(e0, j, key) {
                                    assert(e0[probe_index as int] is Some);
                                }
                            }
                        }
                        lemma_contents_update(e1, tombstone_idx as int, x.entry());
                        lemma_live_count_update(e1, tombstone_idx as int, x.entry());
                        assert(contents_after(
                            contents_after(contents(e0), e0[probe_index as int], None),
                            None,
                            x.entry(),
                        ) =~= contents(e0).insert(key, value@));
                    }
                    self.table.set(probe_index, TombstoneSlot::Tombstone);
                    self.table.set(tombstone_idx, TombstoneSlot::Occupied(key, value));
                } else {
                    proof {
                        let x = TombstoneSlot::Occupied(key, value);
                        assert forall|u: int|
                            0 <= u < dist(cap, key, probe_index as int) implies !(s0[
                            #[trigger] probe_at(cap, key, u)
                        ] is Empty) by {}
                        lemma_chains_write(s0, probe_index as int, x);
                        assert forall|j: int| j != probe_index implies !holds_key(e0, j, key) by {
                            if holds_key(e0, j, key) {
                                assert(e0[probe_index as int] is Some);
                            }
                        }
                        lemma_contents_update(e0, probe_index as int, x.entry());
                        lemma_live_count_update(e0, probe_index as int, x.entry());
                        assert(contents_after(contents(e0), e0[probe_index as int], x.entry())
                            =~= contents(e0).insert(key, value@));
                    }
                    self.table.set(probe_index, TombstoneSlot::Occupied(key, value));
                }
                return ;
            }
            let is_tombstone = match &self.table[probe_index] {
                TombstoneSlot::Tombstone => true,
                _ => false,
            };
            if is_tombstone && !tombstone_found {
                tombstone_found = true;
                tombstone_idx = probe_index;
                proof {
                    tombstone_step = i as int;
                }
            }
            i = i + 1;
        }
        // The walk passed every slot: none is `Empty` and none holds the key,
        // so the free slot that the size promises is a tombstone.
        proof {
            assert forall|j: int| 0 <= j < cap implies !(#[trigger] s0[j] is Empty) && !holds_key(
                e0,
                j,
                key,
            ) by {
                lemma_dist_probe(cap, key, j);
            }
            lemma_contents_absent(e0, key);
            if !tombstone_found {
                let j = choose|j: int| 0 <= j < e0.len() && #[trigger] e0[j] is None;
                lemma_dist_probe(cap, key, j);
                lemma_first_where(cap as int, tombs);
                assert(tombs(dist(cap, key, j)));
            }
            lemma_probe_dist(cap, key, tombstone_step);
            let x = TombstoneSlot::Occupied(key, value);
            assert forall|u: int|
                0 <= u < dist(cap, key, tombstone_idx as int) implies !(s0[#[trigger] probe_at(
                cap,
                key,
                u,
            )] is Empty) by {
                lemma_probe_dist(cap, key, u);
            }
            lemma_chains_write(s0, tombstone_idx as int, x);
            lemma_contents_update(e0, tombstone_idx as int, x.entry());
            lemma_live_count_update(e0, tombstone_idx as int, x.entry());
            assert(contents_after(contents(e0), None, x.entry()) =~= contents(e0).insert(
                key,
                value@,
            ));
        }
        self.table.set(tombstone_idx, TombstoneSlot::Occupied(key, value));
        self.size = self.size + 1;
    }

    /// The slot that holds `key`, found by probing from its preferred index
    /// until the key or an `Empty` slot; tombstones are passed over.
    pub fn find_index_for_key_if_exists(&self, key: usize) -> (r: Option<usize>)
        requires
            self.wf(),
        ensures
            match r {
                Some(i) => i < self.spec_capacity() && self.slots()[i as int] is Occupied
                    && self.slots()[i as int].key() == key && self@.contains_key(key)
                    && self@[key] == self.slots()[i as int].entry().unwrap().1,
                None => !self@.contains_key(key),
            },
    {
        let ghost cap = self.capacity as nat;
        let ghost e = tomb_entries(self.table@);
        let preferred_index = self.get_preferred_index(key);
        let mut i: usize = 0;
        while i < self.capacity
            invariant
                self.wf(),
                cap == self.capacity,
                e == tomb_entries(self.table@),
                preferred_index == home(cap, key),
                i <= cap,
                forall|u: int|
                    0 <= u < i ==> !(self.table@[#[trigger] probe_at(cap, key, u)] is Empty)
                        && !holds_key(e, probe_at(cap, key, u), key),
            decreases cap - i,
        {
            let probe_index: usize = (preferred_index + i) % self.capacity;
            proof {
                lemma_probe_dist(cap, key, i as int);
            }
            match &self.table[probe_index] {
                TombstoneSlot::Empty => {
                    proof {
                        self.lemma_key_absent_at_gap(key, i as int);
                    }
                    return None;
                },
                TombstoneSlot::Occupied(k, _) => {
                    if *k == key {
                        proof {
                            lemma_contents_at(e, probe_index as int);
                        }
                        return Some(probe_index);
                    }
                },
                TombstoneSlot::Tombstone => {},
            }
            i = i + 1;
        }
        proof {
            assert forall|j: int| 0 <= j < cap implies !holds_key(e, j, key) by {
                lemma_dist_probe(cap, key, j);
            }
            lemma_contents_absent(e, key);
        }
        None
    }

    /// The value stored for `key`, if it is present.
    pub fn get(&self, key: usize) -> (r: Option<&Vec<char>>)
        requires
            self.wf(),
        ensures
            match r {
                Some(v) => self@.contains_key(key) && v@ == self@[key],
                None => !self@.contains_key(key),
            },
    {
        let found_index = self.find_index_for_key_if_exists(key);
        match found_index {
            None => None,
            Some(i) => match &self.table[i] {
                TombstoneSlot::Occupied(_, value) => Some(value),
                _ => None,
            },
        }
    }

    /// Removes `key` if it is present, leaving a tombstone in its slot.
    pub fn delete(&mut self, key: usize)
        requires
            old(self).wf(),
        ensures
            final(self).wf(),
            final(self).spec_capacity() == old(self).spec_capacity(),
            final(self)@ == old(self)@.remove(key),
            final(self).slots() == if old(self)@.contains_key(key) {
                old(self).slots().update(slot_of(old(self).slots(), key), TombstoneSlot::Tombstone)
            } else {
                old(self).slots()
            },
            old(self).has_empty_slot() ==> final(self).has_empty_slot(),
    {
        let found_index = self.find_index_for_key_if_exists(key);
        match found_index {
            None => {
                proof {
                    assert(old(self)@.remove(key) =~= old(self)@);
                }
            },
            Some(actual_index) => {
                proof {
                    let s0 = self.table@;
                    let e0 = tomb_entries(s0);
                    lemma_chains_write(s0, actual_index as int, TombstoneSlot::Tombstone);
                    lemma_contents_update(e0, actual_index as int, None);
                    lemma_live_count_update(e0, actual_index as int, None);
                    assert(contents_after(contents(e0), e0[actual_index as int], None)
                        =~= contents(e0).remove(key));
                    let k = slot_of(s0, key);
                    assert(s0[k] is Occupied && s0[k].key() == key);
                    assert(e0[k] is Some && e0[actual_index as int] is Some);
                    if old(self).has_empty_slot() {
                        let j = choose|j: int| 0 <= j < s0.len() && #[trigger] s0[j] is Empty;
                        assert(s0.update(actual_index as int, TombstoneSlot::Tombstone)[j] is Empty);
                    }
                }
                self.size = self.size - 1;
                self.table.set(actual_index, TombstoneSlot::Tombstone);
            },
        }
    }

    /// A probe that lands on an `Empty` slot proves the key absent.
    proof fn lemma_key_absent_at_gap(&self, key: usize, i: int)
        requires
            self.wf(),
            0 <= i < self.capacity,
            self.table@[probe_at(self.capacity as nat, key, i)] is Empty,
            forall|u: int|
                0 <= u < i ==> !holds_key(
                    tomb_entries(self.table@),
                    #[trigger] probe_at(self.capacity as nat, key, u),
                    key,
                ),
        ensures
            forall|j: int| 0 <= j < self.capacity ==> !holds_key(tomb_entries(self.table@), j, key),
            !self@.contains_key(key),
    {
        let cap = self.capacity as nat;
        let e = tomb_entries(self.table@);
        assert forall|j: int| 0 <= j < self.capacity implies !holds_key(e, j, key) by {
            if holds_key(e, j, key) {
                lemma_dist_probe(cap, key, j);
                let d = dist(cap, key, j);
                if d < i {
                    assert(!holds_key(e, probe_at(cap, key, d), key));
                } else if d > i {
                    assert(self.table@[j] is Occupied);
                    assert(!(self.table@[probe_at(cap, self.table@[j].key(), i)] is Empty));
                }
            }
        }
        lemma_contents_absent(e, key);
    }
}

} // verus!
