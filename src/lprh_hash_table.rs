//! A hash table with linear probing and Robin Hood displacement: each entry
//! records how far it sits from its preferred slot, an insert takes the
//! slot of any entry closer to home than itself, and a delete shifts the
//! following run back by one slot instead of leaving a tombstone.

use vstd::prelude::*;
use vstd::pervasive::VecAdditionalExecFns;
use crate::entries::{
    contents, contents_after, holds_key, keys_unique, live_count, lemma_contents_absent,
    lemma_contents_at, lemma_contents_push, lemma_contents_update, lemma_live_count_bound,
    lemma_live_count_is_len, lemma_live_count_update, lemma_no_live, Entry,
};
use crate::probing::{
    dist, home, lemma_dist_probe, lemma_next_slot, lemma_probe_dist, lemma_probe_injective,
    lemma_probe_next, next_slot, prev_slot, probe_at, MAX_CAPACITY, first_where, lemma_first_where,
    lemma_first_where_stable,
};

verus! {

/// One slot of a Robin Hood table.
pub enum RobinHoodSlot {
    /// Holds nothing.
    Empty,
    /// Holds a key, its distance from its preferred slot, and its value.
    Occupied(usize, usize, Vec<char>),
}

impl RobinHoodSlot {
    /// The live entry of the slot, if any.
    pub open spec fn entry(&self) -> Entry {
        match self {
            RobinHoodSlot::Occupied(k, _, v) => Some((*k, v@)),
            RobinHoodSlot::Empty => None,
        }
    }

    /// The key of an occupied slot.
    pub open spec fn key(&self) -> usize {
        match self {
            RobinHoodSlot::Occupied(k, _, _) => *k,
            RobinHoodSlot::Empty => 0,
        }
    }

    /// The stored offset of an occupied slot.
    pub open spec fn offset(&self) -> usize {
        match self {
            RobinHoodSlot::Occupied(_, o, _) => *o,
            RobinHoodSlot::Empty => 0,
        }
    }
}

/// The live entries of a slot array.
pub open spec fn rh_entries(s: Seq<RobinHoodSlot>) -> Seq<Entry> {
    Seq::new(s.len(), |i: int| s[i].entry())
}

/// Every occupied slot sits exactly its stored offset after its key's
/// preferred slot.
pub open spec fn offsets_consistent(s: Seq<RobinHoodSlot>) -> bool {
    forall|i: int|
        0 <= i < s.len() && #[trigger] s[i] is Occupied ==> s[i].offset() < s.len() && probe_at(
            s.len() as nat,
            s[i].key(),
            s[i].offset() as int,
        ) == i
}

/// A displaced entry in slot `j` follows an occupied slot whose offset is at
/// least one less than its own.
pub open spec fn run_ok_at(s: Seq<RobinHoodSlot>, j: int) -> bool {
    s[j] is Occupied && s[j].offset() > 0 ==> s[prev_slot(s.len() as nat, j)] is Occupied && s[prev_slot(
        s.len() as nat,
        j,
    )].offset() + 1 >= s[j].offset()
}

/// `run_ok_at` holds at every slot but `exc`.
pub open spec fn runs_ordered_except(s: Seq<RobinHoodSlot>, exc: int) -> bool {
    forall|j: int| 0 <= j < s.len() && j != exc ==> #[trigger] run_ok_at(s, j)
}

/// The sum of the stored offsets.
pub open spec fn offset_sum(s: Seq<RobinHoodSlot>) -> nat
    decreases s.len(),
{
    if s.len() == 0 {
        0
    } else {
        offset_sum(s.drop_last()) + s.last().offset() as nat
    }
}

/// The slot holding `key`, if some slot does.
pub open spec fn rh_slot_of(s: Seq<RobinHoodSlot>, key: usize) -> int {
    choose|i: int| 0 <= i < s.len() && s[i] is Occupied && s[i].key() == key
}

/// Probe `t` for `key` reaches an `Empty` slot.
pub open spec fn empty_probe(s: Seq<RobinHoodSlot>, key: usize) -> spec_fn(int) -> bool {
    |t: int| s[probe_at(s.len() as nat, key, t)] is Empty
}

/// The entry `x` with offset `o`.
pub open spec fn with_offset(x: RobinHoodSlot, o: int) -> RobinHoodSlot {
    match x {
        RobinHoodSlot::Occupied(k, _, v) => RobinHoodSlot::Occupied(k, o as usize, v),
        RobinHoodSlot::Empty => RobinHoodSlot::Empty,
    }
}

/// The Robin Hood walk of entry `item`, whose offset is its distance from
/// its preferred slot, starting at slot `pos`: an `Empty` slot takes it;
/// a slot with the same key is overwritten; a resident whose offset is
/// strictly below the item's gives up its slot and walks on itself, one
/// slot further from home; any other resident keeps its slot and the item
/// walks on. At most `steps` slots are visited.
pub open spec fn rh_walk(s: Seq<RobinHoodSlot>, pos: int, item: RobinHoodSlot, steps: nat) -> Seq<
    RobinHoodSlot,
>
    decreases steps,
{
    if steps == 0 {
        s
    } else {
        let n = next_slot(s.len() as nat, pos);
        match s[pos] {
            RobinHoodSlot::Empty => s.update(pos, item),
            RobinHoodSlot::Occupied(k, o, v) => {
                if k == item.key() {
                    s.update(pos, item)
                } else if o < item.offset() {
                    rh_walk(
                        s.update(pos, item),
                        n,
                        RobinHoodSlot::Occupied(k, (o + 1) as usize, v),
                        (steps - 1) as nat,
                    )
                } else {
                    rh_walk(s, n, with_offset(item, item.offset() + 1), (steps - 1) as nat)
                }
            },
        }
    }
}

/// Slot `j` holds an entry away from its preferred slot.
pub open spec fn shiftable(s: Seq<RobinHoodSlot>, j: int) -> bool {
    s[j] is Occupied && s[j].offset() > 0
}

/// An entry moved one slot back, one step nearer its preferred slot.
pub open spec fn moved_back(x: RobinHoodSlot) -> RobinHoodSlot {
    match x {
        RobinHoodSlot::Occupied(k, o, v) => RobinHoodSlot::Occupied(k, (o - 1) as usize, v),
        RobinHoodSlot::Empty => RobinHoodSlot::Empty,
    }
}

/// Backward shift from the `Empty` slot `hole`: while the slot after the
/// hole holds an entry away from its preferred slot, that entry moves into
/// the hole with its offset one less, and the hole moves on to the slot it
/// left. At most `steps` moves are made.
pub open spec fn back_shift(s: Seq<RobinHoodSlot>, hole: int, steps: nat) -> Seq<RobinHoodSlot>
    decreases steps,
{
    let n = next_slot(s.len() as nat, hole);
    if steps == 0 || !shiftable(s, n) {
        s
    } else {
        back_shift(s.update(hole, moved_back(s[n])).update(n, RobinHoodSlot::Empty), n, (steps - 1) as nat)
    }
}

/// Overwriting one slot changes the offset sum by the difference.
proof fn lemma_offset_sum_update(s: Seq<RobinHoodSlot>, i: int, x: RobinHoodSlot)
    requires
        0 <= i < s.len(),
    ensures
        offset_sum(s.update(i, x)) + s[i].offset() == offset_sum(s) + x.offset(),
    decreases s.len(),
{
    let f = s.update(i, x);
    if i == s.len() - 1 {
        assert(f.drop_last() =~= s.drop_last());
    } else {
        assert(f.drop_last() =~= s.drop_last().update(i, x));
        lemma_offset_sum_update(s.drop_last(), i, x);
    }
}

/// Writing one slot keeps offsets consistent when the written entry's
/// offset is right, and keeps `run_ok_at` everywhere except at the written
/// slot, the slot after it, and the slot already excepted.
proof fn lemma_write(s: Seq<RobinHoodSlot>, p: int, x: RobinHoodSlot, exc: int)
    requires
        s.len() > 0,
        0 <= p < s.len(),
        offsets_consistent(s),
        runs_ordered_except(s, exc),
        x is Occupied ==> x.offset() < s.len() && probe_at(s.len() as nat, x.key(), x.offset() as int)
            == p,
    ensures
        offsets_consistent(s.update(p, x)),
        forall|j: int|
            0 <= j < s.len() && j != p && j != next_slot(s.len() as nat, p) && j != exc
                ==> #[trigger] run_ok_at(s.update(p, x), j),
        rh_entries(s.update(p, x)) == rh_entries(s).update(p, x.entry()),
{
    let f = s.update(p, x);
    let cap = s.len() as nat;
    assert forall|j: int|
        0 <= j < s.len() && j != p && j != next_slot(cap, p) && j != exc implies #[trigger] run_ok_at(
        f,
        j,
    ) by {
        assert(run_ok_at(s, j));
        lemma_next_slot(cap, prev_slot(cap, j));
        if j > 0 {
            lemma_next_slot(cap, j - 1);
        } else {
            lemma_next_slot(cap, cap - 1);
        }
    }
    assert(rh_entries(f) =~= rh_entries(s).update(p, x.entry()));
}

/// Walking back from an occupied slot towards its key's preferred slot,
/// every slot passed is occupied by an entry at least as far from home as
/// the walk is from the key's preferred slot.
proof fn lemma_run(s: Seq<RobinHoodSlot>, i: int, t: int)
    requires
        s.len() > 0,
        offsets_consistent(s),
        runs_ordered_except(s, -1),
        0 <= i < s.len(),
        s[i] is Occupied,
        0 <= t <= s[i].offset(),
    ensures
        s[probe_at(s.len() as nat, s[i].key(), t)] is Occupied,
        s[probe_at(s.len() as nat, s[i].key(), t)].offset() >= t,
    decreases s[i].offset() - t,
{
    let cap = s.len() as nat;
    let k = s[i].key();
    if t < s[i].offset() {
        lemma_run(s, i, t + 1);
        let q = probe_at(cap, k, t + 1);
        lemma_probe_dist(cap, k, t + 1);
        lemma_probe_next(cap, k, t);
        assert(run_ok_at(s, q));
    }
}

/// A probe for `k` that meets an `Empty` slot, or an entry closer to home
/// than the probe is, proves `k` absent when the earlier probes missed it.
proof fn lemma_absent(s: Seq<RobinHoodSlot>, k: usize, i: int)
    requires
        s.len() > 0,
        offsets_consistent(s),
        runs_ordered_except(s, -1),
        0 <= i < s.len(),
        s[probe_at(s.len() as nat, k, i)] is Empty || (s[probe_at(s.len() as nat, k, i)].key() != k
            && s[probe_at(s.len() as nat, k, i)].offset() < i),
        forall|u: int|
            0 <= u < i ==> !holds_key(rh_entries(s), #[trigger] probe_at(s.len() as nat, k, u), k),
    ensures
        forall|j: int| 0 <= j < s.len() ==> !holds_key(rh_entries(s), j, k),
{
    let cap = s.len() as nat;
    let e = rh_entries(s);
    assert forall|j: int| 0 <= j < s.len() implies !holds_key(e, j, k) by {
        if holds_key(e, j, k) {
            let o = s[j].offset() as int;
            lemma_probe_dist(cap, k, o);
            if o < i {
                assert(!holds_key(e, probe_at(cap, k, o), k));
            } else if o == i {
            } else {
                lemma_run(s, j, i);
            }
        }
    }
}

/// When the first `n` probes of `k` meet only occupied slots and slot `z`
/// is `Empty`, fewer than `cap` probes were made.
proof fn lemma_room(s: Seq<RobinHoodSlot>, k: usize, n: int, z: int)
    requires
        s.len() > 0,
        0 <= z < s.len(),
        s[z] is Empty,
        0 <= n,
        forall|u: int| 0 <= u < n ==> #[trigger] s[probe_at(s.len() as nat, k, u)] is Occupied,
    ensures
        n < s.len(),
{
    lemma_dist_probe(s.len() as nat, k, z);
    if n >= s.len() {
        assert(s[probe_at(s.len() as nat, k, dist(s.len() as nat, k, z))] is Occupied);
    }
}

/// Keys map to slot `key % capacity` and probe forward one slot at a time;
/// every entry stores its distance from that slot, which orders each run of
/// occupied slots so that lookups can stop early.
pub struct LinearProbingRobinHoodHashTable {
    table: Vec<RobinHoodSlot>,
    capacity: usize,
    size: usize,
}

impl View for LinearProbingRobinHoodHashTable {
    type V = Map<usize, Seq<char>>;

    /// The live keys and their values.
    closed spec fn view(&self) -> Map<usize, Seq<char>> {
        contents(rh_entries(self.table@))
    }
}

/// An empty slot array of `n` slots.
fn empty_slots(n: usize) -> (r: Vec<RobinHoodSlot>)
    ensures
        r@.len() == n,
        forall|i: int| 0 <= i < n ==> #[trigger] r@[i] is Empty,
{
    let mut r: Vec<RobinHoodSlot> = Vec::new();
    while r.len() < n
        invariant
            r@.len() <= n,
            forall|i: int| 0 <= i < r@.len() ==> #[trigger] r@[i] is Empty,
        decreases n - r@.len(),
    {
        r.push(RobinHoodSlot::Empty);
    }
    r
}

impl LinearProbingRobinHoodHashTable {
    /// The table's internal consistency.
    pub closed spec fn wf(&self) -> bool {
        &&& 0 < self.capacity <= MAX_CAPACITY
        &&& self.table@.len() == self.capacity
        &&& keys_unique(rh_entries(self.table@))
        &&& self.size == live_count(rh_entries(self.table@))
        &&& offsets_consistent(self.table@)
        &&& runs_ordered_except(self.table@, -1)
    }

    /// The number of slots.
    pub closed spec fn spec_capacity(&self) -> nat {
        self.capacity as nat
    }

    /// The slots in physical order.
    pub closed spec fn slots(&self) -> Seq<RobinHoodSlot> {
        self.table@
    }

    /// Whether an insert may double the capacity without passing
    /// `MAX_CAPACITY`, or will not need to.
    pub open spec fn can_insert(&self) -> bool {
        self@.len() < self.spec_capacity() || self.spec_capacity() * 2 <= MAX_CAPACITY
    }

    /// Facts that every well-formed table has.
    pub proof fn lemma_wf(&self)
        requires
            self.wf(),
        ensures
            self@.dom().finite(),
            self@.len() <= self.spec_capacity(),
            self.slots().len() == self.spec_capacity(),
            self.spec_capacity() > 0,
    {
        let e = rh_entries(self.table@);
        lemma_live_count_is_len(e);
        lemma_live_count_bound(e);
    }

    /// Every occupied slot lies its stored offset after its key's preferred
    /// index: `(key % capacity + offset) % capacity` is the slot's index.
    pub proof fn lemma_offsets(&self)
        requires
            self.wf(),
        ensures
            forall|i: int|
                0 <= i < self.spec_capacity() && #[trigger] self.slots()[i] is Occupied ==> (
                (self.slots()[i].key() as int % self.spec_capacity() as int)
                    + self.slots()[i].offset()) % (self.spec_capacity() as int) == i,
    {
    }

    /// Robin Hood order: on the walk from an entry's preferred slot to the
    /// entry, the slot `t` steps along holds an entry at least `t` slots
    /// from its own preferred slot.
    pub proof fn lemma_run_order(&self, i: int, t: int)
        requires
            self.wf(),
            0 <= i < self.spec_capacity(),
            self.slots()[i] is Occupied,
            0 <= t <= self.slots()[i].offset(),
        ensures
            self.slots()[probe_at(self.spec_capacity(), self.slots()[i].key(), t)] is Occupied,
            self.slots()[probe_at(self.spec_capacity(), self.slots()[i].key(), t)].offset() >= t,
    {
        lemma_run(self.table@, i, t);
    }

    /// Follows a table through calls: starting from an empty table, when
    /// each state comes from the one before by the `insert` or `delete` of
    /// `ops` as their contracts state, a key is present at the end exactly
    /// when its last call is an insert, and then maps to that insert's value.
    pub proof fn lemma_follow_calls(states: Seq<Self>, ops: Seq<(bool, usize, Seq<char>)>)
        requires
            states.len() == ops.len() + 1,
            states[0]@ == Map::<usize, Seq<char>>::empty(),
            forall|i: int|
                0 <= i < ops.len() ==> #[trigger] states[i + 1]@ == crate::laws::apply_op(
                    states[i]@,
                    ops[i],
                ),
        ensures
            forall|k: usize|
                #[trigger] states.last()@.contains_key(k) <==> (crate::laws::last_call(ops, k) >= 0
                    && ops[crate::laws::last_call(ops, k)].0),
            forall|k: usize|
                #[trigger] states.last()@.contains_key(k) ==> states.last()@[k] == ops[crate::laws::last_call(
                    ops,
                    k,
                )].2,
    {
        let views = Seq::new(states.len(), |i: int| states[i]@);
        assert forall|i: int| 0 <= i < ops.len() implies #[trigger] views[i + 1] == crate::laws::apply_op(
            views[i],
            ops[i],
        ) by {
            assert(states[i + 1]@ == crate::laws::apply_op(states[i]@, ops[i]));
        }
        crate::laws::lemma_views_follow(views, ops);
        assert(views.last() == states.last()@);
    }

    /// Follows a table through resizes: when each state comes from the one
    /// before by `resize`, which doubles the capacity, the capacity after
    /// `n` resizes is the first one times `2^n`.
    pub proof fn lemma_follow_resizes(states: Seq<Self>)
        requires
            states.len() > 0,
            forall|i: int|
                0 <= i < states.len() - 1 ==> #[trigger] states[i + 1].spec_capacity() == 2
                    * states[i].spec_capacity(),
        ensures
            states.last().spec_capacity() == states[0].spec_capacity() * vstd::arithmetic::power2::pow2(
                (states.len() - 1) as nat,
            ),
    {
        let caps = Seq::new(states.len(), |i: int| states[i].spec_capacity());
        assert forall|i: int| 0 <= i < caps.len() - 1 implies #[trigger] caps[i + 1] == 2 * caps[i] by {
            assert(states[i + 1].spec_capacity() == 2 * states[i].spec_capacity());
        }
        crate::laws::lemma_capacity_doubling(caps);
        assert(caps.last() == states.last().spec_capacity());
    }

    /// A key is present exactly when a slot holds it, and `rh_slot_of`
    /// names that slot, whose value is the key's value.
    pub proof fn lemma_slot_of(&self, key: usize)
        requires
            self.wf(),
        ensures
            self@.contains_key(key) <==> (0 <= rh_slot_of(self.slots(), key) < self.spec_capacity()
                && self.slots()[rh_slot_of(self.slots(), key)] is Occupied && self.slots()[rh_slot_of(
                self.slots(),
                key,
            )].key() == key),
            self@.contains_key(key) ==> self@[key] == self.slots()[rh_slot_of(
                self.slots(),
                key,
            )].entry().unwrap().1,
    {
        let e = rh_entries(self.table@);
        if self@.contains_key(key) {
            let j = choose|j: int| holds_key(e, j, key);
            assert(self.table@[j] is Occupied);
            let k = rh_slot_of(self.table@, key);
            assert(e[k] is Some);
            lemma_contents_at(e, k);
        } else {
            let k = rh_slot_of(self.table@, key);
            if 0 <= k < self.capacity && self.table@[k] is Occupied && self.table@[k].key() == key {
                assert(holds_key(e, k, key));
            }
        }
    }

    /// Each key sits in one slot only.
    pub proof fn lemma_one_slot_per_key(&self, i: int, j: int)
        requires
            self.wf(),
            0 <= i < self.spec_capacity(),
            0 <= j < self.spec_capacity(),
            self.slots()[i] is Occupied,
            self.slots()[j] is Occupied,
            self.slots()[i].key() == self.slots()[j].key(),
        ensures
            i == j,
    {
        let e = rh_entries(self.table@);
        assert(e[i] is Some && e[j] is Some);
    }

    /// A table of `capacity` empty slots; a capacity of zero, or above
    /// `MAX_CAPACITY`, is refused.
    pub fn new(capacity: usize) -> (r: Option<Self>)
        ensures
            r is None <==> capacity == 0 || capacity > MAX_CAPACITY,
            match r {
                Some(t) => t.wf() && t@ == Map::<usize, Seq<char>>::empty() && t.spec_capacity()
                    == capacity && forall|i: int| 0 <= i < capacity ==> #[trigger] t.slots()[i] is Empty,
                None => true,
            },
    {
        if capacity == 0 || capacity > MAX_CAPACITY {
            return None;
        }
        let table = empty_slots(capacity);
        proof {
            lemma_no_live(rh_entries(table@));
        }
        Some(LinearProbingRobinHoodHashTable { table, capacity, size: 0 })
    }

    /// The number of slots.
    pub fn capacity(&self) -> (r: usize)
        ensures
            r == self.spec_capacity(),
    {
        self.capacity
    }

    /// The number of live entries.
    pub fn size(&self) -> (r: usize)
        requires
            self.wf(),
        ensures
            r == self@.len(),
    {
        proof {
            lemma_live_count_is_len(rh_entries(self.table@));
        }
        self.size
    }

    /// The slot at physical index `i`.
    pub fn slot(&self, i: usize) -> (r: &RobinHoodSlot)
        requires
            i < self.slots().len(),
        ensures
            *r == self.slots()[i as int],
    {
        &self.table[i]
    }

    /// The slot a key prefers: `key % capacity`.
    pub fn get_preferred_index(&self, key: usize) -> (r: usize)
        requires
            self.wf(),
        ensures
            r == home(self.spec_capacity(), key),
            r < self.spec_capacity(),
    {
        key % self.capacity
    }
    /// The slot that holds `key`. Probing stops at an `Empty` slot, or at an
    /// entry closer to its own preferred slot than the probe is to the key's:
    /// the run order means the key cannot lie beyond either.
    pub fn find_index_for_key_if_exists(&self, key: usize) -> (r: Option<usize>)
        requires
            self.wf(),
        ensures
            match r {
                Some(i) => i < self.spec_capacity() && self.slots()[i as int] is Occupied
                    && self.slots()[i as int].key() == key && self@.contains_key(key)
                    && self@[key] == self.slots()[i as int].entry().unwrap().1,
                None => !self@.contains_key(key) && forall|j: int|
                    0 <= j < self.spec_capacity() ==> !(#[trigger] self.slots()[j] is Occupied
                        && self.slots()[j].key() == key),
            },
    {
        let ghost cap = self.capacity as nat;
        let ghost e = rh_entries(self.table@);
        let preferred_index = self.get_preferred_index(key);
        let mut i: usize = 0;
        while i < self.capacity
            invariant
                self.wf(),
                cap == self.capacity,
                e == rh_entries(self.table@),
                preferred_index == home(cap, key),
                i <= cap,
                forall|u: int| 0 <= u < i ==> !holds_key(e, #[trigger] probe_at(cap, key, u), key),
            decreases cap - i,
        {
            let probe_index: usize = (preferred_index + i) % self.capacity;
            proof {
                lemma_probe_dist(cap, key, i as int);
            }
            match &self.table[probe_index] {
                RobinHoodSlot::Occupied(existing_key, offset, _) => {
                    if *existing_key == key {
                        proof {
                            lemma_contents_at(e, probe_index as int);
                        }
                        return Some(probe_index);
                    } else if *offset < i {
                        proof {
                            lemma_absent(self.table@, key, i as int);
                            lemma_contents_absent(e, key);
                            assert forall|j: int| 0 <= j < cap implies !(#[trigger] self.table@[j] is Occupied
                                && self.table@[j].key() == key) by {
                                assert(!holds_key(e, j, key));
                            }
                        }
                        return None;
                    }
                },
                RobinHoodSlot::Empty => {
                    proof {
                        lemma_absent(self.table@, key, i as int);
                        lemma_contents_absent(e, key);
                        assert forall|j: int| 0 <= j < cap implies !(#[trigger] self.table@[j] is Occupied
                            && self.table@[j].key() == key) by {
                            assert(!holds_key(e, j, key));
                        }
                    }
                    return None;
                },
            }
            i = i + 1;
        }
        proof {
            assert forall|j: int| 0 <= j < cap implies !holds_key(e, j, key) by {
                lemma_dist_probe(cap, key, j);
            }
            lemma_contents_absent(e, key);
        }
        None
    }

    /// The value stored for `key`, if it is present.
    pub fn get(&self, key: usize) -> (r: Option<&Vec<char>>)
        requires
            self.wf(),
        ensures
            match r {
                Some(v) => self@.contains_key(key) && v@ == self@[key],
                None => !self@.contains_key(key),
            },
    {
        let found_index = self.find_index_for_key_if_exists(key);
        match found_index {
            None => None,
            Some(i) => match &self.table[i] {
                RobinHoodSlot::Occupied(_, _, value) => Some(value),
                RobinHoodSlot::Empty => None,
            },
        }
    }
    /// Rebuilds the table with `new_capacity` slots by inserting every entry
    /// again, in physical order. A capacity below the current one is refused
    /// and leaves the table as it was.
    pub fn resize_to(&mut self, new_capacity: usize) -> (r: bool)
        requires
            old(self).wf(),
            new_capacity <= MAX_CAPACITY,
        ensures
            final(self).wf(),
            r == (new_capacity >= old(self).spec_capacity()),
            r ==> final(self).spec_capacity() == new_capacity,
            !r ==> *final(self) == *old(self),
            final(self)@ == old(self)@,
    {
        if new_capacity < self.capacity {
            return false;
        }
        let ghost orig = rh_entries(self.table@);
        let mut old_table = empty_slots(new_capacity);
        std::mem::swap(&mut self.table, &mut old_table);
        self.capacity = new_capacity;
        self.size = 0;
        proof {
            lemma_no_live(rh_entries(self.table@));
            assert forall|j: int| 0 <= j < self.table@.len() implies #[trigger] run_ok_at(
                self.table@,
                j,
            ) by {}
            assert(contents(orig.subrange(0, 0)) =~= Map::<usize, Seq<char>>::empty());
        }
        let n = old_table.len();
        let mut i: usize = 0;
        while i < n
            invariant
                self.wf(),
                self.capacity == new_capacity,
                n == old_table@.len(),
                n == orig.len(),
                n <= new_capacity,
                i <= n,
                keys_unique(orig),
                old(self)@ == contents(orig),
                forall|j: int| i <= j < n ==> #[trigger] old_table@[j].entry() == orig[j],
                self@ == contents(orig.subrange(0, i as int)),
                live_count(rh_entries(self.table@)) == live_count(orig.subrange(0, i as int)),
            decreases n - i,
        {
            let mut taken = RobinHoodSlot::Empty;
            old_table.set_and_swap(i, &mut taken);
            proof {
                let pre = orig.subrange(0, i as int + 1);
                assert(pre.drop_last() =~= orig.subrange(0, i as int));
                assert forall|a: int, b: int|
                    0 <= a < pre.len() && 0 <= b < pre.len() && a != b && #[trigger] pre[a] is Some
                        && #[trigger] pre[b] is Some implies pre[a].unwrap().0 != pre[b].unwrap().0 by {
                    assert(pre[a] == orig[a] && pre[b] == orig[b]);
                }
                lemma_contents_push(pre);
                lemma_live_count_bound(orig.subrange(0, i as int));
                assert(taken.entry() == orig[i as int]);
                assert(pre.last() == orig[i as int]);
            }
            match taken {
                RobinHoodSlot::Occupied(key, _, value) => {
                    self.place(key, value);
                },
                RobinHoodSlot::Empty => {},
            }
            proof {
                let pre = orig.subrange(0, i as int + 1);
                assert(self@ == contents(pre));
                lemma_live_count_is_len(rh_entries(self.table@));
                lemma_live_count_is_len(pre);
            }
            i = i + 1;
        }
        proof {
            assert(orig.subrange(0, n as int) =~= orig);
        }
        true
    }

    /// Doubles the capacity, keeping every entry.
    pub fn resize(&mut self)
        requires
            old(self).wf(),
            old(self).spec_capacity() * 2 <= MAX_CAPACITY,
        ensures
            final(self).wf(),
            final(self).spec_capacity() == old(self).spec_capacity() * 2,
            final(self)@ == old(self)@,
    {
        let ok = self.resize_to(self.capacity * 2);
        assert(ok);
    }

    /// Inserts or overwrites `key`, doubling the capacity first when the
    /// table is full.
    pub fn insert(&mut self, key: usize, value: Vec<char>)
        requires
            old(self).wf(),
            old(self).can_insert(),
        ensures
            final(self).wf(),
            final(self).spec_capacity() == if old(self)@.len() >= old(self).spec_capacity() {
                old(self).spec_capacity() * 2
            } else {
                old(self).spec_capacity()
            },
            final(self)@ == old(self)@.insert(key, value@),
            old(self)@.len() < old(self).spec_capacity() ==> final(self).slots() == rh_walk(
                old(self).slots(),
                home(old(self).spec_capacity(), key),
                RobinHoodSlot::Occupied(key, 0, value),
                old(self).spec_capacity(),
            ),
            old(self)@.len() < old(self).spec_capacity() ==> forall|j: int|
                0 <= j < old(self).spec_capacity() && dist(old(self).spec_capacity(), key, j)
                    > first_where(
                    old(self).spec_capacity() as int,
                    empty_probe(old(self).slots(), key),
                ) ==> #[trigger] final(self).slots()[j] == old(self).slots()[j],
    {
        proof {
            lemma_live_count_is_len(rh_entries(self.table@));
            self.lemma_wf();
        }
        if self.size >= self.capacity {
            self.resize();
            proof {
                self.lemma_wf();
                lemma_live_count_is_len(rh_entries(self.table@));
            }
        }
        self.place(key, value);
    }

    /// The probing part of `insert`, on a table with a free slot. The entry
    /// in hand walks forward; whenever the resident of a slot is closer to
    /// its preferred slot than the entry in hand is to its own, they trade
    /// places and the walk goes on with the evicted entry.
    #[verifier::rlimit(40)]
    fn place(&mut self, key: usize, value: Vec<char>)
        requires
            old(self).wf(),
            old(self).size < old(self).capacity,
        ensures
            final(self).wf(),
            final(self).capacity == old(self).capacity,
            final(self)@ == old(self)@.insert(key, value@),
            forall|j: int|
                0 <= j < old(self).capacity && dist(old(self).capacity as nat, key, j) > first_where(
                    old(self).capacity as int,
                    empty_probe(old(self).table@, key),
                ) ==> #[trigger] final(self).table@[j] == old(self).table@[j],
            final(self).table@ == rh_walk(
                old(self).table@,
                home(old(self).capacity as nat, key),
                RobinHoodSlot::Occupied(key, 0, value),
                old(self).capacity as nat,
            ),
    {
        let ghost cap = self.capacity as nat;
        let ghost m_target = self@.insert(key, value@);
        let ghost ep = empty_probe(self.table@, key);
        let ghost goal = rh_walk(
            self.table@,
            home(cap, key),
            RobinHoodSlot::Occupied(key, 0, value),
            cap,
        );
        proof {
            lemma_live_count_bound(rh_entries(self.table@));
        }
        let ghost eidx = choose|j: int|
            0 <= j < cap && #[trigger] rh_entries(self.table@)[j] is None;
        let mut probe_index = self.get_preferred_index(key);
        proof {
            lemma_probe_dist(cap, key, 0);
        }
        let mut i: usize = 0;
        let mut target_key = key;
        let mut target_value = value;
        let ghost mut steps: int = 0;
        let ghost mut displaced = false;
        loop
            invariant
                self.wf(),
                self.capacity == cap,
                cap == old(self).capacity,
                m_target == old(self)@.insert(key, value@),
                ep == empty_probe(old(self).table@, key),
                old(self).table@.len() == cap,
                goal == rh_walk(
                    old(self).table@,
                    home(cap, key),
                    RobinHoodSlot::Occupied(key, 0, value),
                    cap,
                ),
                rh_walk(
                    self.table@,
                    probe_index as int,
                    RobinHoodSlot::Occupied(target_key, i, target_value),
                    (cap - steps) as nat,
                ) == goal,
                first_where(steps, ep) == steps,
                forall|j: int|
                    0 <= j < cap ==> (#[trigger] self.table@[j] is Empty <==> old(self).table@[j] is Empty),
                forall|j: int|
                    0 <= j < cap && dist(cap, key, j) > steps ==> #[trigger] self.table@[j]
                        == old(self).table@[j],
                0 <= eidx < cap,
                self.table@[eidx] is Empty,
                0 <= steps < cap,
                probe_index == probe_at(cap, key, steps),
                forall|w: int|
                    0 <= w < steps ==> #[trigger] self.table@[probe_at(cap, key, w)] is Occupied,
                i < cap,
                probe_index == probe_at(cap, target_key, i as int),
                forall|u: int|
                    0 <= u < i ==> self.table@[#[trigger] probe_at(cap, target_key, u)] is Occupied
                        && self.table@[probe_at(cap, target_key, u)].offset() >= u,
                !displaced ==> target_key == key && target_value@ == value@ && self@ == old(self)@
                    && i == steps && forall|u: int|
                    0 <= u < i ==> !holds_key(
                        rh_entries(self.table@),
                        #[trigger] probe_at(cap, key, u),
                        key,
                    ),
                displaced ==> (forall|j: int|
                    0 <= j < cap ==> !holds_key(rh_entries(self.table@), j, target_key))
                    && self@.insert(target_key, target_value@) == m_target,
            decreases cap - steps,
        {
            let ghost s0 = self.table@;
            let ghost e0 = rh_entries(s0);
            proof {
                lemma_probe_dist(cap, key, steps);
                lemma_first_where(steps, ep);
                lemma_first_where(cap as int, ep);
            }
            let (is_empty, same_key, resident_offset) = match &self.table[probe_index] {
                RobinHoodSlot::Empty => (true, false, 0),
                RobinHoodSlot::Occupied(k, off, _) => (false, *k == target_key, *off),
            };
            if is_empty {
                proof {
                    if !displaced {
                        lemma_absent(s0, key, i as int);
                    }
                    let x = RobinHoodSlot::Occupied(target_key, i, target_value);
                    lemma_write(s0, probe_index as int, x, -1);
                    let f = s0.update(probe_index as int, x);
                    if i > 0 {
                        lemma_probe_next(cap, target_key, i - 1);
                    }
                    assert(run_ok_at(f, probe_index as int));
                    lemma_next_slot(cap, probe_index as int);
                    assert(run_ok_at(s0, next_slot(cap, probe_index as int)));
                    assert(run_ok_at(f, next_slot(cap, probe_index as int)));
                    lemma_contents_update(e0, probe_index as int, x.entry());
                    lemma_live_count_update(e0, probe_index as int, x.entry());
                    lemma_live_count_bound(e0);
                    assert(contents_after(contents(e0), None, x.entry()) =~= contents(e0).insert(
                        target_key,
                        target_value@,
                    ));
                }
                proof {
                    assert(self.table@[probe_index as int] is Empty);
                    assert(ep(steps));
                    assert(first_where(steps + 1, ep) == steps);
                    lemma_first_where_stable(steps + 1, cap as int, ep);
                }
                self.table.set(probe_index, RobinHoodSlot::Occupied(target_key, i, target_value));
                self.size = self.size + 1;
                return ;
            }
            if same_key {
                proof {
                    assert(!displaced ==> target_key == key);
                    assert(holds_key(e0, probe_index as int, target_key));
                    let o = s0[probe_index as int].offset() as int;
                    lemma_probe_injective(cap, target_key, o, i as int);
                    let x = RobinHoodSlot::Occupied(target_key, i, target_value);
                    lemma_write(s0, probe_index as int, x, -1);
                    let f = s0.update(probe_index as int, x);
                    assert(run_ok_at(s0, probe_index as int));
                    assert(run_ok_at(f, probe_index as int));
                    lemma_next_slot(cap, probe_index as int);
                    assert(run_ok_at(s0, next_slot(cap, probe_index as int)));
                    assert(run_ok_at(f, next_slot(cap, probe_index as int)));
                    assert forall|j: int| j != probe_index implies !holds_key(e0, j, key) by {
                        if holds_key(e0, j, key) {
                            assert(e0[probe_index as int] is Some);
                        }
                    }
                    lemma_contents_update(e0, probe_index as int, x.entry());
                    lemma_live_count_update(e0, probe_index as int, x.entry());
                    assert(contents_after(contents(e0), e0[probe_index as int], x.entry())
                        =~= contents(e0).insert(key, target_value@));
                }
                self.table.set(probe_index, RobinHoodSlot::Occupied(target_key, i, target_value));
                return ;
            }
            let ghost resident = s0[probe_index as int];
            if resident_offset < i {
                proof {
                    if !displaced {
                        lemma_absent(s0, key, i as int);
                    }
                    lemma_run(s0, probe_index as int, 0);
                }
                let mut slot = RobinHoodSlot::Occupied(target_key, i, target_value);
                proof {
                    let x = slot;
                    lemma_write(s0, probe_index as int, x, -1);
                    let f = s0.update(probe_index as int, x);
                    lemma_probe_next(cap, target_key, i - 1);
                    assert(run_ok_at(f, probe_index as int));
                    lemma_next_slot(cap, probe_index as int);
                    assert(run_ok_at(s0, next_slot(cap, probe_index as int)));
                    assert(run_ok_at(f, next_slot(cap, probe_index as int)));
                    assert forall|j: int| j != probe_index implies !holds_key(e0, j, x.key()) by {}
                    lemma_contents_update(e0, probe_index as int, x.entry());
                    lemma_live_count_update(e0, probe_index as int, x.entry());
                    lemma_contents_at(e0, probe_index as int);
                    let e1 = rh_entries(f);
                    assert(keys_unique(e1));
                    assert forall|j: int| 0 <= j < cap implies !holds_key(e1, j, resident.key()) by {
                        if j != probe_index && holds_key(e1, j, resident.key()) {
                            assert(e0[j] is Some && e0[probe_index as int] is Some);
                        }
                    }
                    assert(contents(e1).insert(resident.key(), resident.entry().unwrap().1)
                        =~= contents(e0).insert(target_key, target_value@));
                    let zo = resident.offset() as int;
                    assert forall|u: int|
                        0 <= u <= zo implies f[#[trigger] probe_at(cap, resident.key(), u)] is Occupied
                        && f[probe_at(cap, resident.key(), u)].offset() >= u by {
                        lemma_run(s0, probe_index as int, u);
                        lemma_probe_dist(cap, resident.key(), u);
                        lemma_probe_dist(cap, resident.key(), zo);
                        if probe_at(cap, resident.key(), u) == probe_index {
                            lemma_probe_injective(cap, resident.key(), u, zo);
                        }
                    }
                    assert forall|w: int| 0 <= w <= steps implies #[trigger] f[probe_at(cap, key, w)] is Occupied by {}
                    lemma_room(f, key, steps + 1, eidx);
                    lemma_room(f, resident.key(), zo + 1, eidx);
                    lemma_probe_next(cap, key, steps);
                    lemma_probe_next(cap, resident.key(), zo);
                }
                self.table.set_and_swap(probe_index, &mut slot);
                match slot {
                    RobinHoodSlot::Occupied(k, off, v) => {
                        target_key = k;
                        target_value = v;
                        i = off + 1;
                    },
                    RobinHoodSlot::Empty => {
                        return ;
                    },
                }
                proof {
                    displaced = true;
                }
            } else {
                proof {
                    assert forall|w: int| 0 <= w <= steps implies #[trigger] s0[probe_at(cap, key, w)] is Occupied by {}
                    assert forall|u: int| 0 <= u <= i implies s0[#[trigger] probe_at(cap, target_key, u)] is Occupied
                        && s0[probe_at(cap, target_key, u)].offset() >= u by {}
                    lemma_room(s0, key, steps + 1, eidx);
                    lemma_room(s0, target_key, i + 1, eidx);
                    lemma_probe_next(cap, key, steps);
                    lemma_probe_next(cap, target_key, i as int);
                }
                i = i + 1;
            }
            proof {
                lemma_next_slot(cap, probe_index as int);
                assert(self.table@[probe_index as int] is Occupied);
                assert(!ep(steps));
                assert(first_where(steps + 1, ep) == steps + 1);
                steps = steps + 1;
            }
            probe_index = (probe_index + 1) % self.capacity;
        }
    }
    /// Removes `key` if it is present. The entries after it that are not
    /// in their preferred slot move back one slot each, with their offset
    /// one less, until an `Empty` slot or an entry at offset zero.
    pub fn delete(&mut self, key: usize)
        requires
            old(self).wf(),
        ensures
            final(self).wf(),
            final(self).spec_capacity() == old(self).spec_capacity(),
            final(self)@ == old(self)@.remove(key),
            final(self).slots() == if old(self)@.contains_key(key) {
                back_shift(
                    old(self).slots().update(rh_slot_of(old(self).slots(), key), RobinHoodSlot::Empty),
                    rh_slot_of(old(self).slots(), key),
                    offset_sum(old(self).slots()),
                )
            } else {
                old(self).slots()
            },
    {
        let found_index = self.find_index_for_key_if_exists(key);
        let mut target_index = match found_index {
            None => {
                proof {
                    assert(old(self)@.remove(key) =~= old(self)@);
                }
                return ;
            },
            Some(i) => i,
        };
        let ghost cap = self.capacity as nat;
        let ghost mut hole_off: int = self.table@[target_index as int].offset() as int;
        let ghost goal = back_shift(
            self.table@.update(target_index as int, RobinHoodSlot::Empty),
            target_index as int,
            offset_sum(self.table@),
        );
        let ghost mut steps: nat = offset_sum(self.table@);
        proof {
            let s0 = self.table@;
            let k = rh_slot_of(s0, key);
            assert(s0[k] is Occupied && s0[k].key() == key);
            assert(rh_entries(s0)[k] is Some && rh_entries(s0)[target_index as int] is Some);
            lemma_offset_sum_update(s0, target_index as int, RobinHoodSlot::Empty);
            let e0 = rh_entries(s0);
            let h = target_index as int;
            lemma_write(s0, h, RobinHoodSlot::Empty, -1);
            lemma_contents_update(e0, h, None);
            lemma_live_count_update(e0, h, None);
            assert(contents_after(contents(e0), e0[h], None) =~= contents(e0).remove(key));
            lemma_next_slot(cap, h);
            assert(run_ok_at(s0, h));
            assert(run_ok_at(s0, next_slot(cap, h)));
            let s1 = s0.update(h, RobinHoodSlot::Empty);
            assert(run_ok_at(s1, h));
            assert(runs_ordered_except(s1, next_slot(cap, h)));
        }
        let mut removed = RobinHoodSlot::Empty;
        self.table.set_and_swap(target_index, &mut removed);
        self.size = self.size - 1;
        loop
            invariant
                0 < self.capacity <= MAX_CAPACITY,
                self.capacity == cap,
                cap == old(self).capacity,
                self.table@.len() == cap,
                keys_unique(rh_entries(self.table@)),
                self.size == live_count(rh_entries(self.table@)),
                offsets_consistent(self.table@),
                0 <= target_index < cap,
                self.table@[target_index as int] is Empty,
                runs_ordered_except(self.table@, next_slot(cap, target_index as int)),
                0 <= hole_off < cap,
                hole_off > 0 ==> self.table@[prev_slot(cap, target_index as int)] is Occupied
                    && self.table@[prev_slot(cap, target_index as int)].offset() + 1 >= hole_off,
                self.table@[next_slot(cap, target_index as int)] is Occupied && self.table@[next_slot(
                    cap,
                    target_index as int,
                )].offset() > 0 ==> self.table@[next_slot(cap, target_index as int)].offset()
                    <= hole_off + 1,
                self@ == old(self)@.remove(key),
                back_shift(self.table@, target_index as int, steps) == goal,
                old(self)@.contains_key(key),
                steps >= offset_sum(self.table@),
                goal == back_shift(
                    old(self).slots().update(rh_slot_of(old(self).slots(), key), RobinHoodSlot::Empty),
                    rh_slot_of(old(self).slots(), key),
                    offset_sum(old(self).slots()),
                ),
            decreases offset_sum(self.table@),
        {
            let ghost s0 = self.table@;
            let ghost e0 = rh_entries(s0);
            let ghost h = target_index as int;
            proof {
                lemma_next_slot(cap, h);
            }
            let next_index = (target_index + 1) % self.capacity;
            let shift = match &self.table[next_index] {
                RobinHoodSlot::Occupied(_, next_offset, _) => *next_offset > 0,
                RobinHoodSlot::Empty => false,
            };
            if !shift {
                proof {
                    assert(run_ok_at(s0, next_index as int));
                    assert(runs_ordered_except(s0, -1));
                    assert(!shiftable(s0, next_slot(cap, h)));
                    assert(back_shift(s0, h, steps) == s0);
                }
                return ;
            }
            let ghost n = next_index as int;
            let ghost y = s0[n];
            let ghost oy = y.offset() as int;
            let ghost x = RobinHoodSlot::Occupied(y.key(), (oy - 1) as usize, y->Occupied_2);
            proof {
                let s1 = s0.update(n, RobinHoodSlot::Empty);
                let e1 = rh_entries(s1);
                lemma_write(s0, n, RobinHoodSlot::Empty, n);
                assert(run_ok_at(s1, n));
                assert(runs_ordered_except(s1, next_slot(cap, n)));
                lemma_contents_update(e0, n, None);
                lemma_live_count_update(e0, n, None);
                lemma_offset_sum_update(s0, n, RobinHoodSlot::Empty);
                lemma_probe_dist(cap, y.key(), oy);
                lemma_probe_next(cap, y.key(), oy - 1);
                lemma_write(s1, h, x, next_slot(cap, n));
                let s2 = s1.update(h, x);
                assert(run_ok_at(s2, h));
                assert(run_ok_at(s2, n));
                assert(runs_ordered_except(s2, next_slot(cap, n)));
                assert forall|j: int| j != h implies !holds_key(e1, j, y.key()) by {
                    if 0 <= j < cap && j != n && holds_key(e1, j, y.key()) {
                        assert(e0[j] is Some && e0[n] is Some);
                    }
                }
                lemma_contents_update(e1, h, x.entry());
                lemma_live_count_update(e1, h, x.entry());
                lemma_offset_sum_update(s1, h, x);
                lemma_contents_at(e0, n);
                assert(contents_after(contents_after(contents(e0), e0[n], None), None, x.entry())
                    =~= contents(e0));
                lemma_next_slot(cap, n);
                assert(run_ok_at(s0, next_slot(cap, n)));
            }
            let mut moved = RobinHoodSlot::Empty;
            self.table.set_and_swap(next_index, &mut moved);
            match moved {
                RobinHoodSlot::Occupied(next_key, next_offset, next_value) => {
                    self.table.set(
                        target_index,
                        RobinHoodSlot::Occupied(next_key, next_offset - 1, next_value),
                    );
                },
                RobinHoodSlot::Empty => {
                    return ;
                },
            }
            proof {
                hole_off = oy;
                assert(self.table@ =~= s0.update(h, moved_back(s0[n])).update(n, RobinHoodSlot::Empty));
                steps = (steps - 1) as nat;
            }
            target_index = next_index;
        }
    }
}

} // verus!
