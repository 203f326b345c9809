//! A hash table where each key has exactly two legal slots, its primary
//! `key % capacity` and its secondary two slots further on; an insert that
//! finds both taken starts a displacement chain, and a chain as long as the
//! capacity grows the table.

use vstd::prelude::*;
use vstd::pervasive::VecAdditionalExecFns;
use crate::entries::{
    contents, holds_key, keys_unique, live_count, lemma_absent_everywhere, lemma_contents_absent, lemma_contents_at,
    lemma_contents_push, lemma_contents_update, lemma_live_count_bound, lemma_live_count_is_len,
    lemma_live_count_update, lemma_no_live, Entry,
};
use crate::probing::{home, MAX_CAPACITY};

verus! {

/// The primary slot of `key`.
pub open spec fn primary(cap: nat, key: usize) -> int {
    home(cap, key)
}

/// The secondary slot of `key`: two slots after the primary, wrapping.
pub open spec fn secondary(cap: nat, key: usize) -> int {
    (home(cap, key) + 2) % (cap as int)
}

/// The live entry of a slot, if any.
pub open spec fn slot_entry(x: Option<(usize, Vec<char>)>) -> Entry {
    match x {
        Some(p) => Some((p.0, p.1@)),
        None => None,
    }
}

/// The live entries of a slot array.
pub open spec fn two_entries(s: Seq<Option<(usize, Vec<char>)>>) -> Seq<Entry> {
    Seq::new(s.len(), |i: int| slot_entry(s[i]))
}

/// Every key sits in its primary or its secondary slot.
pub open spec fn in_candidate_slots(s: Seq<Option<(usize, Vec<char>)>>) -> bool {
    forall|i: int|
        0 <= i < s.len() && #[trigger] s[i] is Some ==> i == primary(s.len() as nat, s[i].unwrap().0)
            || i == secondary(s.len() as nat, s[i].unwrap().0)
}

/// The entries of a list of key-value pairs.
pub open spec fn pair_entries(p: Seq<(usize, Vec<char>)>) -> Seq<Entry> {
    Seq::new(p.len(), |i: int| Some((p[i].0, p[i].1@)))
}

/// The map that a list of key-value pairs with distinct keys describes.
pub open spec fn pairs_map(p: Seq<(usize, Vec<char>)>) -> Map<usize, Seq<char>> {
    contents(pair_entries(p))
}

/// No key is in both maps.
pub open spec fn no_common_key(a: Map<usize, Seq<char>>, b: Map<usize, Seq<char>>) -> bool {
    forall|k: usize| !(#[trigger] a.contains_key(k) && b.contains_key(k))
}

/// The slot holding `key`, if some slot does.
pub open spec fn two_slot_of(s: Seq<Option<(usize, Vec<char>)>>, key: usize) -> int {
    choose|i: int| 0 <= i < s.len() && s[i] is Some && s[i].unwrap().0 == key
}

/// Where an insert of `key` writes when the key is present or one of its
/// two slots is free: the key's own slot, else the free primary slot, else
/// the free secondary slot.
pub open spec fn direct_target(s: Seq<Option<(usize, Vec<char>)>>, key: usize) -> int {
    let p = primary(s.len() as nat, key);
    let q = secondary(s.len() as nat, key);
    if s[p] is Some && s[p].unwrap().0 == key {
        p
    } else if s[q] is Some && s[q].unwrap().0 == key {
        q
    } else if s[p] is None {
        p
    } else {
        q
    }
}

/// The candidate slot of `key` other than `t`.
pub open spec fn other_slot(cap: nat, key: usize, t: int) -> int {
    if t == primary(cap, key) {
        secondary(cap, key)
    } else {
        primary(cap, key)
    }
}

/// The displacement chain that puts `x` into slot `t`: an empty slot takes
/// it; otherwise `x` takes the slot, and the entry it evicts goes on to its
/// own other candidate slot. `None` when the chain reaches `steps`
/// evictions, at which point the table grows instead.
pub open spec fn chain(
    s: Seq<Option<(usize, Vec<char>)>>,
    t: int,
    x: (usize, Vec<char>),
    steps: nat,
) -> Option<Seq<Option<(usize, Vec<char>)>>>
    decreases steps,
{
    if s[t] is None {
        Some(s.update(t, Some(x)))
    } else if steps <= 1 {
        None
    } else {
        chain(
            s.update(t, Some(x)),
            other_slot(s.len() as nat, s[t].unwrap().0, t),
            s[t].unwrap(),
            (steps - 1) as nat,
        )
    }
}

/// `c` is `c0` doubled some number of times.
pub open spec fn doubled_from(c0: nat, c: nat) -> bool
    decreases c,
{
    c == c0 || (c > c0 && c % 2 == 0 && doubled_from(c0, c / 2))
}

/// `m` with the entry in hand, if any, added.
pub open spec fn with_carry(m: Map<usize, Seq<char>>, carry: Option<(usize, Vec<char>)>) -> Map<
    usize,
    Seq<char>,
> {
    match carry {
        Some(p) => m.insert(p.0, p.1@),
        None => m,
    }
}

/// Appending a pair with a new key adds it to the map of the list.
proof fn lemma_pairs_push(p: Seq<(usize, Vec<char>)>, x: (usize, Vec<char>))
    requires
        keys_unique(pair_entries(p)),
        !pairs_map(p).contains_key(x.0),
    ensures
        keys_unique(pair_entries(p.push(x))),
        pairs_map(p.push(x)) == pairs_map(p).insert(x.0, x.1@),
{
    let q = p.push(x);
    assert(pair_entries(q).drop_last() =~= pair_entries(p));
    assert forall|a: int, b: int|
        0 <= a < q.len() && 0 <= b < q.len() && a != b && #[trigger] pair_entries(q)[a] is Some
            && #[trigger] pair_entries(q)[b] is Some implies pair_entries(q)[a].unwrap().0
        != pair_entries(q)[b].unwrap().0 by {
        if a == p.len() {
            assert(pair_entries(q)[b] == pair_entries(p)[b]);
            if pair_entries(p)[b].unwrap().0 == x.0 {
                assert(holds_key(pair_entries(p), b, x.0));
            }
        } else if b == p.len() {
            assert(pair_entries(q)[a] == pair_entries(p)[a]);
            if pair_entries(p)[a].unwrap().0 == x.0 {
                assert(holds_key(pair_entries(p), a, x.0));
            }
        } else {
            assert(pair_entries(q)[a] == pair_entries(p)[a]);
            assert(pair_entries(q)[b] == pair_entries(p)[b]);
        }
    }
    lemma_contents_push(pair_entries(q));
}

/// Removing the last pair removes its key from the map of the list.
proof fn lemma_pairs_pop(p: Seq<(usize, Vec<char>)>)
    requires
        keys_unique(pair_entries(p)),
        p.len() > 0,
    ensures
        keys_unique(pair_entries(p.drop_last())),
        !pairs_map(p.drop_last()).contains_key(p.last().0),
        pairs_map(p) == pairs_map(p.drop_last()).insert(p.last().0, p.last().1@),
{
    assert(pair_entries(p).drop_last() =~= pair_entries(p.drop_last()));
    lemma_contents_push(pair_entries(p));
}

/// Doubling keeps `doubled_from`, which never goes below the start.
proof fn lemma_doubled_step(c0: nat, c: nat)
    requires
        c0 > 0,
        doubled_from(c0, c),
    ensures
        c >= c0,
        doubled_from(c0, 2 * c),
    decreases c,
{
    if c != c0 {
        lemma_doubled_step(c0, c / 2);
    }
    assert((2 * c) / 2 == c);
}

/// The slot array of `n` slots with nothing in them.
fn empty_slots(n: usize) -> (r: Vec<Option<(usize, Vec<char>)>>)
    ensures
        r@.len() == n,
        forall|i: int| 0 <= i < n ==> #[trigger] r@[i] is None,
{
    let mut r: Vec<Option<(usize, Vec<char>)>> = Vec::new();
    while r.len() < n
        invariant
            r@.len() <= n,
            forall|i: int| 0 <= i < r@.len() ==> #[trigger] r@[i] is None,
        decreases n - r@.len(),
    {
        r.push(None);
    }
    r
}

/// Each key lives in one of two slots, its primary `key % capacity` or its
/// secondary `(key % capacity + 2) % capacity`, and lookups check only
/// those two. (The two-choice scheme displaces entries along a chain rather
/// than probing.)
pub struct LinearProbingRobinHoodHashTable {
    table: Vec<Option<(usize, Vec<char>)>>,
    capacity: usize,
    size: usize,
}

impl View for LinearProbingRobinHoodHashTable {
    type V = Map<usize, Seq<char>>;

    /// The live keys and their values.
    closed spec fn view(&self) -> Map<usize, Seq<char>> {
        contents(two_entries(self.table@))
    }
}

impl LinearProbingRobinHoodHashTable {
    /// The table's internal consistency.
    pub closed spec fn wf(&self) -> bool {
        &&& 0 < self.capacity <= MAX_CAPACITY
        &&& self.table@.len() == self.capacity
        &&& keys_unique(two_entries(self.table@))
        &&& self.size == live_count(two_entries(self.table@))
        &&& in_candidate_slots(self.table@)
    }

    /// The number of slots.
    pub closed spec fn spec_capacity(&self) -> nat {
        self.capacity as nat
    }

    /// The slots in physical order.
    pub closed spec fn slots(&self) -> Seq<Option<(usize, Vec<char>)>> {
        self.table@
    }

    /// Whether an insert may double the capacity without passing
    /// `MAX_CAPACITY`, or will not need to.
    pub open spec fn can_insert(&self) -> bool {
        self@.len() < self.spec_capacity() || self.spec_capacity() * 2 <= MAX_CAPACITY
    }

    /// Facts that every well-formed table has.
    pub proof fn lemma_wf(&self)
        requires
            self.wf(),
        ensures
            self@.dom().finite(),
            self@.len() <= self.spec_capacity(),
            self.slots().len() == self.spec_capacity(),
            self.spec_capacity() > 0,
    {
        let e = two_entries(self.table@);
        lemma_live_count_is_len(e);
        lemma_live_count_bound(e);
    }

    /// Every live key is in its primary or its secondary slot, so a lookup
    /// that checks those two finds it, however long the chain that placed it.
    pub proof fn lemma_two_slots(&self, key: usize)
        requires
            self.wf(),
            self@.contains_key(key),
        ensures
            ({
                let p = primary(self.spec_capacity(), key);
                let q = secondary(self.spec_capacity(), key);
                (self.slots()[p] == Some((key, self.slots()[p].unwrap().1))
                    && self.slots()[p].unwrap().1@ == self@[key]) || (self.slots()[q] == Some(
                    (key, self.slots()[q].unwrap().1),
                ) && self.slots()[q].unwrap().1@ == self@[key])
            }),
    {
        let e = two_entries(self.table@);
        let j = choose|j: int| holds_key(e, j, key);
        lemma_contents_at(e, j);
        assert(self.table@[j] is Some);
    }

    /// Follows a table through calls: starting from an empty table, when
    /// each state comes from the one before by the `insert` or `delete` of
    /// `ops` as their contracts state, a key is present at the end exactly
    /// when its last call is an insert, and then maps to that insert's value.
    pub proof fn lemma_follow_calls(states: Seq<Self>, ops: Seq<(bool, usize, Seq<char>)>)
        requires
            states.len() == ops.len() + 1,
            states[0]@ == Map::<usize, Seq<char>>::empty(),
            forall|i: int|
                0 <= i < ops.len() ==> #[trigger] states[i + 1]@ == crate::laws::apply_op(
                    states[i]@,
                    ops[i],
                ),
        ensures
            forall|k: usize|
                #[trigger] states.last()@.contains_key(k) <==> (crate::laws::last_call(ops, k) >= 0
                    && ops[crate::laws::last_call(ops, k)].0),
            forall|k: usize|
                #[trigger] states.last()@.contains_key(k) ==> states.last()@[k] == ops[crate::laws::last_call(
                    ops,
                    k,
                )].2,
    {
        let views = Seq::new(states.len(), |i: int| states[i]@);
        assert forall|i: int| 0 <= i < ops.len() implies #[trigger] views[i + 1] == crate::laws::apply_op(
            views[i],
            ops[i],
        ) by {
            assert(states[i + 1]@ == crate::laws::apply_op(states[i]@, ops[i]));
        }
        crate::laws::lemma_views_follow(views, ops);
        assert(views.last() == states.last()@);
    }

    /// A key is present exactly when a slot holds it, and `two_slot_of`
    /// names that slot, whose value is the key's value.
    pub proof fn lemma_slot_of(&self, key: usize)
        requires
            self.wf(),
        ensures
            self@.contains_key(key) <==> (0 <= two_slot_of(self.slots(), key) < self.spec_capacity()
                && self.slots()[two_slot_of(self.slots(), key)] is Some && self.slots()[two_slot_of(
                self.slots(),
                key,
            )].unwrap().0 == key),
            self@.contains_key(key) ==> self@[key] == self.slots()[two_slot_of(
                self.slots(),
                key,
            )].unwrap().1@,
    {
        let e = two_entries(self.table@);
        if self@.contains_key(key) {
            let j = choose|j: int| holds_key(e, j, key);
            assert(self.table@[j] is Some);
            let k = two_slot_of(self.table@, key);
            assert(e[k] is Some);
            lemma_contents_at(e, k);
        } else {
            let k = two_slot_of(self.table@, key);
            if 0 <= k < self.capacity && self.table@[k] is Some && self.table@[k].unwrap().0 == key {
                assert(holds_key(e, k, key));
            }
        }
    }

    /// Each key sits in one slot only.
    pub proof fn lemma_one_slot_per_key(&self, i: int, j: int)
        requires
            self.wf(),
            0 <= i < self.spec_capacity(),
            0 <= j < self.spec_capacity(),
            self.slots()[i] is Some,
            self.slots()[j] is Some,
            self.slots()[i].unwrap().0 == self.slots()[j].unwrap().0,
        ensures
            i == j,
    {
        let e = two_entries(self.table@);
        assert(e[i] is Some && e[j] is Some);
    }

    /// A table of `capacity` empty slots; a capacity of zero, or above
    /// `MAX_CAPACITY`, is refused.
    pub fn new(capacity: usize) -> (r: Option<Self>)
        ensures
            r is None <==> capacity == 0 || capacity > MAX_CAPACITY,
            match r {
                Some(t) => t.wf() && t@ == Map::<usize, Seq<char>>::empty() && t.spec_capacity()
                    == capacity && forall|i: int| 0 <= i < capacity ==> #[trigger] t.slots()[i] is None,
                None => true,
            },
    {
        if capacity == 0 || capacity > MAX_CAPACITY {
            return None;
        }
        let table = empty_slots(capacity);
        proof {
            lemma_no_live(two_entries(table@));
        }
        Some(LinearProbingRobinHoodHashTable { table, capacity, size: 0 })
    }

    /// The number of slots.
    pub fn capacity(&self) -> (r: usize)
        ensures
            r == self.spec_capacity(),
    {
        self.capacity
    }

    /// The number of live entries.
    pub fn size(&self) -> (r: usize)
        requires
            self.wf(),
        ensures
            r == self@.len(),
    {
        proof {
            lemma_live_count_is_len(two_entries(self.table@));
        }
        self.size
    }

    /// The slot at physical index `i`.
    pub fn slot(&self, i: usize) -> (r: &Option<(usize, Vec<char>)>)
        requires
            i < self.slots().len(),
        ensures
            *r == self.slots()[i as int],
    {
        &self.table[i]
    }

    /// The primary slot of `key`: `key % capacity`.
    pub fn get_primary_index(&self, key: usize) -> (r: usize)
        requires
            self.wf(),
        ensures
            r == primary(self.spec_capacity(), key),
            r < self.spec_capacity(),
    {
        key % self.capacity
    }

    /// The secondary slot of `key`: two slots after the primary, wrapping.
    pub fn get_secondary_index(&self, key: usize) -> (r: usize)
        requires
            self.wf(),
        ensures
            r == secondary(self.spec_capacity(), key),
            r < self.spec_capacity(),
    {
        (self.get_primary_index(key) + 2) % self.capacity
    }

    /// The slot that holds `key`: its primary slot if the key is there,
    /// else its secondary slot if the key is there.
    pub fn find_index_for_key_if_exists(&self, key: usize) -> (r: Option<usize>)
        requires
            self.wf(),
        ensures
            match r {
                Some(i) => (i == primary(self.spec_capacity(), key) || i == secondary(
                    self.spec_capacity(),
                    key,
                )) && self.slots()[i as int] is Some && self.slots()[i as int].unwrap().0 == key
                    && self@.contains_key(key) && self@[key] == self.slots()[i as int].unwrap().1@,
                None => !self@.contains_key(key) && forall|j: int|
                    0 <= j < self.spec_capacity() ==> !(#[trigger] self.slots()[j] is Some
                        && self.slots()[j].unwrap().0 == key),
            },
    {
        let e = Ghost(two_entries(self.table@));
        let primary_index = self.get_primary_index(key);
        match &self.table[primary_index] {
            Some((existing_primary_key, _)) => {
                if *existing_primary_key == key {
                    proof {
                        lemma_contents_at(e@, primary_index as int);
                    }
                    return Some(primary_index);
                }
            },
            None => {},
        }
        let secondary_index = self.get_secondary_index(key);
        match &self.table[secondary_index] {
            Some((existing_secondary_key, _)) => {
                if *existing_secondary_key == key {
                    proof {
                        lemma_contents_at(e@, secondary_index as int);
                    }
                    return Some(secondary_index);
                }
            },
            None => {},
        }
        proof {
            assert forall|j: int| 0 <= j < self.capacity implies !holds_key(e@, j, key) by {
                if holds_key(e@, j, key) {
                    assert(self.table@[j] is Some);
                }
            }
            lemma_contents_absent(e@, key);
        }
        None
    }

    /// The value stored for `key`, if it is present.
    pub fn get(&self, key: usize) -> (r: Option<&Vec<char>>)
        requires
            self.wf(),
        ensures
            match r {
                Some(v) => self@.contains_key(key) && v@ == self@[key],
                None => !self@.contains_key(key),
            },
    {
        let found_index = self.find_index_for_key_if_exists(key);
        match found_index {
            None => None,
            Some(i) => match &self.table[i] {
                Some((_key, value)) => Some(value),
                None => None,
            },
        }
    }

    /// Removes `key` if it is present.
    pub fn delete(&mut self, key: usize)
        requires
            old(self).wf(),
        ensures
            final(self).wf(),
            final(self).spec_capacity() == old(self).spec_capacity(),
            final(self)@ == old(self)@.remove(key),
            final(self).slots() == if old(self)@.contains_key(key) {
                old(self).slots().update(two_slot_of(old(self).slots(), key), None)
            } else {
                old(self).slots()
            },
    {
        let found_index = self.find_index_for_key_if_exists(key);
        match found_index {
            Some(i) => {
                proof {
                    let e0 = two_entries(self.table@);
                    let k = two_slot_of(self.table@, key);
                    assert(self.table@[k] is Some && self.table@[k].unwrap().0 == key);
                    assert(e0[k] is Some && e0[i as int] is Some);
                    lemma_contents_update(e0, i as int, None);
                    lemma_live_count_update(e0, i as int, None);
                    assert(two_entries(self.table@.update(i as int, None)) =~= e0.update(
                        i as int,
                        None,
                    ));
                    assert(crate::entries::contents_after(contents(e0), e0[i as int], None)
                        =~= contents(e0).remove(key));
                }
                self.table.set(i, None);
                self.size = self.size - 1;
            },
            None => {
                proof {
                    assert(old(self)@.remove(key) =~= old(self)@);
                }
            },
        }
    }
    /// Writing a key into one of its two slots, where no other slot holds it,
    /// keeps the table consistent and adds the key in place of what the slot
    /// held.
    proof fn lemma_put(&self, i: int, key: usize, value: Vec<char>)
        requires
            self.wf(),
            0 <= i < self.capacity,
            i == primary(self.capacity as nat, key) || i == secondary(self.capacity as nat, key),
            forall|j: int| j != i ==> !holds_key(two_entries(self.table@), j, key),
        ensures
            ({
                let s = self.table@.update(i, Some((key, value)));
                let e0 = two_entries(self.table@);
                &&& keys_unique(two_entries(s))
                &&& in_candidate_slots(s)
                &&& live_count(two_entries(s)) == live_count(e0) + (if e0[i] is Some {
                    0int
                } else {
                    1int
                })
                &&& contents(two_entries(s)) == crate::entries::contents_after(
                    contents(e0),
                    e0[i],
                    Some((key, value@)),
                )
            }),
    {
        let s = self.table@.update(i, Some((key, value)));
        let e0 = two_entries(self.table@);
        assert(two_entries(s) =~= e0.update(i, Some((key, value@))));
        lemma_contents_update(e0, i, Some((key, value@)));
        lemma_live_count_update(e0, i, Some((key, value@)));
    }

    /// Moves every entry of the table onto `pending` and leaves the table
    /// empty with `new_capacity` slots.
    fn grow(&mut self, pending: &mut Vec<(usize, Vec<char>)>, new_capacity: usize)
        requires
            old(self).wf(),
            old(self).capacity <= new_capacity <= MAX_CAPACITY,
            keys_unique(pair_entries(old(pending)@)),
            no_common_key(old(self)@, pairs_map(old(pending)@)),
        ensures
            final(self).wf(),
            final(self).capacity == new_capacity,
            final(self)@ == Map::<usize, Seq<char>>::empty(),
            keys_unique(pair_entries(final(pending)@)),
            pairs_map(final(pending)@) == old(self)@.union_prefer_right(pairs_map(old(pending)@)),
    {
        let ghost u = self@.union_prefer_right(pairs_map(pending@));
        let mut old_table = empty_slots(new_capacity);
        std::mem::swap(&mut self.table, &mut old_table);
        self.capacity = new_capacity;
        self.size = 0;
        proof {
            lemma_no_live(two_entries(self.table@));
        }
        while old_table.len() > 0
            invariant
                self.wf(),
                self.capacity == new_capacity,
                self@ == Map::<usize, Seq<char>>::empty(),
                keys_unique(two_entries(old_table@)),
                keys_unique(pair_entries(pending@)),
                no_common_key(contents(two_entries(old_table@)), pairs_map(pending@)),
                contents(two_entries(old_table@)).union_prefer_right(pairs_map(pending@)) == u,
            decreases old_table@.len(),
        {
            let ghost t0 = old_table@;
            let ghost queued = pending@;
            proof {
                assert(two_entries(t0).drop_last() =~= two_entries(t0.drop_last()));
                lemma_contents_push(two_entries(t0));
            }
            let last = old_table.pop();
            match last {
                Some(Some((k, v))) => {
                    proof {
                        assert(two_entries(t0).last() == Some((k, v@)));
                        assert(contents(two_entries(t0)).contains_key(k));
                        assert(!pairs_map(queued).contains_key(k));
                        lemma_pairs_push(queued, (k, v));
                        assert forall|q: usize| !(#[trigger] contents(two_entries(old_table@)).contains_key(q)
                            && pairs_map(queued.push((k, v))).contains_key(q)) by {
                            if contents(two_entries(old_table@)).contains_key(q) {
                                assert(contents(two_entries(t0)).contains_key(q));
                            }
                        }
                        assert(contents(two_entries(old_table@)).union_prefer_right(
                            pairs_map(queued.push((k, v))),
                        ) =~= u);
                    }
                    pending.push((k, v));
                },
                _ => {
                    proof {
                        assert(contents(two_entries(old_table@)).union_prefer_right(pairs_map(queued))
                            =~= u);
                        assert forall|q: usize| !(#[trigger] contents(two_entries(old_table@)).contains_key(q)
                            && pairs_map(queued).contains_key(q)) by {
                            if contents(two_entries(old_table@)).contains_key(q) {
                                assert(contents(two_entries(t0)).contains_key(q));
                            }
                        }
                    }
                },
            }
        }
        proof {
            lemma_no_live(two_entries(old_table@));
            assert(pairs_map(pending@) =~= u);
        }
    }

    /// Places every pending entry, each by its own displacement chain. A
    /// chain as long as the capacity doubles the capacity and puts every
    /// entry back on the pending list. When the capacity cannot double
    /// without passing `MAX_CAPACITY`, the entries not placed are left on
    /// the list.
    fn settle(&mut self, pending: &mut Vec<(usize, Vec<char>)>)
        requires
            old(self).wf(),
            keys_unique(pair_entries(old(pending)@)),
            no_common_key(old(self)@, pairs_map(old(pending)@)),
        ensures
            final(self).wf(),
            keys_unique(pair_entries(final(pending)@)),
            no_common_key(final(self)@, pairs_map(final(pending)@)),
            final(self)@.union_prefer_right(pairs_map(final(pending)@)) == old(self)@.union_prefer_right(
                pairs_map(old(pending)@),
            ),
            final(pending)@.len() > 0 ==> final(self).capacity * 2 > MAX_CAPACITY,
            doubled_from(old(self).capacity as nat, final(self).capacity as nat),
            old(pending)@.len() == 1 && old(self).table@[primary(
                old(self).capacity as nat,
                old(pending)@[0].0,
            )] is Some && chain(
                old(self).table@,
                secondary(old(self).capacity as nat, old(pending)@[0].0),
                old(pending)@[0],
                old(self).capacity as nat,
            ) is Some ==> final(pending)@.len() == 0 && final(self).capacity == old(self).capacity
                && Some(final(self).table@) == chain(
                old(self).table@,
                secondary(old(self).capacity as nat, old(pending)@[0].0),
                old(pending)@[0],
                old(self).capacity as nat,
            ),
    {
        let ghost u = self@.union_prefer_right(pairs_map(pending@));
        let ghost cap0 = self.capacity as nat;
        let ghost t0 = self.table@;
        let ghost x0 = pending@[0];
        let ghost goal = chain(t0, secondary(cap0, x0.0), x0, cap0);
        let ghost special = pending@.len() == 1 && t0[primary(cap0, x0.0)] is Some && goal is Some;
        let ghost mut phase: int = 0;
        let mut carry: Option<(usize, Vec<char>)> = None;
        let mut target: usize = 0;
        let mut steps: usize = 0;
        loop
            invariant
                self.wf(),
                keys_unique(pair_entries(pending@)),
                no_common_key(self@, pairs_map(pending@)),
                carry is Some ==> !self@.contains_key(carry.unwrap().0) && !pairs_map(
                    pending@,
                ).contains_key(carry.unwrap().0) && target < self.capacity && (target == primary(
                    self.capacity as nat,
                    carry.unwrap().0,
                ) || target == secondary(self.capacity as nat, carry.unwrap().0))
                    && steps < self.capacity,
                with_carry(self@.union_prefer_right(pairs_map(pending@)), carry) == u,
                u == old(self)@.union_prefer_right(pairs_map(old(pending)@)),
                doubled_from(old(self).capacity as nat, self.capacity as nat),
                0 < old(self).capacity,
                cap0 == old(self).capacity,
                t0 == old(self).table@,
                x0 == old(pending)@[0],
                goal == chain(t0, secondary(cap0, x0.0), x0, cap0),
                special == (old(pending)@.len() == 1 && t0[primary(cap0, x0.0)] is Some && goal is Some),
                special ==> 0 <= phase <= 2,
                special && phase == 0 ==> carry is None && pending@ == old(pending)@ && self.table@
                    == t0 && self.capacity == cap0,
                special && phase == 1 ==> carry is Some && pending@.len() == 0 && self.capacity == cap0
                    && steps < cap0 && chain(self.table@, target as int, carry.unwrap(), (cap0 - steps) as nat)
                    == goal,
                special && phase == 2 ==> carry is None && pending@.len() == 0 && self.capacity == cap0
                    && goal == Some(self.table@),
            decreases MAX_CAPACITY - self.capacity,
                pending@.len() + (if carry is Some {
                    1int
                } else {
                    0int
                }),
                (if carry is Some {
                    self.capacity - steps
                } else {
                    self.capacity + 1
                }),
        {
            let ghost queued = pending@;
            let ghost e0 = two_entries(self.table@);
            let ghost cur_cap = self.capacity as nat;
            match carry {
                None => {
                    let next = pending.pop();
                    match next {
                        None => {
                            proof {
                                assert(self@.union_prefer_right(pairs_map(pending@)) =~= self@);
                            }
                            return ;
                        },
                        Some((k, v)) => {
                            proof {
                                lemma_pairs_pop(queued);
                                assert(queued.last() == (k, v));
                                lemma_absent_everywhere(e0, k);
                                lemma_live_count_bound(e0);
                            }
                            let primary_index = self.get_primary_index(k);
                            if self.table[primary_index].is_none() {
                                proof {
                                    if special {
                                        assert(phase == 0);
                                        assert((k, v) == x0);
                                    }
                                    self.lemma_put(primary_index as int, k, v);
                                    assert(contents(two_entries(
                                        self.table@.update(primary_index as int, Some((k, v))),
                                    )).union_prefer_right(pairs_map(pending@)) =~= u);
                                    assert forall|q: usize| !(#[trigger] contents(two_entries(
                                        self.table@.update(primary_index as int, Some((k, v))),
                                    )).contains_key(q) && pairs_map(pending@).contains_key(q)) by {
                                        assert(!(self@.contains_key(q) && pairs_map(queued).contains_key(q)));
                                    }
                                }
                                self.table.set(primary_index, Some((k, v)));
                                self.size = self.size + 1;
                                proof {
                                    lemma_live_count_bound(two_entries(self.table@));
                                }
                            } else {
                                proof {
                                    assert(with_carry(
                                        self@.union_prefer_right(pairs_map(pending@)),
                                        Some((k, v)),
                                    ) =~= u);
                                }
                                target = self.get_secondary_index(k);
                                proof {
                                    if special {
                                        assert(phase == 0);
                                        assert((k, v) == x0);
                                        phase = 1;
                                    }
                                }
                                carry = Some((k, v));
                                steps = 0;
                            }
                        },
                    }
                },
                Some((k, v)) => {
                    proof {
                        lemma_absent_everywhere(e0, k);
                    }
                    if self.table[target].is_none() {
                        proof {
                            self.lemma_put(target as int, k, v);
                            assert(contents(two_entries(
                                self.table@.update(target as int, Some((k, v))),
                            )).union_prefer_right(pairs_map(pending@)) =~= u);
                            assert forall|q: usize| !(#[trigger] contents(two_entries(
                                self.table@.update(target as int, Some((k, v))),
                            )).contains_key(q) && pairs_map(pending@).contains_key(q)) by {
                                assert(!(self@.contains_key(q) && pairs_map(queued).contains_key(q)));
                            }
                            lemma_live_count_bound(e0);
                        }
                        self.table.set(target, Some((k, v)));
                        self.size = self.size + 1;
                        carry = None;
                        proof {
                            if special {
                                phase = 2;
                            }
                        }
                    } else {
                        let ghost z = self.table@[target as int].unwrap();
                        let ghost pre = self.table@;
                        let ghost fuel = (cap0 - steps) as nat;
                        proof {
                            lemma_contents_at(e0, target as int);
                            self.lemma_put(target as int, k, v);
                            let e1 = two_entries(self.table@.update(target as int, Some((k, v))));
                            assert forall|j: int| !holds_key(e1, j, z.0) by {
                                if 0 <= j < e1.len() && j != target && holds_key(e1, j, z.0) {
                                    assert(e0[j] is Some && e0[target as int] is Some);
                                }
                            }
                            assert(!contents(e1).contains_key(z.0));
                            assert(with_carry(
                                contents(e1).union_prefer_right(pairs_map(pending@)),
                                Some(z),
                            ) =~= u);
                            assert forall|q: usize| !(#[trigger] contents(e1).contains_key(q)
                                && pairs_map(pending@).contains_key(q)) by {
                                assert(!(self@.contains_key(q) && pairs_map(queued).contains_key(q)));
                            }
                            assert(!pairs_map(pending@).contains_key(z.0));
                        }
                        let mut slot = Some((k, v));
                        self.table.set_and_swap(target, &mut slot);
                        match slot {
                            Some((evicted_key, evicted_value)) => {
                                let evicted_primary = self.get_primary_index(evicted_key);
                                let evicted_secondary = self.get_secondary_index(evicted_key);
                                let next_target = if target == evicted_primary {
                                    evicted_secondary
                                } else {
                                    evicted_primary
                                };
                                steps = steps + 1;
                                proof {
                                    if special {
                                        assert(phase == 1);
                                        assert(fuel > 1);
                                        assert(chain(pre, target as int, (k, v), fuel) == chain(
                                            self.table@,
                                            next_target as int,
                                            (evicted_key, evicted_value),
                                            (fuel - 1) as nat,
                                        ));
                                    }
                                }
                                if steps >= self.capacity {
                                    proof {
                                        lemma_pairs_push(queued, (evicted_key, evicted_value));
                                        assert(self@.union_prefer_right(
                                            pairs_map(queued.push((evicted_key, evicted_value))),
                                        ) =~= u);
                                        assert forall|q: usize| !(#[trigger] self@.contains_key(q)
                                            && pairs_map(queued.push((evicted_key, evicted_value))).contains_key(
                                            q,
                                        )) by {}
                                    }
                                    pending.push((evicted_key, evicted_value));
                                    carry = None;
                                    if self.capacity > MAX_CAPACITY / 2 {
                                        return ;
                                    }
                                    let new_capacity = self.capacity * 2;
                                    proof {
                                        lemma_doubled_step(old(self).capacity as nat, cur_cap);
                                        assert forall|q: usize| !(#[trigger] Map::<usize, Seq<char>>::empty().contains_key(q)
                                            && pairs_map(pending@).contains_key(q)) by {}
                                    }
                                    self.grow(pending, new_capacity);
                                    proof {
                                        assert(self@.union_prefer_right(pairs_map(pending@)) =~= u);
                                    }
                                    steps = 0;
                                } else {
                                    carry = Some((evicted_key, evicted_value));
                                    target = next_target;
                                }
                            },
                            None => {
                                return ;
                            },
                        }
                    }
                },
            }
        }
    }

    /// Rebuilds the table with `new_capacity` slots, placing every entry
    /// again. A capacity below the current one is refused (`None`) and
    /// leaves the table as it was. Otherwise the result lists the entries
    /// that could not be placed, which is empty unless the capacity reached
    /// the point where it cannot double again.
    pub fn resize_to(&mut self, new_capacity: usize) -> (r: Option<Vec<(usize, Vec<char>)>>)
        requires
            old(self).wf(),
            new_capacity <= MAX_CAPACITY,
        ensures
            final(self).wf(),
            r is None <==> new_capacity < old(self).spec_capacity(),
            r is None ==> *final(self) == *old(self),
            match r {
                Some(unplaced) => {
                    &&& keys_unique(pair_entries(unplaced@))
                    &&& no_common_key(final(self)@, pairs_map(unplaced@))
                    &&& final(self)@.union_prefer_right(pairs_map(unplaced@)) == old(self)@
                    &&& unplaced@.len() > 0 ==> final(self).spec_capacity() * 2 > MAX_CAPACITY
                    &&& doubled_from(new_capacity as nat, final(self).spec_capacity())
                },
                None => true,
            },
    {
        if new_capacity < self.capacity {
            return None;
        }
        let mut pending: Vec<(usize, Vec<char>)> = Vec::new();
        proof {
            lemma_no_live(pair_entries(pending@));
            assert(self@.union_prefer_right(pairs_map(pending@)) =~= self@);
        }
        self.grow(&mut pending, new_capacity);
        proof {
            assert(self@.union_prefer_right(pairs_map(pending@)) =~= pairs_map(pending@));
        }
        self.settle(&mut pending);
        Some(pending)
    }

    /// Doubles the capacity, placing every entry again; the result lists the
    /// entries that could not be placed, as for `resize_to`.
    pub fn resize(&mut self) -> (unplaced: Vec<(usize, Vec<char>)>)
        requires
            old(self).wf(),
            old(self).spec_capacity() * 2 <= MAX_CAPACITY,
        ensures
            final(self).wf(),
            keys_unique(pair_entries(unplaced@)),
            no_common_key(final(self)@, pairs_map(unplaced@)),
            final(self)@.union_prefer_right(pairs_map(unplaced@)) == old(self)@,
            unplaced@.len() > 0 ==> final(self).spec_capacity() * 2 > MAX_CAPACITY,
            doubled_from(old(self).spec_capacity() * 2, final(self).spec_capacity()),
    {
        match self.resize_to(self.capacity * 2) {
            Some(unplaced) => unplaced,
            None => Vec::new(),
        }
    }

    /// Inserts or overwrites `key`. A full table first doubles its
    /// capacity. A key already present is overwritten in its slot; a new
    /// key goes to its primary slot if that is free, else to its secondary
    /// slot if that is free, else starts a displacement chain at its
    /// secondary slot. The result lists the entries that could not be
    /// placed, which is empty unless the capacity reached the point where it
    /// cannot double again. On a table that is not full, when the key is
    /// present or one of its two slots is free, only that slot changes and
    /// the capacity stays; when both are taken and the displacement chain
    /// (`chain`) meets an empty slot within `capacity` evictions, the slots
    /// become what the chain leaves and the capacity stays.
    pub fn insert(&mut self, key: usize, value: Vec<char>) -> (unplaced: Vec<(usize, Vec<char>)>)
        requires
            old(self).wf(),
            old(self).can_insert(),
        ensures
            final(self).wf(),
            keys_unique(pair_entries(unplaced@)),
            no_common_key(final(self)@, pairs_map(unplaced@)),
            final(self)@.union_prefer_right(pairs_map(unplaced@)) == old(self)@.insert(key, value@),
            unplaced@.len() > 0 ==> final(self).spec_capacity() * 2 > MAX_CAPACITY,
            doubled_from(
                if old(self)@.len() >= old(self).spec_capacity() {
                    old(self).spec_capacity() * 2
                } else {
                    old(self).spec_capacity()
                },
                final(self).spec_capacity(),
            ),
            old(self)@.len() < old(self).spec_capacity() && (old(self)@.contains_key(key)
                || old(self).slots()[primary(old(self).spec_capacity(), key)] is None
                || old(self).slots()[secondary(old(self).spec_capacity(), key)] is None) ==> {
                &&& unplaced@.len() == 0
                &&& final(self).spec_capacity() == old(self).spec_capacity()
                &&& final(self)@ == old(self)@.insert(key, value@)
                &&& final(self).slots() == old(self).slots().update(
                    direct_target(old(self).slots(), key),
                    Some((key, value)),
                )
            },
            old(self)@.len() < old(self).spec_capacity() && !old(self)@.contains_key(key)
                && old(self).slots()[primary(old(self).spec_capacity(), key)] is Some
                && old(self).slots()[secondary(old(self).spec_capacity(), key)] is Some && chain(
                old(self).slots(),
                secondary(old(self).spec_capacity(), key),
                (key, value),
                old(self).spec_capacity(),
            ) is Some ==> {
                &&& unplaced@.len() == 0
                &&& final(self).spec_capacity() == old(self).spec_capacity()
                &&& final(self)@ == old(self)@.insert(key, value@)
                &&& Some(final(self).slots()) == chain(
                    old(self).slots(),
                    secondary(old(self).spec_capacity(), key),
                    (key, value),
                    old(self).spec_capacity(),
                )
            },
    {
        proof {
            lemma_live_count_is_len(two_entries(self.table@));
            lemma_live_count_bound(two_entries(self.table@));
        }
        let ghost target = self@.insert(key, value@);
        let ghost e0 = two_entries(self.table@);
        let mut pending: Vec<(usize, Vec<char>)> = Vec::new();
        let full = self.size >= self.capacity;
        let found_index = self.find_index_for_key_if_exists(key);
        proof {
            lemma_no_live(pair_entries(pending@));
            assert(self@.union_prefer_right(pairs_map(pending@)) =~= self@);
        }
        match found_index {
            Some(i) => {
                proof {
                    assert forall|j: int| j != i implies !holds_key(e0, j, key) by {
                        if holds_key(e0, j, key) && 0 <= j < e0.len() {
                            assert(e0[i as int] is Some);
                        }
                    }
                    let p = primary(self.capacity as nat, key);
                    if self.table@[p] is Some && self.table@[p].unwrap().0 == key {
                        assert(e0[p] is Some && e0[i as int] is Some);
                    }
                    assert(direct_target(self.table@, key) == i);
                    self.lemma_put(i as int, key, value);
                    assert(crate::entries::contents_after(contents(e0), e0[i as int], Some((key, value@)))
                        =~= target);
                    assert(target.union_prefer_right(pairs_map(pending@)) =~= target);
                }
                self.table.set(i, Some((key, value)));
                if !full {
                    return pending;
                }
            },
            None => {
                proof {
                    lemma_absent_everywhere(e0, key);
                }
                if !full {
                    let primary_index = self.get_primary_index(key);
                    let secondary_index = self.get_secondary_index(key);
                    proof {
                        assert(!holds_key(e0, primary_index as int, key));
                        assert(!holds_key(e0, secondary_index as int, key));
                    }
                    if self.table[primary_index].is_none() {
                        proof {
                            self.lemma_put(primary_index as int, key, value);
                            assert(crate::entries::contents_after(contents(e0), None, Some((key, value@)))
                                =~= target);
                            assert(target.union_prefer_right(pairs_map(pending@)) =~= target);
                        }
                        self.table.set(primary_index, Some((key, value)));
                        self.size = self.size + 1;
                        return pending;
                    }
                    if self.table[secondary_index].is_none() {
                        proof {
                            self.lemma_put(secondary_index as int, key, value);
                            assert(crate::entries::contents_after(contents(e0), None, Some((key, value@)))
                                =~= target);
                            assert(target.union_prefer_right(pairs_map(pending@)) =~= target);
                        }
                        self.table.set(secondary_index, Some((key, value)));
                        self.size = self.size + 1;
                        return pending;
                    }
                }
                proof {
                    lemma_pairs_push(pending@, (key, value));
                }
                pending.push((key, value));
                proof {
                    assert(self@.union_prefer_right(pairs_map(pending@)) =~= target);
                }
            },
        }
        if full {
            let new_capacity = self.capacity * 2;
            self.grow(&mut pending, new_capacity);
            proof {
                assert(self@.union_prefer_right(pairs_map(pending@)) =~= target);
            }
        }
        self.settle(&mut pending);
        proof {
            if pending@.len() == 0 {
                lemma_no_live(pair_entries(pending@));
                assert(self@.union_prefer_right(pairs_map(pending@)) =~= self@);
            }
        }
        pending
    }
}

} // verus!
