//! Slots of the tables that delete by leaving a tombstone, and the probe
//! chain property that keeps their lookups correct.

use vstd::prelude::*;
use crate::entries::Entry;
use crate::probing::{dist, first_where, probe_at};

verus! {

/// One slot of a tombstone table.
pub enum TombstoneSlot {
    /// Never written since the slot array was made.
    Empty,
    /// Held an entry that was deleted; probing passes over it.
    Tombstone,
    /// Holds a key and its value.
    Occupied(usize, Vec<char>),
}

impl TombstoneSlot {
    /// The live entry of the slot, if any.
    pub open spec fn entry(&self) -> Entry {
        match self {
            TombstoneSlot::Occupied(k, v) => Some((*k, v@)),
            _ => None,
        }
    }

    /// The key of an occupied slot.
    pub open spec fn key(&self) -> usize {
        match self {
            TombstoneSlot::Occupied(k, _) => *k,
            _ => 0,
        }
    }
}

/// The live entries of a slot array.
pub open spec fn tomb_entries(s: Seq<TombstoneSlot>) -> Seq<Entry> {
    Seq::new(s.len(), |i: int| s[i].entry())
}

/// Every probe for an occupied slot's key, before the probe that reaches the
/// slot, lands on a slot that is not `Empty`: a lookup that stops at the
/// first `Empty` slot cannot miss a present key.
pub open spec fn chains_unbroken(s: Seq<TombstoneSlot>) -> bool {
    forall|i: int, t: int|
        0 <= i < s.len() && s[i] is Occupied && 0 <= t < dist(s.len(), s[i].key(), i) ==> !(s[
            #[trigger] probe_at(s.len(), s[i].key(), t)
        ] is Empty)
}

/// No slot is a tombstone.
pub open spec fn tombstone_free(s: Seq<TombstoneSlot>) -> bool {
    forall|i: int| 0 <= i < s.len() ==> !(#[trigger] s[i] is Tombstone)
}

/// Some slot is `Empty`.
pub open spec fn has_empty(s: Seq<TombstoneSlot>) -> bool {
    exists|i: int| 0 <= i < s.len() && #[trigger] s[i] is Empty
}

/// The slot that probe `t` for `key` reaches.
pub open spec fn probe_slot(s: Seq<TombstoneSlot>, key: usize, t: int) -> TombstoneSlot {
    s[probe_at(s.len() as nat, key, t)]
}

/// Probe `t` for `key` ends the walk: it reaches an `Empty` slot or the key.
pub open spec fn stops_probe(s: Seq<TombstoneSlot>, key: usize) -> spec_fn(int) -> bool {
    |t: int| probe_slot(s, key, t) is Empty || (probe_slot(s, key, t) is Occupied && probe_slot(
        s,
        key,
        t,
    ).key() == key)
}

/// Probe `t` for `key` reaches a tombstone.
pub open spec fn meets_tombstone(s: Seq<TombstoneSlot>, key: usize) -> spec_fn(int) -> bool {
    |t: int| probe_slot(s, key, t) is Tombstone
}

/// The slots after storing `key` with `value` by probing: the walk stops at
/// the first `Empty` slot or the key itself, or passes the whole table. The
/// entry goes into the first tombstone passed on the way, if any, and a
/// copy of the key met further on becomes a tombstone; without a tombstone
/// the entry goes where the walk stopped.
pub open spec fn insert_layout(s: Seq<TombstoneSlot>, key: usize, value: Vec<char>) -> Seq<
    TombstoneSlot,
> {
    let cap = s.len() as nat;
    let st = first_where(cap as int, stops_probe(s, key));
    let tb = first_where(st, meets_tombstone(s, key));
    let x = TombstoneSlot::Occupied(key, value);
    if st < cap && probe_slot(s, key, st) is Occupied {
        if tb < st {
            s.update(probe_at(cap, key, st), TombstoneSlot::Tombstone).update(
                probe_at(cap, key, tb),
                x,
            )
        } else {
            s.update(probe_at(cap, key, st), x)
        }
    } else if tb < st {
        s.update(probe_at(cap, key, tb), x)
    } else {
        s.update(probe_at(cap, key, st), x)
    }
}

/// The slot holding `key`, if some slot does.
pub open spec fn slot_of(s: Seq<TombstoneSlot>, key: usize) -> int {
    choose|i: int| 0 <= i < s.len() && s[i] is Occupied && s[i].key() == key
}

/// Writing a non-`Empty` slot keeps every chain unbroken, provided an
/// occupied slot written is itself reached over non-`Empty` slots.
pub proof fn lemma_chains_write(s: Seq<TombstoneSlot>, p: int, x: TombstoneSlot)
    requires
        chains_unbroken(s),
        0 <= p < s.len(),
        !(x is Empty),
        x is Occupied ==> forall|u: int|
            0 <= u < dist(s.len(), x.key(), p) ==> !(s[#[trigger] probe_at(
                s.len(),
                x.key(),
                u,
            )] is Empty),
    ensures
        chains_unbroken(s.update(p, x)),
        tomb_entries(s.update(p, x)) == tomb_entries(s).update(p, x.entry()),
{
    let f = s.update(p, x);
    assert forall|i: int, t: int|
        0 <= i < f.len() && f[i] is Occupied && 0 <= t < dist(f.len(), f[i].key(), i) implies !(f[
        #[trigger] probe_at(f.len(), f[i].key(), t)
    ] is Empty) by {
        let q = probe_at(f.len(), f[i].key(), t);
        crate::probing::lemma_dist_probe(s.len() as nat, f[i].key(), i);
        crate::probing::lemma_probe_dist(s.len() as nat, f[i].key(), t);
        if q != p {
            if i != p {
                assert(!(s[probe_at(s.len(), s[i].key(), t)] is Empty));
            }
        }
    }
    assert(tomb_entries(f) =~= tomb_entries(s).update(p, x.entry()));
}

} // verus!
