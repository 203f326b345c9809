//! A Bloom filter over `usize` items: two bits per item, held in a
//! `bitvec` bit-vector.

use vstd::prelude::*;
use bitvec::vec::BitVec;
use crate::counting_bloom_filter::{first_hash, second_hash};

verus! {

/// A `bitvec` bit-vector, opaque to proofs; `bits_of` names what it holds.
#[verifier::external_body]
pub struct Bits {
    bits: BitVec,
}

/// The bits a bit-vector holds, in order.
pub uninterp spec fn bits_of(v: Bits) -> Seq<bool>;

/// The most bits a filter may have; bit-vectors of this length can be
/// allocated on every target.
pub const MAX_BITS: usize = 268435456;

/// Relies on `BitVec::repeat`: a bit-vector of `len` copies of one bit.
#[verifier::external_body]
fn repeat_bits(bit: bool, len: usize) -> (r: Bits)
    requires
        len <= MAX_BITS,
    ensures
        bits_of(r) == Seq::new(len as nat, |i: int| bit),
{
    Bits { bits: BitVec::repeat(bit, len) }
}

/// Relies on `BitSlice::set`: writes bit `index`, which must be in range.
#[verifier::external_body]
fn set_bit(v: &mut Bits, index: usize, value: bool)
    requires
        index < bits_of(*old(v)).len(),
    ensures
        bits_of(*final(v)) == bits_of(*old(v)).update(index as int, value),
{
    v.bits.set(index, value);
}

/// Relies on `BitSlice::get`: the bit at `index`, or `None` past the end.
#[verifier::external_body]
fn get_bit(v: &Bits, index: usize) -> (r: Option<bool>)
    ensures
        r == if index < bits_of(*v).len() {
            Some(bits_of(*v)[index as int])
        } else {
            None::<bool>
        },
{
    match v.bits.get(index) {
        Some(bit) => Some(*bit),
        None => None,
    }
}

/// A bit per slot; an item sets two bits and is reported present when both
/// are set.
pub struct BloomFilter {
    filter: Bits,
    capacity: usize,
}

impl BloomFilter {
    /// The bits.
    pub closed spec fn bits(&self) -> Seq<bool> {
        bits_of(self.filter)
    }

    /// The number of bits.
    pub closed spec fn spec_capacity(&self) -> nat {
        self.capacity as nat
    }

    /// The filter's internal consistency.
    pub closed spec fn wf(&self) -> bool {
        self.capacity > 0 && bits_of(self.filter).len() == self.capacity
    }

    /// A well-formed filter has one entry per slot, and at least one slot.
    pub proof fn lemma_wf(&self)
        requires
            self.wf(),
        ensures
            self.bits().len() == self.spec_capacity(),
            self.spec_capacity() > 0,
    {
    }

    /// A filter of `capacity` bits, all clear.
    pub fn new(capacity: usize) -> (r: Self)
        requires
            0 < capacity <= MAX_BITS,
        ensures
            r.wf(),
            r.spec_capacity() == capacity,
            r.bits() == Seq::new(capacity as nat, |i: int| false),
    {
        BloomFilter { filter: repeat_bits(false, capacity), capacity }
    }

    /// The two bits of `item`: `item % capacity` and `(item + 10) % capacity`.
    pub fn get_hashes(&self, item: usize) -> (r: Vec<usize>)
        requires
            self.wf(),
            item <= usize::MAX - 10,
        ensures
            r@ == seq![
                first_hash(self.spec_capacity(), item) as usize,
                second_hash(self.spec_capacity(), item) as usize,
            ],
            0 <= first_hash(self.spec_capacity(), item) < self.spec_capacity(),
            0 <= second_hash(self.spec_capacity(), item) < self.spec_capacity(),
    {
        let r = vec![item % self.capacity, (item + 10) % self.capacity];
        proof {
            assert(r@ =~= seq![
                first_hash(self.spec_capacity(), item) as usize,
                second_hash(self.spec_capacity(), item) as usize,
            ]);
        }
        r
    }

    /// Sets both bits of `item`.
    pub fn insert(&mut self, item: usize)
        requires
            old(self).wf(),
            item <= usize::MAX - 10,
        ensures
            final(self).wf(),
            final(self).spec_capacity() == old(self).spec_capacity(),
            final(self).bits() == old(self).bits().update(
                first_hash(old(self).spec_capacity(), item),
                true,
            ).update(second_hash(old(self).spec_capacity(), item), true),
    {
        let hashes = self.get_hashes(item);
        let ghost b0 = self.bits();
        let mut j: usize = 0;
        while j < hashes.len()
            invariant
                self.wf(),
                self.capacity == old(self).capacity,
                b0 == old(self).bits(),
                hashes@ == seq![
                    first_hash(self.spec_capacity(), item) as usize,
                    second_hash(self.spec_capacity(), item) as usize,
                ],
                0 <= first_hash(self.spec_capacity(), item) < self.spec_capacity(),
                0 <= second_hash(self.spec_capacity(), item) < self.spec_capacity(),
                j <= 2,
                j == 0 ==> self.bits() == b0,
                j == 1 ==> self.bits() == b0.update(first_hash(self.spec_capacity(), item), true),
                j == 2 ==> self.bits() == b0.update(first_hash(self.spec_capacity(), item), true).update(
                    second_hash(self.spec_capacity(), item),
                    true,
                ),
            decreases 2 - j,
        {
            set_bit(&mut self.filter, hashes[j], true);
            j = j + 1;
        }
    }

    /// Whether both bits of `item` are set: always so for an inserted item,
    /// sometimes so for others.
    pub fn contains(&self, item: usize) -> (r: bool)
        requires
            self.wf(),
            item <= usize::MAX - 10,
        ensures
            r == (self.bits()[first_hash(self.spec_capacity(), item)] && self.bits()[second_hash(
                self.spec_capacity(),
                item,
            )]),
    {
        let hashes = self.get_hashes(item);
        let mut j: usize = 0;
        while j < hashes.len()
            invariant
                self.wf(),
                hashes@ == seq![
                    first_hash(self.spec_capacity(), item) as usize,
                    second_hash(self.spec_capacity(), item) as usize,
                ],
                0 <= first_hash(self.spec_capacity(), item) < self.spec_capacity(),
                0 <= second_hash(self.spec_capacity(), item) < self.spec_capacity(),
                j <= 2,
                forall|m: int| 0 <= m < j ==> self.bits()[#[trigger] hashes@[m] as int],
            decreases 2 - j,
        {
            let bitval_opt = get_bit(&self.filter, hashes[j]);
            match bitval_opt {
                Some(true) => {},
                _ => {
                    return false;
                },
            }
            j = j + 1;
        }
        proof {
            assert(self.bits()[hashes@[0] as int]);
            assert(self.bits()[hashes@[1] as int]);
        }
        true
    }
}

/// Inserts ten items into a filter of 100 bits and checks that each is
/// reported present, together with two items whose bits they share.
pub fn run() {
    let mut bloom_filter = BloomFilter::new(100);
    bloom_filter.insert(1);
    bloom_filter.insert(2);
    bloom_filter.insert(3);
    bloom_filter.insert(4);
    bloom_filter.insert(5);
    bloom_filter.insert(6);
    bloom_filter.insert(15);
    bloom_filter.insert(16);
    bloom_filter.insert(35);
    bloom_filter.insert(36);
    let present = bloom_filter.contains(1) && bloom_filter.contains(2) && bloom_filter.contains(3)
        && bloom_filter.contains(4) && bloom_filter.contains(5) && bloom_filter.contains(6)
        && bloom_filter.contains(15) && bloom_filter.contains(16) && bloom_filter.contains(35)
        && bloom_filter.contains(36);
    assert(present);
    let false_positives = bloom_filter.contains(25) && bloom_filter.contains(26);
    assert(false_positives);
}

} // verus!
