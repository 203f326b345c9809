//! A counting Bloom filter over `usize` items: two counters per item, so
//! that items can be removed again.

use vstd::prelude::*;

verus! {

/// The first counter of `item`.
pub open spec fn first_hash(cap: nat, item: usize) -> int {
    (item as int) % (cap as int)
}

/// The second counter of `item`.
pub open spec fn second_hash(cap: nat, item: usize) -> int {
    (item as int + 10) % (cap as int)
}

/// `c` with counter `h` raised by `d`.
pub open spec fn bump(c: Seq<usize>, h: int, d: int) -> Seq<usize> {
    c.update(h, (c[h] + d) as usize)
}

/// Counters that count how many times each item's two counters were
/// raised; an item is reported present when both are above zero.
pub struct CountingBloomFilter {
    filter: Vec<usize>,
    capacity: usize,
}

impl CountingBloomFilter {
    /// The counters.
    pub closed spec fn counts(&self) -> Seq<usize> {
        self.filter@
    }

    /// The number of counters.
    pub closed spec fn spec_capacity(&self) -> nat {
        self.capacity as nat
    }

    /// The filter's internal consistency.
    pub closed spec fn wf(&self) -> bool {
        self.capacity > 0 && self.filter@.len() == self.capacity
    }

    /// A well-formed filter has one entry per slot, and at least one slot.
    pub proof fn lemma_wf(&self)
        requires
            self.wf(),
        ensures
            self.counts().len() == self.spec_capacity(),
            self.spec_capacity() > 0,
    {
    }

    /// A filter of `capacity` counters, all zero.
    pub fn new(capacity: usize) -> (r: Self)
        requires
            capacity > 0,
        ensures
            r.wf(),
            r.spec_capacity() == capacity,
            r.counts() == Seq::new(capacity as nat, |i: int| 0usize),
    {
        let mut filter: Vec<usize> = Vec::new();
        while filter.len() < capacity
            invariant
                filter@.len() <= capacity,
                forall|i: int| 0 <= i < filter@.len() ==> #[trigger] filter@[i] == 0,
            decreases capacity - filter@.len(),
        {
            filter.push(0);
        }
        proof {
            assert(filter@ =~= Seq::new(capacity as nat, |i: int| 0usize));
        }
        CountingBloomFilter { filter, capacity }
    }

    /// The two counters of `item`: `item % capacity` and
    /// `(item + 10) % capacity`.
    pub fn get_hashes(&self, item: usize) -> (r: Vec<usize>)
        requires
            self.wf(),
            item <= usize::MAX - 10,
        ensures
            r@ == seq![
                first_hash(self.spec_capacity(), item) as usize,
                second_hash(self.spec_capacity(), item) as usize,
            ],
            0 <= first_hash(self.spec_capacity(), item) < self.spec_capacity(),
            0 <= second_hash(self.spec_capacity(), item) < self.spec_capacity(),
    {
        let r = vec![item % self.capacity, (item + 10) % self.capacity];
        proof {
            assert(r@ =~= seq![
                first_hash(self.spec_capacity(), item) as usize,
                second_hash(self.spec_capacity(), item) as usize,
            ]);
        }
        r
    }

    /// Raises both counters of `item`.
    pub fn insert(&mut self, item: usize)
        requires
            old(self).wf(),
            item <= usize::MAX - 10,
            old(self).counts()[first_hash(old(self).spec_capacity(), item)] < usize::MAX - 1,
            old(self).counts()[second_hash(old(self).spec_capacity(), item)] < usize::MAX - 1,
        ensures
            final(self).wf(),
            final(self).spec_capacity() == old(self).spec_capacity(),
            final(self).counts() == bump(
                bump(old(self).counts(), first_hash(old(self).spec_capacity(), item), 1),
                second_hash(old(self).spec_capacity(), item),
                1,
            ),
    {
        let hashes = self.get_hashes(item);
        let ghost c0 = self.filter@;
        let mut j: usize = 0;
        while j < hashes.len()
            invariant
                self.wf(),
                self.capacity == old(self).capacity,
                c0 == old(self).filter@,
                c0.len() == self.capacity,
                hashes@ == seq![
                    first_hash(self.spec_capacity(), item) as usize,
                    second_hash(self.spec_capacity(), item) as usize,
                ],
                0 <= first_hash(self.spec_capacity(), item) < self.spec_capacity(),
                0 <= second_hash(self.spec_capacity(), item) < self.spec_capacity(),
                c0[first_hash(self.spec_capacity(), item)] < usize::MAX - 1,
                c0[second_hash(self.spec_capacity(), item)] < usize::MAX - 1,
                j <= 2,
                j == 0 ==> self.filter@ == c0,
                j == 1 ==> self.filter@ == bump(c0, first_hash(self.spec_capacity(), item), 1),
                j == 2 ==> self.filter@ == bump(
                    bump(c0, first_hash(self.spec_capacity(), item), 1),
                    second_hash(self.spec_capacity(), item),
                    1,
                ),
            decreases 2 - j,
        {
            let hash = hashes[j];
            proof {
                let c1 = bump(c0, first_hash(self.spec_capacity(), item), 1);
                assert(j == 1 ==> hash as int == second_hash(self.spec_capacity(), item));
                assert(j == 1 ==> c1[second_hash(self.spec_capacity(), item)] < usize::MAX);
            }
            let count = self.filter[hash];
            self.filter.set(hash, count + 1);
            j = j + 1;
        }
    }

    /// Lowers both counters of `item`.
    pub fn remove(&mut self, item: usize)
        requires
            old(self).wf(),
            item <= usize::MAX - 10,
            bump(
                old(self).counts(),
                first_hash(old(self).spec_capacity(), item),
                -1,
            )[second_hash(old(self).spec_capacity(), item)] >= 1,
            old(self).counts()[first_hash(old(self).spec_capacity(), item)] >= 1,
        ensures
            final(self).wf(),
            final(self).spec_capacity() == old(self).spec_capacity(),
            final(self).counts() == bump(
                bump(old(self).counts(), first_hash(old(self).spec_capacity(), item), -1),
                second_hash(old(self).spec_capacity(), item),
                -1,
            ),
    {
        let hashes = self.get_hashes(item);
        let ghost c0 = self.filter@;
        let mut j: usize = 0;
        while j < hashes.len()
            invariant
                self.wf(),
                self.capacity == old(self).capacity,
                c0 == old(self).filter@,
                c0.len() == self.capacity,
                hashes@ == seq![
                    first_hash(self.spec_capacity(), item) as usize,
                    second_hash(self.spec_capacity(), item) as usize,
                ],
                0 <= first_hash(self.spec_capacity(), item) < self.spec_capacity(),
                0 <= second_hash(self.spec_capacity(), item) < self.spec_capacity(),
                c0[first_hash(self.spec_capacity(), item)] >= 1,
                bump(c0, first_hash(self.spec_capacity(), item), -1)[second_hash(
                    self.spec_capacity(),
                    item,
                )] >= 1,
                j <= 2,
                j == 0 ==> self.filter@ == c0,
                j == 1 ==> self.filter@ == bump(c0, first_hash(self.spec_capacity(), item), -1),
                j == 2 ==> self.filter@ == bump(
                    bump(c0, first_hash(self.spec_capacity(), item), -1),
                    second_hash(self.spec_capacity(), item),
                    -1,
                ),
            decreases 2 - j,
        {
            let hash = hashes[j];
            let count = self.filter[hash];
            self.filter.set(hash, count - 1);
            j = j + 1;
        }
    }

    /// Whether both counters of `item` are above zero: always so for an
    /// item inserted and not removed, sometimes so for others.
    pub fn contains(&self, item: usize) -> (r: bool)
        requires
            self.wf(),
            item <= usize::MAX - 10,
        ensures
            r == (self.counts()[first_hash(self.spec_capacity(), item)] > 0 && self.counts()[second_hash(
                self.spec_capacity(),
                item,
            )] > 0),
    {
        let hashes = self.get_hashes(item);
        let mut j: usize = 0;
        while j < hashes.len()
            invariant
                self.wf(),
                hashes@ == seq![
                    first_hash(self.spec_capacity(), item) as usize,
                    second_hash(self.spec_capacity(), item) as usize,
                ],
                0 <= first_hash(self.spec_capacity(), item) < self.spec_capacity(),
                0 <= second_hash(self.spec_capacity(), item) < self.spec_capacity(),
                j <= 2,
                forall|m: int| 0 <= m < j ==> self.counts()[#[trigger] hashes@[m] as int] > 0,
            decreases 2 - j,
        {
            if self.filter[hashes[j]] == 0 {
                return false;
            }
            j = j + 1;
        }
        proof {
            assert(self.counts()[hashes@[0] as int] > 0);
            assert(self.counts()[hashes@[1] as int] > 0);
        }
        true
    }
}

/// Inserts ten items into a filter of 100 counters, checks that each is
/// reported present together with two items that share their counters,
/// then removes two items and checks that those four are reported absent.
pub fn run() {
    let mut counting_bloom_filter = CountingBloomFilter::new(100);
    counting_bloom_filter.insert(1);
    counting_bloom_filter.insert(2);
    counting_bloom_filter.insert(3);
    counting_bloom_filter.insert(4);
    counting_bloom_filter.insert(5);
    counting_bloom_filter.insert(6);
    counting_bloom_filter.insert(15);
    counting_bloom_filter.insert(16);
    counting_bloom_filter.insert(35);
    counting_bloom_filter.insert(36);
    let present = counting_bloom_filter.contains(1) && counting_bloom_filter.contains(2)
        && counting_bloom_filter.contains(3) && counting_bloom_filter.contains(4)
        && counting_bloom_filter.contains(5) && counting_bloom_filter.contains(6)
        && counting_bloom_filter.contains(15) && counting_bloom_filter.contains(16)
        && counting_bloom_filter.contains(35) && counting_bloom_filter.contains(36);
    assert(present);
    let false_positives = counting_bloom_filter.contains(25) && counting_bloom_filter.contains(26);
    assert(false_positives);
    counting_bloom_filter.remove(35);
    counting_bloom_filter.remove(36);
    let gone = !counting_bloom_filter.contains(35) && !counting_bloom_filter.contains(36)
        && !counting_bloom_filter.contains(25) && !counting_bloom_filter.contains(26);
    assert(gone);
}

} // verus!
