//! Linear probe positions: where the `t`-th probe for a key lands in a table
//! of `cap` slots, and how far a slot lies from a key's preferred index.

use vstd::prelude::*;

verus! {

/// The largest capacity a table may reach; positions up to twice this fit
/// in a `usize` on every target.
pub const MAX_CAPACITY: usize = 1073741824;

/// The preferred index of `key`: the slot it would take with no collision.
pub open spec fn home(cap: nat, key: usize) -> int {
    (key as int) % (cap as int)
}

/// The slot reached `t` steps after the preferred index of `key`, wrapping
/// round the end of the array.
pub open spec fn probe_at(cap: nat, key: usize, t: int) -> int {
    (home(cap, key) + t) % (cap as int)
}

/// How many steps slot `i` lies after the preferred index of `key`.
pub open spec fn dist(cap: nat, key: usize, i: int) -> int {
    (i + cap - home(cap, key)) % (cap as int)
}

/// Probe positions and distances invert each other on `0..cap`.
pub proof fn lemma_probe_dist(cap: nat, key: usize, t: int)
    requires
        cap > 0,
        0 <= t < cap,
    ensures
        0 <= home(cap, key) < cap,
        0 <= probe_at(cap, key, t) < cap,
        dist(cap, key, probe_at(cap, key, t)) == t,
        probe_at(cap, key, t) == if home(cap, key) + t < cap {
            home(cap, key) + t
        } else {
            home(cap, key) + t - cap
        },
{
    let c = cap as int;
    let h = home(cap, key);
    vstd::arithmetic::div_mod::lemma_mod_pos_bound(key as int, c);
    let s = h + t;
    if s < c {
        vstd::arithmetic::div_mod::lemma_small_mod(s as nat, cap);
    } else {
        vstd::arithmetic::div_mod::lemma_mod_sub_multiples_vanish(s, c);
        vstd::arithmetic::div_mod::lemma_small_mod((s - c) as nat, cap);
    }
    let p = probe_at(cap, key, t);
    let q = p + c - h;
    if q < c {
        vstd::arithmetic::div_mod::lemma_small_mod(q as nat, cap);
    } else {
        vstd::arithmetic::div_mod::lemma_mod_sub_multiples_vanish(q, c);
        vstd::arithmetic::div_mod::lemma_small_mod((q - c) as nat, cap);
    }
}

/// Every slot is reached by some probe of every key.
pub proof fn lemma_dist_probe(cap: nat, key: usize, i: int)
    requires
        cap > 0,
        0 <= i < cap,
    ensures
        0 <= dist(cap, key, i) < cap,
        probe_at(cap, key, dist(cap, key, i)) == i,
{
    let c = cap as int;
    let h = home(cap, key);
    vstd::arithmetic::div_mod::lemma_mod_pos_bound(key as int, c);
    let q = i + c - h;
    if q < c {
        vstd::arithmetic::div_mod::lemma_small_mod(q as nat, cap);
    } else {
        vstd::arithmetic::div_mod::lemma_mod_sub_multiples_vanish(q, c);
        vstd::arithmetic::div_mod::lemma_small_mod((q - c) as nat, cap);
    }
    let d = dist(cap, key, i);
    lemma_probe_dist(cap, key, d);
}

/// The slot after `i`, wrapping round the end of the array.
pub open spec fn next_slot(cap: nat, i: int) -> int {
    if i + 1 < cap {
        i + 1
    } else {
        0
    }
}

/// The slot before `i`, wrapping round the start of the array.
pub open spec fn prev_slot(cap: nat, i: int) -> int {
    if i > 0 {
        i - 1
    } else {
        cap - 1
    }
}

/// `(i + 1) % cap` is the next slot, and the slot before it is `i`.
pub proof fn lemma_next_slot(cap: nat, i: int)
    requires
        0 <= i < cap,
    ensures
        (i + 1) % (cap as int) == next_slot(cap, i),
        0 <= next_slot(cap, i) < cap,
        prev_slot(cap, next_slot(cap, i)) == i,
{
    if i + 1 < cap {
        vstd::arithmetic::div_mod::lemma_small_mod((i + 1) as nat, cap);
    } else {
        vstd::arithmetic::div_mod::lemma_mod_self_0(cap as int);
    }
}

/// Consecutive probes of a key land in consecutive slots.
pub proof fn lemma_probe_next(cap: nat, key: usize, t: int)
    requires
        0 <= t,
        t + 1 < cap,
    ensures
        next_slot(cap, probe_at(cap, key, t)) == probe_at(cap, key, t + 1),
        prev_slot(cap, probe_at(cap, key, t + 1)) == probe_at(cap, key, t),
{
    lemma_probe_dist(cap, key, t);
    lemma_probe_dist(cap, key, t + 1);
    lemma_next_slot(cap, probe_at(cap, key, t));
}

/// Two probes of one key within `0..cap` land in the same slot only when
/// they are the same probe.
pub proof fn lemma_probe_injective(cap: nat, key: usize, t: int, u: int)
    requires
        0 <= t < cap,
        0 <= u < cap,
        probe_at(cap, key, t) == probe_at(cap, key, u),
    ensures
        t == u,
{
    lemma_probe_dist(cap, key, t);
    lemma_probe_dist(cap, key, u);
}

/// The least `t` in `0..n` where `f` holds, or `n` when there is none.
pub open spec fn first_where(n: int, f: spec_fn(int) -> bool) -> int
    decreases n,
{
    if n <= 0 {
        0
    } else {
        let p = first_where(n - 1, f);
        if p < n - 1 {
            p
        } else if f(n - 1) {
            n - 1
        } else {
            n
        }
    }
}

/// `first_where` lies in `0..=n`, `f` fails before it, and holds at it when
/// it is below `n`.
pub proof fn lemma_first_where(n: int, f: spec_fn(int) -> bool)
    requires
        n >= 0,
    ensures
        0 <= first_where(n, f) <= n,
        first_where(n, f) < n ==> f(first_where(n, f)),
        forall|t: int| 0 <= t < first_where(n, f) ==> !#[trigger] f(t),
    decreases n,
{
    if n > 0 {
        lemma_first_where(n - 1, f);
    }
}

/// Once found below `n`, the first `t` stays the same for every larger bound.
pub proof fn lemma_first_where_stable(n: int, m: int, f: spec_fn(int) -> bool)
    requires
        0 <= n <= m,
        first_where(n, f) < n,
    ensures
        first_where(m, f) == first_where(n, f),
    decreases m - n,
{
    if m > n {
        lemma_first_where_stable(n, m - 1, f);
    }
}

} // verus!
