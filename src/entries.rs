//! The abstract contents of a slot array: each slot is either a live
//! `(key, value)` entry or holds nothing that lookups can see.

use vstd::prelude::*;

verus! {

/// A slot as lookups see it: `Some((key, value))` for a live entry.
pub type Entry = Option<(usize, Seq<char>)>;

/// True when slot `i` of `e` holds a live entry for `k`.
pub open spec fn holds_key(e: Seq<Entry>, i: int, k: usize) -> bool {
    0 <= i < e.len() && e[i] is Some && e[i].unwrap().0 == k
}

/// No key is live in two slots.
pub open spec fn keys_unique(e: Seq<Entry>) -> bool {
    forall|i: int, j: int|
        0 <= i < e.len() && 0 <= j < e.len() && i != j && #[trigger] e[i] is Some
            && #[trigger] e[j] is Some ==> e[i].unwrap().0 != e[j].unwrap().0
}

/// The key-to-value map that the live entries of `e` describe.
pub open spec fn contents(e: Seq<Entry>) -> Map<usize, Seq<char>> {
    Map::new(
        |k: usize| exists|i: int| holds_key(e, i, k),
        |k: usize| e[choose|i: int| holds_key(e, i, k)].unwrap().1,
    )
}

/// The number of live entries in `e`.
pub open spec fn live_count(e: Seq<Entry>) -> nat
    decreases e.len(),
{
    if e.len() == 0 {
        0
    } else {
        live_count(e.drop_last()) + if e.last() is Some {
            1nat
        } else {
            0nat
        }
    }
}

/// What `contents` becomes when slot `i` is overwritten with `x`.
pub open spec fn contents_after(m: Map<usize, Seq<char>>, old_entry: Entry, x: Entry) -> Map<
    usize,
    Seq<char>,
> {
    let removed = match old_entry {
        Some(p) => m.remove(p.0),
        None => m,
    };
    match x {
        Some(p) => removed.insert(p.0, p.1),
        None => removed,
    }
}

/// The live entry in slot `i` is what `contents` maps its key to.
pub proof fn lemma_contents_at(e: Seq<Entry>, i: int)
    requires
        keys_unique(e),
        0 <= i < e.len(),
        e[i] is Some,
    ensures
        contents(e).contains_key(e[i].unwrap().0),
        contents(e)[e[i].unwrap().0] == e[i].unwrap().1,
{
    let k = e[i].unwrap().0;
    assert(holds_key(e, i, k));
    let j = choose|j: int| holds_key(e, j, k);
    assert(j == i);
}

/// A key missing from `contents` is in no slot.
pub proof fn lemma_absent_everywhere(e: Seq<Entry>, k: usize)
    requires
        !contents(e).contains_key(k),
    ensures
        forall|i: int| !holds_key(e, i, k),
{
}

/// A key that no slot holds is not in `contents`.
pub proof fn lemma_contents_absent(e: Seq<Entry>, k: usize)
    requires
        forall|i: int| 0 <= i < e.len() ==> !holds_key(e, i, k),
    ensures
        !contents(e).contains_key(k),
{
}

/// Overwriting one slot changes `contents` by removing what the slot held
/// and adding what it now holds.
pub proof fn lemma_contents_update(e: Seq<Entry>, i: int, x: Entry)
    requires
        keys_unique(e),
        0 <= i < e.len(),
        x is Some ==> forall|j: int| j != i ==> !holds_key(e, j, x.unwrap().0),
    ensures
        keys_unique(e.update(i, x)),
        contents(e.update(i, x)) == contents_after(contents(e), e[i], x),
{
    let f = e.update(i, x);
    let m = contents(e);
    let target = contents_after(m, e[i], x);
    assert forall|a: int, b: int|
        0 <= a < f.len() && 0 <= b < f.len() && a != b && #[trigger] f[a] is Some
            && #[trigger] f[b] is Some implies f[a].unwrap().0 != f[b].unwrap().0 by {
        if a == i {
            assert(!holds_key(e, b, x.unwrap().0));
        } else if b == i {
            assert(!holds_key(e, a, x.unwrap().0));
        }
    }
    assert forall|k: usize| #[trigger] contents(f).contains_key(k) <==> target.contains_key(k) by {
        if contents(f).contains_key(k) {
            let j = choose|j: int| holds_key(f, j, k);
            if j != i {
                assert(holds_key(e, j, k));
            }
        }
        if target.contains_key(k) {
            if x is Some && x.unwrap().0 == k {
                assert(holds_key(f, i, k));
            } else {
                let j = choose|j: int| holds_key(e, j, k);
                assert(holds_key(f, j, k));
            }
        }
    }
    assert forall|k: usize| #[trigger] contents(f).contains_key(k) implies contents(f)[k]
        == target[k] by {
        let j = choose|j: int| holds_key(f, j, k);
        lemma_contents_at(f, j);
        if j != i {
            assert(holds_key(e, j, k));
            lemma_contents_at(e, j);
        }
    }
    assert(contents(f) =~= target);
}

/// Overwriting one slot changes the live count by what left and what came.
pub proof fn lemma_live_count_update(e: Seq<Entry>, i: int, x: Entry)
    requires
        0 <= i < e.len(),
    ensures
        live_count(e.update(i, x)) + (if e[i] is Some {
            1int
        } else {
            0int
        }) == live_count(e) + (if x is Some {
            1int
        } else {
            0int
        }),
    decreases e.len(),
{
    let f = e.update(i, x);
    if i == e.len() - 1 {
        assert(f.drop_last() =~= e.drop_last());
    } else {
        assert(f.drop_last() =~= e.drop_last().update(i, x));
        lemma_live_count_update(e.drop_last(), i, x);
    }
}

/// The live count never exceeds the number of slots, and when it is
/// smaller some slot is free.
pub proof fn lemma_live_count_bound(e: Seq<Entry>)
    ensures
        live_count(e) <= e.len(),
        live_count(e) < e.len() ==> exists|i: int| 0 <= i < e.len() && #[trigger] e[i] is None,
    decreases e.len(),
{
    if e.len() > 0 {
        let d = e.drop_last();
        lemma_live_count_bound(d);
        if live_count(e) < e.len() && e.last() is Some {
            let j = choose|j: int| 0 <= j < d.len() && #[trigger] d[j] is None;
            assert(e[j] is None);
        }
        if live_count(e) < e.len() && e.last() is None {
            assert(e[e.len() - 1] is None);
        }
    }
}

/// A slot array with no live entry is empty as a map and counts zero.
pub proof fn lemma_no_live(e: Seq<Entry>)
    requires
        forall|i: int| 0 <= i < e.len() ==> #[trigger] e[i] is None,
    ensures
        live_count(e) == 0,
        keys_unique(e),
        contents(e) == Map::<usize, Seq<char>>::empty(),
    decreases e.len(),
{
    if e.len() > 0 {
        let d = e.drop_last();
        assert forall|i: int| 0 <= i < d.len() implies #[trigger] d[i] is None by {
            assert(e[i] is None);
        }
        lemma_no_live(d);
    }
    assert(contents(e) =~= Map::<usize, Seq<char>>::empty());
}

/// The last slot adds its entry, if any, to the contents of the others.
pub proof fn lemma_contents_push(e: Seq<Entry>)
    requires
        keys_unique(e),
        e.len() > 0,
    ensures
        keys_unique(e.drop_last()),
        e.last() is Some ==> !contents(e.drop_last()).contains_key(e.last().unwrap().0),
        contents(e) == contents_after(contents(e.drop_last()), None, e.last()),
{
    let d = e.drop_last();
    let n = e.len() - 1;
    let f = e.update(n, None);
    assert forall|k: usize| #[trigger] contents(f).contains_key(k) <==> contents(d).contains_key(k) by {
        if contents(f).contains_key(k) {
            let j = choose|j: int| holds_key(f, j, k);
            assert(holds_key(d, j, k));
        }
        if contents(d).contains_key(k) {
            let j = choose|j: int| holds_key(d, j, k);
            assert(holds_key(f, j, k));
        }
    }
    if e.last() is Some {
        let k = e.last().unwrap().0;
        if contents(d).contains_key(k) {
            let j = choose|j: int| holds_key(d, j, k);
            assert(e[j] is Some && e[n] is Some);
        }
        lemma_contents_update(e, n, None);
    }
    lemma_contents_update(f, n, e.last());
    assert(f.update(n, e.last()) =~= e);
    assert forall|k: usize| #[trigger] contents(f).contains_key(k) implies contents(f)[k]
        == contents(d)[k] by {
        let j = choose|j: int| holds_key(f, j, k);
        lemma_contents_at(f, j);
        lemma_contents_at(d, j);
    }
    assert(contents(f) =~= contents(d));
}

/// With unique keys, the map of the contents is finite and has one key per
/// live entry.
pub proof fn lemma_live_count_is_len(e: Seq<Entry>)
    requires
        keys_unique(e),
    ensures
        contents(e).dom().finite(),
        contents(e).len() == live_count(e),
    decreases e.len(),
{
    if e.len() == 0 {
        assert(contents(e) =~= Map::<usize, Seq<char>>::empty());
    } else {
        lemma_contents_push(e);
        lemma_live_count_is_len(e.drop_last());
    }
}

} // verus!
