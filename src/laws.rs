//! Laws over sequences of calls. Each table has lemmas that follow its own
//! states through calls, on the contracts of `insert` (`final@ ==
//! old@.insert(key, value@)`; for the two-slot table, when nothing is
//! handed back unplaced), `delete` (`final@ == old@.remove(key)`) and
//! `resize` (the capacity doubles), and rest on the laws below; `get`
//! returns `self@[key]` exactly when `self@` holds `key`.

use vstd::prelude::*;

verus! {

/// The view after one call: `(true, k, v)` is an insert of `k` with `v`,
/// `(false, k, _)` a delete of `k`.
pub open spec fn apply_op(m: Map<usize, Seq<char>>, op: (bool, usize, Seq<char>)) -> Map<
    usize,
    Seq<char>,
> {
    if op.0 {
        m.insert(op.1, op.2)
    } else {
        m.remove(op.1)
    }
}

/// The index of the last call of `ops` on `key`, or -1 when there is none.
pub open spec fn last_call(ops: Seq<(bool, usize, Seq<char>)>, key: usize) -> int
    decreases ops.len(),
{
    if ops.len() == 0 {
        -1
    } else if ops.last().1 == key {
        ops.len() - 1
    } else {
        last_call(ops.drop_last(), key)
    }
}

/// The last call on a key is a call of `ops` on that key.
pub proof fn lemma_last_call(ops: Seq<(bool, usize, Seq<char>)>, key: usize)
    ensures
        -1 <= last_call(ops, key) < ops.len(),
        last_call(ops, key) >= 0 ==> ops[last_call(ops, key)].1 == key,
    decreases ops.len(),
{
    if ops.len() > 0 && ops.last().1 != key {
        lemma_last_call(ops.drop_last(), key);
    }
}

/// Round trip and delete, over any sequence of calls: when each view comes
/// from the one before by the call of `ops`, starting empty, a key is
/// present at the end exactly when its last call is an insert, and then
/// maps to the value of that insert.
pub proof fn lemma_views_follow(views: Seq<Map<usize, Seq<char>>>, ops: Seq<(bool, usize, Seq<char>)>)
    requires
        views.len() == ops.len() + 1,
        views[0] == Map::<usize, Seq<char>>::empty(),
        forall|i: int| 0 <= i < ops.len() ==> #[trigger] views[i + 1] == apply_op(views[i], ops[i]),
    ensures
        forall|k: usize|
            #[trigger] views.last().contains_key(k) <==> (last_call(ops, k) >= 0 && ops[last_call(
                ops,
                k,
            )].0),
        forall|k: usize|
            #[trigger] views.last().contains_key(k) ==> views.last()[k] == ops[last_call(ops, k)].2,
    decreases ops.len(),
{
    if ops.len() > 0 {
        let v = views.drop_last();
        let d = ops.drop_last();
        assert forall|i: int| 0 <= i < d.len() implies #[trigger] v[i + 1] == apply_op(v[i], d[i]) by {
            assert(views[i + 1] == apply_op(views[i], ops[i]));
        }
        lemma_views_follow(v, d);
        let n = ops.len() - 1;
        assert(views[n + 1] == apply_op(views[n], ops[n]));
        assert forall|k: usize| #[trigger] views.last().contains_key(k) <==> (last_call(ops, k) >= 0
            && ops[last_call(ops, k)].0) by {
            lemma_last_call(d, k);
            if ops.last().1 != k {
                assert(v.last().contains_key(k) == views.last().contains_key(k));
                if last_call(d, k) >= 0 {
                    assert(ops[last_call(d, k)] == d[last_call(d, k)]);
                }
            }
        }
        assert forall|k: usize| #[trigger] views.last().contains_key(k) implies views.last()[k]
            == ops[last_call(ops, k)].2 by {
            lemma_last_call(d, k);
            if ops.last().1 != k {
                assert(v.last().contains_key(k));
                assert(ops[last_call(d, k)] == d[last_call(d, k)]);
            }
        }
    }
}

/// Capacity doubling: when each resize doubles the capacity, the capacity
/// after `n` resizes is the initial one times `2^n`.
pub proof fn lemma_capacity_doubling(caps: Seq<nat>)
    requires
        caps.len() > 0,
        forall|i: int| 0 <= i < caps.len() - 1 ==> #[trigger] caps[i + 1] == 2 * caps[i],
    ensures
        caps.last() == caps[0] * vstd::arithmetic::power2::pow2((caps.len() - 1) as nat),
    decreases caps.len(),
{
    let n = (caps.len() - 1) as nat;
    if n == 0 {
        vstd::arithmetic::power2::lemma2_to64();
    } else {
        let d = caps.drop_last();
        assert forall|i: int| 0 <= i < d.len() - 1 implies #[trigger] d[i + 1] == 2 * d[i] by {
            assert(caps[i + 1] == 2 * caps[i]);
        }
        lemma_capacity_doubling(d);
        let m = caps.len() - 2;
        assert(caps[m + 1] == 2 * caps[m]);
        assert(d.last() == caps[m]);
        vstd::arithmetic::power2::lemma_pow2_unfold(n);
        assert(caps[0] * vstd::arithmetic::power2::pow2(n) == 2 * (caps[0]
            * vstd::arithmetic::power2::pow2((n - 1) as nat))) by (nonlinear_arith)
            requires
                vstd::arithmetic::power2::pow2(n) == 2 * vstd::arithmetic::power2::pow2(
                    (n - 1) as nat,
                ),
        ;
    }
}

} // verus!
