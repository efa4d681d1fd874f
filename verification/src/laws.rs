//! Delivery-order laws of the multi-consumer queue, stated and proved over
//! its abstract state: the map from each registered key to the values that
//! key has yet to pop (the view of [`crate::queue_map::QueueMap`]).
//!
//! [`push_one`] is precisely the effect `QueueMap::push` promises on the
//! view, and dropping the head of one key's pending sequence is precisely
//! the effect `QueueMap::pop` promises, so each law below speaks about any
//! run of those operations.

use vstd::prelude::*;

verus! {

/// The effect of pushing one value on the abstract state: the value is
/// appended to every registered key's pending sequence.
pub open spec fn push_one<T>(m: Map<usize, Seq<T>>, v: T) -> Map<usize, Seq<T>> {
    Map::new(|k: usize| m.dom().contains(k), |k: usize| m[k].push(v))
}

/// The effect of pushing the values of `vs`, in order.
pub open spec fn push_all<T>(m: Map<usize, Seq<T>>, vs: Seq<T>) -> Map<usize, Seq<T>>
    decreases vs.len(),
{
    if vs.len() == 0 {
        m
    } else {
        push_all(push_one(m, vs[0]), vs.skip(1))
    }
}

/// Pushing values appends them, in order, to every registered key's pending
/// sequence, and registers no key.
pub proof fn lemma_push_all<T>(m: Map<usize, Seq<T>>, vs: Seq<T>)
    ensures
        push_all(m, vs).dom() == m.dom(),
        forall|k: usize| m.dom().contains(k) ==> #[trigger] push_all(m, vs)[k] == m[k] + vs,
    decreases vs.len(),
{
    if vs.len() == 0 {
        assert forall|k: usize| m.dom().contains(k) implies #[trigger] push_all(m, vs)[k]
            == m[k] + vs by {
            assert(m[k] + vs =~= m[k]);
        }
    } else {
        let m1 = push_one(m, vs[0]);
        lemma_push_all(m1, vs.skip(1));
        assert(m1.dom() =~= m.dom());
        assert forall|k: usize| m.dom().contains(k) implies #[trigger] push_all(m, vs)[k]
            == m[k] + vs by {
            assert(push_all(m1, vs.skip(1))[k] == m1[k] + vs.skip(1));
            assert(m[k].push(vs[0]) + vs.skip(1) =~= m[k] + vs);
        }
    }
}

/// FIFO per key: a key whose pending sequence is empty — as it is right
/// after `add` — has, after the values v1..vn are pushed with no pop for it
/// in between, exactly v1..vn pending, in push order. `pop`'s contract then
/// returns them one by one, first to last, and `None` once they are gone.
pub proof fn lemma_fifo_per_key<T>(m: Map<usize, Seq<T>>, k: usize, vs: Seq<T>)
    requires
        m.dom().contains(k),
        m[k] == Seq::<T>::empty(),
    ensures
        push_all(m, vs).dom().contains(k),
        push_all(m, vs)[k] == vs,
{
    lemma_push_all(m, vs);
    assert(m[k] + vs =~= vs);
}

/// Late join: a key registered after some value was pushed starts with
/// nothing pending, so it can never pop that value; after the later values
/// `vs` are pushed it has exactly `vs` pending — the very next push first.
pub proof fn lemma_late_join<T>(m: Map<usize, Seq<T>>, k2: usize, v1: T, vs: Seq<T>)
    requires
        !m.dom().contains(k2),
    ensures
        push_all(m.insert(k2, Seq::<T>::empty()), vs)[k2] == vs,
        !vs.contains(v1) ==> !push_all(m.insert(k2, Seq::<T>::empty()), vs)[k2].contains(v1),
{
    let m1 = m.insert(k2, Seq::<T>::empty());
    lemma_push_all(m1, vs);
    assert(m1[k2] + vs =~= vs);
}

/// Independent cursors: popping for one key drops the head of that key's
/// pending sequence and leaves every other key's pending sequence as it
/// was; and a push appends the same value for both keys, so two keys with
/// equal pending sequences keep receiving the same values in the same
/// order, however their pops interleave.
pub proof fn lemma_independent_cursors<T>(m: Map<usize, Seq<T>>, k1: usize, k2: usize, v: T)
    requires
        m.dom().contains(k1),
        m.dom().contains(k2),
        k1 != k2,
    ensures
        m[k1].len() > 0 ==> m.insert(k1, m[k1].skip(1))[k2] == m[k2],
        m[k1].len() > 0 ==> m.insert(k1, m[k1].skip(1)).dom() == m.dom(),
        m[k1] == m[k2] ==> push_one(m, v)[k1] == push_one(m, v)[k2],
{
    if m[k1].len() > 0 {
        assert(m.insert(k1, m[k1].skip(1)).dom() =~= m.dom());
    }
}

} // verus!
