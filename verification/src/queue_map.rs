//! The multi-consumer queue: many independent consumer keys, each with its
//! own cursor into one shared, append-only sequence of values, with
//! reference-counted eviction of values that every consumer has passed.
//!
//! The abstract state, [`QueueMap`]'s view, is a map from each registered key
//! to the sequence of values that key has yet to pop, in push order. Every
//! operation's contract is stated over that map:
//! * `add` gives a new key an empty pending sequence (it sees only future
//!   values, never history);
//! * `push` appends the value to every registered key's pending sequence;
//! * `pop` returns the head of the key's pending sequence and drops it,
//!   leaving every other key's pending sequence unchanged;
//! * `compact` leaves the view unchanged altogether.

use vstd::prelude::*;

verus! {

/// The error returned when a consumer key is registered twice on the same
/// queue: a live cursor is never silently overwritten.
#[derive(Clone, Copy, Debug, PartialEq, Eq, Structural)]
pub struct DuplicateKey;

/// How many entries of `ps` hold the position `p`.
///
/// The cursor positions of a queue are kept in one sequence, parallel to the
/// key sequence; the reference count of the entry at logical position `p` is
/// the number of cursors standing at `p`.
spec fn count_at(ps: Seq<usize>, p: int) -> nat
    decreases ps.len(),
{
    if ps.len() == 0 {
        0
    } else {
        count_at(ps.drop_last(), p) + (if ps.last() as int == p {
            1nat
        } else {
            0nat
        })
    }
}

proof fn lemma_count_at_le_len(ps: Seq<usize>, p: int)
    ensures
        count_at(ps, p) <= ps.len(),
    decreases ps.len(),
{
    if ps.len() > 0 {
        lemma_count_at_le_len(ps.drop_last(), p);
    }
}

proof fn lemma_count_at_push(ps: Seq<usize>, x: usize, p: int)
    ensures
        count_at(ps.push(x), p) == count_at(ps, p) + (if x as int == p {
            1int
        } else {
            0int
        }),
{
    assert(ps.push(x).drop_last() =~= ps);
    assert(ps.push(x).last() == x);
}

proof fn lemma_count_at_update(ps: Seq<usize>, j: int, x: usize, p: int)
    requires
        0 <= j < ps.len(),
    ensures
        count_at(ps.update(j, x), p) == count_at(ps, p) - (if ps[j] as int == p {
            1int
        } else {
            0int
        }) + (if x as int == p {
            1int
        } else {
            0int
        }),
    decreases ps.len(),
{
    let qs = ps.update(j, x);
    if j == ps.len() - 1 {
        assert(qs.drop_last() =~= ps.drop_last());
        assert(qs.last() == x);
    } else {
        assert(qs.drop_last() =~= ps.drop_last().update(j, x));
        assert(qs.last() == ps.last());
        lemma_count_at_update(ps.drop_last(), j, x, p);
    }
}

proof fn lemma_count_at_present(ps: Seq<usize>, j: int)
    requires
        0 <= j < ps.len(),
    ensures
        count_at(ps, ps[j] as int) >= 1,
    decreases ps.len(),
{
    if j < ps.len() - 1 {
        lemma_count_at_present(ps.drop_last(), j);
    }
}

proof fn lemma_count_at_absent_one(ps: Seq<usize>, j: int, p: int)
    requires
        0 <= j < ps.len(),
        ps[j] as int != p,
    ensures
        count_at(ps, p) <= ps.len() - 1,
    decreases ps.len(),
{
    if ps.last() as int == p {
        lemma_count_at_absent_one(ps.drop_last(), j, p);
    } else {
        lemma_count_at_le_len(ps.drop_last(), p);
    }
}

proof fn lemma_count_at_beyond(ps: Seq<usize>, p: int)
    requires
        forall|m: int| 0 <= m < ps.len() ==> (#[trigger] ps[m]) < p,
    ensures
        count_at(ps, p) == 0,
    decreases ps.len(),
{
    if ps.len() > 0 {
        lemma_count_at_beyond(ps.drop_last(), p);
    }
}

proof fn lemma_count_at_witness(ps: Seq<usize>, p: int)
    requires
        count_at(ps, p) >= 1,
    ensures
        exists|j: int| 0 <= j < ps.len() && (#[trigger] ps[j]) as int == p,
    decreases ps.len(),
{
    if ps.last() as int != p {
        lemma_count_at_witness(ps.drop_last(), p);
        let j = choose|j: int|
            0 <= j < ps.drop_last().len() && (#[trigger] ps.drop_last()[j]) as int == p;
        assert(ps[j] as int == p);
    } else {
        assert(ps[ps.len() - 1] as int == p);
    }
}

proof fn lemma_count_at_shifted(ps: Seq<usize>, qs: Seq<usize>, s: int, p: int)
    requires
        ps.len() == qs.len(),
        forall|m: int| 0 <= m < ps.len() ==> (#[trigger] qs[m]) as int == ps[m] - s,
    ensures
        count_at(qs, p) == count_at(ps, p + s),
    decreases ps.len(),
{
    if ps.len() > 0 {
        assert(qs.drop_last() =~= qs.subrange(0, qs.len() - 1));
        lemma_count_at_shifted(ps.drop_last(), qs.drop_last(), s, p);
        assert(qs.last() as int == ps.last() - s);
    }
}

/// A queue of values of one kind, read independently by many consumer keys.
///
/// Physically it holds only the values that at least one cursor still needs:
/// a contiguous run of the logical history starting at `shift`. Each stored
/// value carries a reference count (the number of cursors standing on it);
/// a value is removed once it is at the front and its count is zero. Cursor
/// positions are logical (they only ever grow); `compact` renumbers them,
/// without any observable effect, to keep the logical space bounded.
pub struct QueueMap<T: Copy> {
    /// The stored values: the logical history from position `shift` on.
    values: Vec<T>,
    /// For each stored value, the number of cursors standing on it.
    counts: Vec<usize>,
    /// The registered consumer keys, pairwise distinct.
    keys: Vec<usize>,
    /// For each key (parallel to `keys`), its logical cursor position.
    positions: Vec<usize>,
    /// The number of cursors standing at the logical end, waiting for the
    /// next push.
    dangling: usize,
    /// The logical position of the first stored value.
    shift: usize,
    /// The logical history: every value pushed since the last renumbering,
    /// the evicted prefix included.
    hist: Ghost<Seq<T>>,
}

impl<T: Copy> QueueMap<T> {
    /// The internal accounting invariant.
    pub closed spec fn wf(self) -> bool {
        &&& self.values@.len() == self.counts@.len()
        &&& self.keys@.len() == self.positions@.len()
        &&& self.hist@.len() == self.shift + self.values@.len()
        &&& self.shift + self.values@.len() <= usize::MAX
        &&& (forall|i: int|
            0 <= i < self.values@.len() ==> self.values@[i] == self.hist@[self.shift + i])
        &&& (forall|i: int, j: int|
            0 <= i < j < self.keys@.len() ==> self.keys@[i] != self.keys@[j])
        &&& (forall|j: int|
            0 <= j < self.positions@.len()
                ==> self.shift <= #[trigger] self.positions@[j] <= self.hist@.len())
        &&& (forall|i: int|
            0 <= i < self.counts@.len()
                ==> self.counts@[i] == count_at(self.positions@, self.shift + i))
        &&& self.dangling == count_at(self.positions@, self.hist@.len() as int)
        &&& (self.values@.len() > 0 ==> self.counts@[0] >= 1)
    }

    /// Whether `k` is a registered consumer key.
    pub closed spec fn contains_key(self, k: usize) -> bool {
        self.keys@.contains(k)
    }

    /// The index of `k` in the key sequence (unique, as keys are distinct).
    spec fn slot_of(self, k: usize) -> int {
        choose|j: int| 0 <= j < self.keys@.len() && self.keys@[j] == k
    }

    /// The logical cursor position of `k`.
    spec fn pos_of(self, k: usize) -> int {
        self.positions@[self.slot_of(k)] as int
    }

    /// The values `k` has yet to pop, in push order.
    pub closed spec fn pending(self, k: usize) -> Seq<T> {
        self.hist@.subrange(self.pos_of(k), self.hist@.len() as int)
    }

    /// The values physically retained, oldest first: the backing sequence.
    pub closed spec fn stored(self) -> Seq<T> {
        self.values@
    }

    /// The logical position of the first stored value: the origin of the
    /// index space the cursors live in. It only grows as front entries are
    /// evicted, until [`Self::compact`] resets it to zero.
    pub closed spec fn spec_shift(self) -> nat {
        self.shift as nat
    }

    /// Keys are pairwise distinct, so any index holding `k` is `slot_of(k)`.
    proof fn lemma_slot_of(self, k: usize, j: int)
        requires
            forall|i1: int, i2: int|
                0 <= i1 < i2 < self.keys@.len() ==> self.keys@[i1] != self.keys@[i2],
            0 <= j < self.keys@.len(),
            self.keys@[j] == k,
        ensures
            self.slot_of(k) == j,
            self.contains_key(k),
    {
        assert(self.keys@[j] == k);
        let s = self.slot_of(k);
        assert(0 <= s < self.keys@.len() && self.keys@[s] == k);
        if s < j {
            assert(self.keys@[s] != self.keys@[j]);
        } else if j < s {
            assert(self.keys@[j] != self.keys@[s]);
        }
    }

    /// Finds the index of `key` in the key sequence, if it is registered.
    fn slot(&self, key: usize) -> (r: Option<usize>)
        ensures
            match r {
                Some(j) => j < self.keys@.len() && self.keys@[j as int] == key,
                None => !self.keys@.contains(key),
            },
    {
        let n = self.keys.len();
        let mut i: usize = 0;
        while i < n
            invariant
                i <= n,
                n == self.keys@.len(),
                forall|m: int| 0 <= m < i ==> self.keys@[m] != key,
            decreases n - i,
        {
            if self.keys[i] == key {
                return Some(i);
            }
            i = i + 1;
        }
        None
    }

    /// An empty queue with no registered keys.
    pub fn new() -> (q: QueueMap<T>)
        ensures
            q.wf(),
            q@ == Map::<usize, Seq<T>>::empty(),
            q.stored() == Seq::<T>::empty(),
    {
        let q = QueueMap {
            values: Vec::new(),
            counts: Vec::new(),
            keys: Vec::new(),
            positions: Vec::new(),
            dangling: 0,
            shift: 0,
            hist: Ghost(Seq::empty()),
        };
        proof {
            assert(q@ =~= Map::<usize, Seq<T>>::empty());
        }
        q
    }

    /// Registers a new consumer key.
    ///
    /// The key's cursor starts at the current logical end of the sequence:
    /// it is dangling, sees only values pushed from now on, and never
    /// history. Registering a key that is already registered fails without
    /// changing anything.
    pub fn add(&mut self, key: usize) -> (r: Result<(), DuplicateKey>)
        requires
            old(self).wf(),
        ensures
            final(self).wf(),
            old(self)@.dom().contains(key) ==> r is Err && final(self)@ == old(self)@,
            !old(self)@.dom().contains(key) ==> r is Ok && final(self)@ == old(self)@.insert(
                key,
                Seq::<T>::empty(),
            ),
            final(self).stored() == old(self).stored(),
    {
        match self.slot(key) {
            Some(_) => Err(DuplicateKey),
            None => {
                let ghost old_self = *self;
                let end = self.shift + self.values.len();
                self.keys.push(key);
                self.positions.push(end);
                proof {
                    vstd::std_specs::vec::axiom_spec_len(&self.keys);
                    lemma_count_at_le_len(old_self.positions@, old_self.hist@.len() as int);
                }
                self.dangling = self.dangling + 1;
                proof {
                    let ps = old_self.positions@;
                    let ks = old_self.keys@;
                    assert forall|p: int| true implies count_at(self.positions@, p) == count_at(
                        ps,
                        p,
                    ) + (if end as int == p {
                        1int
                    } else {
                        0int
                    }) by {
                        lemma_count_at_push(ps, end, p);
                    }
                    assert(self.wf());
                    self.lemma_slot_of(key, ks.len() as int);
                    assert(self.pending(key) =~= Seq::<T>::empty());
                    assert forall|k: usize| ks.contains(k) implies self.pending(k)
                        == old_self.pending(k) && self.contains_key(k) by {
                        let j = choose|j: int| 0 <= j < ks.len() && ks[j] == k;
                        self.lemma_slot_of(k, j);
                        old_self.lemma_slot_of(k, j);
                    }
                    assert forall|k: usize| self.contains_key(k) && k != key implies
                        ks.contains(k) by {
                        let j = choose|j: int| 0 <= j < self.keys@.len() && self.keys@[j] == k;
                        assert(ks[j] == k);
                    }
                    assert(self@ =~= old_self@.insert(key, Seq::<T>::empty()));
                }
                Ok(())
            },
        }
    }

    /// Renumbers every stored cursor position by subtracting the current
    /// shift, and resets the shift to zero, so the logical index space stays
    /// bounded. Observationally invisible: no key's pending values change.
    ///
    /// With the invariant, the zeroed shift pins the whole renumbering:
    /// every cursor position drops by exactly the old shift, so each cursor
    /// addresses the same entry as before.
    pub fn compact(&mut self)
        requires
            old(self).wf(),
        ensures
            final(self).wf(),
            final(self)@ == old(self)@,
            final(self).stored() == old(self).stored(),
            final(self).spec_shift() == 0,
    {
        self.renumber();
    }

    /// The renumbering behind [`Self::compact`], with its effect on the
    /// internal position counter spelled out for use inside this module.
    fn renumber(&mut self)
        requires
            old(self).wf(),
        ensures
            final(self).wf(),
            final(self)@ == old(self)@,
            final(self).stored() == old(self).stored(),
            final(self).shift == 0,
            final(self).values == old(self).values,
            final(self).dangling == old(self).dangling,
    {
        let shift = self.shift;
        let n = self.positions.len();
        let mut i: usize = 0;
        while i < n
            invariant
                i <= n,
                n == self.positions@.len(),
                old(self).wf(),
                self.values == old(self).values,
                self.counts == old(self).counts,
                self.keys == old(self).keys,
                self.dangling == old(self).dangling,
                self.shift == old(self).shift,
                self.hist == old(self).hist,
                shift == old(self).shift,
                self.positions@.len() == old(self).positions@.len(),
                forall|m: int|
                    0 <= m < i ==> (#[trigger] self.positions@[m]) as int == old(
                        self,
                    ).positions@[m] - shift,
                forall|m: int|
                    i <= m < n ==> (#[trigger] self.positions@[m]) == old(self).positions@[m],
            decreases n - i,
        {
            let p = self.positions[i];
            assert(old(self).positions@[i as int] == p);
            self.positions.set(i, p - shift);
            i = i + 1;
        }
        self.shift = 0;
        self.hist = Ghost(self.hist@.skip(shift as int));
        proof {
            let o = *old(self);
            let ps = o.positions@;
            let qs = self.positions@;
            assert forall|p: int| true implies count_at(qs, p) == count_at(ps, p + shift) by {
                lemma_count_at_shifted(ps, qs, shift as int, p);
            }
            assert(self.wf());
            assert forall|k: usize| o.contains_key(k) implies self.pending(k) == o.pending(k)
                && self.contains_key(k) by {
                let j = choose|j: int| 0 <= j < o.keys@.len() && o.keys@[j] == k;
                self.lemma_slot_of(k, j);
                o.lemma_slot_of(k, j);
                assert(self.pending(k) =~= o.pending(k));
            }
            assert(self@ =~= o@);
        }
    }

    /// Publishes a value: appends an entry whose initial reference count is
    /// the number of dangling cursors (every cursor that was waiting now
    /// stands on the new entry), and resets the dangling count to zero.
    ///
    /// In the view, the value is appended to every registered key's pending
    /// sequence. When the logical index space is about to reach the
    /// representable range, the positions are renumbered first; that is not
    /// observable.
    pub fn push(&mut self, value: T)
        requires
            old(self).wf(),
        ensures
            final(self).wf(),
            final(self)@.dom() == old(self)@.dom(),
            forall|k: usize|
                old(self)@.dom().contains(k) ==> final(self)@[k] == old(self)@[k].push(value),
            final(self)@ == crate::laws::push_one(old(self)@, value),
    {
        let room = self.shift + self.values.len();
        if room >= usize::MAX - 1 {
            self.renumber();
        }
        let ghost mid = *self;
        if self.values.len() == 0 && self.dangling == 0 {
            // No key is registered (an empty queue leaves every cursor
            // dangling), so the value is never retrievable: record it in the
            // history as already passed, and store nothing.
            proof {
                if mid.positions@.len() > 0 {
                    lemma_count_at_present(mid.positions@, 0);
                    assert(mid.positions@[0] == mid.shift);
                    assert(false);
                }
            }
            self.hist = Ghost(self.hist@.push(value));
            self.shift = self.shift + 1;
            proof {
                assert(mid.positions@.len() == 0);
                assert(self.wf());
                assert(self@.dom() =~= mid@.dom());
            }
        } else {
            self.values.push(value);
            self.counts.push(self.dangling);
            self.dangling = 0;
            self.hist = Ghost(self.hist@.push(value));
            proof {
                vstd::std_specs::vec::axiom_spec_len(&self.values);
                let ps = mid.positions@;
                let end = mid.hist@.len() as int;
                assert forall|p: int| p > end implies count_at(ps, p) == 0 by {
                    lemma_count_at_beyond(ps, p);
                }
                assert(self.wf());
                assert forall|k: usize| mid.contains_key(k) implies self.contains_key(k)
                    && self.pending(k) == mid.pending(k).push(value) by {
                    let j = choose|j: int| 0 <= j < mid.keys@.len() && mid.keys@[j] == k;
                    self.lemma_slot_of(k, j);
                    mid.lemma_slot_of(k, j);
                    assert(self.pending(k) =~= mid.pending(k).push(value));
                }
                assert(self@.dom() =~= mid@.dom());
            }
        }
    }

    /// Takes the next unread value for `key`, if one is available.
    ///
    /// Returns the head of `key`'s pending sequence and advances the
    /// cursor: the reference count moves from the entry left behind to the
    /// entry now addressed (or to the dangling count at the end). When the
    /// entry left behind reaches count zero it is at the front and is
    /// evicted at once, cascading while the new front's count is zero too.
    /// No other key's pending values change. For an unregistered key, or a
    /// dangling cursor, returns nothing and changes nothing.
    pub fn pop(&mut self, key: usize) -> (r: Option<T>)
        requires
            old(self).wf(),
        ensures
            final(self).wf(),
            !old(self)@.dom().contains(key) ==> r is None && final(self)@ == old(self)@,
            old(self)@.dom().contains(key) && old(self)@[key].len() == 0 ==> r is None
                && final(self)@ == old(self)@,
            old(self)@.dom().contains(key) && old(self)@[key].len() > 0 ==> r == Some(
                old(self)@[key][0],
            ) && final(self)@ == old(self)@.insert(key, old(self)@[key].skip(1)),
    {
        let ghost o = *old(self);
        let jopt = self.slot(key);
        match jopt {
            None => {
                proof {
                    assert forall|k: usize| self.contains_key(k) implies k != key by {
                        let j2 = choose|j2: int|
                            0 <= j2 < self.keys@.len() && self.keys@[j2] == k;
                        assert(self.keys@.contains(self.keys@[j2]));
                    }
                }
                None
            },
            Some(j) => {
                proof {
                    o.lemma_slot_of(key, j as int);
                }
                let pos = self.positions[j];
                let phys = pos - self.shift;
                if phys >= self.values.len() {
                    proof {
                        assert(o.pending(key) =~= Seq::<T>::empty());
                    }
                    None
                } else {
                    let v = self.values[phys];
                    let c = self.counts[phys];
                    proof {
                        lemma_count_at_present(o.positions@, j as int);
                        assert(o@[key] =~= o.pending(key));
                        assert(o@[key][0] == o.hist@[pos as int]);
                    }
                    self.counts.set(phys, c - 1);
                    let newpos = pos + 1;
                    self.positions.set(j, newpos);
                    if phys + 1 < self.values.len() {
                        let c2 = self.counts[phys + 1];
                        proof {
                            vstd::std_specs::vec::axiom_spec_len(&self.positions);
                            lemma_count_at_absent_one(o.positions@, j as int, newpos as int);
                        }
                        self.counts.set(phys + 1, c2 + 1);
                    } else {
                        proof {
                            vstd::std_specs::vec::axiom_spec_len(&self.positions);
                            lemma_count_at_absent_one(
                                o.positions@,
                                j as int,
                                o.hist@.len() as int,
                            );
                        }
                        self.dangling = self.dangling + 1;
                    }
                    proof {
                        assert forall|p: int| true implies count_at(self.positions@, p)
                            == count_at(o.positions@, p) - (if pos as int == p {
                            1int
                        } else {
                            0int
                        }) + (if newpos as int == p {
                            1int
                        } else {
                            0int
                        }) by {
                            lemma_count_at_update(o.positions@, j as int, newpos, p);
                        }
                    }
                    let ghost s1 = *self;
                    while self.values.len() > 0 && self.counts[0] == 0
                        invariant
                            self.values@.len() == self.counts@.len(),
                            self.hist@.len() == self.shift + self.values@.len(),
                            self.shift + self.values@.len() <= usize::MAX,
                            forall|i: int|
                                0 <= i < self.values@.len() ==> self.values@[i] == self.hist@[
                                    self.shift + i
                                ],
                            forall|j2: int|
                                0 <= j2 < self.positions@.len()
                                    ==> self.shift <= #[trigger] self.positions@[j2]
                                    <= self.hist@.len(),
                            forall|i: int|
                                0 <= i < self.counts@.len() ==> self.counts@[i] == count_at(
                                    self.positions@,
                                    self.shift + i,
                                ),
                            self.keys == s1.keys,
                            self.positions == s1.positions,
                            self.hist == s1.hist,
                            self.dangling == s1.dangling,
                        decreases self.values@.len(),
                    {
                        let ghost pre = *self;
                        proof {
                            assert(count_at(self.positions@, self.shift as int) == 0);
                            assert forall|j2: int|
                                0 <= j2 < self.positions@.len() implies self.positions@[j2]
                                > self.shift by {
                                if self.positions@[j2] == self.shift {
                                    lemma_count_at_present(self.positions@, j2);
                                }
                            }
                        }
                        self.values.remove(0);
                        self.counts.remove(0);
                        self.shift = self.shift + 1;
                        proof {
                            assert forall|i: int|
                                0 <= i < self.values@.len() implies self.values@[i]
                                == self.hist@[self.shift + i] by {
                                assert(self.values@[i] == pre.values@[i + 1]);
                            }
                            assert forall|i: int|
                                0 <= i < self.counts@.len() implies self.counts@[i] == count_at(
                                    self.positions@,
                                    self.shift + i,
                                ) by {
                                assert(self.counts@[i] == pre.counts@[i + 1]);
                            }
                        }
                    }
                    proof {
                        assert(self.dangling == count_at(
                            self.positions@,
                            self.hist@.len() as int,
                        ));
                        assert(self.wf());
                        self.lemma_slot_of(key, j as int);
                        assert(self.pending(key) =~= o.pending(key).skip(1));
                        assert forall|k: usize| o.contains_key(k) && k != key implies
                            self.contains_key(k) && self.pending(k) == o.pending(k) by {
                            let j2 = choose|j2: int|
                                0 <= j2 < o.keys@.len() && o.keys@[j2] == k;
                            self.lemma_slot_of(k, j2);
                            o.lemma_slot_of(k, j2);
                        }
                        assert forall|k: usize| self.contains_key(k) implies o.contains_key(
                            k,
                        ) by {
                            let j2 = choose|j2: int|
                                0 <= j2 < self.keys@.len() && self.keys@[j2] == k;
                            assert(o.keys@.contains(o.keys@[j2]));
                        }
                        assert(self@ =~= o@.insert(key, o@[key].skip(1)));
                    }
                    Some(v)
                }
            },
        }
    }

    /// Whether no unread value is currently available for `key`: true
    /// exactly when the key's cursor is dangling (or the key is not
    /// registered at all). Mutates nothing.
    pub fn is_empty(&self, key: usize) -> (r: bool)
        requires
            self.wf(),
        ensures
            r == (!self@.dom().contains(key) || self@[key].len() == 0),
    {
        match self.slot(key) {
            None => {
                proof {
                    assert forall|k: usize| self.contains_key(k) implies k != key by {
                        let j2 = choose|j2: int|
                            0 <= j2 < self.keys@.len() && self.keys@[j2] == k;
                        assert(self.keys@.contains(self.keys@[j2]));
                    }
                }
                true
            },
            Some(j) => {
                proof {
                    self.lemma_slot_of(key, j as int);
                }
                let pos = self.positions[j];
                pos - self.shift >= self.values.len()
            },
        }
    }

    /// Eviction discipline: every value a registered key has yet to pop is
    /// still physically present — the key's pending sequence is exactly the
    /// most recent part of the backing sequence — and, conversely, nothing
    /// is retained beyond need: a non-empty backing sequence is awaited in
    /// full by at least one registered key.
    pub proof fn lemma_eviction(self)
        requires
            self.wf(),
        ensures
            forall|k: usize| #[trigger]
                self@.dom().contains(k) ==> self@[k].len() <= self.stored().len() && self@[k]
                    == self.stored().skip(self.stored().len() - self@[k].len()),
            self.stored().len() > 0 ==> exists|k: usize| #[trigger]
                self@.dom().contains(k) && self@[k].len() == self.stored().len(),
    {
        assert forall|k: usize| #[trigger] self@.dom().contains(k) implies self@[k].len()
            <= self.stored().len() && self@[k] == self.stored().skip(
            self.stored().len() - self@[k].len(),
        ) by {
            let j = choose|j: int| 0 <= j < self.keys@.len() && self.keys@[j] == k;
            self.lemma_slot_of(k, j);
            assert(self@[k] =~= self.stored().skip(
                self.stored().len() - self@[k].len(),
            ));
        }
        if self.stored().len() > 0 {
            assert(count_at(self.positions@, self.shift as int) >= 1);
            lemma_count_at_witness(self.positions@, self.shift as int);
            let j = choose|j: int|
                0 <= j < self.positions@.len() && (#[trigger] self.positions@[j]) as int
                    == self.shift as int;
            let k = self.keys@[j];
            self.lemma_slot_of(k, j);
            assert(self@.dom().contains(k));
            assert(self@[k].len() == self.stored().len());
        }
    }
}

impl<T: Copy> View for QueueMap<T> {
    type V = Map<usize, Seq<T>>;

    /// Each registered key, mapped to the values it has yet to pop.
    closed spec fn view(&self) -> Map<usize, Seq<T>> {
        Map::new(|k: usize| self.contains_key(k), |k: usize| self.pending(k))
    }
}

} // verus!
