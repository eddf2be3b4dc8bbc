//! The slab map: values in a dense slot array, keyed by their position.
use vstd::prelude::*;
use crate::iter::{Drain, IntoIter, Iter, IterMut, Keys, Values, ValuesMut};
use crate::model::{
    all_vacant, boundary, churn_ok, count_upto, in_run, lemma_append_run, lemma_boundary_scannable,
    lemma_count_same_pattern, lemma_count_step, lemma_count_vacant, lemma_drop_last,
    lemma_empty_layout, lemma_first_run, lemma_no_heads_scannable, lemma_occ_index,
    lemma_occ_keys_len, lemma_occ_len, lemma_occ_len_strict, lemma_occ_push, lemma_occ_update,
    lemma_pop_front, lemma_push_front, lemma_push_occupied, lemma_replace_value,
    lemma_same_pattern_layout, lemma_scan_cost_bound, map_from_pairs, occ_keys, occupied,
    occupied_from, prefix_ok, run_link, runs_ascending, runs_encoded, runs_placed, scan_cost,
    scannable, slots_view, value_of, Entry, INVALID_INDEX,
};
use std::collections::TryReserveError;

verus! {

/// A map from small integer keys, chosen by the map itself, to values.
///
/// Freed slots are recycled through a free list of vacant runs, each run
/// encoded in its first and last slot so that a key-ordered scan skips it in
/// one step.
pub struct SlabMap<T> {
    entries: Vec<Entry<T>>,
    next_vacant_idx: usize,
    len: usize,
    non_optimized_count: usize,
    /// The free list, run by run: `(start, length)` in list order.
    runs: Ghost<Seq<(int, int)>>,
}

impl<T> View for SlabMap<T> {
    type V = Map<usize, T>;

    closed spec fn view(&self) -> Map<usize, T> {
        slots_view(self.entries@)
    }
}

/// Relies on `Vec::capacity`, which is never below the length.
#[verifier::external_body]
fn vec_capacity<E>(v: &Vec<E>) -> (r: usize)
    ensures
        r >= v@.len(),
{
    v.capacity()
}

/// Relies on `Vec::reserve_exact`, which leaves the elements as they are.
#[verifier::external_body]
fn vec_reserve_exact<E>(v: &mut Vec<E>, additional: usize)
    ensures
        final(v)@ == old(v)@,
{
    v.reserve_exact(additional)
}

/// Relies on `Vec::try_reserve_exact`, which leaves the elements as they are.
#[verifier::external_body]
fn vec_try_reserve_exact<E>(v: &mut Vec<E>, additional: usize) -> (r: Result<(), TryReserveError>)
    ensures
        final(v)@ == old(v)@,
{
    v.try_reserve_exact(additional)
}

/// The entry of `m` under `k`, if any.
pub open spec fn map_get<T>(m: Map<usize, T>, k: usize) -> Option<T> {
    if m.contains_key(k) {
        Some(m[k])
    } else {
        None
    }
}

impl<T> SlabMap<T> {
    /// The layout invariant of the slot array and its free list.
    pub closed spec fn wf(&self) -> bool {
        let s = self.entries@;
        let runs = self.runs@;
        &&& runs_placed(s, runs)
        &&& runs_encoded(s, runs)
        &&& self.next_vacant_idx == (if runs.len() > 0 {
            runs[0].0 as usize
        } else {
            INVALID_INDEX
        })
        &&& self.len == occupied_from(s, 0).len()
        &&& self.len + self.non_optimized_count <= s.len()
        &&& churn_ok(runs, self.non_optimized_count as nat)
        &&& self.tail_occupied()
    }

    /// The stored `(key, value)` pairs in ascending key order.
    pub closed spec fn items(&self) -> Seq<(usize, T)> {
        occupied_from(self.entries@, 0)
    }

    /// Length of the slot array.
    pub closed spec fn slot_count(&self) -> nat {
        self.entries@.len()
    }

    /// The vacant runs `(start, length)` in free-list order.
    pub closed spec fn free_runs(&self) -> Seq<(int, int)> {
        self.runs@
    }

    /// Removals not yet reconciled by a compaction.
    pub closed spec fn churn(&self) -> nat {
        self.non_optimized_count as nat
    }

    /// Slots that a key-ordered scan of the whole array reads.
    pub closed spec fn scan_cost(&self) -> nat {
        scan_cost(self.entries@, 0)
    }

    /// Head of the free list, or `INVALID_INDEX` when it is empty.
    pub open spec fn free_head(&self) -> usize {
        if self.free_runs().len() > 0 {
            self.free_runs()[0].0 as usize
        } else {
            INVALID_INDEX
        }
    }

    /// The key that the next insertion takes: the head of the free list,
    /// or the end of the slot array when the list is empty.
    pub open spec fn next_key(&self) -> usize {
        if self.free_head() != INVALID_INDEX {
            self.free_head()
        } else {
            self.slot_count() as usize
        }
    }

    /// The last slot, if any, holds a value.
    pub open spec fn tail_occupied(&self) -> bool {
        self.slot_count() == 0 || self@.contains_key((self.slot_count() - 1) as usize)
    }

    /// Two maps that differ at most in their values and their allocation.
    pub open spec fn same_layout(&self, o: &Self) -> bool {
        &&& self@.dom() == o@.dom()
        &&& self.slot_count() == o.slot_count()
        &&& self.free_runs() == o.free_runs()
        &&& self.churn() == o.churn()
    }

    /// How an insertion changes the free list, the slot count and the churn.
    pub open spec fn inserted_from(&self, o: &Self) -> bool {
        if o.free_runs().len() > 0 {
            let h = o.free_runs()[0].0;
            let l = o.free_runs()[0].1;
            &&& self.slot_count() == o.slot_count()
            &&& self.free_runs() == (if l == 1 {
                o.free_runs().drop_first()
            } else {
                o.free_runs().update(0, (h + 1, l - 1))
            })
            &&& self.churn() == (if o.churn() > 0 {
                o.churn() - 1
            } else {
                0
            })
        } else {
            &&& self.slot_count() == o.slot_count() + 1
            &&& self.free_runs() == o.free_runs()
            &&& self.churn() == o.churn()
        }
    }

    /// How a removal that found `key` changes the free list, the slot count
    /// and the churn.
    pub open spec fn removed_from(&self, o: &Self, key: usize) -> bool {
        if o@.len() == 1 {
            &&& self.slot_count() == 0
            &&& self.free_runs() == Seq::<(int, int)>::empty()
            &&& self.churn() == 0
        } else if key + 1 == o.slot_count() {
            if key > 0 && o@.contains_key((key - 1) as usize) {
                &&& self.slot_count() == o.slot_count() - 1
                &&& self.free_runs() == o.free_runs()
                &&& self.churn() == o.churn()
            } else {
                // The slot before the removed one is vacant: the trailing run
                // goes too, and the free list is rebuilt in compacted form.
                &&& self.churn() == 0
                &&& runs_ascending(self.free_runs())
                &&& self.tail_occupied()
            }
        } else {
            &&& self.slot_count() == o.slot_count()
            &&& self.free_runs() == seq![(key as int, 1int)] + o.free_runs()
            &&& self.churn() == o.churn() + 1
        }
    }

    /// What `optimize` leaves: the same entries, compacted; unchanged when
    /// there was nothing to compact.
    pub open spec fn optimized_from(&self, o: &Self) -> bool {
        &&& self@ == o@
        &&& self.churn() == 0
        &&& runs_ascending(self.free_runs())
        &&& o.churn() == 0 ==> *self == *o
    }

    proof fn lemma_wf_scannable(&self)
        requires
            self.wf(),
        ensures
            scannable(self.entries@, 0),
    {
        reveal(runs_placed);
        assert(self.entries@.len() == self.entries.len());
        assert(boundary(self.runs@, 0));
        lemma_boundary_scannable(self.entries@, self.runs@, 0);
    }

    proof fn lemma_wf(&self)
        requires
            self.wf(),
        ensures
            self@.len() == self.len,
            self@.dom().finite(),
            self.len <= self.entries@.len(),
            self.slot_count() <= usize::MAX,
            self.next_key() == (if self.next_vacant_idx != INVALID_INDEX {
                self.next_vacant_idx
            } else {
                self.entries@.len() as usize
            }),
            self.next_vacant_idx != INVALID_INDEX ==> self.next_vacant_idx < self.entries@.len(),
    {
        let s = self.entries@;
        assert(s.len() == self.entries.len());
        lemma_occ_keys_len(s, 0);
        assert(self@.dom() =~= occ_keys(s, 0));
        lemma_occ_len(s, 0);
        if self.runs@.len() > 0 {
            reveal(runs_placed);
            assert(0 <= self.runs@[0].0);
        }
    }

    /// Replacing a stored value keeps the layout.
    proof fn lemma_write_value(a: Self, k: usize, x: T)
        requires
            a.wf(),
            a@.contains_key(k),
        ensures
            forall|b: Self|
                #[trigger] b.entries@ == a.entries@.update(k as int, Entry::Occupied(x)) && b.runs
                    == a.runs && b.next_vacant_idx == a.next_vacant_idx && b.len == a.len
                    && b.non_optimized_count == a.non_optimized_count ==> b.wf() && b@ == a@.insert(
                    k,
                    x,
                ) && b.same_layout(&a),
    {
        lemma_replace_value(a.entries@, a.runs@, k as int, x);
        assert forall|b: Self|
            #[trigger] b.entries@ == a.entries@.update(k as int, Entry::Occupied(x)) && b.runs
                == a.runs && b.next_vacant_idx == a.next_vacant_idx && b.len == a.len
                && b.non_optimized_count == a.non_optimized_count implies b.wf() && b@ == a@.insert(
                k,
                x,
            ) && b.same_layout(&a) by {
            assert(b@ =~= a@.insert(k, x));
            assert(b@.dom() =~= a@.dom());
            assert(b.wf());
        }
    }

    /// An empty map; it allocates nothing.
    pub fn new() -> (r: Self)
        ensures
            r.wf(),
            r@ == Map::<usize, T>::empty(),
            r.slot_count() == 0,
            r.free_runs() == Seq::<(int, int)>::empty(),
            r.churn() == 0,
    {
        let r = SlabMap {
            entries: Vec::new(),
            next_vacant_idx: INVALID_INDEX,
            len: 0,
            non_optimized_count: 0,
            runs: Ghost(Seq::empty()),
        };
        proof {
            reveal(runs_placed);
            reveal(runs_encoded);
            assert(r@ =~= Map::<usize, T>::empty());
        }
        r
    }

    /// An empty map with room for `capacity` values before it reallocates.
    pub fn with_capacity(capacity: usize) -> (r: Self)
        ensures
            r.wf(),
            r@ == Map::<usize, T>::empty(),
            r.slot_count() == 0,
            r.free_runs() == Seq::<(int, int)>::empty(),
            r.churn() == 0,
    {
        let r = SlabMap {
            entries: Vec::with_capacity(capacity),
            next_vacant_idx: INVALID_INDEX,
            len: 0,
            non_optimized_count: 0,
            runs: Ghost(Seq::empty()),
        };
        proof {
            reveal(runs_placed);
            reveal(runs_encoded);
            assert(r@ =~= Map::<usize, T>::empty());
        }
        r
    }

    /// Number of slots allocated.
    pub fn capacity(&self) -> (r: usize)
        ensures
            r >= self.slot_count(),
    {
        vec_capacity(&self.entries)
    }

    /// Slots to add to the array so that `additional` more values fit:
    /// the vacant slots already there count.
    fn entries_additional(&self, additional: usize) -> (r: usize)
        requires
            self.wf(),
        ensures
            r == (if additional + self.len <= self.entries@.len() {
                0
            } else {
                additional + self.len - self.entries@.len()
            }),
    {
        let vacant = self.entries.len() - self.len;
        if additional <= vacant {
            0
        } else {
            additional - vacant
        }
    }

    /// Makes room for at least `additional` more values.
    pub fn reserve(&mut self, additional: usize)
        requires
            old(self).wf(),
        ensures
            final(self).wf(),
            final(self)@ == old(self)@,
            final(self).same_layout(old(self)),
    {
        let n = self.entries_additional(additional);
        self.entries.reserve(n);
    }

    /// Makes room for at least `additional` more values, reporting an
    /// allocation failure instead of aborting.
    pub fn try_reserve(&mut self, additional: usize) -> (r: Result<(), TryReserveError>)
        requires
            old(self).wf(),
        ensures
            final(self).wf(),
            final(self)@ == old(self)@,
            final(self).same_layout(old(self)),
    {
        let n = self.entries_additional(additional);
        self.entries.try_reserve(n)
    }

    /// Makes room for exactly `additional` more values.
    pub fn reserve_exact(&mut self, additional: usize)
        requires
            old(self).wf(),
        ensures
            final(self).wf(),
            final(self)@ == old(self)@,
            final(self).same_layout(old(self)),
    {
        let n = self.entries_additional(additional);
        vec_reserve_exact(&mut self.entries, n);
    }

    /// Makes room for exactly `additional` more values, reporting an
    /// allocation failure instead of aborting.
    pub fn try_reserve_exact(&mut self, additional: usize) -> (r: Result<(), TryReserveError>)
        requires
            old(self).wf(),
        ensures
            final(self).wf(),
            final(self)@ == old(self)@,
            final(self).same_layout(old(self)),
    {
        let n = self.entries_additional(additional);
        vec_try_reserve_exact(&mut self.entries, n)
    }

    /// Number of stored values.
    pub fn len(&self) -> (r: usize)
        requires
            self.wf(),
        ensures
            r == self@.len(),
    {
        proof {
            self.lemma_wf();
        }
        self.len
    }

    /// Whether no value is stored.
    pub fn is_empty(&self) -> (r: bool)
        requires
            self.wf(),
        ensures
            r == (self@.len() == 0),
    {
        proof {
            self.lemma_wf();
        }
        self.len == 0
    }

    /// The value stored under `key`, if any.
    pub fn get(&self, key: usize) -> (r: Option<&T>)
        ensures
            r == (if self@.contains_key(key) {
                Some(&self@[key])
            } else {
                None
            }),
    {
        if key < self.entries.len() {
            match &self.entries[key] {
                Entry::Occupied(value) => Some(value),
                _ => None,
            }
        } else {
            None
        }
    }

    /// A mutable reference to the value stored under `key`, if any.
    pub fn get_mut(&mut self, key: usize) -> (r: Option<&mut T>)
        requires
            old(self).wf(),
        ensures
            r is Some <==> old(self)@.contains_key(key),
            r is Some ==> *r->Some_0 == old(self)@[key] && final(self)@ == old(self)@.insert(
                key,
                *final(r->Some_0),
            ),
            r is None ==> final(self)@ == old(self)@,
            final(self).wf(),
            final(self).same_layout(old(self)),
    {
        if key < self.entries.len() && matches!(self.entries[key], Entry::Occupied(_)) {
            match &mut self.entries[key] {
                Entry::Occupied(value) => {
                    proof {
                        Self::lemma_write_value(*old(self), key, *final(value));
                    }
                    Some(value)
                },
                _ => None,
            }
        } else {
            None
        }
    }

    /// Whether a value is stored under `key`.
    pub fn contains_key(&self, key: usize) -> (r: bool)
        ensures
            r == self@.contains_key(key),
    {
        self.get(key).is_some()
    }

    /// Stores the value that `f` makes from the key it is given; returns that
    /// key. The head of the free list is reused first; with no vacant slot
    /// the value is appended.
    pub fn insert_with_key(&mut self, f: impl FnOnce(usize) -> T) -> (r: usize)
        requires
            old(self).wf(),
            call_requires(f, (old(self).next_key(),)),
        ensures
            final(self).wf(),
            r == old(self).next_key(),
            !old(self)@.contains_key(r),
            final(self)@.contains_key(r),
            call_ensures(f, (r,), final(self)@[r]),
            final(self)@ == old(self)@.insert(r, final(self)@[r]),
            final(self).inserted_from(old(self)),
    {
        proof {
            self.lemma_wf();
        }
        let ghost s = self.entries@;
        let ghost runs = self.runs@;
        let idx;
        if self.next_vacant_idx < self.entries.len() {
            idx = self.next_vacant_idx;
            proof {
                lemma_first_run(s, runs);
                lemma_occ_len_strict(s, 0, runs[0].0);
            }
            let next = match self.entries[idx] {
                Entry::VacantHead { vacant_body_len } => {
                    if vacant_body_len > 0 {
                        self.entries.set(idx + 1, Entry::VacantHead { vacant_body_len: vacant_body_len - 1 });
                    }
                    idx + 1
                },
                Entry::VacantTail { next_vacant_idx } => next_vacant_idx,
                Entry::Occupied(_) => INVALID_INDEX,
            };
            let value = f(idx);
            let ghost v = value;
            self.entries.set(idx, Entry::Occupied(value));
            self.next_vacant_idx = next;
            if self.non_optimized_count > 0 {
                self.non_optimized_count = self.non_optimized_count - 1;
            }
            self.len = self.len + 1;
            proof {
                let l = runs[0].1;
                self.runs = Ghost(
                    if l == 1 {
                        runs.drop_first()
                    } else {
                        runs.update(0, (runs[0].0 + 1, l - 1))
                    },
                );
                Self::lemma_reuse(*old(self), *self, v);
            }
        } else {
            proof {
                if runs.len() > 0 {
                    lemma_first_run(s, runs);
                }
            }
            idx = self.entries.len();
            let value = f(idx);
            let ghost v = value;
            self.entries.push(Entry::Occupied(value));
            proof {
                lemma_push_occupied(s, runs, v);
                lemma_occ_push(s, Entry::Occupied(v), 0);
                assert(self.entries@.len() == self.entries.len());
                lemma_occ_len(self.entries@, 0);
            }
            self.len = self.len + 1;
            proof {
                assert(self@ =~= old(self)@.insert(idx, self@[idx]));
            }
        }
        idx
    }

    /// Filling the head slot of the free list.
    #[verifier::rlimit(40)]
    proof fn lemma_reuse(a: Self, b: Self, v: T)
        requires
            a.wf(),
            a.runs@.len() > 0,
            b.entries@ == (if a.runs@[0].1 > 2 {
                a.entries@.update(
                    a.runs@[0].0 + 1,
                    Entry::VacantHead { vacant_body_len: (a.runs@[0].1 - 3) as usize },
                )
            } else {
                a.entries@
            }).update(a.runs@[0].0, Entry::Occupied(v)),
            b.runs@ == (if a.runs@[0].1 == 1 {
                a.runs@.drop_first()
            } else {
                a.runs@.update(0, (a.runs@[0].0 + 1, a.runs@[0].1 - 1))
            }),
            b.next_vacant_idx == (if a.runs@[0].1 == 1 {
                run_link(a.runs@, 0)
            } else {
                (a.runs@[0].0 + 1) as usize
            }),
            b.len == a.len + 1,
            b.non_optimized_count == (if a.non_optimized_count > 0 {
                a.non_optimized_count - 1
            } else {
                0
            }),
        ensures
            b.wf(),
            b@ == a@.insert(a.runs@[0].0 as usize, v),
    {
        a.lemma_wf();
        let s = a.entries@;
        let runs = a.runs@;
        let h = runs[0].0;
        let l = runs[0].1;
        lemma_first_run(s, runs);
        let s1 = if l > 2 {
            s.update(h + 1, Entry::VacantHead { vacant_body_len: (l - 3) as usize })
        } else {
            s
        };
        let runs2 = b.runs@;
        lemma_pop_front(s, runs, b.entries@, runs2, v);
        if l > 2 {
            lemma_occ_update(s, h + 1, s1[h + 1], 0);
            assert(!occupied(s[h + 1]));
        }
        lemma_occ_update(s1, h, Entry::Occupied(v), 0);
        lemma_occ_len_strict(s, 0, h);
        if l == 1 {
            assert(runs2.len() > 0 ==> runs2[0] == runs[1]);
        }
        let c = a.non_optimized_count as int;
        if c > 0 {
            assert(runs2.subrange(c - 1, runs2.len() as int) =~= runs.subrange(c, runs.len() as int));
        } else {
            assert(runs.subrange(0, runs.len() as int) =~= runs);
            assert(runs2.subrange(0, runs2.len() as int) =~= runs2);
            assert forall|i: int| 0 <= i && i + 1 < runs2.len() implies #[trigger] runs2[i].0
                + runs2[i].1 < runs2[i + 1].0 by {
                if l == 1 {
                    assert(runs2[i] == runs[i + 1]);
                    assert(runs2[i + 1] == runs[i + 2]);
                } else {
                    assert(runs[i].0 + runs[i].1 < runs[i + 1].0);
                }
            }
            assert(runs_ascending(runs2));
        }
        assert(b@ =~= a@.insert(h as usize, v));
    }

    /// Stores `value`; returns its key, chosen as `insert_with_key` does.
    pub fn insert(&mut self, value: T) -> (r: usize)
        requires
            old(self).wf(),
        ensures
            final(self).wf(),
            r == old(self).next_key(),
            !old(self)@.contains_key(r),
            final(self)@ == old(self)@.insert(r, value),
            final(self).inserted_from(old(self)),
    {
        self.insert_with_key(|_key: usize| -> (v: T) ensures v == value { value })
    }

    /// Removes every value; the allocation stays.
    pub fn clear(&mut self)
        ensures
            final(self).wf(),
            final(self)@ == Map::<usize, T>::empty(),
            final(self).slot_count() == 0,
            final(self).free_runs() == Seq::<(int, int)>::empty(),
            final(self).churn() == 0,
    {
        self.entries.clear();
        self.len = 0;
        self.next_vacant_idx = INVALID_INDEX;
        self.non_optimized_count = 0;
        self.runs = Ghost(Seq::empty());
        proof {
            lemma_empty_layout::<T>();
            assert(self@ =~= Map::<usize, T>::empty());
        }
    }

    /// Takes the value stored under `key` out of the map, if there is one.
    /// The last slot is dropped from the array; another slot becomes a
    /// vacant run at the front of the free list. A map left empty is cleared.
    pub fn remove(&mut self, key: usize) -> (r: Option<T>)
        requires
            old(self).wf(),
        ensures
            final(self).wf(),
            r == (if old(self)@.contains_key(key) {
                Some(old(self)@[key])
            } else {
                None
            }),
            final(self)@ == old(self)@.remove(key),
            old(self)@.contains_key(key) ==> final(self).removed_from(old(self), key),
            !old(self)@.contains_key(key) ==> final(self).same_layout(old(self)),
    {
        proof {
            self.lemma_wf();
        }
        let ghost s = self.entries@;
        let ghost runs = self.runs@;
        if key >= self.entries.len() || !matches!(self.entries[key], Entry::Occupied(_)) {
            proof {
                assert(self@ =~= old(self)@.remove(key));
            }
            return None;
        }
        let is_last = key + 1 == self.entries.len();
        proof {
            lemma_occ_update(s, key as int, Entry::VacantTail { next_vacant_idx: self.next_vacant_idx }, 0);
        }
        self.len = self.len - 1;
        let e = if is_last {
            proof {
                lemma_drop_last(s, runs);
                assert(s =~= s.drop_last().push(s.last()));
                lemma_occ_push(s.drop_last(), s.last(), 0);
                lemma_occ_len(s.drop_last(), 0);
            }
            self.entries.pop().unwrap()
        } else {
            let mut e = Entry::VacantTail { next_vacant_idx: self.next_vacant_idx };
            std::mem::swap(&mut e, &mut self.entries[key]);
            proof {
                lemma_push_front(s, runs, key as int, self.next_vacant_idx);
                lemma_occ_update(s, key as int, Entry::VacantTail { next_vacant_idx: self.next_vacant_idx }, 0);
                let runs2 = seq![(key as int, 1int)] + runs;
                self.runs = Ghost(runs2);
                let c = self.non_optimized_count as int;
                assert(runs2.subrange(c + 1, runs2.len() as int) =~= runs.subrange(c, runs.len() as int));
                assert forall|i: int| 0 <= i < c + 1 implies (#[trigger] runs2[i]).1 == 1 by {
                    if i > 0 {
                        assert(runs2[i] == runs[i - 1]);
                    }
                }
            }
            self.next_vacant_idx = key;
            self.non_optimized_count = self.non_optimized_count + 1;
            e
        };
        proof {
            assert(self@ =~= old(self)@.remove(key));
        }
        if self.len == 0 {
            self.clear();
            proof {
                assert(old(self)@.remove(key) =~= Map::<usize, T>::empty());
            }
        } else if is_last && !matches!(self.entries[self.entries.len() - 1], Entry::Occupied(_)) {
            proof {
                reveal(runs_placed);
                assert(self.entries@.len() == self.entries.len());
                assert(boundary(self.runs@, 0));
                lemma_boundary_scannable(self.entries@, self.runs@, 0);
            }
            self.force_optimize();
        }
        match e {
            Entry::Occupied(value) => Some(value),
            _ => None,
        }
    }

    /// Closes the vacant run `vacant_head_idx..vacant_end_idx`, if it is not
    /// empty: writes its encoding and links it after the previous run.
    fn set_vacants(
        &mut self,
        vacant_head_idx: usize,
        vacant_end_idx: usize,
        prev_vacant_tail_idx: &mut Option<usize>,
        runs: Ghost<Seq<(int, int)>>,
    ) -> (runs2: Ghost<Seq<(int, int)>>)
        requires
            vacant_head_idx <= vacant_end_idx < old(self).entries@.len(),
            prefix_ok(
                old(self).entries@,
                vacant_head_idx as int,
                runs@,
                old(self).next_vacant_idx,
                *old(prev_vacant_tail_idx),
            ),
            all_vacant(old(self).entries@, vacant_head_idx as int, vacant_end_idx as int),
            occupied(old(self).entries@[vacant_end_idx as int]),
        ensures
            prefix_ok(
                final(self).entries@,
                vacant_end_idx + 1,
                runs2@,
                final(self).next_vacant_idx,
                *final(prev_vacant_tail_idx),
            ),
            final(self).entries@.len() == old(self).entries@.len(),
            forall|j: int|
                vacant_end_idx <= j < old(self).entries@.len() ==> final(self).entries@[j] == old(
                    self,
                ).entries@[j],
            forall|j: int|
                0 <= j < old(self).entries@.len() ==> value_of(#[trigger] final(self).entries@[j])
                    == value_of(old(self).entries@[j]),
            final(self).len == old(self).len,
            final(self).non_optimized_count == old(self).non_optimized_count,
            runs2@ == (if vacant_head_idx < vacant_end_idx {
                runs@.push((vacant_head_idx as int, vacant_end_idx - vacant_head_idx))
            } else {
                runs@
            }),
            forall|j: int|
                0 <= j < old(self).entries@.len() && j != vacant_head_idx && j != vacant_end_idx - 1
                    && (*old(prev_vacant_tail_idx) is None || j != old(
                    prev_vacant_tail_idx,
                )->Some_0) ==> #[trigger] final(self).entries@[j] == old(self).entries@[j],
            vacant_head_idx >= vacant_end_idx ==> final(self).entries@ == old(self).entries@
                && *final(prev_vacant_tail_idx) == *old(prev_vacant_tail_idx)
                && final(self).next_vacant_idx == old(self).next_vacant_idx,
            vacant_head_idx < vacant_end_idx ==> {
                &&& vacant_head_idx + 2 <= vacant_end_idx ==> final(self).entries@[vacant_head_idx as int]
                    == (Entry::<T>::VacantHead {
                    vacant_body_len: (vacant_end_idx - vacant_head_idx - 2) as usize,
                })
                &&& final(self).entries@[vacant_end_idx - 1] == (Entry::<T>::VacantTail {
                    next_vacant_idx: INVALID_INDEX,
                })
                &&& *old(prev_vacant_tail_idx) is Some ==> final(self).entries@[old(
                    prev_vacant_tail_idx,
                )->Some_0 as int] == (Entry::<T>::VacantTail { next_vacant_idx: vacant_head_idx })
                &&& *final(prev_vacant_tail_idx) == Some((vacant_end_idx - 1) as usize)
                &&& final(self).next_vacant_idx == (if old(self).next_vacant_idx == INVALID_INDEX {
                    vacant_head_idx
                } else {
                    old(self).next_vacant_idx
                })
            },
    {
        let ghost s = self.entries@;
        let ghost p = s.subrange(0, vacant_head_idx as int);
        assert(s.len() == self.entries.len());
        if vacant_head_idx >= vacant_end_idx {
            proof {
                assert(s.subrange(0, vacant_end_idx + 1) =~= p.push(s[vacant_end_idx as int]));
                lemma_push_occupied(p, runs@, s[vacant_end_idx as int]->Occupied_0);
            }
            return runs;
        }
        proof {
            if runs@.len() > 0 {
                lemma_first_run(p, runs@);
                assert(runs@.last().0 + runs@.last().1 <= vacant_head_idx && runs@.last().0 >= 0
                    && runs@.last().1 >= 1) by {
                    reveal(crate::model::runs_placed);
                    assert(crate::model::in_run(runs@[runs@.len() - 1], runs@.last().0 + runs@.last().1 - 1));
                };
            }
        }
        if self.next_vacant_idx == INVALID_INDEX {
            self.next_vacant_idx = vacant_head_idx;
        }
        if vacant_head_idx + 2 <= vacant_end_idx {
            self.entries.set(
                vacant_head_idx,
                Entry::VacantHead { vacant_body_len: vacant_end_idx - (vacant_head_idx + 2) },
            );
        }
        self.entries.set(vacant_end_idx - 1, Entry::VacantTail { next_vacant_idx: INVALID_INDEX });
        if let Some(prev) = *prev_vacant_tail_idx {
            self.entries.set(prev, Entry::VacantTail { next_vacant_idx: vacant_head_idx });
        }
        *prev_vacant_tail_idx = Some(vacant_end_idx - 1);
        let ghost run = (vacant_head_idx as int, vacant_end_idx - vacant_head_idx);
        proof {
            let s2 = self.entries@;
            let p2 = s2.subrange(0, vacant_end_idx + 1);
            assert(s2.len() == s.len());
            assert(p2.len() == vacant_end_idx + 1);
            if runs@.len() > 0 {
                let t = runs@.last().0 + runs@.last().1 - 1;
                assert(!occupied(p[t])) by {
                    reveal(crate::model::runs_placed);
                    assert(crate::model::in_run(runs@[runs@.len() - 1], t));
                };
            }
            assert forall|j: int| 0 <= j < s.len() implies value_of(#[trigger] s2[j]) == value_of(s[j]) by {
                if runs@.len() > 0 && j == runs@.last().0 + runs@.last().1 - 1 {
                    assert(!occupied(p[j]));
                }
            }
            lemma_append_run(p, runs@, p2, vacant_end_idx - vacant_head_idx);
            assert(runs@.push(run).last() == run);
            if runs@.len() > 0 {
                assert(runs@.push(run)[0] == runs@[0]);
            }
        }
        Ghost(runs@.push(run))
    }

    /// The compaction pass: keeps the values for which `f` returns true and
    /// rebuilds the free list from maximal vacant runs in ascending order,
    /// dropping a trailing run.
    fn merge_vacants(&mut self, mut f: impl FnMut(usize, &mut T) -> bool)
        requires
            scannable(old(self).entries@, 0),
            forall|k: usize, x: &mut T| call_requires(f, (k, x)),
        ensures
            final(self).wf(),
            final(self).churn() == 0,
            runs_ascending(final(self).free_runs()),
            final(self).tail_occupied(),
            forall|k: usize| #[trigger] final(self)@.contains_key(k) ==> old(self)@.contains_key(k),
            forall|k: usize|
                #[trigger] old(self)@.contains_key(k) ==> (exists|x: &mut T| *x == old(self)@[k] && #[trigger] call_ensures(f, (k, x), (map_get(final(self)@, k)) is Some) && ((map_get(final(self)@, k)) is Some ==> (map_get(final(self)@, k))->Some_0 == *final(x))),
    {
        let ghost s0 = self.entries@;
        let ghost f0 = f;
        let mut idx: usize = 0;
        let mut vacant_head_idx: usize = 0;
        let mut prev_vacant_tail_idx: Option<usize> = None;
        let mut len: usize = 0;
        let mut runs: Ghost<Seq<(int, int)>> = Ghost(Seq::empty());
        self.next_vacant_idx = INVALID_INDEX;
        proof {
            lemma_empty_layout::<T>();
            assert(self.entries@.subrange(0, 0) =~= Seq::<Entry<T>>::empty());
        }
        while idx < self.entries.len()
            invariant
                self.entries@.len() == s0.len(),
                0 <= vacant_head_idx <= idx <= s0.len(),
                scannable(s0, idx as int),
                forall|j: int| idx <= j < s0.len() ==> self.entries@[j] == s0[j],
                all_vacant(self.entries@, vacant_head_idx as int, idx as int),
                prefix_ok(
                    self.entries@,
                    vacant_head_idx as int,
                    runs@,
                    self.next_vacant_idx,
                    prev_vacant_tail_idx,
                ),
                len == count_upto(self.entries@, idx as int),
                forall|k: int| 0 <= k < idx && occupied(#[trigger] self.entries@[k]) ==> occupied(s0[k]),
                forall|k: usize|
                    (k as int) < idx && occupied(#[trigger] s0[k as int]) ==> (exists|x: &mut T| *x == s0[k as int]->Occupied_0 && #[trigger] call_ensures(f, (k, x), (value_of(self.entries@[k as int])) is Some) && ((value_of(self.entries@[k as int])) is Some ==> (value_of(self.entries@[k as int]))->Some_0 == *final(x))),
                forall|k: usize, x: &mut T| call_requires(f, (k, x)),
                f == f0,
            decreases s0.len() - idx,
        {
            let ghost s = self.entries@;
            let step: usize = match &self.entries[idx] {
                Entry::VacantHead { vacant_body_len } => *vacant_body_len + 2,
                Entry::VacantTail { .. } => 1,
                Entry::Occupied(_) => 0,
            };
            if step > 0 {
                proof {
                    assert(s[idx as int] == s0[idx as int]);
                    assert(scannable(s0, idx as int));
                    assert(scannable(s0, idx + step));
                    assert(all_vacant(s0, idx as int, idx + step));
                    assert forall|j: int| idx <= j < idx + step implies !occupied(#[trigger] s[j]) by {
                        assert(s[j] == s0[j]);
                    }
                    lemma_count_vacant(s, idx as int, idx + step);
                }
                idx = idx + step;
            } else {
                let ghost v0 = s0[idx as int]->Occupied_0;
                let ghost i0 = idx as int;
                let mut e = Entry::VacantTail { next_vacant_idx: INVALID_INDEX };
                std::mem::swap(&mut e, &mut self.entries[idx]);
                let ghost s1 = self.entries@;
                proof {
                    assert(s[idx as int] == s0[idx as int]);
                    assert(self.entries@.subrange(0, vacant_head_idx as int) =~= s.subrange(0, vacant_head_idx as int));
                    lemma_count_same_pattern(s1, s, idx as int);
                    lemma_count_step(s1, idx as int);
                }
                if let Entry::Occupied(mut value) = e {
                    let keep = f(idx, &mut value);
                    proof {
                        assert(exists|x: &mut T| *x == v0 && #[trigger] call_ensures(f, (idx, x), keep) && *final(x) == value);
                        crate::model::lemma_occ_len(s.subrange(0, idx as int), 0);
                    }
                    if keep {
                        self.entries.set(idx, Entry::Occupied(value));
                        proof {
                            assert(value_of(self.entries@[i0]) == Some(value));
                        }
                        let ghost s2 = self.entries@;
                        proof {
                            assert(s2.subrange(0, vacant_head_idx as int) =~= s.subrange(0, vacant_head_idx as int));
                            if vacant_head_idx > 0 {
                                assert(s2[vacant_head_idx - 1] == s[vacant_head_idx - 1]);
                            }
                            lemma_count_same_pattern(s2, s, idx as int);
                            lemma_count_step(s2, idx as int);
                        }
                        runs = self.set_vacants(vacant_head_idx, idx, &mut prev_vacant_tail_idx, runs);
                        proof {
                            lemma_count_same_pattern(self.entries@, s2, idx + 1);
                            assert(value_of(self.entries@[i0]) == value_of(s2[i0]));
                            assert(exists|x: &mut T| *x == v0 && #[trigger] call_ensures(f, (idx, x), value_of(self.entries@[i0]) is Some) && (value_of(self.entries@[i0]) is Some ==> value_of(self.entries@[i0])->Some_0 == *final(x)));
                        }
                        idx = idx + 1;
                        len = len + 1;
                        vacant_head_idx = idx;
                    } else {
                        proof {
                            assert(value_of(self.entries@[i0]) is None);
                            assert(keep == (value_of(self.entries@[i0]) is Some));
                            assert(exists|x: &mut T| *x == v0 && #[trigger] call_ensures(f, (idx, x), value_of(self.entries@[i0]) is Some) && (value_of(self.entries@[i0]) is Some ==> value_of(self.entries@[i0])->Some_0 == *final(x)));
                        }
                        idx = idx + 1;
                    }
                } else {
                    idx = idx + 1;
                }
                proof {
                    assert forall|k: usize|
                        (k as int) < idx && occupied(#[trigger] s0[k as int]) implies (exists|x: &mut T| *x == s0[k as int]->Occupied_0 && #[trigger] call_ensures(f, (k, x), (value_of(self.entries@[k as int])) is Some) && ((value_of(self.entries@[k as int])) is Some ==> (value_of(self.entries@[k as int]))->Some_0 == *final(x))) by {
                        if (k as int) < i0 {
                            assert(value_of(self.entries@[k as int]) == value_of(s[k as int]));
                        }
                    }
                }
            }
        }
        proof {
            lemma_count_vacant(self.entries@, vacant_head_idx as int, idx as int);
        }
        let ghost s = self.entries@;
        self.entries.truncate(vacant_head_idx);
        self.len = len;
        self.non_optimized_count = 0;
        self.runs = runs;
        proof {
            let s2 = self.entries@;
            assert(s2 =~= s.subrange(0, vacant_head_idx as int));
            assert(runs@.subrange(0, runs@.len() as int) =~= runs@);
            lemma_occ_len(s2, 0);
            assert(self.wf());
            assert forall|k: usize| #[trigger] old(self)@.contains_key(k) implies (exists|x: &mut T| *x == old(self)@[k] && #[trigger] call_ensures(f, (k, x), (map_get(self@, k)) is Some) && ((map_get(self@, k)) is Some ==> (map_get(self@, k))->Some_0 == *final(x))) by {
                assert(occupied(s0[k as int]));
                assert(value_of(s[k as int]) == map_get(self@, k));
                assert((value_of(s[k as int]) is Some) == (map_get(self@, k) is Some));
            }
        }
    }

    /// Keeps the values for which `f`, given the key and the value, returns
    /// true, and compacts the free list.
    pub fn retain(&mut self, f: impl FnMut(usize, &mut T) -> bool)
        requires
            old(self).wf(),
            forall|k: usize, x: &mut T| call_requires(f, (k, x)),
        ensures
            final(self).wf(),
            final(self).churn() == 0,
            runs_ascending(final(self).free_runs()),
            final(self).tail_occupied(),
            forall|k: usize| #[trigger] final(self)@.contains_key(k) ==> old(self)@.contains_key(k),
            forall|k: usize|
                #[trigger] old(self)@.contains_key(k) ==> (exists|x: &mut T| *x == old(self)@[k] && #[trigger] call_ensures(f, (k, x), (map_get(final(self)@, k)) is Some) && ((map_get(final(self)@, k)) is Some ==> (map_get(final(self)@, k))->Some_0 == *final(x))),
    {
        proof {
            self.lemma_wf_scannable();
        }
        self.merge_vacants(f)
    }

    /// Runs the compaction pass without dropping anything.
    fn force_optimize(&mut self)
        requires
            scannable(old(self).entries@, 0),
        ensures
            final(self).wf(),
            final(self)@ == old(self)@,
            final(self).churn() == 0,
            runs_ascending(final(self).free_runs()),
            final(self).tail_occupied(),
    {
        let keep_all = |_key: usize, value: &mut T| -> (b: bool)
            ensures
                b,
                *final(value) == *old(value),
            { true };
        self.merge_vacants(keep_all);
        proof {
            assert forall|k: usize| #[trigger] old(self)@.contains_key(k) implies self@.contains_key(k) && self@[k] == old(self)@[k] by {
                let x = choose|x: &mut T| *x == old(self)@[k] && #[trigger] call_ensures(keep_all, (k, x), (map_get(self@, k)) is Some) && ((map_get(self@, k)) is Some ==> (map_get(self@, k))->Some_0 == *final(x));
            }
            assert(self@ =~= old(self)@);
        }
    }

    /// Whether the free list is in compacted form.
    fn is_optimized(&self) -> (r: bool)
        ensures
            r == (self.churn() == 0),
    {
        self.non_optimized_count == 0
    }

    /// Compacts the free list so that a scan skips each vacant run in one
    /// step; does nothing when no removal happened since the last compaction.
    pub fn optimize(&mut self)
        requires
            old(self).wf(),
        ensures
            final(self).wf(),
            final(self).optimized_from(old(self)),
    {
        if !self.is_optimized() {
            proof {
                self.lemma_wf_scannable();
            }
            self.force_optimize();
        } else {
            proof {
                assert(self.runs@.subrange(0, self.runs@.len() as int) =~= self.runs@);
            }
        }
    }

    /// A map holding the given pairs, a later pair winning over an earlier one
    /// with the same key, with room for `capacity` slots.
    pub fn from_iter_with_capacity(iter: Vec<(usize, T)>, capacity: usize) -> (r: Self)
        requires
            forall|i: int| 0 <= i < iter@.len() ==> (#[trigger] iter@[i]).0 < usize::MAX,
        ensures
            r.wf(),
            r@ == map_from_pairs(iter@),
            r.churn() == 0,
            runs_ascending(r.free_runs()),
            r.tail_occupied(),
    {
        let ghost pairs = iter@;
        let mut items = iter;
        let mut rev: Vec<(usize, T)> = Vec::new();
        while items.len() > 0
            invariant
                items@.len() + rev@.len() == pairs.len(),
                items@ == pairs.subrange(0, items@.len() as int),
                forall|j: int| 0 <= j < rev@.len() ==> #[trigger] rev@[j] == pairs[pairs.len() - 1 - j],
            decreases items@.len(),
        {
            let item = items.pop().unwrap();
            rev.push(item);
            proof {
                assert(items@ =~= pairs.subrange(0, items@.len() as int));
            }
        }
        let mut entries: Vec<Entry<T>> = Vec::with_capacity(capacity);
        proof {
            assert(pairs.subrange(0, 0) =~= Seq::<(usize, T)>::empty());
            assert(slots_view(entries@) =~= Map::<usize, T>::empty());
        }
        while rev.len() > 0
            invariant
                rev@.len() <= pairs.len(),
                forall|j: int| 0 <= j < rev@.len() ==> #[trigger] rev@[j] == pairs[pairs.len() - 1 - j],
                forall|i: int| 0 <= i < pairs.len() ==> (#[trigger] pairs[i]).0 < usize::MAX,
                forall|j: int| 0 <= j < entries@.len() ==> !(#[trigger] entries@[j] is VacantHead),
                slots_view(entries@) == map_from_pairs(pairs.subrange(0, pairs.len() - rev@.len())),
            decreases rev@.len(),
        {
            let ghost t = pairs.len() - rev@.len();
            let (key, value) = rev.pop().unwrap();
            proof {
                assert(pairs[t] == (key, value));
            }
            while entries.len() <= key
                invariant
                    forall|j: int| 0 <= j < entries@.len() ==> !(#[trigger] entries@[j] is VacantHead),
                    slots_view(entries@) == map_from_pairs(pairs.subrange(0, t)),
                    key < usize::MAX,
                decreases key + 1 - entries@.len(),
            {
                let ghost e0 = entries@;
                entries.push(Entry::VacantTail { next_vacant_idx: INVALID_INDEX });
                proof {
                    assert(slots_view(entries@) =~= slots_view(e0));
                }
            }
            entries.set(key, Entry::Occupied(value));
            proof {
                let p = pairs.subrange(0, t + 1);
                assert(p.drop_last() =~= pairs.subrange(0, t));
                assert(slots_view(entries@) =~= map_from_pairs(p));
            }
        }
        proof {
            assert(pairs.subrange(0, pairs.len() as int) =~= pairs);
            lemma_no_heads_scannable(entries@, 0);
        }
        let mut this = SlabMap {
            entries,
            next_vacant_idx: INVALID_INDEX,
            len: 0,
            non_optimized_count: 0,
            runs: Ghost(Seq::empty()),
        };
        this.force_optimize();
        this
    }

    /// A map holding the given pairs, a later pair winning over an earlier one
    /// with the same key.
    pub fn from_iter(iter: Vec<(usize, T)>) -> (r: Self)
        requires
            forall|i: int| 0 <= i < iter@.len() ==> (#[trigger] iter@[i]).0 < usize::MAX,
        ensures
            r.wf(),
            r@ == map_from_pairs(iter@),
            r.churn() == 0,
            runs_ascending(r.free_runs()),
            r.tail_occupied(),
    {
        Self::from_iter_with_capacity(iter, 0)
    }


    /// The pairs of `items()` are the entries of the map, each once, in
    /// strictly ascending key order; there are `len()` of them.
    pub proof fn lemma_items(&self)
        requires
            self.wf(),
        ensures
            self.items().len() == self@.len(),
            forall|n: int|
                0 <= n < self.items().len() ==> self@.contains_key(#[trigger] self.items()[n].0)
                    && self@[self.items()[n].0] == self.items()[n].1,
            forall|k: usize|
                #[trigger] self@.contains_key(k) ==> exists|n: int|
                    0 <= n < self.items().len() && #[trigger] self.items()[n].0 == k,
            forall|n: int, m: int|
                0 <= n < m < self.items().len() ==> #[trigger] self.items()[n].0
                    < #[trigger] self.items()[m].0,
    {
        self.lemma_wf();
        assert(self.entries@.len() == self.entries.len());
        lemma_occ_index(self.entries@, 0);
        assert forall|k: usize| #[trigger] self@.contains_key(k) implies exists|n: int|
            0 <= n < self.items().len() && #[trigger] self.items()[n].0 == k by {
            assert(occupied(self.entries@[k as int]));
            let n = choose|n: int| 0 <= n < self.items().len() && #[trigger] self.items()[n].0 == k as int;
            assert(self.items()[n].0 == k);
        }
    }

    /// Every key lies below `slot_count()`, which fits a `usize`. The free
    /// list holds every vacant slot of the array exactly once: its runs lie
    /// below `slot_count()`, hold no key, do not overlap, and every key below
    /// `slot_count()` that the map lacks lies in one of them.
    pub proof fn lemma_free_runs(&self)
        requires
            self.wf(),
        ensures
            self.free_head() == INVALID_INDEX <==> self.free_runs().len() == 0,
            forall|i: int|
                0 <= i < self.free_runs().len() ==> 0 <= (#[trigger] self.free_runs()[i]).0 && 1
                    <= self.free_runs()[i].1 && self.free_runs()[i].0 + self.free_runs()[i].1
                    <= self.slot_count(),
            forall|i: int, k: usize|
                0 <= i < self.free_runs().len() && #[trigger] in_run(self.free_runs()[i], k as int)
                    ==> !self@.contains_key(k),
            forall|i1: int, i2: int, j: int|
                0 <= i1 < self.free_runs().len() && 0 <= i2 < self.free_runs().len() && i1 != i2
                    && #[trigger] in_run(self.free_runs()[i1], j) ==> !#[trigger] in_run(
                    self.free_runs()[i2],
                    j,
                ),
            self.slot_count() <= usize::MAX,
            forall|k: usize| #[trigger] self@.contains_key(k) ==> (k as int) < self.slot_count(),
            forall|k: usize|
                (k as int) < self.slot_count() && !#[trigger] self@.contains_key(k) ==> exists|i: int|
                    0 <= i < self.free_runs().len() && #[trigger] in_run(self.free_runs()[i], k as int),
    {
        self.lemma_wf();
        reveal(runs_placed);
        assert forall|k: usize|
            (k as int) < self.slot_count() && !#[trigger] self@.contains_key(k) implies exists|i: int|
                0 <= i < self.free_runs().len() && #[trigger] in_run(self.free_runs()[i], k as int) by {
            assert(!occupied(self.entries@[k as int]));
        }
    }

    /// Compacting twice leaves what compacting once left.
    pub proof fn lemma_optimize_idempotent(a: Self, b: Self, c: Self)
        requires
            a.wf(),
            b.optimized_from(&a),
            c.optimized_from(&b),
        ensures
            c == b,
    {
    }

    /// An insertion into a map whose last slot holds a value keeps it so.
    pub proof fn lemma_insert_keeps_tail(a: Self, b: Self, v: T)
        requires
            a.wf(),
            a.tail_occupied(),
            b.inserted_from(&a),
            b@ == a@.insert(a.next_key(), v),
        ensures
            b.tail_occupied(),
    {
        a.lemma_wf();
        if a.free_runs().len() == 0 {
            assert(a.next_key() == a.slot_count());
        }
    }

    /// A removal keeps the last slot occupied.
    pub proof fn lemma_remove_keeps_tail(a: Self, b: Self, key: usize)
        requires
            a.wf(),
            a.tail_occupied(),
            a@.contains_key(key),
            b.removed_from(&a, key),
            b@ == a@.remove(key),
        ensures
            b.tail_occupied(),
    {
        a.lemma_wf();
    }

    /// In compacted form a full key-ordered scan reads at most `2 * len + 1`
    /// slots.
    pub proof fn lemma_compact_scan_cost(&self)
        requires
            self.wf(),
            self.churn() == 0,
        ensures
            self.scan_cost() <= 2 * self@.len() + 1,
    {
        self.lemma_wf();
        assert(self.entries@.len() == self.entries.len());
        assert(self.runs@.subrange(0, self.runs@.len() as int) =~= self.runs@);
        reveal(runs_placed);
        assert(boundary(self.runs@, 0));
        lemma_scan_cost_bound(self.entries@, self.runs@, 0);
    }
    /// An iterator over the pairs in ascending key order.
    pub fn iter(&self) -> (r: Iter<'_, T>)
        requires
            self.wf(),
        ensures
            r.wf(),
            r.remaining() == self.items(),
            r.reads() == 0,
            r.cost_left() == self.scan_cost(),
    {
        proof {
            self.lemma_wf_scannable();
            self.lemma_wf();
        }
        Iter::new(&self.entries, self.len)
    }

    /// An iterator over the pairs in ascending key order that lends a
    /// mutable reference to each value.
    pub fn iter_mut(&mut self) -> (r: IterMut<'_, T>)
        requires
            old(self).wf(),
        ensures
            r.wf(),
            r.remaining() == old(self).items(),
    {
        proof {
            self.lemma_wf_scannable();
            self.lemma_wf();
        }
        let len = self.len;
        IterMut::new(&mut self.entries, len)
    }

    /// An iterator over the keys in ascending order.
    pub fn keys(&self) -> (r: Keys<'_, T>)
        requires
            self.wf(),
        ensures
            r.wf(),
            r.remaining() == self.items(),
    {
        Keys::new(self.iter())
    }

    /// An iterator over the values in ascending key order.
    pub fn values(&self) -> (r: Values<'_, T>)
        requires
            self.wf(),
        ensures
            r.wf(),
            r.remaining() == self.items(),
    {
        Values::new(self.iter())
    }

    /// An iterator that lends a mutable reference to each value in ascending
    /// key order.
    pub fn values_mut(&mut self) -> (r: ValuesMut<'_, T>)
        requires
            old(self).wf(),
        ensures
            r.wf(),
            r.remaining() == old(self).items(),
    {
        ValuesMut::new(self.iter_mut())
    }

    /// Empties the map at once and returns an iterator that hands out the
    /// pairs it held, in ascending key order.
    pub fn drain(&mut self) -> (r: Drain<T>)
        requires
            old(self).wf(),
        ensures
            final(self).wf(),
            final(self)@ == Map::<usize, T>::empty(),
            final(self).slot_count() == 0,
            final(self).free_runs() == Seq::<(int, int)>::empty(),
            final(self).churn() == 0,
            r.wf(),
            r.remaining() == old(self).items(),
    {
        proof {
            self.lemma_wf_scannable();
            self.lemma_wf();
        }
        let len = self.len;
        let mut entries: Vec<Entry<T>> = Vec::new();
        std::mem::swap(&mut entries, &mut self.entries);
        self.len = 0;
        self.next_vacant_idx = INVALID_INDEX;
        self.non_optimized_count = 0;
        self.runs = Ghost(Seq::empty());
        proof {
            lemma_empty_layout::<T>();
            assert(self@ =~= Map::<usize, T>::empty());
        }
        Drain::new(IntoIter::new(entries, len))
    }

    /// Consumes the map into an iterator over its pairs in ascending key order.
    pub fn into_iter(self) -> (r: IntoIter<T>)
        requires
            self.wf(),
        ensures
            r.wf(),
            r.remaining() == self.items(),
    {
        proof {
            self.lemma_wf_scannable();
            self.lemma_wf();
        }
        IntoIter::new(self.entries, self.len)
    }
}


/// A copy of one slot; a value is cloned.
fn clone_entry<T: Clone>(e: &Entry<T>) -> (r: Entry<T>)
    ensures
        occupied(r) == occupied(*e),
        !occupied(*e) ==> r == *e,
        occupied(*e) ==> cloned(e->Occupied_0, r->Occupied_0),
{
    match e {
        Entry::Occupied(value) => Entry::Occupied(value.clone()),
        Entry::VacantHead { vacant_body_len } => Entry::VacantHead { vacant_body_len: *vacant_body_len },
        Entry::VacantTail { next_vacant_idx } => Entry::VacantTail { next_vacant_idx: *next_vacant_idx },
    }
}

impl<T: Clone> SlabMap<T> {
    /// Makes this map a clone of `source`, reusing its own allocation.
    fn copy_from(&mut self, source: &Self)
        ensures
            source.wf() ==> final(self).wf() && final(self).same_layout(source) && forall|k: usize|
                #[trigger] source@.contains_key(k) ==> cloned(source@[k], final(self)@[k]),
    {
        self.entries.clear();
        let mut i: usize = 0;
        while i < source.entries.len()
            invariant
                i <= source.entries@.len(),
                self.entries@.len() == i,
                forall|j: int| 0 <= j < i ==> occupied(#[trigger] self.entries@[j]) == occupied(source.entries@[j]),
                forall|j: int| 0 <= j < i && !occupied(source.entries@[j]) ==> #[trigger] self.entries@[j] == source.entries@[j],
                forall|j: int| 0 <= j < i && occupied(source.entries@[j]) ==> cloned(source.entries@[j]->Occupied_0, #[trigger] self.entries@[j]->Occupied_0),
            decreases source.entries@.len() - i,
        {
            let e = clone_entry(&source.entries[i]);
            self.entries.push(e);
            i = i + 1;
        }
        self.next_vacant_idx = source.next_vacant_idx;
        self.len = source.len;
        self.non_optimized_count = source.non_optimized_count;
        self.runs = source.runs;
        proof {
            if source.wf() {
                lemma_same_pattern_layout(source.entries@, self.entries@, source.runs@);
                assert(self@.dom() =~= source@.dom());
            }
        }
    }
}

impl<T: Clone> Clone for SlabMap<T> {
    /// A map with the same keys, clones of the values, and the same free list.
    fn clone(&self) -> (r: Self)
        ensures
            self.wf() ==> r.wf() && r.same_layout(self) && forall|k: usize|
                #[trigger] self@.contains_key(k) ==> cloned(self@[k], r@[k]),
    {
        let mut r = SlabMap::with_capacity(self.entries.len());
        r.copy_from(self);
        r
    }

    /// Makes this map a clone of `source`, reusing its own allocation.
    fn clone_from(&mut self, source: &Self)
        ensures
            source.wf() ==> final(self).wf() && final(self).same_layout(source) && forall|k: usize|
                #[trigger] source@.contains_key(k) ==> cloned(source@[k], final(self)@[k]),
    {
        self.copy_from(source)
    }
}

impl<T> Default for SlabMap<T> {
    /// An empty map.
    fn default() -> (r: Self)
        ensures
            r.wf(),
            r@ == Map::<usize, T>::empty(),
    {
        Self::new()
    }
}

} // verus!
