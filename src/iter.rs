//! Iterators over a `SlabMap`, in ascending key order. Each skips a vacant
//! run in one step, reading only the run's first slot.
use vstd::prelude::*;
use crate::model::{
    lemma_occ_at, lemma_occ_skip, lemma_occ_suffix, occupied, occupied_from, scan_cost, scannable,
    slots_view, Entry, INVALID_INDEX,
};

verus! {

/// Iterator over the pairs of a `SlabMap` in ascending key order.
pub struct Iter<'a, T> {
    entries: &'a Vec<Entry<T>>,
    idx: usize,
    len: usize,
    /// Slots read so far.
    reads: Ghost<nat>,
}

impl<'a, T> Iter<'a, T> {
    /// A scan of `entries` from the start; `len` is the number of values.
    pub(crate) fn new(entries: &'a Vec<Entry<T>>, len: usize) -> (r: Self)
        requires
            scannable(entries@, 0),
            len == occupied_from(entries@, 0).len(),
        ensures
            r.wf(),
            r.remaining() == occupied_from(entries@, 0),
            r.reads() == 0,
            r.cost_left() == scan_cost(entries@, 0),
    {
        Iter { entries, idx: 0, len, reads: Ghost(0) }
    }

    pub closed spec fn wf(&self) -> bool {
        &&& scannable(self.entries@, self.idx as int)
        &&& self.len == occupied_from(self.entries@, self.idx as int).len()
    }

    /// The pairs not yet handed out.
    pub closed spec fn remaining(&self) -> Seq<(usize, T)> {
        occupied_from(self.entries@, self.idx as int)
    }

    /// Slots read so far.
    pub closed spec fn reads(&self) -> nat {
        self.reads@
    }

    /// Slots that the rest of the scan reads.
    pub closed spec fn cost_left(&self) -> nat {
        scan_cost(self.entries@, self.idx as int)
    }

    /// The next pair; vacant runs are skipped one run per slot read.
    pub fn next(&mut self) -> (r: Option<(usize, &'a T)>)
        requires
            old(self).wf(),
        ensures
            final(self).wf(),
            old(self).remaining().len() == 0 ==> r is None && final(self).remaining() == old(
                self,
            ).remaining(),
            old(self).remaining().len() > 0 ==> r is Some && r->Some_0.0 == old(self).remaining()[0].0
                && *r->Some_0.1 == old(self).remaining()[0].1 && final(self).remaining() == old(
                self,
            ).remaining().drop_first(),
            final(self).reads() + final(self).cost_left() == old(self).reads() + old(self).cost_left(),
    {
        let entries: &'a Vec<Entry<T>> = self.entries;
        while self.idx < entries.len()
            invariant
                entries == self.entries,
                entries == old(self).entries,
                scannable(entries@, self.idx as int),
                occupied_from(entries@, self.idx as int) == old(self).remaining(),
                self.len == old(self).len,
                self.len == occupied_from(entries@, self.idx as int).len(),
                self.reads@ + scan_cost(entries@, self.idx as int) == old(self).reads@ + old(
                    self,
                ).cost_left(),
            decreases entries@.len() - self.idx,
        {
            let i = self.idx;
            match &entries[i] {
                Entry::Occupied(value) => {
                    proof {
                        assert(entries@[i as int] is Occupied);
                        lemma_occ_at(entries@, i as int);
                    }
                    self.idx = i + 1;
                    self.len = self.len - 1;
                    self.reads = Ghost(self.reads@ + 1);
                    return Some((i, value));
                },
                Entry::VacantHead { vacant_body_len } => {
                    proof {
                        lemma_occ_skip(entries@, i as int, i + *vacant_body_len + 2);
                    }
                    self.idx = i + *vacant_body_len + 2;
                    self.reads = Ghost(self.reads@ + 1);
                },
                Entry::VacantTail { .. } => {
                    self.idx = i + 1;
                    self.reads = Ghost(self.reads@ + 1);
                },
            }
        }
        None
    }

    /// `(n, Some(n))` for the `n` pairs not yet handed out.
    pub fn size_hint(&self) -> (r: (usize, Option<usize>))
        requires
            self.wf(),
        ensures
            r.0 == self.remaining().len(),
            r.1 == Some(r.0),
    {
        (self.len, Some(self.len))
    }

    /// Number of pairs not yet handed out.
    pub fn count(self) -> (r: usize)
        requires
            self.wf(),
        ensures
            r == self.remaining().len(),
    {
        self.len
    }
}

/// Iterator over the pairs of a `SlabMap` in ascending key order, lending a
/// mutable reference to each value.
pub struct IterMut<'a, T> {
    entries: &'a mut Vec<Entry<T>>,
    idx: usize,
    len: usize,
}

impl<'a, T> IterMut<'a, T> {
    /// A scan of `entries` from the start; `len` is the number of values.
    pub(crate) fn new(entries: &'a mut Vec<Entry<T>>, len: usize) -> (r: Self)
        requires
            scannable(old(entries)@, 0),
            len == occupied_from(old(entries)@, 0).len(),
        ensures
            r.wf(),
            r.remaining() == occupied_from(old(entries)@, 0),
            r.current() == slots_view(old(entries)@),
    {
        IterMut { entries, idx: 0, len }
    }

    pub closed spec fn wf(&self) -> bool {
        &&& scannable(self.slots(), self.idx as int)
        &&& self.len == occupied_from(self.slots(), self.idx as int).len()
    }

    /// The pairs not yet handed out.
    pub closed spec fn remaining(&self) -> Seq<(usize, T)> {
        occupied_from(self.slots(), self.idx as int)
    }

    /// The map's entries as they stand, values changed through lent
    /// references included.
    pub closed spec fn current(&self) -> Map<usize, T> {
        slots_view(self.slots())
    }

    closed spec fn slots(&self) -> Seq<Entry<T>> {
        self.entries@
    }

    /// The next pair, with a reference through which its value can change.
    pub fn next(&mut self) -> (r: Option<(usize, &mut T)>)
        requires
            old(self).wf(),
        ensures
            final(self).wf(),
            old(self).remaining().len() == 0 ==> r is None && final(self).remaining() == old(
                self,
            ).remaining() && final(self).current() == old(self).current(),
            old(self).remaining().len() > 0 ==> r is Some && r->Some_0.0 == old(self).remaining()[0].0
                && *r->Some_0.1 == old(self).remaining()[0].1 && final(self).remaining() == old(
                self,
            ).remaining().drop_first() && final(self).current() == old(self).current().insert(
                r->Some_0.0,
                *final(r->Some_0.1),
            ),
    {
        while self.idx < self.entries.len() && !matches!(self.entries[self.idx], Entry::Occupied(_))
            invariant
                scannable(self.entries@, self.idx as int),
                self.entries@ == old(self).entries@,
                occupied_from(self.entries@, self.idx as int) == old(self).remaining(),
                self.len == old(self).len,
                self.len == occupied_from(self.entries@, self.idx as int).len(),
            decreases self.entries@.len() - self.idx,
        {
            let i = self.idx;
            let step: usize = match &self.entries[i] {
                Entry::VacantHead { vacant_body_len } => *vacant_body_len + 2,
                _ => 1,
            };
            proof {
                lemma_occ_skip(self.entries@, i as int, i + step);
            }
            self.idx = i + step;
        }
        if self.idx < self.entries.len() {
            let i = self.idx;
            let ghost s = self.entries@;
            proof {
                lemma_occ_at(s, i as int);
            }
            self.idx = i + 1;
            self.len = self.len - 1;
            match &mut self.entries[i] {
                Entry::Occupied(value) => {
                    proof {
                        IterMut::lemma_lend(s, i, *final(value));
                    }
                    Some((i, value))
                },
                _ => None,
            }
        } else {
            None
        }
    }

    /// Lending the value at `i` and moving past it.
    proof fn lemma_lend(s: Seq<Entry<T>>, i: usize, x: T)
        requires
            i < s.len(),
            occupied(s[i as int]),
            scannable(s, i as int),
        ensures
            forall|b: Self|
                #[trigger] b.slots() == s.update(i as int, Entry::Occupied(x)) && b.idx == i + 1 && b.len
                    == occupied_from(s, i + 1).len() ==> b.wf() && b.remaining() == occupied_from(s, i + 1)
                    && b.current() == slots_view(s).insert(i, x),
    {
        lemma_occ_at(s, i as int);
        assert forall|b: Self|
            #[trigger] b.slots() == s.update(i as int, Entry::Occupied(x)) && b.idx == i + 1 && b.len
                == occupied_from(s, i + 1).len() implies b.wf() && b.remaining() == occupied_from(s, i + 1)
                && b.current() == slots_view(s).insert(i, x) by {
            lemma_occ_suffix(s, b.slots(), i + 1);
            assert(b.current() =~= slots_view(s).insert(i, x));
        }
    }

    /// `(n, Some(n))` for the `n` pairs not yet handed out.
    pub fn size_hint(&self) -> (r: (usize, Option<usize>))
        requires
            self.wf(),
        ensures
            r.0 == self.remaining().len(),
            r.1 == Some(r.0),
    {
        (self.len, Some(self.len))
    }

    /// Number of pairs not yet handed out.
    pub fn count(self) -> (r: usize)
        requires
            self.wf(),
        ensures
            r == self.remaining().len(),
    {
        self.len
    }
}

/// Iterator over the keys of a `SlabMap` in ascending order.
pub struct Keys<'a, T>(Iter<'a, T>);

impl<'a, T> Keys<'a, T> {
    pub(crate) fn new(inner: Iter<'a, T>) -> (r: Self)
        requires
            inner.wf(),
        ensures
            r.wf(),
            r.remaining() == inner.remaining(),
    {
        Keys(inner)
    }

    pub closed spec fn wf(&self) -> bool {
        self.0.wf()
    }

    /// The pairs whose keys are not yet handed out.
    pub closed spec fn remaining(&self) -> Seq<(usize, T)> {
        self.0.remaining()
    }

    /// The next key.
    pub fn next(&mut self) -> (r: Option<usize>)
        requires
            old(self).wf(),
        ensures
            final(self).wf(),
            old(self).remaining().len() == 0 ==> r is None && final(self).remaining() == old(
                self,
            ).remaining(),
            old(self).remaining().len() > 0 ==> r == Some(old(self).remaining()[0].0)
                && final(self).remaining() == old(self).remaining().drop_first(),
    {
        match self.0.next() {
            Some((k, _)) => Some(k),
            None => None,
        }
    }

    /// `(n, Some(n))` for the `n` keys not yet handed out.
    pub fn size_hint(&self) -> (r: (usize, Option<usize>))
        requires
            self.wf(),
        ensures
            r.0 == self.remaining().len(),
            r.1 == Some(r.0),
    {
        self.0.size_hint()
    }

    /// Number of keys not yet handed out.
    pub fn count(self) -> (r: usize)
        requires
            self.wf(),
        ensures
            r == self.remaining().len(),
    {
        self.0.count()
    }
}

/// Iterator over the values of a `SlabMap` in ascending key order.
pub struct Values<'a, T>(Iter<'a, T>);

impl<'a, T> Values<'a, T> {
    pub(crate) fn new(inner: Iter<'a, T>) -> (r: Self)
        requires
            inner.wf(),
        ensures
            r.wf(),
            r.remaining() == inner.remaining(),
    {
        Values(inner)
    }

    pub closed spec fn wf(&self) -> bool {
        self.0.wf()
    }

    /// The pairs whose values are not yet handed out.
    pub closed spec fn remaining(&self) -> Seq<(usize, T)> {
        self.0.remaining()
    }

    /// The next value.
    pub fn next(&mut self) -> (r: Option<&'a T>)
        requires
            old(self).wf(),
        ensures
            final(self).wf(),
            old(self).remaining().len() == 0 ==> r is None && final(self).remaining() == old(
                self,
            ).remaining(),
            old(self).remaining().len() > 0 ==> r is Some && *r->Some_0 == old(self).remaining()[0].1
                && final(self).remaining() == old(self).remaining().drop_first(),
    {
        match self.0.next() {
            Some((_, v)) => Some(v),
            None => None,
        }
    }

    /// `(n, Some(n))` for the `n` values not yet handed out.
    pub fn size_hint(&self) -> (r: (usize, Option<usize>))
        requires
            self.wf(),
        ensures
            r.0 == self.remaining().len(),
            r.1 == Some(r.0),
    {
        self.0.size_hint()
    }

    /// Number of values not yet handed out.
    pub fn count(self) -> (r: usize)
        requires
            self.wf(),
        ensures
            r == self.remaining().len(),
    {
        self.0.count()
    }
}

/// Iterator over the values of a `SlabMap` in ascending key order, lending a
/// mutable reference to each.
pub struct ValuesMut<'a, T>(IterMut<'a, T>);

impl<'a, T> ValuesMut<'a, T> {
    pub(crate) fn new(inner: IterMut<'a, T>) -> (r: Self)
        requires
            inner.wf(),
        ensures
            r.wf(),
            r.remaining() == inner.remaining(),
            r.current() == inner.current(),
    {
        ValuesMut(inner)
    }

    pub closed spec fn wf(&self) -> bool {
        self.0.wf()
    }

    /// The pairs whose values are not yet handed out.
    pub closed spec fn remaining(&self) -> Seq<(usize, T)> {
        self.0.remaining()
    }

    /// The map's entries as they stand.
    pub closed spec fn current(&self) -> Map<usize, T> {
        self.0.current()
    }

    /// The next value, through a reference that can change it.
    pub fn next(&mut self) -> (r: Option<&mut T>)
        requires
            old(self).wf(),
        ensures
            final(self).wf(),
            old(self).remaining().len() == 0 ==> r is None && final(self).remaining() == old(
                self,
            ).remaining() && final(self).current() == old(self).current(),
            old(self).remaining().len() > 0 ==> r is Some && *r->Some_0 == old(self).remaining()[0].1
                && final(self).remaining() == old(self).remaining().drop_first() && final(self).current() == old(self).current().insert(
                old(self).remaining()[0].0,
                *final(r->Some_0),
            ),
    {
        match self.0.next() {
            Some((_, v)) => Some(v),
            None => None,
        }
    }

    /// `(n, Some(n))` for the `n` values not yet handed out.
    pub fn size_hint(&self) -> (r: (usize, Option<usize>))
        requires
            self.wf(),
        ensures
            r.0 == self.remaining().len(),
            r.1 == Some(r.0),
    {
        self.0.size_hint()
    }

    /// Number of values not yet handed out.
    pub fn count(self) -> (r: usize)
        requires
            self.wf(),
        ensures
            r == self.remaining().len(),
    {
        self.0.count()
    }
}

/// Iterator that moves the pairs out of a consumed `SlabMap`, in ascending
/// key order.
pub struct IntoIter<T> {
    entries: Vec<Entry<T>>,
    idx: usize,
    len: usize,
}

impl<T> IntoIter<T> {
    /// A scan of `entries` from the start; `len` is the number of values.
    pub(crate) fn new(entries: Vec<Entry<T>>, len: usize) -> (r: Self)
        requires
            scannable(entries@, 0),
            len == occupied_from(entries@, 0).len(),
        ensures
            r.wf(),
            r.remaining() == occupied_from(entries@, 0),
    {
        IntoIter { entries, idx: 0, len }
    }

    pub closed spec fn wf(&self) -> bool {
        &&& scannable(self.entries@, self.idx as int)
        &&& self.len == occupied_from(self.entries@, self.idx as int).len()
    }

    /// The pairs not yet handed out.
    pub closed spec fn remaining(&self) -> Seq<(usize, T)> {
        occupied_from(self.entries@, self.idx as int)
    }

    /// The next pair.
    pub fn next(&mut self) -> (r: Option<(usize, T)>)
        requires
            old(self).wf(),
        ensures
            final(self).wf(),
            old(self).remaining().len() == 0 ==> r is None && final(self).remaining() == old(
                self,
            ).remaining(),
            old(self).remaining().len() > 0 ==> r == Some(old(self).remaining()[0])
                && final(self).remaining() == old(self).remaining().drop_first(),
    {
        while self.idx < self.entries.len()
            invariant
                scannable(self.entries@, self.idx as int),
                occupied_from(self.entries@, self.idx as int) == old(self).remaining(),
                self.len == old(self).len,
                self.len == occupied_from(self.entries@, self.idx as int).len(),
            decreases self.entries@.len() - self.idx,
        {
            let i = self.idx;
            if matches!(self.entries[i], Entry::Occupied(_)) {
                let ghost s = self.entries@;
                proof {
                    lemma_occ_at(s, i as int);
                }
                let mut e = Entry::VacantTail { next_vacant_idx: INVALID_INDEX };
                std::mem::swap(&mut e, &mut self.entries[i]);
                self.idx = i + 1;
                self.len = self.len - 1;
                proof {
                    lemma_occ_suffix(s, self.entries@, i + 1);
                }
                match e {
                    Entry::Occupied(value) => {
                        return Some((i, value));
                    },
                    _ => {},
                }
            } else {
                let step: usize = match &self.entries[i] {
                    Entry::VacantHead { vacant_body_len } => *vacant_body_len + 2,
                    _ => 1,
                };
                proof {
                    lemma_occ_skip(self.entries@, i as int, i + step);
                }
                self.idx = i + step;
            }
        }
        None
    }

    /// `(n, Some(n))` for the `n` pairs not yet handed out.
    pub fn size_hint(&self) -> (r: (usize, Option<usize>))
        requires
            self.wf(),
        ensures
            r.0 == self.remaining().len(),
            r.1 == Some(r.0),
    {
        (self.len, Some(self.len))
    }

    /// Number of pairs not yet handed out.
    pub fn count(self) -> (r: usize)
        requires
            self.wf(),
        ensures
            r == self.remaining().len(),
    {
        self.len
    }
}

/// Iterator over the pairs taken out of a `SlabMap` by `drain`, in ascending
/// key order. The map is already empty when it is made.
pub struct Drain<T>(IntoIter<T>);

impl<T> Drain<T> {
    pub(crate) fn new(inner: IntoIter<T>) -> (r: Self)
        requires
            inner.wf(),
        ensures
            r.wf(),
            r.remaining() == inner.remaining(),
    {
        Drain(inner)
    }

    pub closed spec fn wf(&self) -> bool {
        self.0.wf()
    }

    /// The pairs not yet handed out.
    pub closed spec fn remaining(&self) -> Seq<(usize, T)> {
        self.0.remaining()
    }

    /// The next pair.
    pub fn next(&mut self) -> (r: Option<(usize, T)>)
        requires
            old(self).wf(),
        ensures
            final(self).wf(),
            old(self).remaining().len() == 0 ==> r is None && final(self).remaining() == old(
                self,
            ).remaining(),
            old(self).remaining().len() > 0 ==> r == Some(old(self).remaining()[0])
                && final(self).remaining() == old(self).remaining().drop_first(),
    {
        self.0.next()
    }

    /// `(n, Some(n))` for the `n` pairs not yet handed out.
    pub fn size_hint(&self) -> (r: (usize, Option<usize>))
        requires
            self.wf(),
        ensures
            r.0 == self.remaining().len(),
            r.1 == Some(r.0),
    {
        self.0.size_hint()
    }

    /// Number of pairs not yet handed out.
    pub fn count(self) -> (r: usize)
        requires
            self.wf(),
        ensures
            r == self.remaining().len(),
    {
        self.0.count()
    }
}

} // verus!
