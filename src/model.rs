//! Mathematical model of the slot array: which slots hold values, how the
//! vacant runs are laid out and encoded, and how a key-ordered scan walks them.
use vstd::prelude::*;

verus! {

/// Sentinel that ends the free list.
pub const INVALID_INDEX: usize = usize::MAX;

/// One position of the slot array.
pub enum Entry<T> {
    Occupied(T),
    /// Head of a vacant run of `vacant_body_len + 2` slots.
    VacantHead { vacant_body_len: usize },
    /// Last slot of a vacant run; links to the head of the next run.
    VacantTail { next_vacant_idx: usize },
}

/// The slot holds a value.
pub open spec fn occupied<T>(e: Entry<T>) -> bool {
    e is Occupied
}

/// A vacant run `(start, length)`.
pub open spec fn in_run(r: (int, int), j: int) -> bool {
    r.0 <= j < r.0 + r.1
}

/// Where the tail of the `i`-th run of the free list points.
pub open spec fn run_link(runs: Seq<(int, int)>, i: int) -> usize {
    if i + 1 < runs.len() {
        runs[i + 1].0 as usize
    } else {
        INVALID_INDEX
    }
}

/// The head and tail slots of run `r` carry its canonical encoding, the tail
/// pointing at `next`.
pub open spec fn run_encoded<T>(s: Seq<Entry<T>>, r: (int, int), next: usize) -> bool {
    if r.1 == 1 {
        s[r.0] == Entry::<T>::VacantTail { next_vacant_idx: next }
    } else {
        &&& s[r.0] == Entry::<T>::VacantHead { vacant_body_len: (r.1 - 2) as usize }
        &&& s[r.0 + r.1 - 1] == Entry::<T>::VacantTail { next_vacant_idx: next }
    }
}

/// Slot `j` lies in some run of the list.
pub open spec fn covered(runs: Seq<(int, int)>, j: int) -> bool {
    exists|i: int| 0 <= i < runs.len() && #[trigger] in_run(runs[i], j)
}

/// The runs lie inside the array, hold no value, do not overlap, and cover
/// every vacant slot.
#[verifier::opaque]
pub open spec fn runs_placed<T>(s: Seq<Entry<T>>, runs: Seq<(int, int)>) -> bool {
    &&& forall|i: int|
        0 <= i < runs.len() ==> 0 <= (#[trigger] runs[i]).0 && 1 <= runs[i].1 && runs[i].0
            + runs[i].1 <= s.len()
    &&& forall|i: int, j: int|
        0 <= i < runs.len() && #[trigger] in_run(runs[i], j) ==> !occupied(s[j])
    &&& forall|i1: int, i2: int, j: int|
        0 <= i1 < runs.len() && 0 <= i2 < runs.len() && i1 != i2 && #[trigger] in_run(runs[i1], j)
            ==> !#[trigger] in_run(runs[i2], j)
    &&& forall|j: int| 0 <= j < s.len() && !occupied(#[trigger] s[j]) ==> covered(runs, j)
}

/// Every run is encoded and linked to the next run of the list.
#[verifier::opaque]
pub open spec fn runs_encoded<T>(s: Seq<Entry<T>>, runs: Seq<(int, int)>) -> bool {
    forall|i: int| 0 <= i < runs.len() ==> #[trigger] run_encoded(s, runs[i], run_link(runs, i))
}

/// Runs in ascending position, with at least one slot between two of them.
pub open spec fn runs_ascending(runs: Seq<(int, int)>) -> bool {
    forall|i: int| 0 <= i && i + 1 < runs.len() ==> #[trigger] runs[i].0 + runs[i].1 < runs[i + 1].0
}

/// The first `churn` runs are singletons pushed by removals; the others are
/// in compacted order.
pub open spec fn churn_ok(runs: Seq<(int, int)>, churn: nat) -> bool {
    &&& churn <= runs.len()
    &&& forall|i: int| 0 <= i < churn ==> (#[trigger] runs[i]).1 == 1
    &&& runs_ascending(runs.subrange(churn as int, runs.len() as int))
}

/// The occupied `(key, value)` pairs at positions `i..`, in key order.
pub open spec fn occupied_from<T>(s: Seq<Entry<T>>, i: int) -> Seq<(usize, T)>
    decreases s.len() - i,
{
    if i < 0 || i >= s.len() {
        Seq::empty()
    } else if s[i] is Occupied {
        seq![(i as usize, s[i]->Occupied_0)] + occupied_from(s, i + 1)
    } else {
        occupied_from(s, i + 1)
    }
}

/// No value in the positions `i..j`.
pub open spec fn all_vacant<T>(s: Seq<Entry<T>>, i: int, j: int) -> bool {
    forall|k: int| i <= k < j ==> !occupied(#[trigger] s[k])
}

/// A scan that starts at `i` and follows the run encoding lands only on
/// heads whose runs hold no value and ends exactly at the end of the array.
pub open spec fn scannable<T>(s: Seq<Entry<T>>, i: int) -> bool
    decreases s.len() - i,
{
    if i < 0 || i > s.len() {
        false
    } else if i == s.len() {
        true
    } else {
        match s[i] {
            Entry::VacantHead { vacant_body_len } => {
                &&& i + vacant_body_len + 2 <= s.len()
                &&& all_vacant(s, i, i + vacant_body_len + 2)
                &&& scannable(s, i + vacant_body_len + 2)
            },
            _ => scannable(s, i + 1),
        }
    }
}

/// Slots that such a scan reads, starting at `i`.
pub open spec fn scan_cost<T>(s: Seq<Entry<T>>, i: int) -> nat
    decreases s.len() - i,
{
    if i < 0 || i >= s.len() {
        0
    } else {
        match s[i] {
            Entry::VacantHead { vacant_body_len } => if i + vacant_body_len + 2 <= s.len() {
                1 + scan_cost(s, i + vacant_body_len + 2)
            } else {
                1
            },
            _ => 1 + scan_cost(s, i + 1),
        }
    }
}

/// `i` is not strictly inside a run.
pub open spec fn boundary(runs: Seq<(int, int)>, i: int) -> bool {
    forall|r: int| 0 <= r < runs.len() ==> !(#[trigger] runs[r].0 < i && i < runs[r].0 + runs[r].1)
}

/// Skipping positions that hold no value skips no pair.
pub proof fn lemma_occ_skip<T>(s: Seq<Entry<T>>, i: int, j: int)
    requires
        0 <= i <= j <= s.len(),
        all_vacant(s, i, j),
    ensures
        occupied_from(s, i) == occupied_from(s, j),
    decreases j - i,
{
    if i < j {
        lemma_occ_skip(s, i + 1, j);
    }
}

/// There are no more pairs than positions.
pub proof fn lemma_occ_len<T>(s: Seq<Entry<T>>, i: int)
    requires
        0 <= i <= s.len(),
    ensures
        occupied_from(s, i).len() <= s.len() - i,
    decreases s.len() - i,
{
    if i < s.len() {
        lemma_occ_len(s, i + 1);
    }
}

/// A vacant slot at or after `i` leaves the count short of the slots.
pub proof fn lemma_occ_len_strict<T>(s: Seq<Entry<T>>, i: int, k: int)
    requires
        0 <= i <= k < s.len(),
        !occupied(s[k]),
    ensures
        occupied_from(s, i).len() < s.len() - i,
    decreases s.len() - i,
{
    if i < k {
        lemma_occ_len_strict(s, i + 1, k);
    } else {
        lemma_occ_len(s, i + 1);
    }
}

/// Membership in `occupied_from`.
pub proof fn lemma_occ_index<T>(s: Seq<Entry<T>>, i: int)
    requires
        0 <= i <= s.len(),
        s.len() <= usize::MAX,
    ensures
        forall|n: int|
            0 <= n < occupied_from(s, i).len() ==> {
                let p = #[trigger] occupied_from(s, i)[n];
                &&& i <= p.0 < s.len()
                &&& s[p.0 as int] == Entry::Occupied(p.1)
            },
        forall|n: int, m: int|
            0 <= n < m < occupied_from(s, i).len() ==> #[trigger] occupied_from(s, i)[n].0
                < #[trigger] occupied_from(s, i)[m].0,
        forall|k: int|
            i <= k < s.len() && occupied(#[trigger] s[k]) ==> exists|n: int|
                0 <= n < occupied_from(s, i).len() && #[trigger] occupied_from(s, i)[n].0 == k,
    decreases s.len() - i,
{
    if i < s.len() {
        lemma_occ_index(s, i + 1);
        let rest = occupied_from(s, i + 1);
        if s[i] is Occupied {
            let head = seq![(i as usize, s[i]->Occupied_0)];
            assert(occupied_from(s, i) == head + rest);
            assert forall|n: int| 0 < n < occupied_from(s, i).len() implies #[trigger] occupied_from(
                s,
                i,
            )[n] == rest[n - 1] by {}
            assert forall|k: int| i <= k < s.len() && occupied(#[trigger] s[k]) implies exists|n: int|
                0 <= n < occupied_from(s, i).len() && #[trigger] occupied_from(s, i)[n].0 == k by {
                if k == i {
                    assert(occupied_from(s, i)[0].0 == k);
                } else {
                    let n = choose|n: int| 0 <= n < rest.len() && #[trigger] rest[n].0 == k;
                    assert(occupied_from(s, i)[n + 1].0 == k);
                }
            }
        }
    }
}

/// Writing `e` at `k` changes the count by the change in occupancy at `k`.
pub proof fn lemma_occ_update<T>(s: Seq<Entry<T>>, k: int, e: Entry<T>, i: int)
    requires
        0 <= i <= s.len(),
        0 <= k < s.len(),
    ensures
        occupied_from(s.update(k, e), i).len() + (if occupied(s[k]) && i <= k {
            1int
        } else {
            0
        }) == occupied_from(s, i).len() + (if occupied(e) && i <= k {
            1int
        } else {
            0
        }),
        k < i ==> occupied_from(s.update(k, e), i) == occupied_from(s, i),
    decreases s.len() - i,
{
    if i < s.len() {
        lemma_occ_update(s, k, e, i + 1);
    }
}

/// Appending a slot appends its value, if any.
pub proof fn lemma_occ_push<T>(s: Seq<Entry<T>>, e: Entry<T>, i: int)
    requires
        0 <= i <= s.len(),
    ensures
        occupied_from(s.push(e), i) == occupied_from(s, i) + (if e is Occupied {
            seq![(s.len() as usize, e->Occupied_0)]
        } else {
            Seq::empty()
        }),
    decreases s.len() - i,
{
    if i < s.len() {
        lemma_occ_push(s, e, i + 1);
        assert(s.push(e)[i] == s[i]);
        if s[i] is Occupied {
            assert(seq![(i as usize, s[i]->Occupied_0)] + occupied_from(s, i + 1) + (if e is Occupied {
                seq![(s.len() as usize, e->Occupied_0)]
            } else {
                Seq::empty()
            }) == seq![(i as usize, s[i]->Occupied_0)] + (occupied_from(s, i + 1) + (
            if e is Occupied {
                seq![(s.len() as usize, e->Occupied_0)]
            } else {
                Seq::empty()
            })));
        }
    } else {
        assert(occupied_from(s.push(e), s.len() as int + 1) == Seq::<(usize, T)>::empty());
    }
}

/// The slots at and after `i` decide `occupied_from(s, i)`.
pub proof fn lemma_occ_suffix<T>(s: Seq<Entry<T>>, t: Seq<Entry<T>>, i: int)
    requires
        0 <= i <= s.len(),
        s.len() == t.len(),
        forall|k: int| i <= k < s.len() ==> s[k] == t[k],
    ensures
        occupied_from(s, i) == occupied_from(t, i),
        scannable(s, i) == scannable(t, i),
        scan_cost(s, i) == scan_cost(t, i),
    decreases s.len() - i,
{
    if i < s.len() {
        lemma_occ_suffix(s, t, i + 1);
        if let Entry::VacantHead { vacant_body_len } = s[i] {
            let j = i + vacant_body_len + 2;
            if j <= s.len() {
                lemma_occ_suffix(s, t, j);
            }
        }
    }
}

/// Past an occupied boundary slot the next position is a boundary too.
proof fn lemma_boundary_step_occupied<T>(s: Seq<Entry<T>>, runs: Seq<(int, int)>, i: int)
    requires
        runs_placed(s, runs),
        0 <= i < s.len(),
        occupied(s[i]),
        boundary(runs, i),
    ensures
        boundary(runs, i + 1),
{
    reveal(runs_placed);
    assert forall|r: int| 0 <= r < runs.len() implies !(#[trigger] runs[r].0 < i + 1 && i + 1
        < runs[r].0 + runs[r].1) by {
        if runs[r].0 < i + 1 && i + 1 < runs[r].0 + runs[r].1 {
            assert(in_run(runs[r], i));
        }
    }
}

/// A vacant boundary slot starts a run, and the slot past that run is a boundary.
proof fn lemma_boundary_step_vacant<T>(s: Seq<Entry<T>>, runs: Seq<(int, int)>, i: int) -> (r: int)
    requires
        runs_placed(s, runs),
        0 <= i < s.len(),
        !occupied(s[i]),
        boundary(runs, i),
    ensures
        0 <= r < runs.len(),
        runs[r].0 == i,
        boundary(runs, i + runs[r].1),
        all_vacant(s, i, i + runs[r].1),
        runs_encoded(s, runs) ==> run_encoded(s, runs[r], run_link(runs, r)),
        s.len() <= usize::MAX ==> 1 <= runs[r].1 <= s.len() - i,
{
    reveal(runs_placed);
    reveal(runs_encoded);
    assert(covered(runs, i));
    let r = choose|r: int| 0 <= r < runs.len() && #[trigger] in_run(runs[r], i);
    assert(runs[r].0 == i);
    let e = i + runs[r].1;
    assert forall|r2: int| 0 <= r2 < runs.len() implies !(#[trigger] runs[r2].0 < e && e
        < runs[r2].0 + runs[r2].1) by {
        if runs[r2].0 < e && e < runs[r2].0 + runs[r2].1 {
            assert(in_run(runs[r], e - 1));
            assert(in_run(runs[r2], e - 1));
        }
    }
    assert forall|k: int| i <= k < e implies !occupied(#[trigger] s[k]) by {
        assert(in_run(runs[r], k));
    }
    r
}

/// From a boundary of well-placed runs, the scan is sound.
pub proof fn lemma_boundary_scannable<T>(s: Seq<Entry<T>>, runs: Seq<(int, int)>, i: int)
    requires
        runs_placed(s, runs),
        runs_encoded(s, runs),
        s.len() <= usize::MAX,
        0 <= i <= s.len(),
        boundary(runs, i),
    ensures
        scannable(s, i),
    decreases s.len() - i,
{
    if i < s.len() {
        if occupied(s[i]) {
            lemma_boundary_step_occupied(s, runs, i);
            lemma_boundary_scannable(s, runs, i + 1);
            assert(scannable(s, i));
        } else {
            let r = lemma_boundary_step_vacant(s, runs, i);
            let e = i + runs[r].1;
            lemma_boundary_scannable(s, runs, e);
            if runs[r].1 == 1 {
                assert(s[i] is VacantTail);
            } else {
                assert(s[i] == Entry::<T>::VacantHead { vacant_body_len: (runs[r].1 - 2) as usize });
            }
            assert(scannable(s, i));
        }
    }
}


/// Taking the first slot of the first run.
pub proof fn lemma_pop_front<T>(
    s: Seq<Entry<T>>,
    runs: Seq<(int, int)>,
    s2: Seq<Entry<T>>,
    runs2: Seq<(int, int)>,
    v: T,
)
    requires
        runs_placed(s, runs),
        runs_encoded(s, runs),
        runs.len() > 0,
        s.len() <= usize::MAX,
        runs[0].1 == 1 ==> s2 == s.update(runs[0].0, Entry::Occupied(v)) && runs2
            == runs.drop_first(),
        runs[0].1 == 2 ==> s2 == s.update(runs[0].0, Entry::Occupied(v)) && runs2 == runs.update(
            0,
            (runs[0].0 + 1, 1),
        ),
        runs[0].1 > 2 ==> s2 == s.update(
            runs[0].0 + 1,
            Entry::VacantHead { vacant_body_len: (runs[0].1 - 3) as usize },
        ).update(runs[0].0, Entry::Occupied(v)) && runs2 == runs.update(
            0,
            (runs[0].0 + 1, runs[0].1 - 1),
        ),
    ensures
        runs_placed(s2, runs2),
        runs_encoded(s2, runs2),
{
    reveal(runs_placed);
    reveal(runs_encoded);
    let h = runs[0].0;
    let l = runs[0].1;
    assert(run_encoded(s, runs[0], run_link(runs, 0)));
    assert(s2.len() == s.len());
    if l == 1 {
        assert forall|i: int| 0 <= i < runs2.len() implies #[trigger] run_encoded(
            s2,
            runs2[i],
            run_link(runs2, i),
        ) by {
            assert(runs2[i] == runs[i + 1]);
            assert(run_encoded(s, runs[i + 1], run_link(runs, i + 1)));
            assert(in_run(runs[0], h));
            assert(!in_run(runs[i + 1], h));
            assert(in_run(runs[i + 1], runs[i + 1].0));
            assert(in_run(runs[i + 1], runs[i + 1].0 + runs[i + 1].1 - 1));
        }
        assert forall|j: int| 0 <= j < s2.len() && !occupied(#[trigger] s2[j]) implies covered(
            runs2,
            j,
        ) by {
            assert(covered(runs, j));
            let i = choose|i: int| 0 <= i < runs.len() && #[trigger] in_run(runs[i], j);
            assert(i != 0);
            assert(in_run(runs2[i - 1], j));
        }
        assert forall|i1: int, i2: int, j: int|
            0 <= i1 < runs2.len() && 0 <= i2 < runs2.len() && i1 != i2 && #[trigger] in_run(
                runs2[i1],
                j,
            ) implies !#[trigger] in_run(runs2[i2], j) by {
            assert(in_run(runs[i1 + 1], j));
        }
        assert forall|i: int, j: int| 0 <= i < runs2.len() && #[trigger] in_run(runs2[i], j) implies !occupied(s2[j]) by {
            assert(in_run(runs[i + 1], j));
            assert(!in_run(runs[0], j));
        }
    } else {
        assert forall|i: int| 0 <= i < runs2.len() implies #[trigger] run_encoded(
            s2,
            runs2[i],
            run_link(runs2, i),
        ) by {
            if i > 0 {
                assert(runs2[i] == runs[i]);
                assert(run_encoded(s, runs[i], run_link(runs, i)));
                assert(in_run(runs[0], h));
                assert(in_run(runs[0], h + 1));
                assert(!in_run(runs[i], h));
                assert(!in_run(runs[i], h + 1));
                assert(in_run(runs[i], runs[i].0));
                assert(in_run(runs[i], runs[i].0 + runs[i].1 - 1));
            }
        }
        assert forall|j: int| 0 <= j < s2.len() && !occupied(#[trigger] s2[j]) implies covered(
            runs2,
            j,
        ) by {
            if j == h + 1 {
                assert(in_run(runs[0], j));
            }
            assert(s[j] == s2[j] || j == h + 1);
            assert(covered(runs, j));
            let i = choose|i: int| 0 <= i < runs.len() && #[trigger] in_run(runs[i], j);
            assert(in_run(runs2[i], j));
        }
        assert forall|i1: int, i2: int, j: int|
            0 <= i1 < runs2.len() && 0 <= i2 < runs2.len() && i1 != i2 && #[trigger] in_run(
                runs2[i1],
                j,
            ) implies !#[trigger] in_run(runs2[i2], j) by {
            assert(in_run(runs[i1], j));
            if in_run(runs2[i2], j) {
                assert(in_run(runs[i2], j));
            }
        }
        assert forall|i: int, j: int| 0 <= i < runs2.len() && #[trigger] in_run(runs2[i], j) implies !occupied(s2[j]) by {
            assert(in_run(runs[i], j));
            assert(in_run(runs[0], h));
            if i > 0 {
                assert(j != h);
            }
        }
    }
}

/// Freeing slot `k` as a singleton run at the front of the list.
pub proof fn lemma_push_front<T>(
    s: Seq<Entry<T>>,
    runs: Seq<(int, int)>,
    k: int,
    head: usize,
)
    requires
        runs_placed(s, runs),
        runs_encoded(s, runs),
        0 <= k < s.len(),
        occupied(s[k]),
        head == (if runs.len() > 0 {
            runs[0].0 as usize
        } else {
            INVALID_INDEX
        }),
    ensures
        runs_placed(
            s.update(k, Entry::VacantTail { next_vacant_idx: head }),
            seq![(k, 1int)] + runs,
        ),
        runs_encoded(
            s.update(k, Entry::VacantTail { next_vacant_idx: head }),
            seq![(k, 1int)] + runs,
        ),
{
    reveal(runs_placed);
    reveal(runs_encoded);
    let s2 = s.update(k, Entry::VacantTail { next_vacant_idx: head });
    let runs2 = seq![(k, 1int)] + runs;
    assert forall|i: int| 0 <= i < runs2.len() implies #[trigger] run_encoded(
        s2,
        runs2[i],
        run_link(runs2, i),
    ) by {
        if i > 0 {
            assert(runs2[i] == runs[i - 1]);
            assert(run_encoded(s, runs[i - 1], run_link(runs, i - 1)));
            assert(in_run(runs[i - 1], runs[i - 1].0));
            assert(in_run(runs[i - 1], runs[i - 1].0 + runs[i - 1].1 - 1));
        }
    }
    assert forall|j: int| 0 <= j < s2.len() && !occupied(#[trigger] s2[j]) implies covered(runs2, j) by {
        if j == k {
            assert(in_run(runs2[0], j));
        } else {
            assert(covered(runs, j));
            let i = choose|i: int| 0 <= i < runs.len() && #[trigger] in_run(runs[i], j);
            assert(in_run(runs2[i + 1], j));
        }
    }
    assert forall|i1: int, i2: int, j: int|
        0 <= i1 < runs2.len() && 0 <= i2 < runs2.len() && i1 != i2 && #[trigger] in_run(runs2[i1], j)
            implies !#[trigger] in_run(runs2[i2], j) by {
        if i1 > 0 {
            assert(in_run(runs[i1 - 1], j));
        }
        if i2 > 0 && in_run(runs2[i2], j) {
            assert(in_run(runs[i2 - 1], j));
        }
    }
    assert forall|i: int, j: int| 0 <= i < runs2.len() && #[trigger] in_run(runs2[i], j) implies !occupied(s2[j]) by {
        if i > 0 {
            assert(in_run(runs[i - 1], j));
        }
    }
}

/// Dropping an occupied last slot.
pub proof fn lemma_drop_last<T>(s: Seq<Entry<T>>, runs: Seq<(int, int)>)
    requires
        runs_placed(s, runs),
        runs_encoded(s, runs),
        s.len() > 0,
        occupied(s.last()),
    ensures
        runs_placed(s.drop_last(), runs),
        runs_encoded(s.drop_last(), runs),
{
    reveal(runs_placed);
    reveal(runs_encoded);
    let s2 = s.drop_last();
    assert forall|i: int| 0 <= i < runs.len() implies 0 <= (#[trigger] runs[i]).0 && 1 <= runs[i].1
        && runs[i].0 + runs[i].1 <= s2.len() by {
        assert(in_run(runs[i], runs[i].0 + runs[i].1 - 1));
    }
    assert forall|i: int| 0 <= i < runs.len() implies #[trigger] run_encoded(
        s2,
        runs[i],
        run_link(runs, i),
    ) by {
        assert(run_encoded(s, runs[i], run_link(runs, i)));
        assert(in_run(runs[i], runs[i].0 + runs[i].1 - 1));
    }
    assert forall|j: int| 0 <= j < s2.len() && !occupied(#[trigger] s2[j]) implies covered(runs, j) by {
        assert(s[j] == s2[j]);
    }
}

/// Writing a value into an occupied slot keeps the layout.
pub proof fn lemma_replace_value<T>(s: Seq<Entry<T>>, runs: Seq<(int, int)>, k: int, v: T)
    requires
        runs_placed(s, runs),
        runs_encoded(s, runs),
        0 <= k < s.len(),
        occupied(s[k]),
    ensures
        runs_placed(s.update(k, Entry::Occupied(v)), runs),
        runs_encoded(s.update(k, Entry::Occupied(v)), runs),
        occupied_from(s.update(k, Entry::Occupied(v)), 0).len() == occupied_from(s, 0).len(),
{
    reveal(runs_placed);
    reveal(runs_encoded);
    let s2 = s.update(k, Entry::Occupied(v));
    assert forall|i: int| 0 <= i < runs.len() implies #[trigger] run_encoded(
        s2,
        runs[i],
        run_link(runs, i),
    ) by {
        assert(run_encoded(s, runs[i], run_link(runs, i)));
        assert(in_run(runs[i], runs[i].0));
        assert(in_run(runs[i], runs[i].0 + runs[i].1 - 1));
    }
    assert forall|j: int| 0 <= j < s2.len() && !occupied(#[trigger] s2[j]) implies covered(runs, j) by {
        assert(s[j] == s2[j]);
    }
    lemma_occ_update(s, k, Entry::Occupied(v), 0);
}


/// Keys of the occupied slots at positions `i..`.
pub open spec fn occ_keys<T>(s: Seq<Entry<T>>, i: int) -> Set<usize> {
    Set::new(|k: usize| i <= k < s.len() && occupied(s[k as int]))
}

/// The keys of the occupied slots are as many as the pairs.
pub proof fn lemma_occ_keys_len<T>(s: Seq<Entry<T>>, i: int)
    requires
        0 <= i <= s.len(),
        s.len() <= usize::MAX,
    ensures
        occ_keys(s, i).finite(),
        occ_keys(s, i).len() == occupied_from(s, i).len(),
    decreases s.len() - i,
{
    if i == s.len() {
        assert(occ_keys(s, i) =~= Set::empty());
    } else {
        lemma_occ_keys_len(s, i + 1);
        if occupied(s[i]) {
            assert(occ_keys(s, i) =~= occ_keys(s, i + 1).insert(i as usize));
        } else {
            assert(occ_keys(s, i) =~= occ_keys(s, i + 1));
        }
    }
}


/// The first run of the list is placed and encoded.
pub proof fn lemma_first_run<T>(s: Seq<Entry<T>>, runs: Seq<(int, int)>)
    requires
        runs_placed(s, runs),
        runs_encoded(s, runs),
        runs.len() > 0,
    ensures
        0 <= runs[0].0,
        1 <= runs[0].1,
        runs[0].0 + runs[0].1 <= s.len(),
        run_encoded(s, runs[0], run_link(runs, 0)),
        all_vacant(s, runs[0].0, runs[0].0 + runs[0].1),
{
    reveal(runs_placed);
    reveal(runs_encoded);
    assert(run_encoded(s, runs[0], run_link(runs, 0)));
    assert forall|k: int| runs[0].0 <= k < runs[0].0 + runs[0].1 implies !occupied(#[trigger] s[k]) by {
        assert(in_run(runs[0], k));
    }
}

/// Appending an occupied slot keeps the layout.
pub proof fn lemma_push_occupied<T>(s: Seq<Entry<T>>, runs: Seq<(int, int)>, v: T)
    requires
        runs_placed(s, runs),
        runs_encoded(s, runs),
    ensures
        runs_placed(s.push(Entry::Occupied(v)), runs),
        runs_encoded(s.push(Entry::Occupied(v)), runs),
{
    reveal(runs_placed);
    reveal(runs_encoded);
    let s2 = s.push(Entry::Occupied(v));
    assert forall|i: int| 0 <= i < runs.len() implies #[trigger] run_encoded(
        s2,
        runs[i],
        run_link(runs, i),
    ) by {
        assert(run_encoded(s, runs[i], run_link(runs, i)));
    }
    assert forall|j: int| 0 <= j < s2.len() && !occupied(#[trigger] s2[j]) implies covered(runs, j) by {
        assert(s[j] == s2[j]);
    }
    assert forall|i: int, j: int| 0 <= i < runs.len() && #[trigger] in_run(runs[i], j) implies !occupied(s2[j]) by {
        assert(s[j] == s2[j]);
    }
}

/// The empty array with no runs.
pub proof fn lemma_empty_layout<T>()
    ensures
        runs_placed(Seq::<Entry<T>>::empty(), Seq::empty()),
        runs_encoded(Seq::<Entry<T>>::empty(), Seq::empty()),
        churn_ok(Seq::empty(), 0),
{
    reveal(runs_placed);
    reveal(runs_encoded);
    assert(Seq::<(int, int)>::empty().subrange(0, 0) =~= Seq::empty());
}


/// The compacted layout of the positions `0..end`: ascending runs covering
/// exactly the vacant slots there, the list head, and the tail of the last
/// run; `end` follows an occupied slot.
pub open spec fn prefix_ok<T>(
    s: Seq<Entry<T>>,
    end: int,
    runs: Seq<(int, int)>,
    head: usize,
    prev_tail: Option<usize>,
) -> bool {
    &&& 0 <= end <= s.len()
    &&& runs_placed(s.subrange(0, end), runs)
    &&& runs_encoded(s.subrange(0, end), runs)
    &&& runs_ascending(runs)
    &&& end > 0 ==> occupied(s[end - 1])
    &&& head == (if runs.len() > 0 {
        runs[0].0 as usize
    } else {
        INVALID_INDEX
    })
    &&& prev_tail == (if runs.len() > 0 {
        Some((runs.last().0 + runs.last().1 - 1) as usize)
    } else {
        None::<usize>
    })
}

/// Closing the vacant run `start..start + len` before an occupied slot.
pub proof fn lemma_append_run<T>(p: Seq<Entry<T>>, runs: Seq<(int, int)>, p2: Seq<Entry<T>>, len: int)
    requires
        runs_placed(p, runs),
        runs_encoded(p, runs),
        runs_ascending(runs),
        p.len() > 0 ==> occupied(p.last()),
        p.len() + 2 <= usize::MAX,
        len >= 1,
        p2.len() == p.len() + len + 1,
        occupied(p2.last()),
        all_vacant(p2, p.len() as int, p.len() + len),
        run_encoded(p2, (p.len() as int, len), INVALID_INDEX),
        runs.len() > 0 ==> p2[runs.last().0 + runs.last().1 - 1] == (Entry::<T>::VacantTail {
            next_vacant_idx: p.len() as usize,
        }),
        forall|j: int|
            0 <= j < p.len() && (runs.len() == 0 || j != runs.last().0 + runs.last().1 - 1) ==> p2[j]
                == p[j],
    ensures
        runs_placed(p2, runs.push((p.len() as int, len))),
        runs_encoded(p2, runs.push((p.len() as int, len))),
        runs_ascending(runs.push((p.len() as int, len))),
{
    reveal(runs_placed);
    reveal(runs_encoded);
    let start = p.len() as int;
    let runs2 = runs.push((start, len));
    let n = runs.len() as int;
    if n > 0 {
        assert(in_run(runs[n - 1], runs[n - 1].0 + runs[n - 1].1 - 1));
        assert(runs[n - 1].0 + runs[n - 1].1 <= start);
        if start > 0 {
            assert(runs[n - 1].0 + runs[n - 1].1 - 1 != start - 1);
        }
    }
    assert forall|i: int| 0 <= i && i + 1 < runs2.len() implies #[trigger] runs2[i].0 + runs2[i].1
        < runs2[i + 1].0 by {
        if i + 1 < n {
            assert(runs2[i] == runs[i] && runs2[i + 1] == runs[i + 1]);
        } else {
            assert(in_run(runs[i], runs[i].0 + runs[i].1 - 1));
            assert(runs[i].0 + runs[i].1 - 1 < start - 1 || !occupied(p[start - 1]));
        }
    }
    assert forall|i: int| 0 <= i < runs2.len() implies #[trigger] run_encoded(
        p2,
        runs2[i],
        run_link(runs2, i),
    ) by {
        if i < n {
            assert(runs2[i] == runs[i]);
            assert(run_encoded(p, runs[i], run_link(runs, i)));
            assert(in_run(runs[i], runs[i].0));
            assert(in_run(runs[i], runs[i].0 + runs[i].1 - 1));
            if i + 1 < n {
                assert(runs[i].0 + runs[i].1 < runs[i + 1].0);
                assert(runs[i + 1].0 <= runs[n - 1].0) by {
                    assert forall|a: int| i + 1 <= a < n implies runs[i + 1].0 <= #[trigger] runs[a].0 by {
                        lemma_ascending_mono(runs, i + 1, a);
                    }
                }
                assert(runs[i].0 + runs[i].1 - 1 < runs[n - 1].0);
            }
        }
    }
    assert forall|j: int| 0 <= j < p2.len() && !occupied(#[trigger] p2[j]) implies covered(runs2, j) by {
        if j < start {
            if n > 0 && j == runs[n - 1].0 + runs[n - 1].1 - 1 {
                assert(in_run(runs2[n - 1], j));
            } else {
                assert(p[j] == p2[j]);
                assert(covered(runs, j));
                let i = choose|i: int| 0 <= i < runs.len() && #[trigger] in_run(runs[i], j);
                assert(in_run(runs2[i], j));
            }
        } else {
            assert(in_run(runs2[n], j));
        }
    }
    assert forall|i1: int, i2: int, j: int|
        0 <= i1 < runs2.len() && 0 <= i2 < runs2.len() && i1 != i2 && #[trigger] in_run(runs2[i1], j)
            implies !#[trigger] in_run(runs2[i2], j) by {
        if i1 < n && i2 < n {
            assert(in_run(runs[i1], j));
        } else if i1 < n {
            assert(runs[i1].0 + runs[i1].1 <= start);
        } else if i2 < n && in_run(runs2[i2], j) {
            assert(runs[i2].0 + runs[i2].1 <= start);
        }
    }
    assert forall|i: int, j: int| 0 <= i < runs2.len() && #[trigger] in_run(runs2[i], j) implies !occupied(p2[j]) by {
        if i < n {
            assert(in_run(runs[i], j));
            assert(runs[i].0 + runs[i].1 <= start);
            if n > 0 && j == runs[n - 1].0 + runs[n - 1].1 - 1 {
            } else {
                assert(p[j] == p2[j]);
            }
        }
    }
}

/// Starts increase along an ascending list.
pub proof fn lemma_ascending_mono(runs: Seq<(int, int)>, a: int, b: int)
    requires
        runs_ascending(runs),
        forall|i: int| 0 <= i < runs.len() ==> (#[trigger] runs[i]).1 >= 1,
        0 <= a <= b < runs.len(),
    ensures
        runs[a].0 <= runs[b].0,
    decreases b - a,
{
    if a < b {
        lemma_ascending_mono(runs, a + 1, b);
        assert(runs[a].0 + runs[a].1 < runs[a + 1].0);
        assert(runs[a].1 >= 1);
    }
}

/// A slot array with no run head is scannable.
pub proof fn lemma_no_heads_scannable<T>(s: Seq<Entry<T>>, i: int)
    requires
        0 <= i <= s.len(),
        forall|j: int| 0 <= j < s.len() ==> !(#[trigger] s[j] is VacantHead),
    ensures
        scannable(s, i),
    decreases s.len() - i,
{
    if i < s.len() {
        lemma_no_heads_scannable(s, i + 1);
    }
}


/// The value in a slot, if any.
pub open spec fn value_of<T>(e: Entry<T>) -> Option<T> {
    match e {
        Entry::Occupied(v) => Some(v),
        _ => None,
    }
}

/// Occupied slots among the first `n` positions.
pub open spec fn count_upto<T>(s: Seq<Entry<T>>, n: int) -> nat {
    occupied_from(s.subrange(0, n), 0).len()
}

/// Two arrays with vacant slots at the same positions hold as many values.
pub proof fn lemma_occ_same_pattern<T>(s: Seq<Entry<T>>, t: Seq<Entry<T>>, i: int)
    requires
        0 <= i <= s.len(),
        s.len() == t.len(),
        forall|j: int| i <= j < s.len() ==> occupied(s[j]) == occupied(t[j]),
    ensures
        occupied_from(s, i).len() == occupied_from(t, i).len(),
    decreases s.len() - i,
{
    if i < s.len() {
        lemma_occ_same_pattern(s, t, i + 1);
    }
}

/// Counting one more position.
pub proof fn lemma_count_step<T>(s: Seq<Entry<T>>, n: int)
    requires
        0 <= n < s.len(),
    ensures
        count_upto(s, n + 1) == count_upto(s, n) + (if occupied(s[n]) {
            1int
        } else {
            0
        }),
{
    assert(s.subrange(0, n + 1) =~= s.subrange(0, n).push(s[n]));
    lemma_occ_push(s.subrange(0, n), s[n], 0);
}

/// Counting past vacant positions.
pub proof fn lemma_count_vacant<T>(s: Seq<Entry<T>>, i: int, j: int)
    requires
        0 <= i <= j <= s.len(),
        all_vacant(s, i, j),
    ensures
        count_upto(s, j) == count_upto(s, i),
    decreases j - i,
{
    if i < j {
        lemma_count_vacant(s, i, j - 1);
        lemma_count_step(s, j - 1);
    }
}

/// Arrays with the same occupancy up to `n` count the same there.
pub proof fn lemma_count_same_pattern<T>(s: Seq<Entry<T>>, t: Seq<Entry<T>>, n: int)
    requires
        0 <= n <= s.len(),
        n <= t.len(),
        forall|j: int| 0 <= j < n ==> occupied(s[j]) == occupied(t[j]),
    ensures
        count_upto(s, n) == count_upto(t, n),
{
    lemma_occ_same_pattern(s.subrange(0, n), t.subrange(0, n), 0);
}


/// The map that the occupied slots hold.
pub open spec fn slots_view<T>(s: Seq<Entry<T>>) -> Map<usize, T> {
    Map::new(|k: usize| (k as int) < s.len() && occupied(s[k as int]), |k: usize| s[k as int]->Occupied_0)
}

/// The map made by inserting the pairs in order: a later pair wins.
pub open spec fn map_from_pairs<T>(s: Seq<(usize, T)>) -> Map<usize, T>
    decreases s.len(),
{
    if s.len() == 0 {
        Map::empty()
    } else {
        map_from_pairs(s.drop_last()).insert(s.last().0, s.last().1)
    }
}


/// `occupied_from` at an occupied position.
pub proof fn lemma_occ_at<T>(s: Seq<Entry<T>>, i: int)
    requires
        0 <= i < s.len(),
        occupied(s[i]),
    ensures
        occupied_from(s, i) == seq![(i as usize, s[i]->Occupied_0)] + occupied_from(s, i + 1),
        occupied_from(s, i).len() == occupied_from(s, i + 1).len() + 1,
        occupied_from(s, i)[0] == (i as usize, s[i]->Occupied_0),
        occupied_from(s, i).drop_first() == occupied_from(s, i + 1),
        scannable(s, i) ==> scannable(s, i + 1),
{
    assert((seq![(i as usize, s[i]->Occupied_0)] + occupied_from(s, i + 1)).drop_first() =~= occupied_from(s, i + 1));
}


/// Arrays that agree on where the values are and on every vacant slot have
/// the same layout.
pub proof fn lemma_same_pattern_layout<T>(s: Seq<Entry<T>>, t: Seq<Entry<T>>, runs: Seq<(int, int)>)
    requires
        s.len() == t.len(),
        forall|j: int| 0 <= j < s.len() ==> occupied(#[trigger] t[j]) == occupied(s[j]),
        forall|j: int| 0 <= j < s.len() && !occupied(s[j]) ==> #[trigger] t[j] == s[j],
        runs_placed(s, runs),
        runs_encoded(s, runs),
    ensures
        runs_placed(t, runs),
        runs_encoded(t, runs),
        occupied_from(t, 0).len() == occupied_from(s, 0).len(),
        scan_cost(t, 0) == scan_cost(s, 0),
{
    reveal(runs_placed);
    reveal(runs_encoded);
    assert forall|i: int| 0 <= i < runs.len() implies #[trigger] run_encoded(t, runs[i], run_link(runs, i)) by {
        assert(run_encoded(s, runs[i], run_link(runs, i)));
        assert(in_run(runs[i], runs[i].0));
        assert(in_run(runs[i], runs[i].0 + runs[i].1 - 1));
    }
    assert forall|i: int, j: int| 0 <= i < runs.len() && #[trigger] in_run(runs[i], j) implies !occupied(t[j]) by {
        assert(!occupied(s[j]));
    }
    lemma_occ_same_pattern(s, t, 0);
    lemma_scan_cost_same_pattern(s, t, 0);
}

proof fn lemma_scan_cost_same_pattern<T>(s: Seq<Entry<T>>, t: Seq<Entry<T>>, i: int)
    requires
        0 <= i <= s.len(),
        s.len() == t.len(),
        forall|j: int| 0 <= j < s.len() ==> occupied(#[trigger] t[j]) == occupied(s[j]),
        forall|j: int| 0 <= j < s.len() && !occupied(s[j]) ==> #[trigger] t[j] == s[j],
    ensures
        scan_cost(t, i) == scan_cost(s, i),
    decreases s.len() - i,
{
    if i < s.len() {
        lemma_scan_cost_same_pattern(s, t, i + 1);
        if let Entry::VacantHead { vacant_body_len } = s[i] {
            assert(t[i] == s[i]);
            if i + vacant_body_len + 2 <= s.len() {
                lemma_scan_cost_same_pattern(s, t, i + vacant_body_len + 2);
            }
        } else if occupied(s[i]) {
            assert(!(t[i] is VacantHead));
        }
    }
}

/// Runs of an ascending list end before any later run starts.
pub proof fn lemma_ascending_gap(runs: Seq<(int, int)>, a: int, b: int)
    requires
        runs_ascending(runs),
        forall|i: int| 0 <= i < runs.len() ==> (#[trigger] runs[i]).1 >= 1,
        0 <= a < b < runs.len(),
    ensures
        runs[a].0 + runs[a].1 < runs[b].0,
{
    lemma_ascending_mono(runs, a + 1, b);
}

/// With ascending runs, a scan reads at most two slots per value, plus one.
pub proof fn lemma_scan_cost_bound<T>(s: Seq<Entry<T>>, runs: Seq<(int, int)>, i: int)
    requires
        runs_placed(s, runs),
        runs_encoded(s, runs),
        runs_ascending(runs),
        s.len() <= usize::MAX,
        0 <= i <= s.len(),
        boundary(runs, i),
    ensures
        scan_cost(s, i) <= 2 * occupied_from(s, i).len() + (if i < s.len() && !occupied(s[i]) {
            1int
        } else {
            0
        }),
    decreases s.len() - i,
{
    if i < s.len() {
        if occupied(s[i]) {
            lemma_boundary_step_occupied(s, runs, i);
            lemma_scan_cost_bound(s, runs, i + 1);
        } else {
            let r = lemma_boundary_step_vacant(s, runs, i);
            let e = i + runs[r].1;
            lemma_scan_cost_bound(s, runs, e);
            lemma_occ_skip(s, i, e);
            if e < s.len() && !occupied(s[e]) {
                reveal(runs_placed);
                assert(covered(runs, e));
                let r2 = choose|r2: int| 0 <= r2 < runs.len() && #[trigger] in_run(runs[r2], e);
                assert(runs[r2].0 == e);
                if r < r2 {
                    lemma_ascending_gap(runs, r, r2);
                } else if r2 < r {
                    lemma_ascending_gap(runs, r2, r);
                }
            }
            if runs[r].1 == 1 {
                assert(s[i] is VacantTail);
            } else {
                assert(s[i] == Entry::<T>::VacantHead { vacant_body_len: (runs[r].1 - 2) as usize });
            }
        }
    }
}

} // verus!
