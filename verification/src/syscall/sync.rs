//! Mutex, semaphore and condition variable system calls of a process, with
//! the bookkeeping that deadlock detection reads.
use vstd::prelude::*;
use crate::deadlock::{avail_at, deadlocked, detect_deadlock, entry, rows, lemma_rows};

verus! {

/// The synchronisation state of a process. `M`, `S` and `C` are the mutex,
/// semaphore and condition variable objects, which this state only carries.
/// Thread `t` holds `*_allocation[t][j]` units of resource `j` and waits for
/// `*_need[t][j]` more.
pub struct ProcessControlBlockInner<M, S, C> {
    pub mutex_list: Vec<Option<M>>,
    pub mutex_available: Vec<i32>,
    pub mutex_allocation: Vec<Vec<usize>>,
    pub mutex_need: Vec<Vec<usize>>,
    pub semaphore_list: Vec<Option<S>>,
    pub semaphore_available: Vec<i32>,
    pub semaphore_allocation: Vec<Vec<usize>>,
    pub semaphore_need: Vec<Vec<usize>>,
    pub condvar_list: Vec<Option<C>>,
    pub deadlock_detect: bool,
}

/// The state as mathematical values.
pub ghost struct SyncView<M, S, C> {
    pub mutex_list: Seq<Option<M>>,
    pub mutex_available: Seq<i32>,
    pub mutex_allocation: Seq<Seq<usize>>,
    pub mutex_need: Seq<Seq<usize>>,
    pub semaphore_list: Seq<Option<S>>,
    pub semaphore_available: Seq<i32>,
    pub semaphore_allocation: Seq<Seq<usize>>,
    pub semaphore_need: Seq<Seq<usize>>,
    pub condvar_list: Seq<Option<C>>,
    pub deadlock_detect: bool,
}

impl<M, S, C> View for ProcessControlBlockInner<M, S, C> {
    type V = SyncView<M, S, C>;

    open spec fn view(&self) -> SyncView<M, S, C> {
        SyncView {
            mutex_list: self.mutex_list@,
            mutex_available: self.mutex_available@,
            mutex_allocation: rows(self.mutex_allocation@),
            mutex_need: rows(self.mutex_need@),
            semaphore_list: self.semaphore_list@,
            semaphore_available: self.semaphore_available@,
            semaphore_allocation: rows(self.semaphore_allocation@),
            semaphore_need: rows(self.semaphore_need@),
            condvar_list: self.condvar_list@,
            deadlock_detect: self.deadlock_detect,
        }
    }
}

/// `s` lengthened with `z` up to length `n`.
pub open spec fn padded<T>(s: Seq<T>, n: int, z: T) -> Seq<T> {
    if s.len() >= n {
        s
    } else {
        s + Seq::new((n - s.len()) as nat, |i: int| z)
    }
}

/// `i` is the first free slot of `list`, or its length when no slot is free.
pub open spec fn is_first_free<T>(list: Seq<Option<T>>, i: int) -> bool {
    &&& 0 <= i <= list.len()
    &&& i < list.len() ==> list[i] is None
    &&& forall|k: int| 0 <= k < i ==> #[trigger] list[k] is Some
}

/// The request row of a thread that asks for one more unit of resource `id`.
pub open spec fn with_request(row: Seq<usize>, id: int) -> Seq<usize> {
    padded(row, id + 1, 0usize).update(id, (padded(row, id + 1, 0usize)[id] + 1) as usize)
}

/// How many units of resource `j` all the threads hold together.
pub open spec fn held_by_all(allocation: Seq<Seq<usize>>, j: int) -> int
    decreases allocation.len(),
{
    if allocation.len() == 0 {
        0
    } else {
        held_by_all(allocation.drop_last(), j) + entry(allocation.last(), j)
    }
}

/// Replacing the row of one thread changes what all hold of resource `j` by
/// the change of that row's entry.
pub proof fn lemma_held_by_all_update(m: Seq<Seq<usize>>, t: int, row: Seq<usize>, j: int)
    requires
        0 <= t < m.len(),
    ensures
        held_by_all(m.update(t, row), j) == held_by_all(m, j) - entry(m[t], j) + entry(row, j),
    decreases m.len(),
{
    if t == m.len() - 1 {
        assert(m.update(t, row).drop_last() =~= m.drop_last());
    } else {
        lemma_held_by_all_update(m.drop_last(), t, row, j);
        assert(m.update(t, row).drop_last() =~= m.drop_last().update(t, row));
    }
}

/// The units of mutex `k`: what is available of it plus what the threads hold.
pub open spec fn mutex_units<M, S, C>(v: SyncView<M, S, C>, k: int) -> int {
    avail_at(v.mutex_available, k) + held_by_all(v.mutex_allocation, k)
}

/// Each mutex in use has one unit, available or held, no thread holds a
/// mutex not in use, and the available counts reach no further than the
/// mutexes.
pub open spec fn mutexes_exclusive<M, S, C>(v: SyncView<M, S, C>) -> bool {
    &&& v.mutex_available.len() <= v.mutex_list.len()
    &&& forall|k: int|
        0 <= k < v.mutex_list.len() && v.mutex_list[k] is Some ==> #[trigger] mutex_units(v, k) == 1
    &&& forall|k: int|
        0 <= k && !(k < v.mutex_list.len() && v.mutex_list[k] is Some) ==> #[trigger] held_by_all(
            v.mutex_allocation,
            k,
        ) == 0
}

/// When a thread's row and the available counts change only at resource `id`,
/// and there by the same amount in opposite directions, every resource keeps
/// its units, and every other resource what the threads hold of it.
proof fn lemma_units_step(
    av0: Seq<i32>,
    al0: Seq<Seq<usize>>,
    av1: Seq<i32>,
    al1: Seq<Seq<usize>>,
    tid: int,
    id: int,
    row: Seq<usize>,
)
    requires
        0 <= tid < al0.len(),
        al1 == al0.update(tid, row),
        forall|k: int| k != id ==> entry(row, k) == entry(al0[tid], k) && avail_at(av1, k) == avail_at(av0, k),
        avail_at(av1, id) + entry(row, id) == avail_at(av0, id) + entry(al0[tid], id),
    ensures
        forall|k: int| #[trigger] held_by_all(al1, k) + avail_at(av1, k) == held_by_all(al0, k) + avail_at(av0, k),
        forall|k: int| k != id ==> #[trigger] held_by_all(al1, k) == held_by_all(al0, k),
{
    assert forall|k: int| #[trigger] held_by_all(al1, k) + avail_at(av1, k) == held_by_all(al0, k) + avail_at(av0, k) by {
        lemma_held_by_all_update(al0, tid, row, k);
    }
    assert forall|k: int| k != id implies #[trigger] held_by_all(al1, k) == held_by_all(al0, k) by {
        lemma_held_by_all_update(al0, tid, row, k);
    }
}

impl<M, S, C> ProcessControlBlockInner<M, S, C> {
    /// Every thread has a row in both matrices of each kind.
    pub open spec fn wf(&self) -> bool {
        &&& self.mutex_allocation@.len() == self.mutex_need@.len()
        &&& self.semaphore_allocation@.len() == self.semaphore_need@.len()
    }

    /// A state with no object, no thread and deadlock detection off.
    pub fn new() -> (r: Self)
        ensures
            r.wf(),
            r@.mutex_list.len() == 0,
            r@.mutex_available.len() == 0,
            r@.mutex_allocation.len() == 0,
            r@.mutex_need.len() == 0,
            r@.semaphore_list.len() == 0,
            r@.semaphore_available.len() == 0,
            r@.semaphore_allocation.len() == 0,
            r@.semaphore_need.len() == 0,
            r@.condvar_list.len() == 0,
            !r@.deadlock_detect,
    {
        ProcessControlBlockInner {
            mutex_list: Vec::new(),
            mutex_available: Vec::new(),
            mutex_allocation: Vec::new(),
            mutex_need: Vec::new(),
            semaphore_list: Vec::new(),
            semaphore_available: Vec::new(),
            semaphore_allocation: Vec::new(),
            semaphore_need: Vec::new(),
            condvar_list: Vec::new(),
            deadlock_detect: false,
        }
    }

    /// Gives a new thread an empty row in every matrix, and returns its row index.
    pub fn add_thread(&mut self) -> (tid: usize)
        requires
            old(self).wf(),
            old(self).mutex_need@.len() == old(self).semaphore_need@.len(),
        ensures
            final(self).wf(),
            tid == old(self).mutex_need@.len(),
            final(self)@ == (SyncView {
                mutex_allocation: old(self)@.mutex_allocation.push(Seq::empty()),
                mutex_need: old(self)@.mutex_need.push(Seq::empty()),
                semaphore_allocation: old(self)@.semaphore_allocation.push(Seq::empty()),
                semaphore_need: old(self)@.semaphore_need.push(Seq::empty()),
                ..old(self)@
            }),
    {
        let tid = self.mutex_need.len();
        self.mutex_allocation.push(Vec::new());
        self.mutex_need.push(Vec::new());
        self.semaphore_allocation.push(Vec::new());
        self.semaphore_need.push(Vec::new());
        proof {
            assert(rows(self.mutex_allocation@) =~= rows(old(self).mutex_allocation@).push(Seq::empty()));
            assert(rows(self.mutex_need@) =~= rows(old(self).mutex_need@).push(Seq::empty()));
            assert(rows(self.semaphore_allocation@) =~= rows(old(self).semaphore_allocation@).push(Seq::empty()));
            assert(rows(self.semaphore_need@) =~= rows(old(self).semaphore_need@).push(Seq::empty()));
        }
        tid
    }

    /// Whether the mutexes, and whether the semaphores, are deadlocked.
    pub fn deadlock_detect(&self) -> (r: (bool, bool))
        requires
            self.wf(),
        ensures
            r.0 == deadlocked(self@.mutex_available, self@.mutex_allocation, self@.mutex_need),
            r.1 == deadlocked(
                self@.semaphore_available,
                self@.semaphore_allocation,
                self@.semaphore_need,
            ),
    {
        (
            detect_deadlock(&self.mutex_available, &self.mutex_allocation, &self.mutex_need),
            detect_deadlock(&self.semaphore_available, &self.semaphore_allocation, &self.semaphore_need),
        )
    }
}

/// The first free slot of `list`, or its length when no slot is free.
fn first_free_slot<T>(list: &Vec<Option<T>>) -> (i: usize)
    ensures
        is_first_free(list@, i as int),
{
    let mut i: usize = 0;
    while i < list.len()
        invariant
            i <= list@.len(),
            forall|k: int| 0 <= k < i ==> #[trigger] list@[k] is Some,
        decreases list@.len() - i,
    {
        if list[i].is_none() {
            return i;
        }
        i = i + 1;
    }
    i
}

/// Lengthens `v` with zeros up to length `n`.
fn pad_available(v: &mut Vec<i32>, n: usize)
    ensures
        final(v)@ == padded(old(v)@, n as int, 0i32),
{
    while v.len() < n
        invariant
            old(v)@.len() < n ==> v@ == padded(old(v)@, v@.len() as int, 0i32),
            old(v)@.len() >= n ==> v@ == old(v)@,
            v@.len() <= n || v@ == old(v)@,
        decreases n - v@.len(),
    {
        v.push(0);
        proof {
            assert(v@ =~= padded(old(v)@, v@.len() as int, 0i32));
        }
    }
    proof {
        if old(v)@.len() < n {
            assert(v@.len() == n);
        }
    }
}

/// Lengthens row `t` of `m` with zeros up to length `n`.
fn pad_row(m: &mut Vec<Vec<usize>>, t: usize, n: usize)
    requires
        t < old(m)@.len(),
    ensures
        final(m)@.len() == old(m)@.len(),
        rows(final(m)@) == rows(old(m)@).update(t as int, padded(rows(old(m)@)[t as int], n as int, 0usize)),
{
    let ghost row0 = old(m)@[t as int]@;
    while m[t].len() < n
        invariant
            t < m@.len(),
            m@.len() == old(m)@.len(),
            forall|k: int| 0 <= k < m@.len() && k != t ==> #[trigger] m@[k]@ == old(m)@[k]@,
            row0 == old(m)@[t as int]@,
            row0.len() < n ==> m@[t as int]@ == padded(row0, m@[t as int]@.len() as int, 0usize),
            row0.len() >= n ==> m@[t as int]@ == row0,
            m@[t as int]@.len() <= n || m@[t as int]@ == row0,
        decreases n - m@[t as int]@.len(),
    {
        m[t].push(0);
        proof {
            assert(m@[t as int]@ =~= padded(row0, m@[t as int]@.len() as int, 0usize));
        }
    }
    proof {
        assert(rows(m@) =~= rows(old(m)@).update(t as int, padded(rows(old(m)@)[t as int], n as int, 0usize)));
    }
}

/// Adds `mutex` in the first free slot, or at the end, and makes it available.
/// Returns its id.
pub fn sys_mutex_create<M, S, C>(inner: &mut ProcessControlBlockInner<M, S, C>, mutex: M) -> (r: isize)
    requires
        old(inner).mutex_list@.len() < isize::MAX,
    ensures
        is_first_free(old(inner)@.mutex_list, r as int),
        r < old(inner)@.mutex_list.len() ==> final(inner)@ == (SyncView {
            mutex_list: old(inner)@.mutex_list.update(r as int, Some(mutex)),
            mutex_available: padded(old(inner)@.mutex_available, r + 1, 0i32).update(r as int, 1i32),
            ..old(inner)@
        }),
        r == old(inner)@.mutex_list.len() ==> final(inner)@ == (SyncView {
            mutex_list: old(inner)@.mutex_list.push(Some(mutex)),
            mutex_available: padded(old(inner)@.mutex_available, r as int, 0i32).push(1i32),
            ..old(inner)@
        }),
{
    let id = first_free_slot(&inner.mutex_list);
    if id < inner.mutex_list.len() {
        pad_available(&mut inner.mutex_available, id + 1);
        inner.mutex_available.set(id, 1);
        inner.mutex_list.set(id, Some(mutex));
        id as isize
    } else {
        let n = inner.mutex_list.len();
        pad_available(&mut inner.mutex_available, n);
        inner.mutex_available.push(1);
        inner.mutex_list.push(Some(mutex));
        inner.mutex_list.len() as isize - 1
    }
}

/// Records that thread `tid` asks for one more unit of resource `id`. With
/// `detect` on, a request that leaves the threads deadlocked is withdrawn;
/// the result tells whether it was.
fn request_unit(
    available: &Vec<i32>,
    allocation: &mut Vec<Vec<usize>>,
    need: &mut Vec<Vec<usize>>,
    detect: bool,
    tid: usize,
    id: usize,
) -> (refused: bool)
    requires
        old(allocation)@.len() == old(need)@.len(),
        tid < old(need)@.len(),
        id < usize::MAX,
        padded(rows(old(need)@)[tid as int], id + 1, 0usize)[id as int] < usize::MAX,
    ensures
        ({
            let alloc = rows(old(allocation)@).update(
                tid as int,
                padded(rows(old(allocation)@)[tid as int], id + 1, 0usize),
            );
            let asked = rows(old(need)@).update(tid as int, with_request(rows(old(need)@)[tid as int], id as int));
            &&& refused == (detect && deadlocked(available@, alloc, asked))
            &&& rows(final(allocation)@) == alloc
            &&& rows(final(need)@) == if refused {
                rows(old(need)@).update(tid as int, padded(rows(old(need)@)[tid as int], id + 1, 0usize))
            } else {
                asked
            }
            &&& final(allocation)@.len() == final(need)@.len()
        }),
{
    pad_row(need, tid, id + 1);
    pad_row(allocation, tid, id + 1);
    let ghost padded_need = rows(need@);
    proof {
        lemma_rows(need@);
        lemma_rows(old(need)@);
        lemma_rows(allocation@);
        lemma_rows(old(allocation)@);
        let prow = padded(rows(old(need)@)[tid as int], id + 1, 0usize);
        assert(padded_need == rows(old(need)@).update(tid as int, prow));
        assert(padded_need[tid as int] == prow);
        assert(prow.len() >= id + 1);
        assert(need@[tid as int]@ == prow);
    }
    let ghost before = need@;
    need[tid][id] = need[tid][id] + 1;
    let ghost asked = rows(old(need)@).update(tid as int, with_request(rows(old(need)@)[tid as int], id as int));
    proof {
        lemma_rows(need@);
        lemma_rows(before);
        assert(need@[tid as int]@ =~= with_request(rows(old(need)@)[tid as int], id as int));
        assert forall|t: int| 0 <= t < before.len() && t != tid implies #[trigger] rows(need@)[t] == rows(old(need)@)[t] by {
            assert(need@[t] == before[t]);
            assert(rows(before)[t] == padded_need[t]);
        }
        assert(rows(need@) =~= asked);
    }
    if detect && detect_deadlock(available, allocation, need) {
        let ghost before2 = need@;
        need[tid][id] = need[tid][id] - 1;
        proof {
            lemma_rows(need@);
            lemma_rows(before2);
            assert(need@[tid as int]@ =~= padded_need[tid as int]);
            assert forall|t: int| 0 <= t < before2.len() && t != tid implies #[trigger] rows(need@)[t] == padded_need[t] by {
                assert(need@[t] == before2[t]);
            }
            assert(rows(need@) =~= padded_need);
        }
        true
    } else {
        false
    }
}

/// Records that thread `tid` obtained a unit of resource `id`: one fewer
/// available, one fewer requested, one more held.
fn grant_unit(available: &mut Vec<i32>, allocation: &mut Vec<Vec<usize>>, need: &mut Vec<Vec<usize>>, tid: usize, id: usize)
    requires
        id < old(available)@.len(),
        old(available)@[id as int] > i32::MIN,
        tid < old(need)@.len(),
        tid < old(allocation)@.len(),
        id < rows(old(need)@)[tid as int].len(),
        rows(old(need)@)[tid as int][id as int] > 0,
        id < rows(old(allocation)@)[tid as int].len(),
        rows(old(allocation)@)[tid as int][id as int] < usize::MAX,
    ensures
        final(available)@ == old(available)@.update(id as int, (old(available)@[id as int] - 1) as i32),
        rows(final(need)@) == rows(old(need)@).update(
            tid as int,
            rows(old(need)@)[tid as int].update(id as int, (rows(old(need)@)[tid as int][id as int] - 1) as usize),
        ),
        rows(final(allocation)@) == rows(old(allocation)@).update(
            tid as int,
            rows(old(allocation)@)[tid as int].update(
                id as int,
                (rows(old(allocation)@)[tid as int][id as int] + 1) as usize,
            ),
        ),
        final(need)@.len() == old(need)@.len(),
        final(allocation)@.len() == old(allocation)@.len(),
{
    proof {
        lemma_rows(old(need)@);
        lemma_rows(old(allocation)@);
    }
    available.set(id, available[id] - 1);
    need[tid][id] = need[tid][id] - 1;
    allocation[tid][id] = allocation[tid][id] + 1;
    proof {
        lemma_rows(need@);
        lemma_rows(allocation@);
        assert forall|t: int| 0 <= t < need@.len() && t != tid implies #[trigger] rows(need@)[t] == rows(old(need)@)[t] by {
            assert(need@[t] == old(need)@[t]);
        }
        assert forall|t: int| 0 <= t < allocation@.len() && t != tid implies #[trigger] rows(allocation@)[t] == rows(old(allocation)@)[t] by {
            assert(allocation@[t] == old(allocation)@[t]);
        }
        assert(rows(need@) =~= rows(old(need)@).update(
            tid as int,
            rows(old(need)@)[tid as int].update(id as int, (rows(old(need)@)[tid as int][id as int] - 1) as usize),
        ));
        assert(rows(allocation@) =~= rows(old(allocation)@).update(
            tid as int,
            rows(old(allocation)@)[tid as int].update(
                id as int,
                (rows(old(allocation)@)[tid as int][id as int] + 1) as usize,
            ),
        ));
    }
}

/// Records that thread `tid` gives a unit of resource `id` back.
fn release_unit(available: &mut Vec<i32>, allocation: &mut Vec<Vec<usize>>, tid: usize, id: usize)
    requires
        id < old(available)@.len(),
        old(available)@[id as int] < i32::MAX,
        tid < old(allocation)@.len(),
        id < rows(old(allocation)@)[tid as int].len(),
        rows(old(allocation)@)[tid as int][id as int] > 0,
    ensures
        final(available)@ == old(available)@.update(id as int, (old(available)@[id as int] + 1) as i32),
        rows(final(allocation)@) == rows(old(allocation)@).update(
            tid as int,
            rows(old(allocation)@)[tid as int].update(
                id as int,
                (rows(old(allocation)@)[tid as int][id as int] - 1) as usize,
            ),
        ),
        final(allocation)@.len() == old(allocation)@.len(),
{
    proof {
        lemma_rows(old(allocation)@);
    }
    available.set(id, available[id] + 1);
    allocation[tid][id] = allocation[tid][id] - 1;
    proof {
        lemma_rows(allocation@);
        assert forall|t: int| 0 <= t < allocation@.len() && t != tid implies #[trigger] rows(allocation@)[t] == rows(old(allocation)@)[t] by {
            assert(allocation@[t] == old(allocation)@[t]);
        }
        assert(rows(allocation@) =~= rows(old(allocation)@).update(
            tid as int,
            rows(old(allocation)@)[tid as int].update(
                id as int,
                (rows(old(allocation)@)[tid as int][id as int] - 1) as usize,
            ),
        ));
    }
}


/// Records that thread `tid` asks for mutex `mutex_id`. With deadlock
/// detection on, a request that leaves the mutexes deadlocked is withdrawn
/// and refused with `-0xDEAD`; otherwise the result is 0, and the thread goes
/// on to wait for the mutex and then calls `mutex_lock_acquired`.
pub fn sys_mutex_lock<M, S, C>(inner: &mut ProcessControlBlockInner<M, S, C>, tid: usize, mutex_id: usize) -> (r: isize)
    requires
        old(inner).wf(),
        mutex_id < old(inner)@.mutex_list.len(),
        old(inner)@.mutex_list[mutex_id as int] is Some,
        tid < old(inner)@.mutex_need.len(),
        padded(old(inner)@.mutex_need[tid as int], mutex_id + 1, 0usize)[mutex_id as int] < usize::MAX,
    ensures
        final(inner).wf(),
        ({
            let alloc = old(inner)@.mutex_allocation.update(
                tid as int,
                padded(old(inner)@.mutex_allocation[tid as int], mutex_id + 1, 0usize),
            );
            let asked = old(inner)@.mutex_need.update(
                tid as int,
                with_request(old(inner)@.mutex_need[tid as int], mutex_id as int),
            );
            let refused = old(inner)@.deadlock_detect && deadlocked(
                old(inner)@.mutex_available,
                alloc,
                asked,
            );
            &&& r == if refused { -0xDEAD } else { 0 }
            &&& final(inner)@ == (SyncView {
                mutex_allocation: alloc,
                mutex_need: if refused {
                    old(inner)@.mutex_need.update(
                        tid as int,
                        padded(old(inner)@.mutex_need[tid as int], mutex_id + 1, 0usize),
                    )
                } else {
                    asked
                },
                ..old(inner)@
            })
        }),
        forall|k: int| #[trigger] mutex_units(final(inner)@, k) == mutex_units(old(inner)@, k),
        forall|k: int| k != mutex_id ==> #[trigger] held_by_all(final(inner)@.mutex_allocation, k)
            == held_by_all(old(inner)@.mutex_allocation, k),
{
    let detect = inner.deadlock_detect;
    proof {
        assert(mutex_id < inner.mutex_list.len());
    }
    let refused = request_unit(
        &inner.mutex_available,
        &mut inner.mutex_allocation,
        &mut inner.mutex_need,
        detect,
        tid,
        mutex_id,
    );
    proof {
        let v0 = old(inner)@;
        let row = padded(v0.mutex_allocation[tid as int], mutex_id + 1, 0usize);
        assert forall|k: int| k != mutex_id implies entry(row, k) == entry(v0.mutex_allocation[tid as int], k)
            && avail_at(inner@.mutex_available, k) == avail_at(v0.mutex_available, k) by {}
        lemma_units_step(
            v0.mutex_available,
            v0.mutex_allocation,
            inner@.mutex_available,
            inner@.mutex_allocation,
            tid as int,
            mutex_id as int,
            row,
        );
    }
    if refused {
        -0xDEAD
    } else {
        0
    }
}

/// Records that thread `tid` obtained mutex `mutex_id`: one fewer available,
/// one fewer requested, one more held. Returns 0.
pub fn mutex_lock_acquired<M, S, C>(inner: &mut ProcessControlBlockInner<M, S, C>, tid: usize, mutex_id: usize) -> (r: isize)
    requires
        old(inner).wf(),
        mutex_id < old(inner)@.mutex_available.len(),
        old(inner)@.mutex_available[mutex_id as int] > i32::MIN,
        tid < old(inner)@.mutex_need.len(),
        mutex_id < old(inner)@.mutex_need[tid as int].len(),
        old(inner)@.mutex_need[tid as int][mutex_id as int] > 0,
        mutex_id < old(inner)@.mutex_allocation[tid as int].len(),
        old(inner)@.mutex_allocation[tid as int][mutex_id as int] < usize::MAX,
    ensures
        final(inner).wf(),
        r == 0,
        final(inner)@ == (SyncView {
            mutex_available: old(inner)@.mutex_available.update(
                mutex_id as int,
                (old(inner)@.mutex_available[mutex_id as int] - 1) as i32,
            ),
            mutex_need: old(inner)@.mutex_need.update(
                tid as int,
                old(inner)@.mutex_need[tid as int].update(
                    mutex_id as int,
                    (old(inner)@.mutex_need[tid as int][mutex_id as int] - 1) as usize,
                ),
            ),
            mutex_allocation: old(inner)@.mutex_allocation.update(
                tid as int,
                old(inner)@.mutex_allocation[tid as int].update(
                    mutex_id as int,
                    (old(inner)@.mutex_allocation[tid as int][mutex_id as int] + 1) as usize,
                ),
            ),
            ..old(inner)@
        }),
        forall|k: int| #[trigger] mutex_units(final(inner)@, k) == mutex_units(old(inner)@, k),
        forall|k: int| k != mutex_id ==> #[trigger] held_by_all(final(inner)@.mutex_allocation, k)
            == held_by_all(old(inner)@.mutex_allocation, k),
{
    grant_unit(
        &mut inner.mutex_available,
        &mut inner.mutex_allocation,
        &mut inner.mutex_need,
        tid,
        mutex_id,
    );
    proof {
        let v0 = old(inner)@;
        let r0 = v0.mutex_allocation[tid as int];
        let row = r0.update(mutex_id as int, (r0[mutex_id as int] + 1) as usize);
        lemma_units_step(
            v0.mutex_available,
            v0.mutex_allocation,
            inner@.mutex_available,
            inner@.mutex_allocation,
            tid as int,
            mutex_id as int,
            row,
        );
    }
    0
}

/// Records that thread `tid` gives mutex `mutex_id` back; the thread then
/// unlocks the mutex. Returns 0.
pub fn sys_mutex_unlock<M, S, C>(inner: &mut ProcessControlBlockInner<M, S, C>, tid: usize, mutex_id: usize) -> (r: isize)
    requires
        old(inner).wf(),
        mutex_id < old(inner)@.mutex_list.len(),
        old(inner)@.mutex_list[mutex_id as int] is Some,
        mutex_id < old(inner)@.mutex_available.len(),
        old(inner)@.mutex_available[mutex_id as int] < i32::MAX,
        tid < old(inner)@.mutex_allocation.len(),
        mutex_id < old(inner)@.mutex_allocation[tid as int].len(),
        old(inner)@.mutex_allocation[tid as int][mutex_id as int] > 0,
    ensures
        final(inner).wf(),
        r == 0,
        final(inner)@ == (SyncView {
            mutex_available: old(inner)@.mutex_available.update(
                mutex_id as int,
                (old(inner)@.mutex_available[mutex_id as int] + 1) as i32,
            ),
            mutex_allocation: old(inner)@.mutex_allocation.update(
                tid as int,
                old(inner)@.mutex_allocation[tid as int].update(
                    mutex_id as int,
                    (old(inner)@.mutex_allocation[tid as int][mutex_id as int] - 1) as usize,
                ),
            ),
            ..old(inner)@
        }),
        forall|k: int| #[trigger] mutex_units(final(inner)@, k) == mutex_units(old(inner)@, k),
        forall|k: int| k != mutex_id ==> #[trigger] held_by_all(final(inner)@.mutex_allocation, k)
            == held_by_all(old(inner)@.mutex_allocation, k),
{
    release_unit(&mut inner.mutex_available, &mut inner.mutex_allocation, tid, mutex_id);
    proof {
        let v0 = old(inner)@;
        let r0 = v0.mutex_allocation[tid as int];
        let row = r0.update(mutex_id as int, (r0[mutex_id as int] - 1) as usize);
        lemma_units_step(
            v0.mutex_available,
            v0.mutex_allocation,
            inner@.mutex_available,
            inner@.mutex_allocation,
            tid as int,
            mutex_id as int,
            row,
        );
    }
    0
}

/// Adds `semaphore`, made with `res_count` resources, in the first free slot
/// or at the end, with `res_count` available. Returns its id.
pub fn sys_semaphore_create<M, S, C>(inner: &mut ProcessControlBlockInner<M, S, C>, res_count: usize, semaphore: S) -> (r: isize)
    requires
        old(inner).semaphore_list@.len() < isize::MAX,
    ensures
        is_first_free(old(inner)@.semaphore_list, r as int),
        r < old(inner)@.semaphore_list.len() ==> final(inner)@ == (SyncView {
            semaphore_list: old(inner)@.semaphore_list.update(r as int, Some(semaphore)),
            semaphore_available: padded(old(inner)@.semaphore_available, r + 1, 0i32).update(r as int, res_count as i32),
            ..old(inner)@
        }),
        r == old(inner)@.semaphore_list.len() ==> final(inner)@ == (SyncView {
            semaphore_list: old(inner)@.semaphore_list.push(Some(semaphore)),
            semaphore_available: padded(old(inner)@.semaphore_available, r as int, 0i32).push(res_count as i32),
            ..old(inner)@
        }),
{
    let id = first_free_slot(&inner.semaphore_list);
    let id = if id < inner.semaphore_list.len() {
        pad_available(&mut inner.semaphore_available, id + 1);
        inner.semaphore_available.set(id, res_count as i32);
        inner.semaphore_list.set(id, Some(semaphore));
        id
    } else {
        let n = inner.semaphore_list.len();
        pad_available(&mut inner.semaphore_available, n);
        inner.semaphore_available.push(res_count as i32);
        inner.semaphore_list.push(Some(semaphore));
        inner.semaphore_list.len() - 1
    };
    id as isize
}

/// Records that one unit of semaphore `sem_id` is given back; the thread then
/// raises the semaphore. Returns 0.
pub fn sys_semaphore_up<M, S, C>(inner: &mut ProcessControlBlockInner<M, S, C>, sem_id: usize) -> (r: isize)
    requires
        sem_id < old(inner)@.semaphore_list.len(),
        old(inner)@.semaphore_list[sem_id as int] is Some,
        sem_id < old(inner)@.semaphore_available.len(),
        old(inner)@.semaphore_available[sem_id as int] < i32::MAX,
    ensures
        r == 0,
        final(inner)@ == (SyncView {
            semaphore_available: old(inner)@.semaphore_available.update(
                sem_id as int,
                (old(inner)@.semaphore_available[sem_id as int] + 1) as i32,
            ),
            ..old(inner)@
        }),
{
    inner.semaphore_available.set(sem_id, inner.semaphore_available[sem_id] + 1);
    0
}

/// Records that thread `tid` asks for semaphore `sem_id`. With deadlock
/// detection on, a request that leaves the semaphores deadlocked is withdrawn
/// and refused with `-0xDEAD`; otherwise the result is 0, and the thread goes
/// on to wait for the semaphore and then calls `semaphore_down_acquired`.
pub fn sys_semaphore_down<M, S, C>(inner: &mut ProcessControlBlockInner<M, S, C>, tid: usize, sem_id: usize) -> (r: isize)
    requires
        old(inner).wf(),
        sem_id < old(inner)@.semaphore_list.len(),
        old(inner)@.semaphore_list[sem_id as int] is Some,
        tid < old(inner)@.semaphore_need.len(),
        padded(old(inner)@.semaphore_need[tid as int], sem_id + 1, 0usize)[sem_id as int] < usize::MAX,
    ensures
        final(inner).wf(),
        ({
            let alloc = old(inner)@.semaphore_allocation.update(
                tid as int,
                padded(old(inner)@.semaphore_allocation[tid as int], sem_id + 1, 0usize),
            );
            let asked = old(inner)@.semaphore_need.update(
                tid as int,
                with_request(old(inner)@.semaphore_need[tid as int], sem_id as int),
            );
            let refused = old(inner)@.deadlock_detect && deadlocked(
                old(inner)@.semaphore_available,
                alloc,
                asked,
            );
            &&& r == if refused { -0xDEAD } else { 0 }
            &&& final(inner)@ == (SyncView {
                semaphore_allocation: alloc,
                semaphore_need: if refused {
                    old(inner)@.semaphore_need.update(
                        tid as int,
                        padded(old(inner)@.semaphore_need[tid as int], sem_id + 1, 0usize),
                    )
                } else {
                    asked
                },
                ..old(inner)@
            })
        }),
{
    let detect = inner.deadlock_detect;
    proof {
        assert(sem_id < inner.semaphore_list.len());
    }
    let refused = request_unit(
        &inner.semaphore_available,
        &mut inner.semaphore_allocation,
        &mut inner.semaphore_need,
        detect,
        tid,
        sem_id,
    );
    if refused {
        -0xDEAD
    } else {
        0
    }
}

/// Records that thread `tid` obtained semaphore `sem_id`: one fewer available,
/// one fewer requested, one more held. Returns 0.
pub fn semaphore_down_acquired<M, S, C>(inner: &mut ProcessControlBlockInner<M, S, C>, tid: usize, sem_id: usize) -> (r: isize)
    requires
        old(inner).wf(),
        sem_id < old(inner)@.semaphore_available.len(),
        old(inner)@.semaphore_available[sem_id as int] > i32::MIN,
        tid < old(inner)@.semaphore_need.len(),
        sem_id < old(inner)@.semaphore_need[tid as int].len(),
        old(inner)@.semaphore_need[tid as int][sem_id as int] > 0,
        sem_id < old(inner)@.semaphore_allocation[tid as int].len(),
        old(inner)@.semaphore_allocation[tid as int][sem_id as int] < usize::MAX,
    ensures
        final(inner).wf(),
        r == 0,
        final(inner)@ == (SyncView {
            semaphore_available: old(inner)@.semaphore_available.update(
                sem_id as int,
                (old(inner)@.semaphore_available[sem_id as int] - 1) as i32,
            ),
            semaphore_need: old(inner)@.semaphore_need.update(
                tid as int,
                old(inner)@.semaphore_need[tid as int].update(
                    sem_id as int,
                    (old(inner)@.semaphore_need[tid as int][sem_id as int] - 1) as usize,
                ),
            ),
            semaphore_allocation: old(inner)@.semaphore_allocation.update(
                tid as int,
                old(inner)@.semaphore_allocation[tid as int].update(
                    sem_id as int,
                    (old(inner)@.semaphore_allocation[tid as int][sem_id as int] + 1) as usize,
                ),
            ),
            ..old(inner)@
        }),
{
    grant_unit(
        &mut inner.semaphore_available,
        &mut inner.semaphore_allocation,
        &mut inner.semaphore_need,
        tid,
        sem_id,
    );
    0
}

/// Adds `condvar` in the first free slot, or at the end. Returns its id.
pub fn sys_condvar_create<M, S, C>(inner: &mut ProcessControlBlockInner<M, S, C>, condvar: C) -> (r: isize)
    requires
        old(inner).condvar_list@.len() < isize::MAX,
    ensures
        is_first_free(old(inner)@.condvar_list, r as int),
        r < old(inner)@.condvar_list.len() ==> final(inner)@ == (SyncView {
            condvar_list: old(inner)@.condvar_list.update(r as int, Some(condvar)),
            ..old(inner)@
        }),
        r == old(inner)@.condvar_list.len() ==> final(inner)@ == (SyncView {
            condvar_list: old(inner)@.condvar_list.push(Some(condvar)),
            ..old(inner)@
        }),
{
    let id = first_free_slot(&inner.condvar_list);
    let id = if id < inner.condvar_list.len() {
        inner.condvar_list.set(id, Some(condvar));
        id
    } else {
        inner.condvar_list.push(Some(condvar));
        inner.condvar_list.len() - 1
    };
    id as isize
}

/// Signals condition variable `condvar_id`, which must exist; the thread
/// then wakes one waiter of it. Returns 0.
pub fn sys_condvar_signal<M, S, C>(inner: &ProcessControlBlockInner<M, S, C>, condvar_id: usize) -> (r: isize)
    requires
        condvar_id < inner@.condvar_list.len(),
        inner@.condvar_list[condvar_id as int] is Some,
    ensures
        r == 0,
{
    0
}

/// Waits on condition variable `condvar_id` with mutex `mutex_id`, both of
/// which must exist; the thread then unlocks the mutex, waits, and locks it
/// again. Returns 0.
pub fn sys_condvar_wait<M, S, C>(inner: &ProcessControlBlockInner<M, S, C>, condvar_id: usize, mutex_id: usize) -> (r: isize)
    requires
        condvar_id < inner@.condvar_list.len(),
        inner@.condvar_list[condvar_id as int] is Some,
        mutex_id < inner@.mutex_list.len(),
        inner@.mutex_list[mutex_id as int] is Some,
    ensures
        r == 0,
{
    0
}

/// Turns deadlock detection on (1) or off (0); any other value is refused with -1.
pub fn sys_enable_deadlock_detect<M, S, C>(inner: &mut ProcessControlBlockInner<M, S, C>, enabled: usize) -> (r: isize)
    ensures
        r == if enabled == 0 || enabled == 1 { 0 } else { -1 },
        final(inner)@ == if enabled == 0 || enabled == 1 {
            SyncView { deadlock_detect: enabled == 1, ..old(inner)@ }
        } else {
            old(inner)@
        },
{
    if enabled != 0 && enabled != 1 {
        return -1;
    } else {
        inner.deadlock_detect = if enabled == 1 {
            true
        } else {
            false
        };
        0
    }
}

/// The time at which a thread that sleeps `ms` milliseconds from `now_ms` wakes
/// up, with the result of the call (0).
pub fn sys_sleep(now_ms: usize, ms: usize) -> (r: (isize, usize))
    requires
        now_ms + ms <= usize::MAX,
    ensures
        r == (0isize, (now_ms + ms) as usize),
{
    let expire_ms = now_ms + ms;
    (0, expire_ms)
}

/// A granted `sys_mutex_lock`, the `mutex_lock_acquired` that follows it and
/// then `sys_mutex_unlock` give back the state from before, but for the rows
/// of the thread, which are lengthened with zeros to reach the mutex.
pub proof fn lemma_lock_unlock_restores<M, S, C>(
    v0: SyncView<M, S, C>,
    v1: SyncView<M, S, C>,
    v2: SyncView<M, S, C>,
    v3: SyncView<M, S, C>,
    tid: int,
    id: int,
)
    requires
        0 <= tid < v0.mutex_need.len(),
        tid < v0.mutex_allocation.len(),
        0 <= id < v0.mutex_available.len(),
        v0.mutex_available[id] > i32::MIN,
        entry(v0.mutex_need[tid], id) < usize::MAX,
        entry(v0.mutex_allocation[tid], id) < usize::MAX,
        v1 == (SyncView {
            mutex_allocation: v0.mutex_allocation.update(tid, padded(v0.mutex_allocation[tid], id + 1, 0usize)),
            mutex_need: v0.mutex_need.update(tid, with_request(v0.mutex_need[tid], id)),
            ..v0
        }),
        v2 == (SyncView {
            mutex_available: v1.mutex_available.update(id, (v1.mutex_available[id] - 1) as i32),
            mutex_need: v1.mutex_need.update(
                tid,
                v1.mutex_need[tid].update(id, (v1.mutex_need[tid][id] - 1) as usize),
            ),
            mutex_allocation: v1.mutex_allocation.update(
                tid,
                v1.mutex_allocation[tid].update(id, (v1.mutex_allocation[tid][id] + 1) as usize),
            ),
            ..v1
        }),
        v3 == (SyncView {
            mutex_available: v2.mutex_available.update(id, (v2.mutex_available[id] + 1) as i32),
            mutex_allocation: v2.mutex_allocation.update(
                tid,
                v2.mutex_allocation[tid].update(id, (v2.mutex_allocation[tid][id] - 1) as usize),
            ),
            ..v2
        }),
    ensures
        v3 == (SyncView {
            mutex_allocation: v0.mutex_allocation.update(tid, padded(v0.mutex_allocation[tid], id + 1, 0usize)),
            mutex_need: v0.mutex_need.update(tid, padded(v0.mutex_need[tid], id + 1, 0usize)),
            ..v0
        }),
        v3.mutex_available == v0.mutex_available,
        entry(v3.mutex_allocation[tid], id) == entry(v0.mutex_allocation[tid], id),
        entry(v3.mutex_need[tid], id) == entry(v0.mutex_need[tid], id),
{
    let pa = padded(v0.mutex_allocation[tid], id + 1, 0usize);
    let pn = padded(v0.mutex_need[tid], id + 1, 0usize);
    assert(pa.len() > id && pa[id] == entry(v0.mutex_allocation[tid], id));
    assert(pn.len() > id && pn[id] == entry(v0.mutex_need[tid], id));
    assert(v3.mutex_available =~= v0.mutex_available);
    assert(v3.mutex_need[tid] =~= pn);
    assert(v3.mutex_need =~= v0.mutex_need.update(tid, pn));
    assert(v3.mutex_allocation[tid] =~= pa);
    assert(v3.mutex_allocation =~= v0.mutex_allocation.update(tid, pa));
}

/// A granted `sys_semaphore_down`, the `semaphore_down_acquired` that follows
/// it and then `sys_semaphore_up` of the same semaphore give back the
/// available counts and the requests from before (the thread's request row
/// lengthened with zeros), and leave the thread holding one more unit.
pub proof fn lemma_down_up_restores_count<M, S, C>(
    v0: SyncView<M, S, C>,
    v1: SyncView<M, S, C>,
    v2: SyncView<M, S, C>,
    v3: SyncView<M, S, C>,
    tid: int,
    id: int,
)
    requires
        0 <= tid < v0.semaphore_need.len(),
        tid < v0.semaphore_allocation.len(),
        0 <= id < v0.semaphore_available.len(),
        v0.semaphore_available[id] > i32::MIN,
        entry(v0.semaphore_need[tid], id) < usize::MAX,
        entry(v0.semaphore_allocation[tid], id) < usize::MAX,
        v1 == (SyncView {
            semaphore_allocation: v0.semaphore_allocation.update(tid, padded(v0.semaphore_allocation[tid], id + 1, 0usize)),
            semaphore_need: v0.semaphore_need.update(tid, with_request(v0.semaphore_need[tid], id)),
            ..v0
        }),
        v2 == (SyncView {
            semaphore_available: v1.semaphore_available.update(id, (v1.semaphore_available[id] - 1) as i32),
            semaphore_need: v1.semaphore_need.update(
                tid,
                v1.semaphore_need[tid].update(id, (v1.semaphore_need[tid][id] - 1) as usize),
            ),
            semaphore_allocation: v1.semaphore_allocation.update(
                tid,
                v1.semaphore_allocation[tid].update(id, (v1.semaphore_allocation[tid][id] + 1) as usize),
            ),
            ..v1
        }),
        v3 == (SyncView {
            semaphore_available: v2.semaphore_available.update(id, (v2.semaphore_available[id] + 1) as i32),
            ..v2
        }),
    ensures
        v3.semaphore_available == v0.semaphore_available,
        v3.semaphore_need == v0.semaphore_need.update(tid, padded(v0.semaphore_need[tid], id + 1, 0usize)),
        entry(v3.semaphore_need[tid], id) == entry(v0.semaphore_need[tid], id),
        v3.semaphore_allocation == v0.semaphore_allocation.update(
            tid,
            padded(v0.semaphore_allocation[tid], id + 1, 0usize).update(
                id,
                (entry(v0.semaphore_allocation[tid], id) + 1) as usize,
            ),
        ),
{
    let pa = padded(v0.semaphore_allocation[tid], id + 1, 0usize);
    let pn = padded(v0.semaphore_need[tid], id + 1, 0usize);
    assert(pa.len() > id && pa[id] == entry(v0.semaphore_allocation[tid], id));
    assert(pn.len() > id && pn[id] == entry(v0.semaphore_need[tid], id));
    assert(v3.semaphore_available =~= v0.semaphore_available);
    assert(v3.semaphore_need[tid] =~= pn);
    assert(v3.semaphore_need =~= v0.semaphore_need.update(tid, pn));
}

/// Creating a mutex keeps each mutex in use with one unit, available or held:
/// the new one is available and, not being in use before, held by no thread.
pub proof fn lemma_mutex_create_keeps_exclusive<M, S, C>(
    v0: SyncView<M, S, C>,
    v1: SyncView<M, S, C>,
    r: int,
    mutex: M,
)
    requires
        mutexes_exclusive(v0),
        is_first_free(v0.mutex_list, r),
        r < v0.mutex_list.len() ==> v1 == (SyncView {
            mutex_list: v0.mutex_list.update(r, Some(mutex)),
            mutex_available: padded(v0.mutex_available, r + 1, 0i32).update(r, 1i32),
            ..v0
        }),
        r == v0.mutex_list.len() ==> v1 == (SyncView {
            mutex_list: v0.mutex_list.push(Some(mutex)),
            mutex_available: padded(v0.mutex_available, r, 0i32).push(1i32),
            ..v0
        }),
    ensures
        mutexes_exclusive(v1),
{
    assert(v1.mutex_available.len() <= v1.mutex_list.len());
    assert(avail_at(v1.mutex_available, r) == 1);
    assert(held_by_all(v0.mutex_allocation, r) == 0);
    assert forall|k: int| k != r implies avail_at(v1.mutex_available, k) == avail_at(v0.mutex_available, k) by {}
    assert forall|k: int|
        0 <= k < v1.mutex_list.len() && v1.mutex_list[k] is Some implies #[trigger] mutex_units(v1, k) == 1 by {
        if k != r {
            assert(v0.mutex_list[k] is Some);
            assert(mutex_units(v0, k) == 1);
        }
    }
    assert forall|k: int|
        0 <= k && !(k < v1.mutex_list.len() && v1.mutex_list[k] is Some) implies #[trigger] held_by_all(
            v1.mutex_allocation,
            k,
        ) == 0 by {
        assert(k != r);
        assert(!(k < v0.mutex_list.len() && v0.mutex_list[k] is Some));
    }
}

/// `sys_mutex_lock`, `mutex_lock_acquired` and `sys_mutex_unlock` on a mutex
/// in use keep each mutex in use with one unit, available or held by the
/// threads, as their contracts give: they keep the units of every mutex and
/// change what the threads hold only of that one.
pub proof fn lemma_mutex_calls_keep_exclusive<M, S, C>(v0: SyncView<M, S, C>, v1: SyncView<M, S, C>, id: int)
    requires
        mutexes_exclusive(v0),
        0 <= id < v0.mutex_list.len(),
        v0.mutex_list[id] is Some,
        v1.mutex_list == v0.mutex_list,
        v1.mutex_available.len() == v0.mutex_available.len(),
        forall|k: int| #[trigger] mutex_units(v1, k) == mutex_units(v0, k),
        forall|k: int| k != id ==> #[trigger] held_by_all(v1.mutex_allocation, k) == held_by_all(v0.mutex_allocation, k),
    ensures
        mutexes_exclusive(v1),
{
    assert forall|k: int|
        0 <= k < v1.mutex_list.len() && v1.mutex_list[k] is Some implies #[trigger] mutex_units(v1, k) == 1 by {
        assert(mutex_units(v0, k) == 1);
    }
    assert forall|k: int|
        0 <= k && !(k < v1.mutex_list.len() && v1.mutex_list[k] is Some) implies #[trigger] held_by_all(
            v1.mutex_allocation,
            k,
        ) == 0 by {
        assert(k != id);
        assert(held_by_all(v0.mutex_allocation, k) == 0);
    }
}

} // verus!
