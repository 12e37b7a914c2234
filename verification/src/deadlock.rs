//! Deadlock detection by the banker's safety test: a state is safe when the
//! threads can finish one after the other, each one getting what it still
//! requests from what is available plus what the threads before it held.
use vstd::prelude::*;

verus! {

/// The rows of a matrix.
pub open spec fn rows(m: Seq<Vec<usize>>) -> Seq<Seq<usize>> {
    m.map_values(|r: Vec<usize>| r@)
}

pub proof fn lemma_rows(m: Seq<Vec<usize>>)
    ensures
        rows(m).len() == m.len(),
        forall|i: int| 0 <= i < m.len() ==> #[trigger] rows(m)[i] == m[i]@,
{
}

/// Entry `j` of a row, where a missing entry is zero.
pub open spec fn entry(row: Seq<usize>, j: int) -> int {
    if 0 <= j < row.len() {
        row[j] as int
    } else {
        0
    }
}

/// Entry `j` of the available vector, where a missing entry is zero.
pub open spec fn avail_at(available: Seq<i32>, j: int) -> int {
    if 0 <= j < available.len() {
        available[j] as int
    } else {
        0
    }
}

/// How much of resource `j` the finished threads among the first `k` hold.
pub open spec fn held(allocation: Seq<Seq<usize>>, finished: Seq<bool>, j: int, k: int) -> int
    decreases k,
{
    if k <= 0 {
        0
    } else {
        held(allocation, finished, j, k - 1) + if finished[k - 1] {
            entry(allocation[k - 1], j)
        } else {
            0
        }
    }
}

/// How much of resource `j` there is once the finished threads have given back what they hold.
pub open spec fn work(available: Seq<i32>, allocation: Seq<Seq<usize>>, finished: Seq<bool>, j: int) -> int {
    avail_at(available, j) + held(allocation, finished, j, allocation.len() as int)
}

/// A thread whose requests are `request` can run to its end once the threads
/// in `finished` have given back what they hold.
pub open spec fn can_finish(
    request: Seq<usize>,
    available: Seq<i32>,
    allocation: Seq<Seq<usize>>,
    finished: Seq<bool>,
) -> bool {
    forall|j: int|
        0 <= j < request.len() && request[j] > 0 ==> request[j] <= #[trigger] work(
            available,
            allocation,
            finished,
            j,
        )
}

/// The threads among the first `k` of `order`, as flags over `n` threads.
pub open spec fn prefix_set(order: Seq<int>, k: int, n: int) -> Seq<bool> {
    Seq::new(n as nat, |i: int| order.take(k).contains(i))
}

/// `order` names every thread once, and each thread can finish after the ones before it.
pub open spec fn is_safe_order(
    available: Seq<i32>,
    allocation: Seq<Seq<usize>>,
    need: Seq<Seq<usize>>,
    order: Seq<int>,
) -> bool {
    &&& order.no_duplicates()
    &&& forall|k: int| 0 <= k < order.len() ==> 0 <= #[trigger] order[k] < need.len()
    &&& forall|i: int| 0 <= i < need.len() ==> #[trigger] order.contains(i)
    &&& forall|k: int|
        0 <= k < order.len() ==> can_finish(
            need[#[trigger] order[k]],
            available,
            allocation,
            prefix_set(order, k, need.len() as int),
        )
}

/// No order lets every thread finish.
pub open spec fn deadlocked(available: Seq<i32>, allocation: Seq<Seq<usize>>, need: Seq<Seq<usize>>) -> bool {
    !exists|order: Seq<int>| #[trigger] is_safe_order(available, allocation, need, order)
}

/// The largest amount that the search keeps track of; no request is larger.
pub open spec fn cap() -> int {
    0x1_0000_0000_0000_0000
}

pub open spec fn clamp(x: int) -> int {
    if x > cap() {
        cap()
    } else {
        x
    }
}

/// The number of threads not finished yet.
pub open spec fn count_unfinished(finished: Seq<bool>) -> nat
    decreases finished.len(),
{
    if finished.len() == 0 {
        0
    } else {
        count_unfinished(finished.drop_last()) + if finished.last() {
            0nat
        } else {
            1nat
        }
    }
}

proof fn lemma_count_finish(finished: Seq<bool>, i: int)
    requires
        0 <= i < finished.len(),
        !finished[i],
    ensures
        count_unfinished(finished.update(i, true)) + 1 == count_unfinished(finished),
    decreases finished.len(),
{
    let f2 = finished.update(i, true);
    if i == finished.len() - 1 {
        assert(f2.drop_last() =~= finished.drop_last());
    } else {
        assert(f2.drop_last() =~= finished.drop_last().update(i, true));
        lemma_count_finish(finished.drop_last(), i);
    }
}

proof fn lemma_held_none(allocation: Seq<Seq<usize>>, finished: Seq<bool>, j: int, k: int)
    requires
        k <= finished.len(),
        forall|i: int| 0 <= i < finished.len() ==> !finished[i],
    ensures
        held(allocation, finished, j, k) == 0,
    decreases k,
{
    if k > 0 {
        lemma_held_none(allocation, finished, j, k - 1);
    }
}

proof fn lemma_held_finish(allocation: Seq<Seq<usize>>, finished: Seq<bool>, i: int, j: int, k: int)
    requires
        0 <= i < finished.len(),
        k <= finished.len(),
        !finished[i],
    ensures
        held(allocation, finished.update(i, true), j, k) == held(allocation, finished, j, k) + if i
            < k {
            entry(allocation[i], j)
        } else {
            0
        },
    decreases k,
{
    if k > 0 {
        lemma_held_finish(allocation, finished, i, j, k - 1);
    }
}

proof fn lemma_held_monotone(allocation: Seq<Seq<usize>>, f1: Seq<bool>, f2: Seq<bool>, j: int, k: int)
    requires
        k <= f1.len(),
        k <= f2.len(),
        forall|i: int| 0 <= i < k && #[trigger] f1[i] ==> f2[i],
    ensures
        held(allocation, f1, j, k) <= held(allocation, f2, j, k),
    decreases k,
{
    if k > 0 {
        lemma_held_monotone(allocation, f1, f2, j, k - 1);
        assert(entry(allocation[k - 1], j) >= 0);
    }
}

/// A thread that can finish after some threads can finish after more of them.
proof fn lemma_can_finish_monotone(
    request: Seq<usize>,
    available: Seq<i32>,
    allocation: Seq<Seq<usize>>,
    f1: Seq<bool>,
    f2: Seq<bool>,
)
    requires
        f1.len() == allocation.len(),
        f2.len() == allocation.len(),
        forall|i: int| 0 <= i < f1.len() && #[trigger] f1[i] ==> f2[i],
        can_finish(request, available, allocation, f1),
    ensures
        can_finish(request, available, allocation, f2),
{
    assert forall|j: int|
        0 <= j < request.len() && request[j] > 0 implies request[j] <= #[trigger] work(
            available,
            allocation,
            f2,
            j,
        ) by {
        assert(request[j] <= work(available, allocation, f1, j));
        lemma_held_monotone(allocation, f1, f2, j, allocation.len() as int);
    }
}

/// When no unfinished thread can finish and some thread is unfinished, there
/// is no safe order: the first unfinished thread of such an order could finish.
proof fn lemma_stuck(
    available: Seq<i32>,
    allocation: Seq<Seq<usize>>,
    need: Seq<Seq<usize>>,
    finished: Seq<bool>,
    order: Seq<int>,
    k: int,
)
    requires
        allocation.len() == need.len(),
        finished.len() == need.len(),
        forall|i: int|
            0 <= i < need.len() && !#[trigger] finished[i] ==> !can_finish(
                need[i],
                available,
                allocation,
                finished,
            ),
        exists|u: int| 0 <= u < need.len() && !#[trigger] finished[u],
        0 <= k,
        forall|x: int| 0 <= x < k && x < order.len() ==> #[trigger] finished[order[x]],
    ensures
        !is_safe_order(available, allocation, need, order),
    decreases order.len() - k,
{
    if is_safe_order(available, allocation, need, order) {
        if k >= order.len() {
            let u = choose|u: int| 0 <= u < need.len() && !#[trigger] finished[u];
            assert(order.contains(u));
            let x = choose|x: int| 0 <= x < order.len() && order[x] == u;
            assert(finished[order[x]]);
        } else if !finished[order[k]] {
            let t = order[k];
            let n = need.len() as int;
            let pre = prefix_set(order, k, n);
            assert(can_finish(need[t], available, allocation, pre));
            assert forall|i: int| 0 <= i < pre.len() && #[trigger] pre[i] implies finished[i] by {
                assert(order.take(k).contains(i));
                let x = choose|x: int| 0 <= x < k && order.take(k)[x] == i;
                assert(finished[order[x]]);
            }
            lemma_can_finish_monotone(need[t], available, allocation, pre, finished);
        } else {
            lemma_stuck(available, allocation, need, finished, order, k + 1);
        }
    }
}

/// Whether every nonzero request of `request` fits in `pool`.
fn fits(request: &Vec<usize>, pool: &Vec<i128>) -> (r: bool)
    requires
        request@.len() <= pool@.len(),
    ensures
        r == forall|j: int|
            0 <= j < request@.len() && request@[j] > 0 ==> request@[j] <= #[trigger] pool@[j],
{
    let mut j: usize = 0;
    while j < request.len()
        invariant
            j <= request@.len(),
            request@.len() <= pool@.len(),
            forall|x: int| 0 <= x < j && request@[x] > 0 ==> request@[x] <= #[trigger] pool@[x],
        decreases request@.len() - j,
    {
        if request[j] > 0 && (request[j] as i128) > pool[j] {
            return false;
        }
        j = j + 1;
    }
    true
}

/// Whether the threads, with what they hold in `allocation` and still request
/// in `need`, cannot all finish with what is `available`.
pub fn detect_deadlock(available: &Vec<i32>, allocation: &Vec<Vec<usize>>, need: &Vec<Vec<usize>>) -> (r: bool)
    requires
        allocation@.len() == need@.len(),
    ensures
        r == deadlocked(available@, rows(allocation@), rows(need@)),
{
    let n = need.len();
    // The widest request row.
    let mut width: usize = 0;
    let mut i: usize = 0;
    while i < n
        invariant
            i <= n,
            n == need@.len(),
            forall|x: int| 0 <= x < i ==> (#[trigger] need@[x])@.len() <= width,
        decreases n - i,
    {
        if need[i].len() > width {
            width = need[i].len();
        }
        i = i + 1;
    }
    let mut finish: Vec<bool> = Vec::new();
    let mut i: usize = 0;
    while i < n
        invariant
            i <= n,
            finish@.len() == i,
            forall|x: int| 0 <= x < i ==> !finish@[x],
        decreases n - i,
    {
        finish.push(false);
        i = i + 1;
    }
    // What is available, before any thread finishes.
    let mut pool: Vec<i128> = Vec::new();
    let mut j: usize = 0;
    while j < width
        invariant
            j <= width,
            pool@.len() == j,
            finish@.len() == n,
            n == allocation@.len(),
            forall|x: int| 0 <= x < n ==> !finish@[x],
            forall|x: int| 0 <= x < j ==> #[trigger] pool@[x] == clamp(work(available@, rows(allocation@), finish@, x)),
        decreases width - j,
    {
        let a: i128 = if j < available.len() {
            available[j] as i128
        } else {
            0
        };
        proof {
            lemma_held_none(rows(allocation@), finish@, j as int, n as int);
        }
        pool.push(a);
        j = j + 1;
    }
    let ghost mut order: Seq<int> = Seq::empty();
    loop
        invariant
            n == need@.len(),
            n == allocation@.len(),
            finish@.len() == n,
            pool@.len() == width,
            forall|x: int| 0 <= x < n ==> (#[trigger] need@[x])@.len() <= width,
            forall|x: int| 0 <= x < width ==> #[trigger] pool@[x] == clamp(work(available@, rows(allocation@), finish@, x)),
            order.no_duplicates(),
            forall|k: int| 0 <= k < order.len() ==> 0 <= #[trigger] order[k] < n,
            forall|x: int| 0 <= x < n ==> (#[trigger] finish@[x] <==> order.contains(x)),
            forall|k: int|
                0 <= k < order.len() ==> can_finish(
                    rows(need@)[#[trigger] order[k]],
                    available@,
                    rows(allocation@),
                    prefix_set(order, k, n as int),
                ),
        ensures
            n == need@.len(),
            n == allocation@.len(),
            finish@.len() == n,
            pool@.len() == width,
            forall|x: int| 0 <= x < n ==> (#[trigger] need@[x])@.len() <= width,
            forall|x: int| 0 <= x < width ==> #[trigger] pool@[x] == clamp(work(available@, rows(allocation@), finish@, x)),
            order.no_duplicates(),
            forall|k: int| 0 <= k < order.len() ==> 0 <= #[trigger] order[k] < n,
            forall|x: int| 0 <= x < n ==> (#[trigger] finish@[x] <==> order.contains(x)),
            forall|k: int|
                0 <= k < order.len() ==> can_finish(
                    rows(need@)[#[trigger] order[k]],
                    available@,
                    rows(allocation@),
                    prefix_set(order, k, n as int),
                ),
            forall|x: int|
                0 <= x < n && !#[trigger] finish@[x] ==> !(forall|j: int|
                    0 <= j < need@[x]@.len() && need@[x]@[j] > 0 ==> need@[x]@[j] <= #[trigger] pool@[j]),
        decreases count_unfinished(finish@),
    {
        // Look for an unfinished thread whose requests fit.
        let mut pick: usize = n;
        let mut i: usize = 0;
        while i < n
            invariant_except_break
                pick == n,
            invariant
                i <= n,
                n == need@.len(),
                finish@.len() == n,
                pool@.len() == width,
                forall|x: int| 0 <= x < n ==> (#[trigger] need@[x])@.len() <= width,
                forall|x: int|
                    0 <= x < i && !#[trigger] finish@[x] ==> !(forall|j: int|
                        0 <= j < need@[x]@.len() && need@[x]@[j] > 0 ==> need@[x]@[j] <= #[trigger] pool@[j]),
            ensures
                pick <= n,
                pick == n ==> forall|x: int|
                    0 <= x < n && !#[trigger] finish@[x] ==> !(forall|j: int|
                        0 <= j < need@[x]@.len() && need@[x]@[j] > 0 ==> need@[x]@[j] <= #[trigger] pool@[j]),
                pick < n ==> !finish@[pick as int] && (forall|j: int|
                        0 <= j < need@[pick as int]@.len() && need@[pick as int]@[j] > 0 ==> need@[pick as int]@[j] <= #[trigger] pool@[j]),
            decreases n - i,
        {
            if !finish[i] && fits(&need[i], &pool) {
                pick = i;
                break;
            }
            i = i + 1;
        }
        if pick == n {
            break;
        }
        let ghost old_finish = finish@;
        proof {
            assert forall|j: int|
                0 <= j < need@[pick as int]@.len() && need@[pick as int]@[j] > 0 implies need@[pick as int]@[j]
                    <= #[trigger] work(available@, rows(allocation@), old_finish, j) by {
                assert(need@[pick as int]@[j] <= pool@[j]);
            }
            assert(prefix_set(order, order.len() as int, n as int) =~= old_finish) by {
                assert(order.take(order.len() as int) =~= order);
            }
        }
        // Thread `pick` finishes and gives back what it holds.
        let mut j: usize = 0;
        while j < width
            invariant
                j <= width,
                pool@.len() == width,
                n == allocation@.len(),
                pick < n,
                old_finish == finish@,
                old_finish.len() == n,
                !old_finish[pick as int],
                forall|x: int| 0 <= x < j ==> #[trigger] pool@[x] == clamp(
                    work(available@, rows(allocation@), old_finish.update(pick as int, true), x),
                ),
                forall|x: int| j <= x < width ==> #[trigger] pool@[x] == clamp(
                    work(available@, rows(allocation@), old_finish, x),
                ),
            decreases width - j,
        {
            let a: i128 = if j < allocation[pick].len() {
                allocation[pick][j] as i128
            } else {
                0
            };
            proof {
                lemma_held_finish(rows(allocation@), old_finish, pick as int, j as int, n as int);
            }
            let w = pool[j];
            let nw = if w + a > 0x1_0000_0000_0000_0000i128 {
                0x1_0000_0000_0000_0000i128
            } else {
                w + a
            };
            pool.set(j, nw);
            j = j + 1;
        }
        finish.set(pick, true);
        proof {
            lemma_count_finish(old_finish, pick as int);
            let old_order = order;
            order = order.push(pick as int);
            assert forall|k: int|
                0 <= k < order.len() implies can_finish(
                    rows(need@)[#[trigger] order[k]],
                    available@,
                    rows(allocation@),
                    prefix_set(order, k, n as int),
                ) by {
                if k < old_order.len() {
                    assert(order.take(k) =~= old_order.take(k));
                    assert(prefix_set(order, k, n as int) =~= prefix_set(old_order, k, n as int));
                } else {
                    assert(order.take(k) =~= old_order);
                    assert(prefix_set(order, k, n as int) =~= old_finish);
                }
            }
            assert forall|x: int| 0 <= x < n implies (#[trigger] finish@[x] <==> order.contains(x)) by {
                if x == pick {
                    assert(order[order.len() - 1] == x);
                } else if old_order.contains(x) {
                    let y = choose|y: int| 0 <= y < old_order.len() && old_order[y] == x;
                    assert(order[y] == x);
                } else if order.contains(x) {
                    let y = choose|y: int| 0 <= y < order.len() && order[y] == x;
                    assert(y < old_order.len());
                    assert(old_order[y] == x);
                }
            }
            assert(finish@ == old_finish.update(pick as int, true));
        }
    }
    // Deadlocked exactly when some thread did not finish.
    let mut i: usize = 0;
    while i < n
        invariant
            i <= n,
            n == need@.len(),
            n == allocation@.len(),
            finish@.len() == n,
            pool@.len() == width,
            forall|x: int| 0 <= x < n ==> (#[trigger] need@[x])@.len() <= width,
            forall|x: int| 0 <= x < width ==> #[trigger] pool@[x] == clamp(work(available@, rows(allocation@), finish@, x)),
            order.no_duplicates(),
            forall|k: int| 0 <= k < order.len() ==> 0 <= #[trigger] order[k] < n,
            forall|x: int| 0 <= x < n ==> (#[trigger] finish@[x] <==> order.contains(x)),
            forall|k: int|
                0 <= k < order.len() ==> can_finish(
                    rows(need@)[#[trigger] order[k]],
                    available@,
                    rows(allocation@),
                    prefix_set(order, k, n as int),
                ),
            forall|x: int|
                0 <= x < n && !#[trigger] finish@[x] ==> !(forall|j: int|
                    0 <= j < need@[x]@.len() && need@[x]@[j] > 0 ==> need@[x]@[j] <= #[trigger] pool@[j]),
            forall|x: int| 0 <= x < i ==> #[trigger] finish@[x],
        decreases n - i,
    {
        if !finish[i] {
            proof {
                assert forall|x: int|
                    0 <= x < n && !#[trigger] finish@[x] implies !can_finish(
                        rows(need@)[x],
                        available@,
                        rows(allocation@),
                        finish@,
                    ) by {
                    if can_finish(rows(need@)[x], available@, rows(allocation@), finish@) {
                        assert(forall|j: int|
                            0 <= j < need@[x]@.len() && need@[x]@[j] > 0 ==> need@[x]@[j] <= #[trigger] pool@[j]);
                    }
                }
                if exists|o: Seq<int>| #[trigger] is_safe_order(available@, rows(allocation@), rows(need@), o) {
                    let o = choose|o: Seq<int>| #[trigger] is_safe_order(available@, rows(allocation@), rows(need@), o);
                    lemma_stuck(available@, rows(allocation@), rows(need@), finish@, o, 0);
                    assert(false);
                }
            }
            return true;
        }
        i = i + 1;
    }
    proof {
        assert forall|x: int| 0 <= x < need@.len() implies #[trigger] order.contains(x) by {
            assert(finish@[x]);
        }
        assert(is_safe_order(available@, rows(allocation@), rows(need@), order));
    }
    false
}

} // verus!
