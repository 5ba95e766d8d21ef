use vstd::prelude::*;

verus! {

// ---------------------------------------------------------------------------------------------
// The mathematical model: a banker's-algorithm state over `t` threads and `r` resource kinds.
//   available[j]      units of resource j that are free
//   allocation[i][j]  units of resource j that thread i holds
//   need[i][j]        units of resource j that thread i may still ask for
// A `Seq<bool>` of length `t` marks the threads that are taken to have finished.
// ---------------------------------------------------------------------------------------------

/// Sum of `allocation[i][j]` over the marked threads among the first `n`.
pub open spec fn released(allocation: Seq<Seq<i32>>, finished: Seq<bool>, j: int, n: int) -> int
    decreases n,
{
    if n <= 0 {
        0
    } else {
        released(allocation, finished, j, n - 1) + (if finished[n - 1] {
            allocation[n - 1][j] as int
        } else {
            0
        })
    }
}

/// The resources at hand once every marked thread has finished and given back what it holds.
pub open spec fn work_of(available: Seq<i32>, allocation: Seq<Seq<i32>>, finished: Seq<bool>) -> Seq<
    int,
> {
    Seq::new(
        available.len(),
        |j: int| available[j] + released(allocation, finished, j, finished.len() as int),
    )
}

/// Every component of `need_row` is at most the matching component of `work`.
pub open spec fn covers(need_row: Seq<i32>, work: Seq<int>) -> bool {
    forall|j: int| 0 <= j < work.len() ==> need_row[j] <= work[j]
}

/// Every thread is marked.
pub open spec fn all_finished(finished: Seq<bool>) -> bool {
    forall|i: int| 0 <= i < finished.len() ==> finished[i]
}

/// No thread is marked.
pub open spec fn none_finished(t: nat) -> Seq<bool> {
    Seq::new(t, |i: int| false)
}

/// Number of unmarked threads.
pub open spec fn unfinished_count(finished: Seq<bool>) -> nat
    decreases finished.len(),
{
    if finished.len() == 0 {
        0
    } else {
        unfinished_count(finished.drop_last()) + (if finished.last() {
            0nat
        } else {
            1nat
        })
    }
}

/// One sweep over the threads `i, i+1, ..`: each unmarked thread whose need is covered by the
/// resources at hand is marked at once (so that what it holds is at hand for later threads).
/// Gives the marks after the sweep and whether any thread was marked.
pub open spec fn sweep(
    available: Seq<i32>,
    allocation: Seq<Seq<i32>>,
    need: Seq<Seq<i32>>,
    finished: Seq<bool>,
    i: int,
) -> (Seq<bool>, bool)
    decreases finished.len() - i,
{
    if i < 0 || i >= finished.len() {
        (finished, false)
    } else if !finished[i] && covers(need[i], work_of(available, allocation, finished)) {
        let r = sweep(available, allocation, need, finished.update(i, true), i + 1);
        (r.0, true)
    } else {
        sweep(available, allocation, need, finished, i + 1)
    }
}

/// Sweeps repeated until a sweep marks no thread: the set of threads that can be seen to finish.
pub open spec fn settle(
    available: Seq<i32>,
    allocation: Seq<Seq<i32>>,
    need: Seq<Seq<i32>>,
    finished: Seq<bool>,
) -> Seq<bool>
    decreases unfinished_count(finished),
{
    let r = sweep(available, allocation, need, finished, 0);
    if r.1 {
        proof {
            lemma_sweep(available, allocation, need, finished, 0);
        }
        settle(available, allocation, need, r.0)
    } else {
        finished
    }
}

/// A state is safe when, starting from no finished thread, the sweeps let every thread finish.
pub open spec fn is_safe(available: Seq<i32>, allocation: Seq<Seq<i32>>, need: Seq<Seq<i32>>) -> bool {
    all_finished(settle(available, allocation, need, none_finished(allocation.len())))
}

/// `order` lets the threads finish one by one from the marks `finished`: each thread in it is
/// unmarked at its turn and its need is covered by what is at hand then, and once all of them
/// have finished every thread has.
pub open spec fn is_safe_order(
    available: Seq<i32>,
    allocation: Seq<Seq<i32>>,
    need: Seq<Seq<i32>>,
    finished: Seq<bool>,
    order: Seq<int>,
) -> bool
    decreases order.len(),
{
    if order.len() == 0 {
        all_finished(finished)
    } else {
        let i = order[0];
        &&& 0 <= i < finished.len()
        &&& !finished[i]
        &&& covers(need[i], work_of(available, allocation, finished))
        &&& is_safe_order(
            available,
            allocation,
            need,
            finished.update(i, true),
            order.drop_first(),
        )
    }
}

/// No thread holds a negative amount of any resource.
pub open spec fn allocation_nonnegative(allocation: Seq<Seq<i32>>, r: int) -> bool {
    forall|i: int, j: int| 0 <= i < allocation.len() && 0 <= j < r ==> allocation[i][j] >= 0
}

/// The matrices have one row per thread and one column per resource kind.
pub open spec fn shape_ok(available: Seq<i32>, allocation: Seq<Seq<i32>>, need: Seq<Seq<i32>>) -> bool {
    &&& need.len() == allocation.len()
    &&& forall|i: int|
        0 <= i < allocation.len() ==> (#[trigger] allocation[i]).len() == available.len()
            && need[i].len() == available.len()
}

// ---------------------------------------------------------------------------------------------
// Lemmas on the model
// ---------------------------------------------------------------------------------------------

proof fn lemma_unfinished_count_update(finished: Seq<bool>, i: int)
    requires
        0 <= i < finished.len(),
        !finished[i],
    ensures
        unfinished_count(finished.update(i, true)) + 1 == unfinished_count(finished),
    decreases finished.len(),
{
    let u = finished.update(i, true);
    if i < finished.len() - 1 {
        assert(u.drop_last() =~= finished.drop_last().update(i, true));
        lemma_unfinished_count_update(finished.drop_last(), i);
    } else {
        assert(u.drop_last() =~= finished.drop_last());
    }
}

proof fn lemma_unfinished_count_bound(finished: Seq<bool>)
    ensures
        unfinished_count(finished) <= finished.len(),
        unfinished_count(finished) == 0 <==> all_finished(finished),
    decreases finished.len(),
{
    if finished.len() > 0 {
        lemma_unfinished_count_bound(finished.drop_last());
        if all_finished(finished) {
            assert(all_finished(finished.drop_last()));
        }
        if unfinished_count(finished) == 0 {
            assert forall|i: int| 0 <= i < finished.len() implies finished[i] by {
                if i < finished.len() - 1 {
                    assert(finished[i] == finished.drop_last()[i]);
                }
            }
        }
    }
}

proof fn lemma_none_finished_count(t: nat)
    ensures
        unfinished_count(none_finished(t)) == t,
    decreases t,
{
    if t > 0 {
        assert(none_finished(t).drop_last() =~= none_finished((t - 1) as nat));
        lemma_none_finished_count((t - 1) as nat);
    }
}

/// What a sweep does to the marks: it only adds marks, and it reports progress exactly when it
/// added one.
pub proof fn lemma_sweep(
    available: Seq<i32>,
    allocation: Seq<Seq<i32>>,
    need: Seq<Seq<i32>>,
    finished: Seq<bool>,
    i: int,
)
    requires
        0 <= i,
    ensures
        ({
            let r = sweep(available, allocation, need, finished, i);
            &&& r.0.len() == finished.len()
            &&& forall|k: int| 0 <= k < finished.len() && finished[k] ==> r.0[k]
            &&& r.1 ==> unfinished_count(r.0) < unfinished_count(finished)
            &&& !r.1 ==> r.0 == finished
            &&& !r.1 ==> forall|k: int|
                i <= k < finished.len() ==> finished[k] || !covers(
                    need[k],
                    work_of(available, allocation, finished),
                )
        }),
    decreases finished.len() - i,
{
    if i < finished.len() {
        if !finished[i] && covers(need[i], work_of(available, allocation, finished)) {
            let u = finished.update(i, true);
            lemma_sweep(available, allocation, need, u, i + 1);
            lemma_unfinished_count_update(finished, i);
            let r = sweep(available, allocation, need, u, i + 1);
            if !r.1 {
                assert(r.0 == u);
            }
            assert forall|k: int| 0 <= k < finished.len() && finished[k] implies r.0[k] by {
                assert(u[k]);
            }
        } else {
            lemma_sweep(available, allocation, need, finished, i + 1);
        }
    }
}

/// Settling only adds marks, and where it stops no unmarked thread has its need covered.
pub proof fn lemma_settle(
    available: Seq<i32>,
    allocation: Seq<Seq<i32>>,
    need: Seq<Seq<i32>>,
    finished: Seq<bool>,
)
    ensures
        ({
            let s = settle(available, allocation, need, finished);
            &&& s.len() == finished.len()
            &&& forall|k: int| 0 <= k < finished.len() && finished[k] ==> s[k]
            &&& forall|k: int|
                0 <= k < s.len() ==> s[k] || !covers(need[k], work_of(available, allocation, s))
        }),
    decreases unfinished_count(finished),
{
    lemma_sweep(available, allocation, need, finished, 0);
    let r = sweep(available, allocation, need, finished, 0);
    if r.1 {
        lemma_settle(available, allocation, need, r.0);
    }
}

/// Marking one more thread adds its row to what is released.
proof fn lemma_released_update(
    allocation: Seq<Seq<i32>>,
    finished: Seq<bool>,
    i: int,
    j: int,
    n: int,
)
    requires
        0 <= i < finished.len(),
        0 <= n <= finished.len(),
        !finished[i],
    ensures
        released(allocation, finished.update(i, true), j, n) == released(allocation, finished, j, n)
            + (if i < n {
            allocation[i][j] as int
        } else {
            0
        }),
    decreases n,
{
    if n > 0 {
        lemma_released_update(allocation, finished, i, j, n - 1);
    }
}

/// Marking one more thread adds its row to the resources at hand.
pub proof fn lemma_work_of_update(
    available: Seq<i32>,
    allocation: Seq<Seq<i32>>,
    finished: Seq<bool>,
    i: int,
)
    requires
        0 <= i < finished.len(),
        !finished[i],
    ensures
        forall|j: int|
            0 <= j < available.len() ==> #[trigger] work_of(
                available,
                allocation,
                finished.update(i, true),
            )[j] == work_of(available, allocation, finished)[j] + allocation[i][j],
{
    assert forall|j: int| 0 <= j < available.len() implies #[trigger] work_of(
        available,
        allocation,
        finished.update(i, true),
    )[j] == work_of(available, allocation, finished)[j] + allocation[i][j] by {
        lemma_released_update(allocation, finished, i, j, finished.len() as int);
    }
}

proof fn lemma_released_none(allocation: Seq<Seq<i32>>, finished: Seq<bool>, j: int, n: int)
    requires
        forall|k: int| 0 <= k < finished.len() ==> !finished[k],
        n <= finished.len(),
    ensures
        released(allocation, finished, j, n) == 0,
    decreases n,
{
    if n > 0 {
        lemma_released_none(allocation, finished, j, n - 1);
    }
}

/// With nothing finished, the resources at hand are the available ones.
pub proof fn lemma_work_of_none(available: Seq<i32>, allocation: Seq<Seq<i32>>, t: nat)
    ensures
        forall|j: int|
            0 <= j < available.len() ==> #[trigger] work_of(available, allocation, none_finished(t))[j]
                == available[j] as int,
{
    assert forall|j: int| 0 <= j < available.len() implies #[trigger] work_of(
        available,
        allocation,
        none_finished(t),
    )[j] == available[j] as int by {
        lemma_released_none(allocation, none_finished(t), j, t as int);
    }
}

proof fn lemma_released_bound(allocation: Seq<Seq<i32>>, finished: Seq<bool>, j: int, n: int)
    requires
        0 <= n <= finished.len(),
    ensures
        -0x8000_0000 * n <= released(allocation, finished, j, n) <= 0x8000_0000 * n,
    decreases n,
{
    if n > 0 {
        lemma_released_bound(allocation, finished, j, n - 1);
    }
}

/// The resources at hand stay within the range that `i128` holds.
pub proof fn lemma_work_of_bound(
    available: Seq<i32>,
    allocation: Seq<Seq<i32>>,
    finished: Seq<bool>,
    j: int,
)
    requires
        0 <= j < available.len(),
        finished.len() <= usize::MAX,
    ensures
        -0x1_0000_0000_0000_0000_0000_0000 <= work_of(available, allocation, finished)[j]
            <= 0x1_0000_0000_0000_0000_0000_0000,
{
    lemma_released_bound(allocation, finished, j, finished.len() as int);
}

proof fn lemma_released_monotone(
    allocation: Seq<Seq<i32>>,
    small: Seq<bool>,
    big: Seq<bool>,
    j: int,
    n: int,
)
    requires
        small.len() == big.len(),
        0 <= n <= small.len(),
        forall|k: int| 0 <= k < small.len() && small[k] ==> big[k],
        forall|k: int| 0 <= k < allocation.len() ==> allocation[k][j] >= 0,
        allocation.len() == small.len(),
    ensures
        released(allocation, small, j, n) <= released(allocation, big, j, n),
    decreases n,
{
    if n > 0 {
        lemma_released_monotone(allocation, small, big, j, n - 1);
    }
}

/// With no negative holdings, marking more threads never shrinks the resources at hand.
proof fn lemma_work_of_monotone(
    available: Seq<i32>,
    allocation: Seq<Seq<i32>>,
    small: Seq<bool>,
    big: Seq<bool>,
)
    requires
        small.len() == big.len(),
        allocation.len() == small.len(),
        forall|k: int| 0 <= k < small.len() && small[k] ==> big[k],
        allocation_nonnegative(allocation, available.len() as int),
    ensures
        forall|j: int|
            0 <= j < available.len() ==> work_of(available, allocation, small)[j] <= #[trigger] work_of(
                available,
                allocation,
                big,
            )[j],
{
    assert forall|j: int| 0 <= j < available.len() implies work_of(
        available,
        allocation,
        small,
    )[j] <= #[trigger] work_of(available, allocation, big)[j] by {
        lemma_released_monotone(allocation, small, big, j, small.len() as int);
    }
}

/// Where the sweeps stop at `stuck`, any order that lets the threads finish from marks below
/// `stuck` shows that `stuck` marks every thread.
proof fn lemma_order_reaches_stuck(
    available: Seq<i32>,
    allocation: Seq<Seq<i32>>,
    need: Seq<Seq<i32>>,
    finished: Seq<bool>,
    stuck: Seq<bool>,
    order: Seq<int>,
)
    requires
        finished.len() == stuck.len(),
        allocation.len() == stuck.len(),
        forall|k: int| 0 <= k < finished.len() && finished[k] ==> stuck[k],
        forall|k: int|
            0 <= k < stuck.len() ==> stuck[k] || !covers(
                need[k],
                work_of(available, allocation, stuck),
            ),
        allocation_nonnegative(allocation, available.len() as int),
        is_safe_order(available, allocation, need, finished, order),
    ensures
        all_finished(stuck),
    decreases order.len(),
{
    if order.len() > 0 {
        let i = order[0];
        if !stuck[i] {
            lemma_work_of_monotone(available, allocation, finished, stuck);
            assert(covers(need[i], work_of(available, allocation, stuck)));
        } else {
            lemma_order_reaches_stuck(
                available,
                allocation,
                need,
                finished.update(i, true),
                stuck,
                order.drop_first(),
            );
        }
    }
}

/// The marks that one sweep adds can be put in an order that keeps any safe order after them safe.
proof fn lemma_sweep_order(
    available: Seq<i32>,
    allocation: Seq<Seq<i32>>,
    need: Seq<Seq<i32>>,
    finished: Seq<bool>,
    i: int,
    rest: Seq<int>,
) -> (prefix: Seq<int>)
    requires
        0 <= i,
        is_safe_order(
            available,
            allocation,
            need,
            sweep(available, allocation, need, finished, i).0,
            rest,
        ),
    ensures
        is_safe_order(available, allocation, need, finished, prefix + rest),
    decreases finished.len() - i,
{
    if i >= finished.len() {
        assert(Seq::<int>::empty() + rest =~= rest);
        Seq::empty()
    } else if !finished[i] && covers(need[i], work_of(available, allocation, finished)) {
        let u = finished.update(i, true);
        let p = lemma_sweep_order(available, allocation, need, u, i + 1, rest);
        let q = seq![i].add(p);
        assert((q + rest).drop_first() =~= p + rest);
        q
    } else {
        lemma_sweep_order(available, allocation, need, finished, i + 1, rest)
    }
}

/// Where the sweeps end with every thread marked, the order in which they marked them is safe.
proof fn lemma_settle_order(
    available: Seq<i32>,
    allocation: Seq<Seq<i32>>,
    need: Seq<Seq<i32>>,
    finished: Seq<bool>,
) -> (order: Seq<int>)
    requires
        all_finished(settle(available, allocation, need, finished)),
    ensures
        is_safe_order(available, allocation, need, finished, order),
    decreases unfinished_count(finished),
{
    let r = sweep(available, allocation, need, finished, 0);
    lemma_sweep(available, allocation, need, finished, 0);
    if r.1 {
        let rest = lemma_settle_order(available, allocation, need, r.0);
        let prefix = lemma_sweep_order(available, allocation, need, finished, 0, rest);
        prefix + rest
    } else {
        assert(settle(available, allocation, need, finished) == finished);
        let o = Seq::<int>::empty();
        assert(is_safe_order(available, allocation, need, finished, o));
        o
    }
}

/// A state that the sweeps find safe has an order in which every thread can finish.
pub proof fn law_safe_has_safe_order(
    available: Seq<i32>,
    allocation: Seq<Seq<i32>>,
    need: Seq<Seq<i32>>,
)
    requires
        is_safe(available, allocation, need),
    ensures
        exists|order: Seq<int>|
            is_safe_order(
                available,
                allocation,
                need,
                none_finished(allocation.len()),
                order,
            ),
{
    let o = lemma_settle_order(available, allocation, need, none_finished(allocation.len()));
}

/// Where no thread holds a negative amount, a state is safe exactly when some order lets every
/// thread finish: the order in which the sweeps visit the threads does not matter.
pub proof fn law_safe_iff_safe_order(
    available: Seq<i32>,
    allocation: Seq<Seq<i32>>,
    need: Seq<Seq<i32>>,
)
    requires
        allocation_nonnegative(allocation, available.len() as int),
    ensures
        is_safe(available, allocation, need) <==> exists|order: Seq<int>|
            is_safe_order(
                available,
                allocation,
                need,
                none_finished(allocation.len()),
                order,
            ),
{
    let start = none_finished(allocation.len());
    if is_safe(available, allocation, need) {
        law_safe_has_safe_order(available, allocation, need);
    }
    if exists|order: Seq<int>| is_safe_order(available, allocation, need, start, order) {
        let order = choose|order: Seq<int>| is_safe_order(available, allocation, need, start, order);
        lemma_settle(available, allocation, need, start);
        lemma_order_reaches_stuck(
            available,
            allocation,
            need,
            start,
            settle(available, allocation, need, start),
            order,
        );
    }
}

// ---------------------------------------------------------------------------------------------
// Granting and giving back a request
// ---------------------------------------------------------------------------------------------

/// `row` with `req[j]` added to each of its first `k` components.
pub open spec fn add_prefix(row: Seq<i32>, req: Seq<i32>, k: int) -> Seq<i32> {
    Seq::new(row.len(), |j: int| if j < k { (row[j] + req[j]) as i32 } else { row[j] })
}

/// `row` with `req[j]` taken from each of its first `k` components.
pub open spec fn sub_prefix(row: Seq<i32>, req: Seq<i32>, k: int) -> Seq<i32> {
    Seq::new(row.len(), |j: int| if j < k { (row[j] - req[j]) as i32 } else { row[j] })
}

/// `m` with row `tid` replaced by `row`, or `m` itself where there is no row `tid`.
pub open spec fn replace_row(m: Seq<Seq<i32>>, tid: int, row: Seq<i32>) -> Seq<Seq<i32>> {
    if 0 <= tid < m.len() {
        m.update(tid, row)
    } else {
        m
    }
}

/// Each requested amount is at most what is available of that resource.
pub open spec fn request_fits(available: Seq<i32>, req: Seq<i32>) -> bool {
    forall|j: int| 0 <= j < req.len() ==> j < available.len() && req[j] <= available[j]
}

/// The detector's view: available vector, allocation matrix and need matrix.
pub type BankerView = (Seq<i32>, Seq<Seq<i32>>, Seq<Seq<i32>>);

/// The state after thread `tid` is given `req`: it leaves the available vector, joins the
/// thread's allocation and leaves the thread's need.
pub open spec fn granted(v: BankerView, tid: int, req: Seq<i32>) -> BankerView {
    let k = req.len() as int;
    (
        sub_prefix(v.0, req, k),
        replace_row(v.1, tid, add_prefix(v.1[tid], req, k)),
        replace_row(v.2, tid, sub_prefix(v.2[tid], req, k)),
    )
}

/// The state after thread `tid` gives `req` back: it rejoins the available vector and leaves
/// the thread's allocation; the need is left as it is.
pub open spec fn released_back(v: BankerView, tid: int, req: Seq<i32>) -> BankerView {
    let k = req.len() as int;
    (add_prefix(v.0, req, k), replace_row(v.1, tid, sub_prefix(v.1[tid], req, k)), v.2)
}

/// The amounts that granting `req` to `tid` computes all fit in `i32`.
pub open spec fn grant_in_range(v: BankerView, tid: int, req: Seq<i32>) -> bool {
    forall|j: int|
        0 <= j < req.len() ==> i32::MIN <= v.0[j] - #[trigger] req[j] <= i32::MAX && i32::MIN
            <= v.1[tid][j] + req[j] <= i32::MAX && i32::MIN <= v.2[tid][j] - req[j] <= i32::MAX
}

/// The amounts that giving `req` back from `tid` computes all fit in `i32`.
pub open spec fn release_in_range(v: BankerView, tid: int, req: Seq<i32>) -> bool {
    forall|j: int|
        0 <= j < req.len() ==> i32::MIN <= v.0[j] + #[trigger] req[j] <= i32::MAX && i32::MIN
            <= v.1[tid][j] - req[j] <= i32::MAX
}

/// The inputs on which a safety query runs to its end: for a thread that exists, the request
/// names no resource the detector does not know unless an earlier amount is already refused,
/// and the granted amounts fit in `i32`.
pub open spec fn safety_query_ok(v: BankerView, tid: int, req: Seq<i32>) -> bool {
    &&& shape_ok(v.0, v.1, v.2)
    &&& tid < v.1.len() ==> {
        &&& req.len() <= v.0.len() || exists|j: int| 0 <= j < v.0.len() && req[j] > v.0[j]
        &&& request_fits(v.0, req) ==> grant_in_range(v, tid, req)
    }
}

/// The inputs on which giving resources back runs to its end.
pub open spec fn release_ok(v: BankerView, tid: int, req: Seq<i32>) -> bool {
    &&& shape_ok(v.0, v.1, v.2)
    &&& req.len() > 0 ==> {
        &&& 0 <= tid < v.1.len()
        &&& req.len() <= v.0.len()
        &&& release_in_range(v, tid, req)
    }
}

/// Sum of column `j` over the first `n` rows of `m`.
pub open spec fn column_sum(m: Seq<Seq<i32>>, j: int, n: int) -> int
    decreases n,
{
    if n <= 0 {
        0
    } else {
        column_sum(m, j, n - 1) + m[n - 1][j]
    }
}

/// The units of resource `j` in a state: those that are free and those that threads hold.
pub open spec fn total_units(v: BankerView, j: int) -> int {
    v.0[j] + column_sum(v.1, j, v.1.len() as int)
}

proof fn lemma_column_sum_agree(a: Seq<Seq<i32>>, b: Seq<Seq<i32>>, j: int, n: int)
    requires
        0 <= n <= a.len(),
        n <= b.len(),
        forall|i: int| 0 <= i < n ==> a[i][j] == b[i][j],
    ensures
        column_sum(a, j, n) == column_sum(b, j, n),
    decreases n,
{
    if n > 0 {
        lemma_column_sum_agree(a, b, j, n - 1);
    }
}

proof fn lemma_column_sum_update(m: Seq<Seq<i32>>, j: int, n: int, tid: int, row: Seq<i32>)
    requires
        0 <= tid < n <= m.len(),
    ensures
        column_sum(m.update(tid, row), j, n) == column_sum(m, j, n) - m[tid][j] + row[j],
    decreases n,
{
    if n - 1 > tid {
        lemma_column_sum_update(m, j, n - 1, tid, row);
    } else {
        lemma_column_sum_agree(m.update(tid, row), m, j, n - 1);
    }
}

/// Granting a request moves units from the available vector to the thread's allocation: the
/// state keeps its shape, and for every resource the free and held units together stay as many.
pub proof fn law_grant_conserves_units(v: BankerView, tid: int, req: Seq<i32>)
    requires
        shape_ok(v.0, v.1, v.2),
        0 <= tid,
        req.len() <= v.0.len(),
        req.len() > 0 ==> tid < v.1.len(),
        grant_in_range(v, tid, req),
    ensures
        granted(v, tid, req).0.len() == v.0.len(),
        granted(v, tid, req).1.len() == v.1.len(),
        granted(v, tid, req).2.len() == v.2.len(),
        shape_ok(granted(v, tid, req).0, granted(v, tid, req).1, granted(v, tid, req).2),
        forall|j: int| 0 <= j < v.0.len() ==> #[trigger] total_units(granted(v, tid, req), j) == total_units(v, j),
{
    let g = granted(v, tid, req);
    let k = req.len() as int;
    if tid < v.1.len() {
        assert(v.1[tid].len() == v.0.len());
        assert forall|j: int| 0 <= j < v.0.len() implies #[trigger] total_units(g, j) == total_units(v, j) by {
            lemma_column_sum_update(v.1, j, v.1.len() as int, tid, add_prefix(v.1[tid], req, k));
            if j < k {
                assert(i32::MIN <= v.0[j] - req[j] <= i32::MAX);
                assert(i32::MIN <= v.1[tid][j] + req[j] <= i32::MAX);
            }
        }
    } else {
        assert(k == 0);
        assert(g.0 =~= v.0);
        assert(g.1 == v.1);
    }
}

/// Giving back what was just granted restores the available vector and the allocation matrix;
/// the need stays lowered by the grant.
pub proof fn law_release_undoes_grant(v: BankerView, tid: int, req: Seq<i32>)
    requires
        shape_ok(v.0, v.1, v.2),
        0 <= tid < v.1.len(),
        req.len() <= v.0.len(),
        grant_in_range(v, tid, req),
    ensures
        released_back(granted(v, tid, req), tid, req).0 == v.0,
        released_back(granted(v, tid, req), tid, req).1 == v.1,
        released_back(granted(v, tid, req), tid, req).2 == granted(v, tid, req).2,
{
    let k = req.len() as int;
    let g = granted(v, tid, req);
    let b = released_back(g, tid, req);
    assert(v.1[tid].len() == v.0.len());
    assert forall|j: int| 0 <= j < v.0.len() implies #[trigger] b.0[j] == v.0[j] by {
        if j < k {
            assert(i32::MIN <= v.0[j] - req[j] <= i32::MAX);
        }
    }
    assert(b.0 =~= v.0);
    assert(g.1[tid] == add_prefix(v.1[tid], req, k));
    assert(b.1[tid] =~= v.1[tid]) by {
        assert forall|j: int| 0 <= j < v.1[tid].len() implies #[trigger] b.1[tid][j] == v.1[tid][j] by {
            if j < k {
                assert(i32::MIN <= v.1[tid][j] + req[j] <= i32::MAX);
            }
        }
    }
    assert(b.1 =~= v.1);
}

/// The rows of a matrix, each by its view.
pub open spec fn rows(m: &Vec<Vec<i32>>) -> Seq<Seq<i32>> {
    Seq::new(m.len() as nat, |i: int| m[i]@)
}

/// The state of the banker's algorithm for one kind of lock.
pub struct DeadlockDetectorInner {
    /// `available[j]`: how many units of resource `j` are free.
    pub available: Vec<i32>,
    /// `allocation[i][j]`: how many units of resource `j` thread `i` holds.
    pub allocation: Vec<Vec<i32>>,
    /// `need[i][j]`: how many units of resource `j` thread `i` may still ask for.
    pub need: Vec<Vec<i32>>,
}

impl View for DeadlockDetectorInner {
    type V = BankerView;

    open spec fn view(&self) -> BankerView {
        (self.available@, rows(&self.allocation), rows(&self.need))
    }
}

impl DeadlockDetectorInner {
    /// A detector that knows no thread and no resource.
    pub fn new() -> (r: Self)
        ensures
            r@.0 == Seq::<i32>::empty(),
            r@.1 == Seq::<Seq<i32>>::empty(),
            r@.2 == Seq::<Seq<i32>>::empty(),
    {
        let r = DeadlockDetectorInner { available: Vec::new(), allocation: Vec::new(), need: Vec::new() };
        assert(rows(&r.allocation) =~= Seq::<Seq<i32>>::empty());
        assert(rows(&r.need) =~= Seq::<Seq<i32>>::empty());
        r
    }

    /// Whether every requested amount is at most what is available.
    fn request_within_available(&self, request: &Vec<i32>) -> (r: bool)
        requires
            request@.len() <= self.available@.len() || exists|j: int|
                0 <= j < self.available@.len() && request@[j] > self.available@[j],
        ensures
            r == request_fits(self.available@, request@),
    {
        let mut j: usize = 0;
        while j < request.len()
            invariant
                0 <= j <= request.len(),
                request@.len() <= self.available@.len() || exists|k: int|
                    0 <= k < self.available@.len() && request@[k] > self.available@[k],
                forall|k: int| 0 <= k < j ==> k < self.available@.len() && request@[k] <= self.available@[k],
            decreases request.len() - j,
        {
            if j >= self.available.len() {
                assert(false);
            }
            if request[j] > self.available[j] {
                return false;
            }
            j = j + 1;
        }
        true
    }

    /// Gives thread `tid` the amounts in `request`.
    fn grant_request(&mut self, tid: usize, request: &Vec<i32>)
        requires
            shape_ok(old(self)@.0, old(self)@.1, old(self)@.2),
            request@.len() <= old(self)@.0.len(),
            request@.len() > 0 ==> tid < old(self)@.1.len(),
            grant_in_range(old(self)@, tid as int, request@),
        ensures
            final(self)@ == granted(old(self)@, tid as int, request@),
            shape_ok(final(self)@.0, final(self)@.1, final(self)@.2),
    {
        let ghost v = self@;
        proof {
            if (tid as int) < v.1.len() {
                assert(add_prefix(v.1[tid as int], request@, 0) =~= v.1[tid as int]);
                assert(sub_prefix(v.2[tid as int], request@, 0) =~= v.2[tid as int]);
                assert(v.1.update(tid as int, v.1[tid as int]) =~= v.1);
                assert(v.2.update(tid as int, v.2[tid as int]) =~= v.2);
            }
            assert(sub_prefix(v.0, request@, 0) =~= v.0);
        }
        let mut j: usize = 0;
        while j < request.len()
            invariant
                0 <= j <= request@.len(),
                request@.len() <= v.0.len(),
                request@.len() > 0 ==> tid < v.1.len(),
                shape_ok(v.0, v.1, v.2),
                grant_in_range(v, tid as int, request@),
                self.available@ == sub_prefix(v.0, request@, j as int),
                rows(&self.allocation) == replace_row(v.1, tid as int, add_prefix(v.1[tid as int], request@, j as int)),
                rows(&self.need) == replace_row(v.2, tid as int, sub_prefix(v.2[tid as int], request@, j as int)),
            decreases request.len() - j,
        {
            assert(request@.len() > 0);
            assert((tid as int) < v.1.len());
            assert(rows(&self.allocation).len() == v.1.len());
            assert(self.allocation@.len() == v.1.len());
            assert(rows(&self.allocation)[tid as int] == self.allocation@[tid as int]@);
            assert(rows(&self.need).len() == v.2.len());
            assert(self.need@.len() == v.2.len());
            assert(rows(&self.need)[tid as int] == self.need@[tid as int]@);
            let a = self.available[j];
            let r = request[j];
            self.available.set(j, a - r);
            let ghost ra = rows(&self.allocation);
            let ghost rn = rows(&self.need);
            let x = self.allocation[tid][j];
            self.allocation[tid].set(j, x + r);
            assert(rows(&self.allocation) =~= ra.update(tid as int, ra[tid as int].update(j as int, (x + r) as i32)));
            let y = self.need[tid][j];
            self.need[tid].set(j, y - r);
            assert(rows(&self.need) =~= rn.update(tid as int, rn[tid as int].update(j as int, (y - r) as i32)));
            assert(add_prefix(v.1[tid as int], request@, j + 1) =~= add_prefix(v.1[tid as int], request@, j as int).update(j as int, (x + r) as i32));
            assert(sub_prefix(v.2[tid as int], request@, j + 1) =~= sub_prefix(v.2[tid as int], request@, j as int).update(j as int, (y - r) as i32));
            j = j + 1;
            assert(self.available@ =~= sub_prefix(v.0, request@, j as int));
            assert(rows(&self.allocation) =~= replace_row(v.1, tid as int, add_prefix(v.1[tid as int], request@, j as int)));
            assert(rows(&self.need) =~= replace_row(v.2, tid as int, sub_prefix(v.2[tid as int], request@, j as int)));
        }
    }

    /// Takes back from thread `tid` what `grant_request` gave it.
    fn undo_grant(&mut self, tid: usize, request: &Vec<i32>, Ghost(orig): Ghost<BankerView>)
        requires
            shape_ok(orig.0, orig.1, orig.2),
            request@.len() <= orig.0.len(),
            request@.len() > 0 ==> tid < orig.1.len(),
            grant_in_range(orig, tid as int, request@),
            old(self)@ == granted(orig, tid as int, request@),
        ensures
            final(self)@ == orig,
    {
        let ghost v = self@;
        proof {
            if (tid as int) < v.1.len() {
                assert(v.1.update(tid as int, v.1[tid as int]) =~= v.1);
                assert(v.2.update(tid as int, v.2[tid as int]) =~= v.2);
            }
        }
        let mut j: usize = 0;
        while j < request.len()
            invariant
                0 <= j <= request@.len(),
                request@.len() <= orig.0.len(),
                request@.len() > 0 ==> tid < orig.1.len(),
                shape_ok(orig.0, orig.1, orig.2),
                grant_in_range(orig, tid as int, request@),
                v == granted(orig, tid as int, request@),
                self.available@.len() == orig.0.len(),
                forall|k: int| 0 <= k < j ==> self.available@[k] == orig.0[k],
                forall|k: int| j <= k < orig.0.len() ==> self.available@[k] == v.0[k],
                rows(&self.allocation).len() == orig.1.len(),
                rows(&self.need).len() == orig.2.len(),
                forall|i: int| 0 <= i < orig.1.len() && i != tid ==> rows(&self.allocation)[i] == orig.1[i] && rows(&self.need)[i] == orig.2[i],
                (tid as int) < orig.1.len() ==> {
                    &&& rows(&self.allocation)[tid as int].len() == orig.0.len()
                    &&& rows(&self.need)[tid as int].len() == orig.0.len()
                    &&& forall|k: int| 0 <= k < j ==> rows(&self.allocation)[tid as int][k] == orig.1[tid as int][k]
                        && rows(&self.need)[tid as int][k] == orig.2[tid as int][k]
                    &&& forall|k: int| j <= k < orig.0.len() ==> rows(&self.allocation)[tid as int][k] == v.1[tid as int][k]
                        && rows(&self.need)[tid as int][k] == v.2[tid as int][k]
                },
            decreases request.len() - j,
        {
            assert(rows(&self.allocation)[tid as int] == self.allocation@[tid as int]@);
            assert(rows(&self.need)[tid as int] == self.need@[tid as int]@);
            let a = self.available[j];
            let r = request[j];
            assert(i32::MIN <= orig.0[j as int] - request@[j as int] <= i32::MAX);
            assert(v.0 == sub_prefix(orig.0, request@, request@.len() as int));
            assert(self.available@[j as int] == v.0[j as int]);
            assert(v.0[j as int] == (orig.0[j as int] - request@[j as int]) as i32);
            assert(a == orig.0[j as int] - request@[j as int]);
            proof {
                assert(v.1[tid as int] == add_prefix(orig.1[tid as int], request@, request@.len() as int));
                assert(v.2[tid as int] == sub_prefix(orig.2[tid as int], request@, request@.len() as int));
            }
            assert(i32::MIN <= orig.1[tid as int][j as int] + request@[j as int] <= i32::MAX);
            assert(i32::MIN <= orig.2[tid as int][j as int] - request@[j as int] <= i32::MAX);
            self.available.set(j, a + r);
            let ghost ra = rows(&self.allocation);
            let ghost rn = rows(&self.need);
            let x = self.allocation[tid][j];
            assert(x == ra[tid as int][j as int]);
            assert(x == v.1[tid as int][j as int]);
            assert(x == orig.1[tid as int][j as int] + request@[j as int]);
            self.allocation[tid].set(j, x - r);
            assert(rows(&self.allocation) =~= ra.update(tid as int, ra[tid as int].update(j as int, (x - r) as i32)));
            let y = self.need[tid][j];
            assert(y == rn[tid as int][j as int]);
            assert(y == v.2[tid as int][j as int]);
            assert(y == orig.2[tid as int][j as int] - request@[j as int]);
            self.need[tid].set(j, y + r);
            assert(rows(&self.need) =~= rn.update(tid as int, rn[tid as int].update(j as int, (y + r) as i32)));
            j = j + 1;
        }
        proof {
            assert(v.0 == sub_prefix(orig.0, request@, request@.len() as int));
            assert forall|k: int| 0 <= k < orig.0.len() implies self.available@[k] == orig.0[k] by {
                if k >= j {
                    assert(self.available@[k] == v.0[k]);
                }
            }
            assert(self.available@ =~= orig.0);
            if (tid as int) < orig.1.len() {
                assert(v.1[tid as int] == add_prefix(orig.1[tid as int], request@, request@.len() as int));
                assert(v.2[tid as int] == sub_prefix(orig.2[tid as int], request@, request@.len() as int));
                assert forall|k: int| 0 <= k < orig.0.len() implies rows(&self.allocation)[tid as int][k] == orig.1[tid as int][k]
                    && rows(&self.need)[tid as int][k] == orig.2[tid as int][k] by {
                    if k >= j {
                        assert(rows(&self.allocation)[tid as int][k] == v.1[tid as int][k]);
                        assert(rows(&self.need)[tid as int][k] == v.2[tid as int][k]);
                    }
                }
                assert(rows(&self.allocation)[tid as int] =~= orig.1[tid as int]);
                assert(rows(&self.need)[tid as int] =~= orig.2[tid as int]);
            }
            assert(rows(&self.allocation) =~= orig.1);
            assert(rows(&self.need) =~= orig.2);
        }
    }

    /// Runs the sweeps of the banker's algorithm on the current state: whether every thread can
    /// finish.
    fn all_threads_can_finish(&self) -> (r: bool)
        requires
            shape_ok(self@.0, self@.1, self@.2),
        ensures
            r == is_safe(self@.0, self@.1, self@.2),
    {
        let ghost av = self@.0;
        let ghost al = self@.1;
        let ghost nd = self@.2;
        let t_num = self.allocation.len();
        let r_num = self.available.len();
        let mut work: Vec<i128> = Vec::new();
        let mut j: usize = 0;
        while j < r_num
            invariant
                j <= r_num,
                r_num == av.len(),
                av == self.available@,
                work@.len() == j,
                forall|k: int| 0 <= k < j ==> work@[k] as int == av[k] as int,
            decreases r_num - j,
        {
            work.push(self.available[j] as i128);
            j = j + 1;
        }
        let mut finish: Vec<bool> = Vec::new();
        let mut i: usize = 0;
        while i < t_num
            invariant
                i <= t_num,
                finish@ == none_finished(i as nat),
            decreases t_num - i,
        {
            finish.push(false);
            i = i + 1;
            assert(finish@ =~= none_finished(i as nat));
        }
        proof {
            lemma_work_of_none(av, al, t_num as nat);
        }
        loop
            invariant
                shape_ok(av, al, nd),
                av == self.available@,
                al == rows(&self.allocation),
                nd == rows(&self.need),
                t_num == al.len(),
                r_num == av.len(),
                work@.len() == r_num,
                finish@.len() == t_num,
                forall|k: int| 0 <= k < r_num ==> work@[k] as int == #[trigger] work_of(av, al, finish@)[k],
                settle(av, al, nd, finish@) == settle(av, al, nd, none_finished(t_num as nat)),
            ensures
                finish@ == settle(av, al, nd, none_finished(t_num as nat)),
            decreases unfinished_count(finish@),
        {
            let ghost f0 = finish@;
            let mut found = false;
            let mut i: usize = 0;
            while i < t_num
                invariant
                    shape_ok(av, al, nd),
                    av == self.available@,
                    al == rows(&self.allocation),
                    nd == rows(&self.need),
                    t_num == al.len(),
                    r_num == av.len(),
                    work@.len() == r_num,
                    finish@.len() == t_num,
                    i <= t_num,
                    forall|k: int| 0 <= k < r_num ==> work@[k] as int == #[trigger] work_of(av, al, finish@)[k],
                    ({
                        let p = sweep(av, al, nd, finish@, i as int);
                        let q = sweep(av, al, nd, f0, 0);
                        q.0 == p.0 && q.1 == (found || p.1)
                    }),
                decreases t_num - i,
            {
                if !finish[i] {
                    let ghost w = work_of(av, al, finish@);
                    assert(self.need@.len() == t_num);
                    assert(self.allocation@.len() == t_num);
                    assert(nd[i as int] == self.need@[i as int]@);
                    assert(al[i as int] == self.allocation@[i as int]@);
                    let mut can = true;
                    let mut j: usize = 0;
                    while j < r_num && can
                        invariant
                            j <= r_num,
                            r_num == av.len(),
                            w.len() == r_num,
                            i < t_num,
                            self.need@.len() == t_num,
                            nd[i as int] == self.need@[i as int]@,
                            nd[i as int].len() == r_num,
                            work@.len() == r_num,
                            forall|k: int| 0 <= k < r_num ==> work@[k] as int == w[k],
                            can ==> forall|k: int| 0 <= k < j ==> nd[i as int][k] <= w[k],
                            !can ==> !covers(nd[i as int], w),
                        decreases r_num - j + (if can { 1int } else { 0int }),
                    {
                        if (self.need[i][j] as i128) > work[j] {
                            can = false;
                        } else {
                            j = j + 1;
                        }
                    }
                    assert(can == covers(nd[i as int], w));
                    if can {
                        found = true;
                        let ghost fprev = finish@;
                        proof {
                            lemma_work_of_update(av, al, fprev, i as int);
                        }
                        finish.set(i, true);
                        let mut k: usize = 0;
                        while k < r_num
                            invariant
                                k <= r_num,
                                r_num == av.len(),
                                work@.len() == r_num,
                                i < t_num,
                                self.allocation@.len() == t_num,
                                al[i as int] == self.allocation@[i as int]@,
                                al[i as int].len() == r_num,
                                finish@ == fprev.update(i as int, true),
                                fprev.len() == t_num,
                                t_num == al.len(),
                                forall|m: int| 0 <= m < r_num ==> #[trigger] work_of(av, al, finish@)[m]
                                    == work_of(av, al, fprev)[m] + al[i as int][m],
                                forall|m: int| 0 <= m < k ==> work@[m] as int == work_of(av, al, finish@)[m],
                                forall|m: int| k <= m < r_num ==> work@[m] as int == work_of(av, al, fprev)[m],
                            decreases r_num - k,
                        {
                            proof {
                                lemma_work_of_bound(av, al, finish@, k as int);
                            }
                            let add = self.allocation[i][k] as i128;
                            let cur = work[k];
                            work.set(k, cur + add);
                            k = k + 1;
                        }
                    }
                }
                i = i + 1;
            }
            proof {
                lemma_sweep(av, al, nd, f0, 0);
            }
            if !found {
                break;
            }
        }
        let mut i: usize = 0;
        while i < t_num
            invariant
                i <= t_num,
                finish@.len() == t_num,
                forall|k: int| 0 <= k < i ==> finish@[k],
                t_num == al.len(),
                av == self.available@,
                al == rows(&self.allocation),
                nd == rows(&self.need),
                finish@ == settle(av, al, nd, none_finished(t_num as nat)),
            decreases t_num - i,
        {
            if !finish[i] {
                assert(!finish@[i as int]);
                return false;
            }
            i = i + 1;
        }
        true
    }
}

/// The state with one more resource kind, of which `count` units are free and no thread holds
/// or needs any.
pub open spec fn with_new_resource(v: BankerView, count: i32) -> BankerView {
    (
        v.0.push(count),
        Seq::new(v.1.len(), |i: int| v.1[i].push(0i32)),
        Seq::new(v.2.len(), |i: int| v.2[i].push(0i32)),
    )
}

/// The state where resource `id` has `count` free units and no thread holds or needs any.
pub open spec fn with_reset_resource(v: BankerView, id: int, count: i32) -> BankerView {
    (
        v.0.update(id, count),
        Seq::new(v.1.len(), |i: int| v.1[i].update(id, 0i32)),
        Seq::new(v.2.len(), |i: int| v.2[i].update(id, 0i32)),
    )
}

/// The state with one more thread, which holds and needs nothing.
pub open spec fn with_new_thread(v: BankerView) -> BankerView {
    let zeros = Seq::new(v.0.len(), |j: int| 0i32);
    (v.0, v.1.push(zeros), v.2.push(zeros))
}

impl DeadlockDetectorInner {
    /// Adds a resource kind with `count` free units; it is the last column.
    pub fn add_resource(&mut self, count: i32)
        requires
            shape_ok(old(self)@.0, old(self)@.1, old(self)@.2),
        ensures
            final(self)@ == with_new_resource(old(self)@, count),
            shape_ok(final(self)@.0, final(self)@.1, final(self)@.2),
    {
        let ghost v = self@;
        self.available.push(count);
        let n = self.allocation.len();
        let mut i: usize = 0;
        while i < n
            invariant
                n == v.1.len(),
                shape_ok(v.0, v.1, v.2),
                self.available@ == v.0.push(count),
                0 <= i <= n,
                rows(&self.allocation).len() == n,
                rows(&self.need).len() == n,
                forall|k: int| 0 <= k < i ==> rows(&self.allocation)[k] == v.1[k].push(0i32) && rows(&self.need)[k] == v.2[k].push(0i32),
                forall|k: int| i <= k < n ==> rows(&self.allocation)[k] == v.1[k] && rows(&self.need)[k] == v.2[k],
            decreases n - i,
        {
            let ghost ra = rows(&self.allocation);
            let ghost rn = rows(&self.need);
            assert(ra[i as int] == self.allocation@[i as int]@);
            assert(rn[i as int] == self.need@[i as int]@);
            self.allocation[i].push(0);
            self.need[i].push(0);
            assert(rows(&self.allocation) =~= ra.update(i as int, ra[i as int].push(0i32)));
            assert(rows(&self.need) =~= rn.update(i as int, rn[i as int].push(0i32)));
            i = i + 1;
        }
        assert(rows(&self.allocation) =~= with_new_resource(v, count).1);
        assert(rows(&self.need) =~= with_new_resource(v, count).2);
    }

    /// Makes resource `id` have `count` free units, and no thread hold or need any of it.
    pub fn reset_resource(&mut self, id: usize, count: i32)
        requires
            shape_ok(old(self)@.0, old(self)@.1, old(self)@.2),
            id < old(self)@.0.len(),
        ensures
            final(self)@ == with_reset_resource(old(self)@, id as int, count),
            shape_ok(final(self)@.0, final(self)@.1, final(self)@.2),
    {
        let ghost v = self@;
        self.available.set(id, count);
        let n = self.allocation.len();
        let mut i: usize = 0;
        while i < n
            invariant
                n == v.1.len(),
                id < v.0.len(),
                shape_ok(v.0, v.1, v.2),
                self.available@ == v.0.update(id as int, count),
                0 <= i <= n,
                rows(&self.allocation).len() == n,
                rows(&self.need).len() == n,
                forall|k: int| 0 <= k < i ==> rows(&self.allocation)[k] == v.1[k].update(id as int, 0i32) && rows(&self.need)[k] == v.2[k].update(id as int, 0i32),
                forall|k: int| i <= k < n ==> rows(&self.allocation)[k] == v.1[k] && rows(&self.need)[k] == v.2[k],
            decreases n - i,
        {
            let ghost ra = rows(&self.allocation);
            let ghost rn = rows(&self.need);
            assert(ra[i as int] == self.allocation@[i as int]@);
            assert(rn[i as int] == self.need@[i as int]@);
            assert(ra[i as int] == v.1[i as int]);
            assert(v.1[i as int].len() == v.0.len());
            assert(rn[i as int] == v.2[i as int]);
            assert(v.2[i as int].len() == v.0.len());
            self.allocation[i].set(id, 0);
            self.need[i].set(id, 0);
            assert(rows(&self.allocation) =~= ra.update(i as int, ra[i as int].update(id as int, 0i32)));
            assert(rows(&self.need) =~= rn.update(i as int, rn[i as int].update(id as int, 0i32)));
            i = i + 1;
        }
        assert(rows(&self.allocation) =~= with_reset_resource(v, id as int, count).1);
        assert(rows(&self.need) =~= with_reset_resource(v, id as int, count).2);
    }

    /// Adds a thread that holds and needs nothing; it is the last row.
    pub fn add_thread(&mut self)
        requires
            shape_ok(old(self)@.0, old(self)@.1, old(self)@.2),
        ensures
            final(self)@ == with_new_thread(old(self)@),
            shape_ok(final(self)@.0, final(self)@.1, final(self)@.2),
    {
        let ghost v = self@;
        let r = self.available.len();
        let mut a: Vec<i32> = Vec::new();
        let mut b: Vec<i32> = Vec::new();
        let mut j: usize = 0;
        while j < r
            invariant
                0 <= j <= r,
                a@ == Seq::new(j as nat, |k: int| 0i32),
                b@ == Seq::new(j as nat, |k: int| 0i32),
            decreases r - j,
        {
            a.push(0);
            b.push(0);
            j = j + 1;
            assert(a@ =~= Seq::new(j as nat, |k: int| 0i32));
            assert(b@ =~= Seq::new(j as nat, |k: int| 0i32));
        }
        self.allocation.push(a);
        self.need.push(b);
        assert(rows(&self.allocation) =~= v.1.push(Seq::new(v.0.len(), |k: int| 0i32)));
        assert(rows(&self.need) =~= v.2.push(Seq::new(v.0.len(), |k: int| 0i32)));
    }
}

/// The state that granting `req` to `tid` leads to is safe.
pub open spec fn safe_after_grant(v: BankerView, tid: int, req: Seq<i32>) -> bool {
    let g = granted(v, tid, req);
    is_safe(g.0, g.1, g.2)
}

/// A deadlock detector for one kind of lock (mutexes or semaphores) of a process.
pub struct DeadlockDetector {
    /// The banker's-algorithm state.
    pub inner: DeadlockDetectorInner,
}

impl DeadlockDetector {
    /// A detector that knows no thread and no resource.
    pub fn new() -> (r: Self)
        ensures
            r.inner@.0 == Seq::<i32>::empty(),
            r.inner@.1 == Seq::<Seq<i32>>::empty(),
            r.inner@.2 == Seq::<Seq<i32>>::empty(),
    {
        DeadlockDetector { inner: DeadlockDetectorInner::new() }
    }

    /// Asks whether thread `tid` may be given the amounts in `request`. The answer is yes when
    /// `tid` names a thread, every amount is at most what is available, and the state after the
    /// grant is safe; then the grant is kept. Otherwise (a thread that does not exist among
    /// them) the answer is no and the state is as it was.
    pub fn is_safe_state(&mut self, tid: usize, request: Vec<i32>) -> (r: bool)
        requires
            safety_query_ok(old(self).inner@, tid as int, request@),
        ensures
            r == (tid < old(self).inner@.1.len() && request_fits(old(self).inner@.0, request@)
                && safe_after_grant(old(self).inner@, tid as int, request@)),
            r ==> final(self).inner@ == granted(old(self).inner@, tid as int, request@),
            r ==> is_safe(final(self).inner@.0, final(self).inner@.1, final(self).inner@.2),
            !r ==> final(self).inner@ == old(self).inner@,
            shape_ok(final(self).inner@.0, final(self).inner@.1, final(self).inner@.2),
            final(self).inner@.0.len() == old(self).inner@.0.len(),
            final(self).inner@.1.len() == old(self).inner@.1.len(),
            forall|j: int|
                0 <= j < old(self).inner@.0.len() ==> #[trigger] total_units(final(self).inner@, j)
                    == total_units(old(self).inner@, j),
    {
        let t_num = self.inner.allocation.len();
        if tid >= t_num {
            return false;
        }
        if !self.inner.request_within_available(&request) {
            return false;
        }
        let ghost orig = self.inner@;
        self.inner.grant_request(tid, &request);
        if self.inner.all_threads_can_finish() {
            proof {
                law_grant_conserves_units(orig, tid as int, request@);
            }
            true
        } else {
            self.inner.undo_grant(tid, &request, Ghost(orig));
            false
        }
    }

    /// Thread `tid` gives back the amounts in `request`: they rejoin the available vector and
    /// leave the thread's allocation; its need is left as it is.
    pub fn detector_unlock(&mut self, tid: usize, request: Vec<i32>)
        requires
            release_ok(old(self).inner@, tid as int, request@),
        ensures
            final(self).inner@ == released_back(old(self).inner@, tid as int, request@),
            shape_ok(final(self).inner@.0, final(self).inner@.1, final(self).inner@.2),
    {
        let ghost v = self.inner@;
        proof {
            if (tid as int) < v.1.len() {
                assert(sub_prefix(v.1[tid as int], request@, 0) =~= v.1[tid as int]);
                assert(v.1.update(tid as int, v.1[tid as int]) =~= v.1);
            }
            assert(add_prefix(v.0, request@, 0) =~= v.0);
        }
        let mut j: usize = 0;
        while j < request.len()
            invariant
                0 <= j <= request@.len(),
                request@.len() > 0 ==> tid < v.1.len() && request@.len() <= v.0.len(),
                shape_ok(v.0, v.1, v.2),
                release_in_range(v, tid as int, request@),
                self.inner.available@ == add_prefix(v.0, request@, j as int),
                rows(&self.inner.allocation) == replace_row(v.1, tid as int, sub_prefix(v.1[tid as int], request@, j as int)),
                rows(&self.inner.need) == v.2,
            decreases request.len() - j,
        {
            assert(rows(&self.inner.allocation).len() == v.1.len());
            assert(self.inner.allocation@.len() == v.1.len());
            assert(rows(&self.inner.allocation)[tid as int] == self.inner.allocation@[tid as int]@);
            let a = self.inner.available[j];
            let r = request[j];
            assert(i32::MIN <= v.0[j as int] + request@[j as int] <= i32::MAX);
            assert(i32::MIN <= v.1[tid as int][j as int] - request@[j as int] <= i32::MAX);
            self.inner.available.set(j, a + r);
            let ghost ra = rows(&self.inner.allocation);
            let x = self.inner.allocation[tid][j];
            self.inner.allocation[tid].set(j, x - r);
            assert(rows(&self.inner.allocation) =~= ra.update(tid as int, ra[tid as int].update(j as int, (x - r) as i32)));
            assert(sub_prefix(v.1[tid as int], request@, j + 1) =~= sub_prefix(v.1[tid as int], request@, j as int).update(j as int, (x - r) as i32));
            j = j + 1;
            assert(self.inner.available@ =~= add_prefix(v.0, request@, j as int));
            assert(rows(&self.inner.allocation) =~= replace_row(v.1, tid as int, sub_prefix(v.1[tid as int], request@, j as int)));
            assert(rows(&self.inner.need) =~= v.2);
        }
    }
}

} // verus!
