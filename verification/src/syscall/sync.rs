use vstd::prelude::*;

use crate::sync::deadlock_detector::{
    add_prefix, grant_in_range, granted, law_grant_conserves_units, law_release_undoes_grant,
    release_ok, released_back, request_fits, safe_after_grant, safety_query_ok, shape_ok,
    with_new_resource, with_reset_resource, BankerView,
};
use crate::sync::{detector_view, same_slots, MutexKind, ProcessSync};

verus! {

/// What the kernel does next on behalf of the calling thread.
#[derive(Clone, Copy, PartialEq, Eq, Structural, Debug)]
pub enum SyncAction {
    /// Nothing more: the call is answered.
    Nothing,
    /// Lock mutex `id` (which may make the thread wait).
    LockMutex(usize),
    /// Unlock mutex `id`.
    UnlockMutex(usize),
    /// Release one unit of semaphore `id`.
    SemaphoreUp(usize),
    /// Take one unit of semaphore `id` (which may make the thread wait).
    SemaphoreDown(usize),
    /// Wake one thread waiting on condition variable `id`.
    SignalCondvar(usize),
    /// Wait on condition variable `.0`, giving up mutex `.1` meanwhile.
    WaitCondvar(usize, usize),
    /// Put the thread to sleep until the given time in milliseconds.
    SleepUntil(usize),
}

/// What a lock or semaphore call answers when granting it could lead to a deadlock.
pub const DEADLOCK_ERROR: isize = -0xdead;

/// A request for one unit of resource `id` out of `n` kinds.
pub open spec fn unit_request(n: nat, id: int) -> Seq<i32> {
    Seq::new(n, |j: int| if j == id { 1i32 } else { 0i32 })
}

/// Index of the first free (`None`) slot at or after `i`, or `s.len()` if there is none.
pub open spec fn first_free_from<T>(s: Seq<Option<T>>, i: int) -> int
    decreases s.len() - i,
{
    if i < 0 || i >= s.len() {
        s.len() as int
    } else if s[i] is None {
        i
    } else {
        first_free_from(s, i + 1)
    }
}

/// Index of the first free (`None`) slot, or `s.len()` if there is none.
pub open spec fn first_free<T>(s: Seq<Option<T>>) -> int {
    first_free_from(s, 0)
}

/// Index of the first `false` slot at or after `i`, or `s.len()` if there is none.
pub open spec fn first_unused_from(s: Seq<bool>, i: int) -> int
    decreases s.len() - i,
{
    if i < 0 || i >= s.len() {
        s.len() as int
    } else if !s[i] {
        i
    } else {
        first_unused_from(s, i + 1)
    }
}

/// Index of the first `false` slot, or `s.len()` if there is none.
pub open spec fn first_unused(s: Seq<bool>) -> int {
    first_unused_from(s, 0)
}

proof fn lemma_first_free_from<T>(s: Seq<Option<T>>, i: int)
    requires
        0 <= i <= s.len(),
    ensures
        i <= first_free_from(s, i) <= s.len(),
        first_free_from(s, i) < s.len() ==> s[first_free_from(s, i)] is None,
        forall|k: int| i <= k < first_free_from(s, i) ==> s[k] is Some,
    decreases s.len() - i,
{
    if i < s.len() && s[i] is Some {
        lemma_first_free_from(s, i + 1);
    }
}

proof fn lemma_first_free_unique<T>(s: Seq<Option<T>>, k: int)
    requires
        0 <= k <= s.len(),
        k < s.len() ==> s[k] is None,
        forall|j: int| 0 <= j < k ==> s[j] is Some,
    ensures
        first_free(s) == k,
{
    lemma_first_free_from(s, 0);
    let f = first_free(s);
    if f < k {
        assert(s[f] is Some);
    } else if k < f {
        assert(s[k] is None);
    }
}

proof fn lemma_first_unused_from(s: Seq<bool>, i: int)
    requires
        0 <= i <= s.len(),
    ensures
        i <= first_unused_from(s, i) <= s.len(),
        first_unused_from(s, i) < s.len() ==> !s[first_unused_from(s, i)],
        forall|k: int| i <= k < first_unused_from(s, i) ==> s[k],
    decreases s.len() - i,
{
    if i < s.len() && s[i] {
        lemma_first_unused_from(s, i + 1);
    }
}

proof fn lemma_first_unused_unique(s: Seq<bool>, k: int)
    requires
        0 <= k <= s.len(),
        k < s.len() ==> !s[k],
        forall|j: int| 0 <= j < k ==> s[j],
    ensures
        first_unused(s) == k,
{
    lemma_first_unused_from(s, 0);
    let f = first_unused(s);
    if f < k {
        assert(s[f]);
    } else if k < f {
        assert(!s[k]);
    }
}

/// Position of the first free slot.
pub(crate) fn find_free_slot<T>(s: &Vec<Option<T>>) -> (r: Option<usize>)
    ensures
        match r {
            Some(i) => i == first_free(s@) && i < s@.len(),
            None => first_free(s@) == s@.len(),
        },
        0 <= first_free(s@) <= s@.len(),
{
    proof {
        lemma_first_free_from(s@, 0);
    }
    let mut i: usize = 0;
    while i < s.len()
        invariant
            0 <= i <= s@.len(),
            forall|k: int| 0 <= k < i ==> s@[k] is Some,
        decreases s.len() - i,
    {
        if s[i].is_none() {
            proof {
                lemma_first_free_unique(s@, i as int);
            }
            return Some(i);
        }
        i = i + 1;
    }
    proof {
        lemma_first_free_unique(s@, i as int);
    }
    None
}

/// A request for one unit of resource `id` out of `n` kinds.
fn make_request(n: usize, id: usize) -> (r: Vec<i32>)
    requires
        id < n,
    ensures
        r@ == unit_request(n as nat, id as int),
        r@.len() == n,
        r@[id as int] == 1,
        forall|j: int| 0 <= j < n && j != id ==> r@[j] == 0,
{
    let mut request: Vec<i32> = Vec::new();
    let mut j: usize = 0;
    while j < n
        invariant
            0 <= j <= n,
            request@ == Seq::new(j as nat, |k: int| 0i32),
        decreases n - j,
    {
        request.push(0);
        j = j + 1;
        assert(request@ =~= Seq::new(j as nat, |k: int| 0i32));
    }
    request.set(id, 1);
    assert(request@ =~= unit_request(n as nat, id as int));
    request
}

/// Resetting a resource twice keeps only the second count.
proof fn lemma_reset_twice(v: BankerView, id: int, a: i32, b: i32)
    requires
        0 <= id < v.0.len(),
        shape_ok(v.0, v.1, v.2),
    ensures
        with_reset_resource(with_reset_resource(v, id, a), id, b) == with_reset_resource(v, id, b),
{
    let once = with_reset_resource(v, id, b);
    let twice = with_reset_resource(with_reset_resource(v, id, a), id, b);
    assert(twice.0 =~= once.0);
    assert forall|i: int| 0 <= i < v.1.len() implies twice.1[i] =~= once.1[i] by {}
    assert forall|i: int| 0 <= i < v.2.len() implies twice.2[i] =~= once.2[i] by {
        assert(v.1[i].len() == v.0.len());
    }
    assert(twice.1 =~= once.1);
    assert(twice.2 =~= once.2);
}

/// The request a lock or semaphore call makes for slot `id` of detector `k`.
pub open spec fn slot_request(ps: &ProcessSync, k: int, id: int) -> Seq<i32> {
    unit_request(detector_view(ps, k).0.len(), id)
}

/// Detector `k` would grant one unit of resource `id` to thread `tid`.
pub open spec fn grantable(ps: &ProcessSync, k: int, tid: int, id: int) -> bool {
    let d = detector_view(ps, k);
    let req = slot_request(ps, k, id);
    tid < d.1.len() && request_fits(d.0, req) && safe_after_grant(d, tid, req)
}

/// A lock or semaphore request asks for one unit of its own resource and nothing of any other.
pub proof fn law_unit_request_asks_one_unit(n: nat, id: int)
    requires
        0 <= id < n,
    ensures
        unit_request(n, id).len() == n,
        unit_request(n, id)[id] == 1,
        forall|j: int| 0 <= j < n && j != id ==> unit_request(n, id)[j] == 0,
{
}

/// Granting one unit of resource `id` to thread `tid` takes one unit of `id` from the available
/// vector and adds it to the thread's allocation, lowering its need by one; every other
/// resource's column, and every other thread's row, is left as it was.
pub proof fn law_lock_touches_only_its_column(d: BankerView, tid: int, id: int)
    requires
        shape_ok(d.0, d.1, d.2),
        0 <= tid < d.1.len(),
        0 <= id < d.0.len(),
        grant_in_range(d, tid, unit_request(d.0.len(), id)),
    ensures
        ({
            let g = granted(d, tid, unit_request(d.0.len(), id));
            &&& g.0.len() == d.0.len()
            &&& g.1.len() == d.1.len()
            &&& g.0[id] == d.0[id] - 1
            &&& g.1[tid][id] == d.1[tid][id] + 1
            &&& g.2[tid][id] == d.2[tid][id] - 1
            &&& forall|j: int| 0 <= j < d.0.len() && j != id ==> g.0[j] == d.0[j]
            &&& forall|i: int, j: int|
                0 <= i < d.1.len() && 0 <= j < d.0.len() && (i != tid || j != id) ==> g.1[i][j] == d.1[i][j]
                    && g.2[i][j] == d.2[i][j]
        }),
{
    let req = unit_request(d.0.len(), id);
    let g = granted(d, tid, req);
    assert(d.1[tid].len() == d.0.len());
    assert(d.2[tid].len() == d.0.len());
    assert(i32::MIN <= d.0[id] - req[id] <= i32::MAX);
    assert(i32::MIN <= d.1[tid][id] + req[id] <= i32::MAX);
    assert(i32::MIN <= d.2[tid][id] - req[id] <= i32::MAX);
    assert forall|i: int, j: int|
        0 <= i < d.1.len() && 0 <= j < d.0.len() && (i != tid || j != id) implies g.1[i][j] == d.1[i][j]
            && g.2[i][j] == d.2[i][j] by {
        if i == tid {
            assert(req[j] == 0);
        }
    }
}

/// A thread that was just granted one unit of a lock (a mutex, or a semaphore in its own
/// detector) may give it back at once, and giving it back leaves the detector's available
/// vector and allocation matrix as they were before the grant; the thread's need stays lowered.
pub proof fn law_unlock_undoes_lock(d: BankerView, tid: int, id: int)
    requires
        shape_ok(d.0, d.1, d.2),
        0 <= tid < d.1.len(),
        0 <= id < d.0.len(),
        grant_in_range(d, tid, unit_request(d.0.len(), id)),
    ensures
        ({
            let locked = granted(d, tid, unit_request(d.0.len(), id));
            let req = unit_request(locked.0.len(), id);
            &&& release_ok(locked, tid, req)
            &&& released_back(locked, tid, req).0 == d.0
            &&& released_back(locked, tid, req).1 == d.1
        }),
{
    let req = unit_request(d.0.len(), id);
    law_grant_conserves_units(d, tid, req);
    law_release_undoes_grant(d, tid, req);
    let locked = granted(d, tid, req);
    assert(locked.0.len() == d.0.len());
    assert(unit_request(locked.0.len(), id) == req);
    assert(locked.1[tid] == add_prefix(d.1[tid], req, req.len() as int));
    assert(d.1[tid].len() == d.0.len());
    assert forall|j: int| 0 <= j < req.len() implies i32::MIN <= locked.0[j] + #[trigger] req[j] <= i32::MAX
        && i32::MIN <= locked.1[tid][j] - req[j] <= i32::MAX by {
        assert(i32::MIN <= d.0[j] - req[j] <= i32::MAX);
        assert(i32::MIN <= d.1[tid][j] + req[j] <= i32::MAX);
    }
}

/// The detector has one column per slot of the list (`n` slots), and column `k` has `count`
/// free units that no thread holds or needs.
pub open spec fn columns_follow_slot(d: BankerView, n: nat, k: int, count: i32) -> bool {
    &&& d.0.len() == n
    &&& 0 <= k < n
    &&& d.0[k] == count
    &&& forall|i: int| 0 <= i < d.1.len() ==> (#[trigger] d.1[i])[k] == 0 && d.2[i][k] == 0
}

proof fn lemma_reset_follows_slot(d: BankerView, k: int, count: i32)
    requires
        shape_ok(d.0, d.1, d.2),
        0 <= k < d.0.len(),
    ensures
        columns_follow_slot(with_reset_resource(d, k, count), d.0.len(), k, count),
{
    let d1 = with_reset_resource(d, k, count);
    assert forall|i: int| 0 <= i < d1.1.len() implies (#[trigger] d1.1[i])[k] == 0 && d1.2[i][k] == 0 by {
        assert(d.1[i].len() == d.0.len());
        assert(d.2[i].len() == d.0.len());
    }
}

proof fn lemma_new_follows_slot(d: BankerView, count: i32)
    requires
        shape_ok(d.0, d.1, d.2),
    ensures
        columns_follow_slot(with_new_resource(d, count), d.0.len() + 1, d.0.len() as int, count),
{
    let d1 = with_new_resource(d, count);
    let k = d.0.len() as int;
    assert forall|i: int| 0 <= i < d1.1.len() implies (#[trigger] d1.1[i])[k] == 0 && d1.2[i][k] == 0 by {
        assert(d.1[i].len() == d.0.len());
        assert(d.2[i].len() == d.0.len());
    }
}

/// Creates a mutex in the first free slot (or a new last slot) and gives its id. With
/// deadlock detection on, the mutex detector learns of it as one free unit.
pub fn sys_mutex_create(process: &mut ProcessSync, blocking: bool) -> (r: isize)
    requires
        old(process).wf(),
        old(process).deadlock_detect && first_free(old(process).mutex_list@) < old(
            process,
        ).mutex_list@.len() ==> first_free(old(process).mutex_list@) < detector_view(
            old(process),
            0,
        ).0.len(),
    ensures
        final(process).wf(),
        ({
            let k = first_free(old(process).mutex_list@);
            let n = old(process).mutex_list@.len();
            let kind = if blocking {
                MutexKind::Blocking
            } else {
                MutexKind::Spin
            };
            let d = detector_view(old(process), 0);
            if k < n {
                &&& r == k as isize
                &&& final(process).mutex_list@ == old(process).mutex_list@.update(k, Some(kind))
                &&& detector_view(final(process), 0) == if old(process).deadlock_detect {
                    with_reset_resource(d, k, 1)
                } else {
                    d
                }
            } else {
                &&& r == n as isize
                &&& final(process).mutex_list@ == old(process).mutex_list@.push(Some(kind))
                &&& detector_view(final(process), 0) == if old(process).deadlock_detect {
                    with_new_resource(d, 1)
                } else {
                    d
                }
            }
        }),
        detector_view(final(process), 1) == detector_view(old(process), 1),
        final(process).semaphore_list@ == old(process).semaphore_list@,
        final(process).condvar_list@ == old(process).condvar_list@,
        final(process).deadlock_detect == old(process).deadlock_detect,
        old(process).deadlock_detect && detector_view(old(process), 0).0.len() == old(process).mutex_list@.len()
            ==> columns_follow_slot(
            detector_view(final(process), 0),
            final(process).mutex_list@.len(),
            first_free(old(process).mutex_list@),
            1,
        ),
{
    let mutex = if !blocking {
        Some(MutexKind::Spin)
    } else {
        Some(MutexKind::Blocking)
    };
    let slot = find_free_slot(&process.mutex_list);
    if let Some(id) = slot {
        if process.deadlock_detect_enable() {
            let ghost d = detector_view(process, 0);
            process.remove_mutex_by_id(id);
            process.create_mutex(Some(id));
            proof {
                lemma_reset_twice(d, id as int, 0, 1);
                if d.0.len() == process.mutex_list@.len() {
                    lemma_reset_follows_slot(d, id as int, 1);
                }
            }
        }
        process.mutex_list.set(id, mutex);
        id as isize
    } else {
        if process.deadlock_detect_enable() {
            let ghost d = detector_view(process, 0);
            process.create_mutex(None);
            proof {
                lemma_new_follows_slot(d, 1);
            }
        }
        let ghost n = process.mutex_list@.len();
        process.mutex_list.push(mutex);
        let len = process.mutex_list.len();
        assert(len - 1 == n);
        (len - 1) as isize
    }
}

/// Locks mutex `mutex_id` for thread `tid`. With deadlock detection on, the mutex detector is
/// first asked for one unit of it; where it refuses, the call answers `DEADLOCK_ERROR` and
/// nothing changes.
pub fn sys_mutex_lock(process: &mut ProcessSync, tid: usize, mutex_id: usize) -> (r: (isize, SyncAction))
    requires
        old(process).wf(),
        old(process).deadlock_detect ==> mutex_id < detector_view(old(process), 0).0.len()
            && safety_query_ok(
            detector_view(old(process), 0),
            tid as int,
            slot_request(old(process), 0, mutex_id as int),
        ),
        !old(process).deadlock_detect || grantable(old(process), 0, tid as int, mutex_id as int)
            ==> mutex_id < old(process).mutex_list@.len() && old(process).mutex_list@[mutex_id as int] is Some,
    ensures
        final(process).wf(),
        same_slots(final(process), old(process)),
        detector_view(final(process), 1) == detector_view(old(process), 1),
        ({
            let d = detector_view(old(process), 0);
            let req = slot_request(old(process), 0, mutex_id as int);
            if old(process).deadlock_detect && !grantable(old(process), 0, tid as int, mutex_id as int) {
                r == (DEADLOCK_ERROR, SyncAction::Nothing) && detector_view(final(process), 0) == d
            } else {
                &&& r == (0isize, SyncAction::LockMutex(mutex_id))
                &&& detector_view(final(process), 0) == if old(process).deadlock_detect {
                    granted(d, tid as int, req)
                } else {
                    d
                }
            }
        }),
        old(process).deadlock_detect && r.0 == 0 ==> {
            let d = detector_view(old(process), 0);
            let f = detector_view(final(process), 0);
            &&& f.0.len() == d.0.len()
            &&& f.0[mutex_id as int] == d.0[mutex_id as int] - 1
            &&& forall|j: int| 0 <= j < d.0.len() && j != mutex_id ==> f.0[j] == d.0[j]
        },
{
    let ghost d0 = detector_view(process, 0);
    if process.deadlock_detect_enable() {
        let mutex_num = process.deadlock_detector[0].inner.available.len();
        let request = make_request(mutex_num, mutex_id);
        if !process.deadlock_detector[0].is_safe_state(tid, request) {
            return (DEADLOCK_ERROR, SyncAction::Nothing);
        }
        proof {
            law_lock_touches_only_its_column(d0, tid as int, mutex_id as int);
        }
    }
    assert(process.mutex_list@[mutex_id as int] is Some);
    (0, SyncAction::LockMutex(mutex_id))
}

/// Unlocks mutex `mutex_id` for thread `tid`. With deadlock detection on, the thread first
/// gives its unit of the mutex back to the mutex detector.
pub fn sys_mutex_unlock(process: &mut ProcessSync, tid: usize, mutex_id: usize) -> (r: (isize, SyncAction))
    requires
        old(process).wf(),
        old(process).deadlock_detect ==> mutex_id < detector_view(old(process), 0).0.len()
            && release_ok(
            detector_view(old(process), 0),
            tid as int,
            slot_request(old(process), 0, mutex_id as int),
        ),
        mutex_id < old(process).mutex_list@.len(),
        old(process).mutex_list@[mutex_id as int] is Some,
    ensures
        final(process).wf(),
        same_slots(final(process), old(process)),
        detector_view(final(process), 1) == detector_view(old(process), 1),
        r == (0isize, SyncAction::UnlockMutex(mutex_id)),
        detector_view(final(process), 0) == if old(process).deadlock_detect {
            released_back(
                detector_view(old(process), 0),
                tid as int,
                slot_request(old(process), 0, mutex_id as int),
            )
        } else {
            detector_view(old(process), 0)
        },
{
    if process.deadlock_detect_enable() {
        let mutex_num = process.deadlock_detector[0].inner.available.len();
        let request = make_request(mutex_num, mutex_id);
        process.deadlock_detector[0].detector_unlock(tid, request);
    }
    (0, SyncAction::UnlockMutex(mutex_id))
}

/// Creates a semaphore with `res_count` units in the first free slot (or a new last slot) and
/// gives its id. With deadlock detection on, the semaphore detector learns of it with
/// `res_count` free units.
pub fn sys_semaphore_create(process: &mut ProcessSync, res_count: usize) -> (r: isize)
    requires
        old(process).wf(),
        old(process).deadlock_detect && first_free(old(process).semaphore_list@) < old(
            process,
        ).semaphore_list@.len() ==> first_free(old(process).semaphore_list@) < detector_view(
            old(process),
            1,
        ).0.len(),
    ensures
        final(process).wf(),
        ({
            let k = first_free(old(process).semaphore_list@);
            let n = old(process).semaphore_list@.len();
            let d = detector_view(old(process), 1);
            if k < n {
                &&& r == k as isize
                &&& final(process).semaphore_list@ == old(process).semaphore_list@.update(k, Some(res_count))
                &&& detector_view(final(process), 1) == if old(process).deadlock_detect {
                    with_reset_resource(d, k, res_count as i32)
                } else {
                    d
                }
            } else {
                &&& r == n as isize
                &&& final(process).semaphore_list@ == old(process).semaphore_list@.push(Some(res_count))
                &&& detector_view(final(process), 1) == if old(process).deadlock_detect {
                    with_new_resource(d, res_count as i32)
                } else {
                    d
                }
            }
        }),
        detector_view(final(process), 0) == detector_view(old(process), 0),
        final(process).mutex_list@ == old(process).mutex_list@,
        final(process).condvar_list@ == old(process).condvar_list@,
        final(process).deadlock_detect == old(process).deadlock_detect,
        old(process).deadlock_detect && detector_view(old(process), 1).0.len() == old(process).semaphore_list@.len()
            ==> columns_follow_slot(
            detector_view(final(process), 1),
            final(process).semaphore_list@.len(),
            first_free(old(process).semaphore_list@),
            res_count as i32,
        ),
{
    let slot = find_free_slot(&process.semaphore_list);
    if let Some(id) = slot {
        if process.deadlock_detect_enable() {
            let ghost d = detector_view(process, 1);
            process.remove_semaphore_by_id(id);
            process.create_semaphore(Some(id), res_count);
            proof {
                lemma_reset_twice(d, id as int, 0, res_count as i32);
                if d.0.len() == process.semaphore_list@.len() {
                    lemma_reset_follows_slot(d, id as int, res_count as i32);
                }
            }
        }
        process.semaphore_list.set(id, Some(res_count));
        id as isize
    } else {
        if process.deadlock_detect_enable() {
            let ghost d = detector_view(process, 1);
            process.create_semaphore(None, res_count);
            proof {
                lemma_new_follows_slot(d, res_count as i32);
            }
        }
        let ghost n = process.semaphore_list@.len();
        process.semaphore_list.push(Some(res_count));
        let len = process.semaphore_list.len();
        assert(len - 1 == n);
        (len - 1) as isize
    }
}

/// Releases one unit of semaphore `sem_id` for thread `tid`. With deadlock detection on, the
/// thread first gives its unit of the semaphore back to the semaphore detector.
pub fn sys_semaphore_up(process: &mut ProcessSync, tid: usize, sem_id: usize) -> (r: (isize, SyncAction))
    requires
        old(process).wf(),
        old(process).deadlock_detect ==> sem_id < detector_view(old(process), 1).0.len() && release_ok(
            detector_view(old(process), 1),
            tid as int,
            slot_request(old(process), 1, sem_id as int),
        ),
        sem_id < old(process).semaphore_list@.len(),
        old(process).semaphore_list@[sem_id as int] is Some,
    ensures
        final(process).wf(),
        same_slots(final(process), old(process)),
        detector_view(final(process), 0) == detector_view(old(process), 0),
        r == (0isize, SyncAction::SemaphoreUp(sem_id)),
        detector_view(final(process), 1) == if old(process).deadlock_detect {
            released_back(
                detector_view(old(process), 1),
                tid as int,
                slot_request(old(process), 1, sem_id as int),
            )
        } else {
            detector_view(old(process), 1)
        },
{
    if process.deadlock_detect_enable() {
        let semaphore_num = process.deadlock_detector[1].inner.available.len();
        let request = make_request(semaphore_num, sem_id);
        process.deadlock_detector[1].detector_unlock(tid, request);
    }
    (0, SyncAction::SemaphoreUp(sem_id))
}

/// Takes one unit of semaphore `sem_id` for thread `tid`. With deadlock detection on, the
/// semaphore detector is first asked for one unit of it; where it refuses, the call answers
/// `DEADLOCK_ERROR` and nothing changes.
pub fn sys_semaphore_down(process: &mut ProcessSync, tid: usize, sem_id: usize) -> (r: (isize, SyncAction))
    requires
        old(process).wf(),
        old(process).deadlock_detect ==> sem_id < detector_view(old(process), 1).0.len()
            && safety_query_ok(
            detector_view(old(process), 1),
            tid as int,
            slot_request(old(process), 1, sem_id as int),
        ),
        !old(process).deadlock_detect || grantable(old(process), 1, tid as int, sem_id as int)
            ==> sem_id < old(process).semaphore_list@.len() && old(process).semaphore_list@[sem_id as int] is Some,
    ensures
        final(process).wf(),
        same_slots(final(process), old(process)),
        detector_view(final(process), 0) == detector_view(old(process), 0),
        ({
            let d = detector_view(old(process), 1);
            let req = slot_request(old(process), 1, sem_id as int);
            if old(process).deadlock_detect && !grantable(old(process), 1, tid as int, sem_id as int) {
                r == (DEADLOCK_ERROR, SyncAction::Nothing) && detector_view(final(process), 1) == d
            } else {
                &&& r == (0isize, SyncAction::SemaphoreDown(sem_id))
                &&& detector_view(final(process), 1) == if old(process).deadlock_detect {
                    granted(d, tid as int, req)
                } else {
                    d
                }
            }
        }),
        old(process).deadlock_detect && r.0 == 0 ==> {
            let d = detector_view(old(process), 1);
            let f = detector_view(final(process), 1);
            &&& f.0.len() == d.0.len()
            &&& f.0[sem_id as int] == d.0[sem_id as int] - 1
            &&& forall|j: int| 0 <= j < d.0.len() && j != sem_id ==> f.0[j] == d.0[j]
        },
{
    let ghost d0 = detector_view(process, 1);
    if process.deadlock_detect_enable() {
        let semaphore_num = process.deadlock_detector[1].inner.available.len();
        let request = make_request(semaphore_num, sem_id);
        if !process.deadlock_detector[1].is_safe_state(tid, request) {
            return (DEADLOCK_ERROR, SyncAction::Nothing);
        }
        proof {
            law_lock_touches_only_its_column(d0, tid as int, sem_id as int);
        }
    }
    (0, SyncAction::SemaphoreDown(sem_id))
}

/// Creates a condition variable in the first unused slot (or a new last slot) and gives its id.
pub fn sys_condvar_create(process: &mut ProcessSync) -> (r: isize)
    ensures
        ({
            let k = first_unused(old(process).condvar_list@);
            let n = old(process).condvar_list@.len();
            if k < n {
                r == k as isize && final(process).condvar_list@ == old(process).condvar_list@.update(k, true)
            } else {
                r == n as isize && final(process).condvar_list@ == old(process).condvar_list@.push(true)
            }
        }),
        final(process).mutex_list@ == old(process).mutex_list@,
        final(process).semaphore_list@ == old(process).semaphore_list@,
        final(process).deadlock_detect == old(process).deadlock_detect,
        final(process).deadlock_detector@ == old(process).deadlock_detector@,
{
    let mut i: usize = 0;
    while i < process.condvar_list.len()
        invariant
            0 <= i <= process.condvar_list@.len(),
            process.condvar_list@ == old(process).condvar_list@,
            process.mutex_list@ == old(process).mutex_list@,
            process.semaphore_list@ == old(process).semaphore_list@,
            process.deadlock_detect == old(process).deadlock_detect,
            process.deadlock_detector@ == old(process).deadlock_detector@,
            forall|k: int| 0 <= k < i ==> process.condvar_list@[k],
        decreases process.condvar_list.len() - i,
    {
        if !process.condvar_list[i] {
            proof {
                lemma_first_unused_unique(process.condvar_list@, i as int);
            }
            process.condvar_list.set(i, true);
            return i as isize;
        }
        i = i + 1;
    }
    proof {
        lemma_first_unused_unique(process.condvar_list@, i as int);
    }
    process.condvar_list.push(true);
    i as isize
}

/// Wakes one thread waiting on condition variable `condvar_id`.
pub fn sys_condvar_signal(process: &ProcessSync, condvar_id: usize) -> (r: (isize, SyncAction))
    requires
        condvar_id < process.condvar_list@.len(),
        process.condvar_list@[condvar_id as int],
    ensures
        r == (0isize, SyncAction::SignalCondvar(condvar_id)),
{
    (0, SyncAction::SignalCondvar(condvar_id))
}

/// Waits on condition variable `condvar_id`, giving up mutex `mutex_id` meanwhile.
pub fn sys_condvar_wait(process: &ProcessSync, condvar_id: usize, mutex_id: usize) -> (r: (isize, SyncAction))
    requires
        condvar_id < process.condvar_list@.len(),
        process.condvar_list@[condvar_id as int],
        mutex_id < process.mutex_list@.len(),
        process.mutex_list@[mutex_id as int] is Some,
    ensures
        r == (0isize, SyncAction::WaitCondvar(condvar_id, mutex_id)),
{
    (0, SyncAction::WaitCondvar(condvar_id, mutex_id))
}

/// Turns deadlock detection on (`enabled == 1`) or off (`enabled == 0`) and answers 0; any
/// other value is refused with -1 and changes nothing.
pub fn sys_enable_deadlock_detect(process: &mut ProcessSync, enabled: usize) -> (r: isize)
    ensures
        r == if enabled == 0 || enabled == 1 { 0isize } else { -1isize },
        final(process).deadlock_detect == if enabled == 1 {
            true
        } else if enabled == 0 {
            false
        } else {
            old(process).deadlock_detect
        },
        final(process).mutex_list == old(process).mutex_list,
        final(process).semaphore_list == old(process).semaphore_list,
        final(process).condvar_list == old(process).condvar_list,
        final(process).deadlock_detector == old(process).deadlock_detector,
{
    if enabled == 1 {
        process.enable_deadlock_detect();
        0
    } else if enabled == 0 {
        process.disable_deadlock_detect();
        0
    } else {
        -1
    }
}

/// Puts the calling thread to sleep for `ms` milliseconds from `now_ms`, the current time.
pub fn sys_sleep(ms: usize, now_ms: usize) -> (r: (isize, SyncAction))
    requires
        now_ms + ms <= usize::MAX,
    ensures
        r == (0isize, SyncAction::SleepUntil((now_ms + ms) as usize)),
{
    let expire_ms = now_ms + ms;
    (0, SyncAction::SleepUntil(expire_ms))
}

} // verus!
