pub mod deadlock_detector;

use vstd::prelude::*;

use crate::sync::deadlock_detector::{
    shape_ok, with_new_resource, with_new_thread, with_reset_resource, BankerView,
    DeadlockDetector,
};

verus! {

/// How a mutex makes a thread wait: by spinning or by blocking.
#[derive(Clone, Copy, PartialEq, Eq, Structural, Debug)]
pub enum MutexKind {
    Spin,
    Blocking,
}

/// The synchronization resources of a process: its mutexes, semaphores and condition variables
/// by slot (a free slot is `None` or `false`), whether deadlock detection is on, and one
/// detector for mutexes (index 0) and one for semaphores (index 1).
pub struct ProcessSync {
    pub mutex_list: Vec<Option<MutexKind>>,
    /// Each semaphore by the count it was created with.
    pub semaphore_list: Vec<Option<usize>>,
    pub condvar_list: Vec<bool>,
    pub deadlock_detect: bool,
    pub deadlock_detector: Vec<DeadlockDetector>,
}

/// The view of detector `k` of a process.
pub open spec fn detector_view(ps: &ProcessSync, k: int) -> BankerView {
    ps.deadlock_detector@[k].inner@
}

/// The slots and the detection switch of `a` and `b` are the same.
pub open spec fn same_slots(a: &ProcessSync, b: &ProcessSync) -> bool {
    &&& a.mutex_list@ == b.mutex_list@
    &&& a.semaphore_list@ == b.semaphore_list@
    &&& a.condvar_list@ == b.condvar_list@
    &&& a.deadlock_detect == b.deadlock_detect
}

impl ProcessSync {
    /// Both detectors are there and have one row per thread and one column per resource.
    pub open spec fn wf(&self) -> bool {
        &&& self.deadlock_detector@.len() == 2
        &&& shape_ok(detector_view(self, 0).0, detector_view(self, 0).1, detector_view(self, 0).2)
        &&& shape_ok(detector_view(self, 1).0, detector_view(self, 1).1, detector_view(self, 1).2)
    }

    /// No mutex, semaphore or condition variable, detection off, and two empty detectors.
    pub fn new() -> (r: Self)
        ensures
            r.wf(),
            r.mutex_list@ == Seq::<Option<MutexKind>>::empty(),
            r.semaphore_list@ == Seq::<Option<usize>>::empty(),
            r.condvar_list@ == Seq::<bool>::empty(),
            !r.deadlock_detect,
            detector_view(&r, 0) == (Seq::<i32>::empty(), Seq::<Seq<i32>>::empty(), Seq::<Seq<i32>>::empty()),
            detector_view(&r, 1) == (Seq::<i32>::empty(), Seq::<Seq<i32>>::empty(), Seq::<Seq<i32>>::empty()),
    {
        let mut deadlock_detector: Vec<DeadlockDetector> = Vec::new();
        deadlock_detector.push(DeadlockDetector::new());
        deadlock_detector.push(DeadlockDetector::new());
        ProcessSync {
            mutex_list: Vec::new(),
            semaphore_list: Vec::new(),
            condvar_list: Vec::new(),
            deadlock_detect: false,
            deadlock_detector,
        }
    }

    /// Whether deadlock detection is on.
    pub fn deadlock_detect_enable(&self) -> (r: bool)
        ensures
            r == self.deadlock_detect,
    {
        self.deadlock_detect
    }

    /// Turns deadlock detection on.
    pub fn enable_deadlock_detect(&mut self)
        ensures
            final(self).deadlock_detect,
            final(self).mutex_list == old(self).mutex_list,
            final(self).semaphore_list == old(self).semaphore_list,
            final(self).condvar_list == old(self).condvar_list,
            final(self).deadlock_detector == old(self).deadlock_detector,
    {
        self.deadlock_detect = true;
    }

    /// Turns deadlock detection off.
    pub fn disable_deadlock_detect(&mut self)
        ensures
            !final(self).deadlock_detect,
            final(self).mutex_list == old(self).mutex_list,
            final(self).semaphore_list == old(self).semaphore_list,
            final(self).condvar_list == old(self).condvar_list,
            final(self).deadlock_detector == old(self).deadlock_detector,
    {
        self.deadlock_detect = false;
    }

    /// Registers a new thread, holding and needing nothing, with both detectors.
    pub fn add_thread(&mut self)
        requires
            old(self).wf(),
        ensures
            final(self).wf(),
            detector_view(final(self), 0) == with_new_thread(detector_view(old(self), 0)),
            detector_view(final(self), 1) == with_new_thread(detector_view(old(self), 1)),
            final(self).mutex_list == old(self).mutex_list,
            final(self).semaphore_list == old(self).semaphore_list,
            final(self).condvar_list == old(self).condvar_list,
            final(self).deadlock_detect == old(self).deadlock_detect,
    {
        self.deadlock_detector[0].inner.add_thread();
        self.deadlock_detector[1].inner.add_thread();
    }

    /// Detector `k` makes resource `id` have `count` free units, held and needed by no thread.
    fn reset_detector_resource(&mut self, k: usize, id: usize, count: i32)
        requires
            old(self).wf(),
            k < 2,
            id < detector_view(old(self), k as int).0.len(),
        ensures
            final(self).wf(),
            detector_view(final(self), k as int) == with_reset_resource(detector_view(old(self), k as int), id as int, count),
            detector_view(final(self), 1 - k) == detector_view(old(self), 1 - k),
            final(self).mutex_list == old(self).mutex_list,
            final(self).semaphore_list == old(self).semaphore_list,
            final(self).condvar_list == old(self).condvar_list,
            final(self).deadlock_detect == old(self).deadlock_detect,
    {
        self.deadlock_detector[k].inner.reset_resource(id, count);
    }

    /// Detector `k` gets a new resource with `count` free units, held and needed by no thread.
    fn add_detector_resource(&mut self, k: usize, count: i32)
        requires
            old(self).wf(),
            k < 2,
        ensures
            final(self).wf(),
            detector_view(final(self), k as int) == with_new_resource(detector_view(old(self), k as int), count),
            detector_view(final(self), 1 - k) == detector_view(old(self), 1 - k),
            final(self).mutex_list == old(self).mutex_list,
            final(self).semaphore_list == old(self).semaphore_list,
            final(self).condvar_list == old(self).condvar_list,
            final(self).deadlock_detect == old(self).deadlock_detect,
    {
        self.deadlock_detector[k].inner.add_resource(count);
    }

    /// The mutex detector forgets mutex `id`: no unit of it is free, held or needed.
    pub fn remove_mutex_by_id(&mut self, id: usize)
        requires
            old(self).wf(),
            id < detector_view(old(self), 0).0.len(),
        ensures
            final(self).wf(),
            detector_view(final(self), 0) == with_reset_resource(detector_view(old(self), 0), id as int, 0),
            detector_view(final(self), 1) == detector_view(old(self), 1),
            final(self).mutex_list == old(self).mutex_list,
            final(self).semaphore_list == old(self).semaphore_list,
            final(self).condvar_list == old(self).condvar_list,
            final(self).deadlock_detect == old(self).deadlock_detect,
    {
        self.reset_detector_resource(0, id, 0);
    }

    /// The mutex detector learns of a mutex, free, in column `id` or in a new last column.
    pub fn create_mutex(&mut self, id: Option<usize>)
        requires
            old(self).wf(),
            id matches Some(i) ==> i < detector_view(old(self), 0).0.len(),
        ensures
            final(self).wf(),
            detector_view(final(self), 0) == match id {
                Some(i) => with_reset_resource(detector_view(old(self), 0), i as int, 1),
                None => with_new_resource(detector_view(old(self), 0), 1),
            },
            detector_view(final(self), 1) == detector_view(old(self), 1),
            final(self).mutex_list == old(self).mutex_list,
            final(self).semaphore_list == old(self).semaphore_list,
            final(self).condvar_list == old(self).condvar_list,
            final(self).deadlock_detect == old(self).deadlock_detect,
    {
        match id {
            Some(i) => self.reset_detector_resource(0, i, 1),
            None => self.add_detector_resource(0, 1),
        }
    }

    /// The semaphore detector forgets semaphore `id`: no unit of it is free, held or needed.
    pub fn remove_semaphore_by_id(&mut self, id: usize)
        requires
            old(self).wf(),
            id < detector_view(old(self), 1).0.len(),
        ensures
            final(self).wf(),
            detector_view(final(self), 1) == with_reset_resource(detector_view(old(self), 1), id as int, 0),
            detector_view(final(self), 0) == detector_view(old(self), 0),
            final(self).mutex_list == old(self).mutex_list,
            final(self).semaphore_list == old(self).semaphore_list,
            final(self).condvar_list == old(self).condvar_list,
            final(self).deadlock_detect == old(self).deadlock_detect,
    {
        self.reset_detector_resource(1, id, 0);
    }

    /// The semaphore detector learns of a semaphore with `res_count` free units, in column `id`
    /// or in a new last column.
    pub fn create_semaphore(&mut self, id: Option<usize>, res_count: usize)
        requires
            old(self).wf(),
            id matches Some(i) ==> i < detector_view(old(self), 1).0.len(),
        ensures
            final(self).wf(),
            detector_view(final(self), 1) == match id {
                Some(i) => with_reset_resource(detector_view(old(self), 1), i as int, res_count as i32),
                None => with_new_resource(detector_view(old(self), 1), res_count as i32),
            },
            detector_view(final(self), 0) == detector_view(old(self), 0),
            final(self).mutex_list == old(self).mutex_list,
            final(self).semaphore_list == old(self).semaphore_list,
            final(self).condvar_list == old(self).condvar_list,
            final(self).deadlock_detect == old(self).deadlock_detect,
    {
        let count = res_count as i32;
        match id {
            Some(i) => self.reset_detector_resource(1, i, count),
            None => self.add_detector_resource(1, count),
        }
    }
}

} // verus!
