use vstd::prelude::*;

use crate::config::BIG_STRIDE;
use std::collections::VecDeque;

verus! {

/// What the scheduler reads of a ready task: its process id, its stride and its priority.
#[derive(Clone, Copy, PartialEq, Eq, Debug)]
pub struct ReadyTask {
    pub pid: usize,
    pub stride: usize,
    pub prio: usize,
}

/// `k` holds the least stride of `q`, and no earlier task holds a stride as small.
pub open spec fn is_first_min_stride(q: Seq<ReadyTask>, k: int) -> bool {
    &&& 0 <= k < q.len()
    &&& forall|j: int| 0 <= j < q.len() ==> q[k].stride <= #[trigger] q[j].stride
    &&& forall|j: int| 0 <= j < k ==> q[k].stride < #[trigger] q[j].stride
}

/// The position of the first task with the least stride.
pub open spec fn min_stride_index(q: Seq<ReadyTask>) -> int {
    choose|k: int| is_first_min_stride(q, k)
}

/// The task after it is scheduled once: its stride advances by `BIG_STRIDE / prio`.
pub open spec fn advanced(t: ReadyTask) -> ReadyTask {
    ReadyTask { pid: t.pid, stride: (t.stride + BIG_STRIDE / t.prio) as usize, prio: t.prio }
}

/// Whether `fetch` can pick a task: the queue is not empty and the task it picks has a
/// positive priority and a stride that can advance without overflow.
pub open spec fn can_fetch(q: Seq<ReadyTask>) -> bool {
    let k = min_stride_index(q);
    &&& q.len() > 0
    &&& q[k].prio > 0
    &&& q[k].stride + BIG_STRIDE / q[k].prio <= usize::MAX
}

/// A non-empty queue has exactly one first task of least stride.
pub proof fn lemma_min_stride_index(q: Seq<ReadyTask>)
    requires
        q.len() > 0,
    ensures
        is_first_min_stride(q, min_stride_index(q)),
        forall|k: int| is_first_min_stride(q, k) ==> k == min_stride_index(q),
{
    lemma_first_min_prefix(q, q.len() as int);
    assert(q.subrange(0, q.len() as int) =~= q);
    let k = min_stride_index(q);
    assert forall|k2: int| is_first_min_stride(q, k2) implies k2 == k by {
        if k2 < k {
            assert(q[k].stride < q[k2].stride);
        } else if k < k2 {
            assert(q[k2].stride < q[k].stride);
        }
    }
}

proof fn lemma_first_min_prefix(q: Seq<ReadyTask>, n: int)
    requires
        0 < n <= q.len(),
    ensures
        exists|k: int| is_first_min_stride(q.subrange(0, n), k),
    decreases n,
{
    let p = q.subrange(0, n);
    if n == 1 {
        assert(is_first_min_stride(p, 0));
    } else {
        lemma_first_min_prefix(q, n - 1);
        let pp = q.subrange(0, n - 1);
        let k = choose|k: int| is_first_min_stride(pp, k);
        assert(forall|j: int| 0 <= j < n - 1 ==> pp[j] == p[j]);
        if p[n - 1].stride < p[k].stride {
            assert(is_first_min_stride(p, n - 1));
        } else {
            assert(is_first_min_stride(p, k));
        }
    }
}

/// The ready queue of a stride scheduler.
pub struct TaskManager {
    ready_queue: VecDeque<ReadyTask>,
}

impl View for TaskManager {
    type V = Seq<ReadyTask>;

    closed spec fn view(&self) -> Seq<ReadyTask> {
        self.ready_queue@
    }
}

impl TaskManager {
    /// An empty ready queue.
    pub fn new() -> (r: Self)
        ensures
            r@ == Seq::<ReadyTask>::empty(),
    {
        TaskManager { ready_queue: VecDeque::new() }
    }

    /// Puts a task at the back of the ready queue.
    pub fn add(&mut self, task: ReadyTask)
        ensures
            final(self)@ == old(self)@.push(task),
    {
        self.ready_queue.push_back(task);
    }

    /// The number of ready tasks.
    pub fn len(&self) -> (r: usize)
        ensures
            r == self@.len(),
    {
        self.ready_queue.len()
    }

    /// Whether `fetch` can pick a task (see `can_fetch`).
    pub fn fetchable(&self) -> (r: bool)
        ensures
            r == can_fetch(self@),
    {
        let n = self.ready_queue.len();
        if n == 0 {
            return false;
        }
        proof {
            lemma_min_stride_index(self@);
        }
        let ghost q = self@;
        let mut k: usize = 0;
        let mut index: usize = 1;
        while index < n
            invariant
                n == q.len(),
                q == self.ready_queue@,
                1 <= index <= n,
                0 <= k < index,
                forall|j: int| 0 <= j < index ==> q[k as int].stride <= #[trigger] q[j].stride,
                forall|j: int| 0 <= j < k ==> q[k as int].stride < #[trigger] q[j].stride,
            decreases n - index,
        {
            if self.ready_queue[index].stride < self.ready_queue[k].stride {
                k = index;
            }
            index = index + 1;
        }
        proof {
            assert(is_first_min_stride(q, k as int));
        }
        let t = self.ready_queue[k];
        t.prio > 0 && t.stride <= usize::MAX - BIG_STRIDE / t.prio
    }

    /// Takes out the first task with the least stride and advances its stride by
    /// `BIG_STRIDE / prio`; `None` where the queue is empty.
    pub fn fetch(&mut self) -> (r: Option<ReadyTask>)
        requires
            old(self)@.len() > 0 ==> can_fetch(old(self)@),
        ensures
            old(self)@.len() == 0 ==> r == None::<ReadyTask> && final(self)@ == old(self)@,
            old(self)@.len() > 0 ==> r == Some(advanced(old(self)@[min_stride_index(old(self)@)]))
                && final(self)@ == old(self)@.remove(min_stride_index(old(self)@)),
    {
        if self.ready_queue.len() == 0 {
            return None;
        }
        proof {
            lemma_min_stride_index(self@);
        }
        let ghost q = self@;
        let mut min_stride_index: usize = 0;
        let mut min_stride = self.ready_queue[0].stride;
        let n = self.ready_queue.len();
        let mut index: usize = 0;
        while index < n
            invariant
                n == q.len(),
                q == self.ready_queue@,
                0 <= index <= n,
                0 <= min_stride_index < n,
                min_stride_index <= index || (index == 0 && min_stride_index == 0),
                min_stride == q[min_stride_index as int].stride,
                forall|j: int| 0 <= j < index ==> min_stride <= #[trigger] q[j].stride,
                forall|j: int| 0 <= j < min_stride_index ==> min_stride < #[trigger] q[j].stride,
            decreases n - index,
        {
            let cur_stride = self.ready_queue[index].stride;
            if cur_stride < min_stride {
                min_stride = cur_stride;
                min_stride_index = index;
            }
            index = index + 1;
        }
        proof {
            assert(is_first_min_stride(q, min_stride_index as int));
        }
        if let Some(next_task) = self.ready_queue.remove(min_stride_index) {
            let next_task_prio = next_task.prio;
            let stride = next_task.stride + BIG_STRIDE / next_task_prio;
            Some(ReadyTask { pid: next_task.pid, stride, prio: next_task.prio })
        } else {
            None
        }
    }
}

impl Default for TaskManager {
    fn default() -> (r: Self)
        ensures
            r@ == Seq::<ReadyTask>::empty(),
    {
        Self::new()
    }
}

} // verus!
