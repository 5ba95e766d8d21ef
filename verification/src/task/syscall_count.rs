use vstd::prelude::*;

use crate::config::MAX_SYSCALL_NUM;

verus! {

/// Index of the first slot at or after `i` whose id is `id`, or `s.len()` if there is none.
pub open spec fn find_slot_from(s: Seq<(usize, usize)>, id: usize, i: int) -> int
    decreases s.len() - i,
{
    if i >= s.len() || i < 0 {
        s.len() as int
    } else if s[i].0 == id {
        i
    } else {
        find_slot_from(s, id, i + 1)
    }
}

/// Index of the first slot whose id is `id`, or `s.len()` if there is none.
pub open spec fn find_slot(s: Seq<(usize, usize)>, id: usize) -> int {
    find_slot_from(s, id, 0)
}

/// How many calls of `id` the table records: the count in the first slot of `id`, or 0.
pub open spec fn recorded_count(s: Seq<(usize, usize)>, id: usize) -> nat {
    let k = find_slot(s, id);
    if k < s.len() {
        s[k].1 as nat
    } else {
        0
    }
}

/// Whether `add_syscall_id_count(id)` can record one more call without running out of room
/// or overflowing the count.
pub open spec fn can_record(s: Seq<(usize, usize)>, id: usize) -> bool {
    let k = find_slot(s, id);
    if k < s.len() {
        s[k].1 < usize::MAX
    } else {
        find_slot(s, usize::MAX) < s.len()
    }
}

/// The table after one more call of `id` is recorded.
pub open spec fn record_one(s: Seq<(usize, usize)>, id: usize) -> Seq<(usize, usize)> {
    let k = find_slot(s, id);
    if k < s.len() {
        s.update(k, (id, (s[k].1 + 1) as usize))
    } else {
        s.update(find_slot(s, usize::MAX), (id, 1))
    }
}

/// A fixed-size table of (syscall id, number of calls) pairs; a slot whose id is
/// `usize::MAX` is free.
#[derive(Clone, Copy, PartialEq, Eq)]
pub struct TaskSyscallCount(pub [(usize, usize); MAX_SYSCALL_NUM]);

proof fn lemma_find_slot_from_bounds(s: Seq<(usize, usize)>, id: usize, i: int)
    requires
        0 <= i <= s.len(),
    ensures
        i <= find_slot_from(s, id, i) <= s.len(),
        find_slot_from(s, id, i) < s.len() ==> s[find_slot_from(s, id, i)].0 == id,
        forall|k: int| i <= k < find_slot_from(s, id, i) ==> s[k].0 != id,
    decreases s.len() - i,
{
    if i < s.len() && s[i].0 != id {
        lemma_find_slot_from_bounds(s, id, i + 1);
    }
}

/// `find_slot` is the first index holding `id`.
pub proof fn lemma_find_slot(s: Seq<(usize, usize)>, id: usize)
    ensures
        0 <= find_slot(s, id) <= s.len(),
        find_slot(s, id) < s.len() ==> s[find_slot(s, id)].0 == id,
        forall|k: int| 0 <= k < find_slot(s, id) ==> s[k].0 != id,
{
    lemma_find_slot_from_bounds(s, id, 0);
}

/// A first index holding `id` is what `find_slot` returns.
proof fn lemma_find_slot_unique(s: Seq<(usize, usize)>, id: usize, k: int)
    requires
        0 <= k <= s.len(),
        k < s.len() ==> s[k].0 == id,
        forall|j: int| 0 <= j < k ==> s[j].0 != id,
    ensures
        find_slot(s, id) == k,
{
    lemma_find_slot(s, id);
    let f = find_slot(s, id);
    if f < k {
        assert(s[f].0 == id);
    } else if k < f {
        assert(s[k].0 == id);
    }
}

/// The table as the calls of ids other than `usize::MAX` leave it: the ids in use are distinct
/// and come before every free slot; a free slot counts 0 and a slot in use at least 1.
pub open spec fn table_ok(s: Seq<(usize, usize)>) -> bool {
    &&& forall|i: int, k: int|
        0 <= i < k < s.len() && s[i].0 != usize::MAX && s[k].0 != usize::MAX ==> #[trigger] s[i].0
            != #[trigger] s[k].0
    &&& forall|i: int, k: int|
        0 <= i < s.len() && 0 <= k < s.len() && (#[trigger] s[i]).0 != usize::MAX && (#[trigger] s[k]).0
            == usize::MAX ==> i < k
    &&& forall|i: int|
        0 <= i < s.len() ==> ((#[trigger] s[i]).0 == usize::MAX ==> s[i].1 == 0) && (s[i].0 != usize::MAX
            ==> s[i].1 >= 1)
}

/// Recording a call of an id other than `usize::MAX` keeps the table as `table_ok` describes it.
pub proof fn law_record_keeps_table_ok(s: Seq<(usize, usize)>, id: usize)
    requires
        table_ok(s),
        id != usize::MAX,
        can_record(s, id),
    ensures
        table_ok(record_one(s, id)),
{
    lemma_find_slot(s, id);
    lemma_find_slot(s, usize::MAX);
    let t = record_one(s, id);
    let k = find_slot(s, id);
    if k < s.len() {
        assert(t == s.update(k, (id, (s[k].1 + 1) as usize)));
        assert forall|i: int| 0 <= i < t.len() implies #[trigger] t[i].0 == s[i].0 by {}
    } else {
        let f = find_slot(s, usize::MAX);
        assert(t == s.update(f, (id, 1usize)));
        assert forall|i: int, j: int|
            0 <= i < t.len() && 0 <= j < t.len() && (#[trigger] t[i]).0 != usize::MAX && (#[trigger] t[j]).0
                == usize::MAX implies i < j by {
            assert(j != f);
            assert(t[j] == s[j]);
            if i != f {
                assert(t[i] == s[i]);
            } else if j < f {
                assert(s[j].0 != usize::MAX);
            }
        }
        assert forall|i: int, j: int|
            0 <= i < j < t.len() && t[i].0 != usize::MAX && t[j].0 != usize::MAX implies #[trigger] t[i].0
                != #[trigger] t[j].0 by {
            if i == f {
                assert(t[j] == s[j]);
            } else if j == f {
                assert(t[i] == s[i]);
            } else {
                assert(t[i] == s[i] && t[j] == s[j]);
            }
        }
    }
}

/// Recording one call of `id` raises the count that a read of `id` gives by one, and leaves the
/// count of every other id as it was (ids other than the free-slot marker `usize::MAX`).
pub proof fn law_record_one_counts(s: Seq<(usize, usize)>, id: usize, other: usize)
    requires
        can_record(s, id),
        id != usize::MAX,
        other != usize::MAX,
        other != id,
    ensures
        recorded_count(record_one(s, id), id) == recorded_count(s, id) + 1,
        recorded_count(record_one(s, id), other) == recorded_count(s, other),
{
    lemma_find_slot(s, id);
    lemma_find_slot(s, other);
    lemma_find_slot(s, usize::MAX);
    let t = record_one(s, id);
    let k = find_slot(s, id);
    let ko = find_slot(s, other);
    if k < s.len() {
        assert(t == s.update(k, (id, (s[k].1 + 1) as usize)));
        lemma_find_slot_unique(t, id, k);
        assert(forall|j: int| 0 <= j < ko ==> t[j].0 != other);
        if ko < s.len() {
            assert(ko != k);
            assert(t[ko] == s[ko]);
        } else {
            assert(forall|j: int| 0 <= j < t.len() ==> t[j].0 != other);
        }
        lemma_find_slot_unique(t, other, ko);
    } else {
        let f = find_slot(s, usize::MAX);
        assert(t == s.update(f, (id, 1usize)));
        assert(forall|j: int| 0 <= j < f ==> t[j].0 != id);
        lemma_find_slot_unique(t, id, f);
        assert(forall|j: int| 0 <= j < ko ==> t[j].0 != other);
        if ko < s.len() {
            assert(ko != f);
            assert(t[ko] == s[ko]);
        }
        lemma_find_slot_unique(t, other, ko);
    }
}

impl TaskSyscallCount {
    /// A table with every slot free.
    pub fn zero_init() -> (r: Self)
        ensures
            forall|i: int| 0 <= i < MAX_SYSCALL_NUM ==> r.0@[i] == (usize::MAX, 0usize),
            forall|id: usize| recorded_count(r.0@, id) == 0,
            table_ok(r.0@),
    {
        let r = TaskSyscallCount([(usize::MAX, 0); MAX_SYSCALL_NUM]);
        assert forall|id: usize| recorded_count(r.0@, id) == 0 by {
            lemma_find_slot(r.0@, id);
        }
        r
    }

    /// Records one more call of `syscall_id`: the count in its slot goes up by one, or, where
    /// it has none yet, the first free slot becomes its slot with a count of one.
    pub fn add_syscall_id_count(&mut self, syscall_id: usize)
        requires
            can_record(old(self).0@, syscall_id),
        ensures
            final(self).0@ == record_one(old(self).0@, syscall_id),
            table_ok(old(self).0@) && syscall_id != usize::MAX ==> table_ok(final(self).0@),
    {
        proof {
            lemma_find_slot(self.0@, syscall_id);
            lemma_find_slot(self.0@, usize::MAX);
            if table_ok(self.0@) && syscall_id != usize::MAX {
                law_record_keeps_table_ok(self.0@, syscall_id);
            }
        }
        let mut i: usize = 0;
        while i < MAX_SYSCALL_NUM
            invariant
                0 <= i <= MAX_SYSCALL_NUM,
                self.0 == old(self).0,
                forall|k: int| 0 <= k < i ==> self.0@[k].0 != syscall_id,
                can_record(old(self).0@, syscall_id),
                0 <= find_slot(self.0@, syscall_id) <= MAX_SYSCALL_NUM,
                find_slot(self.0@, syscall_id) < MAX_SYSCALL_NUM ==> self.0@[find_slot(
                    self.0@,
                    syscall_id,
                )].0 == syscall_id,
            decreases MAX_SYSCALL_NUM - i,
        {
            if self.0[i].0 == syscall_id {
                proof {
                    lemma_find_slot_unique(self.0@, syscall_id, i as int);
                }
                let v = self.0[i].1;
                self.0[i] = (syscall_id, v + 1);
                return;
            }
            i = i + 1;
        }
        proof {
            lemma_find_slot_unique(self.0@, syscall_id, MAX_SYSCALL_NUM as int);
        }
        let mut j: usize = 0;
        while j < MAX_SYSCALL_NUM
            invariant
                0 <= j <= MAX_SYSCALL_NUM,
                self.0 == old(self).0,
                find_slot(self.0@, syscall_id) == MAX_SYSCALL_NUM,
                forall|k: int| 0 <= k < j ==> self.0@[k].0 != usize::MAX,
                find_slot(self.0@, usize::MAX) < MAX_SYSCALL_NUM,
                self.0@[find_slot(self.0@, usize::MAX)].0 == usize::MAX,
                table_ok(old(self).0@) && syscall_id != usize::MAX ==> table_ok(
                    record_one(old(self).0@, syscall_id),
                ),
            decreases MAX_SYSCALL_NUM - j,
        {
            if self.0[j].0 == usize::MAX {
                proof {
                    lemma_find_slot_unique(self.0@, usize::MAX, j as int);
                }
                self.0[j] = (syscall_id, 1);
                return;
            }
            j = j + 1;
        }
        proof {
            lemma_find_slot(self.0@, usize::MAX);
        }
    }

    /// The number of recorded calls of `syscall_id`.
    pub fn read_syscall_id_count(&self, syscall_id: usize) -> (r: usize)
        ensures
            r == recorded_count(self.0@, syscall_id),
    {
        let mut i: usize = 0;
        while i < MAX_SYSCALL_NUM
            invariant
                0 <= i <= MAX_SYSCALL_NUM,
                forall|k: int| 0 <= k < i ==> self.0@[k].0 != syscall_id,
            decreases MAX_SYSCALL_NUM - i,
        {
            if self.0[i].0 == syscall_id {
                proof {
                    lemma_find_slot_unique(self.0@, syscall_id, i as int);
                }
                return self.0[i].1;
            }
            i = i + 1;
        }
        proof {
            lemma_find_slot_unique(self.0@, syscall_id, MAX_SYSCALL_NUM as int);
        }
        0
    }
}

} // verus!
