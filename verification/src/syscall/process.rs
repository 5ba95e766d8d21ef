use vstd::prelude::*;

use crate::config::{PAGE_SIZE, PTES_PER_TABLE};
use crate::sync::{detector_view, MutexKind, ProcessSync};
use crate::mm::{
    areas_ok, ceil_vpn, floor_vpn, is_mapped, lemma_area_starting_unique,
    leaves_after_map, translate_spec, va_ceil, va_floor, va_of, virt_addr, without_area_at,
    MapArea, MemorySet,
};

verus! {

/// A time of day as seconds and microseconds.
#[derive(Clone, Copy, PartialEq, Eq, Structural, Debug)]
pub struct TimeVal {
    pub sec: usize,
    pub usec: usize,
}

/// What a process knows of one of its children: its id, whether it has exited (and waits to be
/// reaped), and its exit code.
#[derive(Clone, Copy, PartialEq, Eq, Structural, Debug)]
pub struct ChildProcess {
    pub pid: usize,
    pub exited: bool,
    pub exit_code: i32,
}

/// What the kernel does next on behalf of the calling task.
#[derive(Clone, Copy, PartialEq, Eq, Structural, Debug)]
pub enum ProcessAction {
    /// Nothing more: the call is answered.
    Nothing,
    /// End the task with this exit code and run another.
    Exit(i32),
    /// Put the task back in the ready queue and run another.
    Yield,
    /// Replace the task's program with application `.0`.
    Exec(usize),
    /// Make a copy of the task with process id `.0`; the copy sees 0 as the call's answer.
    Fork(usize),
    /// Start application `.1` as a new child with process id `.0`.
    Spawn(usize, usize),
}

/// Ends the calling task with `exit_code`.
pub fn sys_exit(exit_code: i32) -> (r: ProcessAction)
    ensures
        r == ProcessAction::Exit(exit_code),
{
    ProcessAction::Exit(exit_code)
}

/// Gives up the processor to other tasks; answers 0.
pub fn sys_yield() -> (r: (isize, ProcessAction))
    ensures
        r == (0isize, ProcessAction::Yield),
{
    (0, ProcessAction::Yield)
}

/// The calling process's id.
pub fn sys_getpid(pid: usize) -> (r: isize)
    ensures
        r == pid as isize,
{
    pid as isize
}

/// Forks the calling process: the child, with process id `new_pid`, joins the list of
/// children, and the call answers its id. The child starts with synchronization state of its
/// own: no mutex, semaphore or condition variable, detection off, and blank detectors.
pub fn sys_fork(children: &mut Vec<ChildProcess>, new_pid: usize) -> (r: (isize, ProcessAction, ProcessSync))
    ensures
        r.0 == new_pid as isize,
        r.1 == ProcessAction::Fork(new_pid),
        r.2.wf(),
        r.2.mutex_list@ == Seq::<Option<MutexKind>>::empty(),
        r.2.semaphore_list@ == Seq::<Option<usize>>::empty(),
        r.2.condvar_list@ == Seq::<bool>::empty(),
        !r.2.deadlock_detect,
        detector_view(&r.2, 0) == (Seq::<i32>::empty(), Seq::<Seq<i32>>::empty(), Seq::<Seq<i32>>::empty()),
        detector_view(&r.2, 1) == (Seq::<i32>::empty(), Seq::<Seq<i32>>::empty(), Seq::<Seq<i32>>::empty()),
        final(children)@ == old(children)@.push(ChildProcess { pid: new_pid, exited: false, exit_code: 0 }),
{
    children.push(ChildProcess { pid: new_pid, exited: false, exit_code: 0 });
    (new_pid as isize, ProcessAction::Fork(new_pid), ProcessSync::new())
}

/// Index of the first application at or after `i` named `name`, or `names.len()`.
pub open spec fn find_app_from(names: Seq<Seq<char>>, name: Seq<char>, i: int) -> int
    decreases names.len() - i,
{
    if i < 0 || i >= names.len() {
        names.len() as int
    } else if names[i] == name {
        i
    } else {
        find_app_from(names, name, i + 1)
    }
}

/// Index of the first application named `name`, or `names.len()`.
pub open spec fn find_app(names: Seq<Seq<char>>, name: Seq<char>) -> int {
    find_app_from(names, name, 0)
}

/// The names of the applications, each by its view.
pub open spec fn names_view(app_names: &Vec<String>) -> Seq<Seq<char>> {
    Seq::new(app_names.len() as nat, |i: int| app_names[i]@)
}

proof fn lemma_find_app_unique(names: Seq<Seq<char>>, name: Seq<char>, k: int)
    requires
        0 <= k <= names.len(),
        k < names.len() ==> names[k] == name,
        forall|j: int| 0 <= j < k ==> names[j] != name,
    ensures
        find_app(names, name) == k,
{
    assert forall|i: int| 0 <= i <= k implies find_app_from(names, name, i) == k by {
        lemma_find_app_from_reaches(names, name, i, k);
    }
}

proof fn lemma_find_app_from_reaches(names: Seq<Seq<char>>, name: Seq<char>, i: int, k: int)
    requires
        0 <= i <= k <= names.len(),
        k < names.len() ==> names[k] == name,
        forall|j: int| 0 <= j < k ==> names[j] != name,
    ensures
        find_app_from(names, name, i) == k,
    decreases k - i,
{
    if i < k {
        lemma_find_app_from_reaches(names, name, i + 1, k);
    }
}

/// The index of the first application named `path`.
pub fn get_app_by_name(app_names: &Vec<String>, path: &str) -> (r: Option<usize>)
    ensures
        ({
            let k = find_app(names_view(app_names), path@);
            r == if k < app_names@.len() {
                Some(k as usize)
            } else {
                None::<usize>
            }
        }),
{
    let key = path.to_owned();
    let ghost names = names_view(app_names);
    let mut i: usize = 0;
    while i < app_names.len()
        invariant
            0 <= i <= app_names@.len(),
            names == names_view(app_names),
            key@ == path@,
            forall|j: int| 0 <= j < i ==> names[j] != path@,
        decreases app_names.len() - i,
    {
        assert(names[i as int] == app_names@[i as int]@);
        if app_names[i] == key {
            proof {
                lemma_find_app_unique(names, path@, i as int);
            }
            return Some(i);
        }
        i = i + 1;
    }
    proof {
        lemma_find_app_unique(names, path@, i as int);
    }
    None
}

/// Replaces the program of the calling task with the application named `path`: 0 where there
/// is one, -1 otherwise.
pub fn sys_exec(app_names: &Vec<String>, path: &str) -> (r: (isize, ProcessAction))
    ensures
        ({
            let k = find_app(names_view(app_names), path@);
            r == if k < app_names@.len() {
                (0isize, ProcessAction::Exec(k as usize))
            } else {
                (-1isize, ProcessAction::Nothing)
            }
        }),
{
    match get_app_by_name(app_names, path) {
        Some(i) => (0, ProcessAction::Exec(i)),
        None => (-1, ProcessAction::Nothing),
    }
}

/// Starts the application named `path` as a new child with process id `new_pid` and answers
/// that id; -1 where there is no such application.
pub fn sys_spawn(
    children: &mut Vec<ChildProcess>,
    app_names: &Vec<String>,
    path: &str,
    new_pid: usize,
) -> (r: (isize, ProcessAction))
    ensures
        ({
            let k = find_app(names_view(app_names), path@);
            if k < app_names@.len() {
                &&& r == (new_pid as isize, ProcessAction::Spawn(new_pid, k as usize))
                &&& final(children)@ == old(children)@.push(ChildProcess { pid: new_pid, exited: false, exit_code: 0 })
            } else {
                r == (-1isize, ProcessAction::Nothing) && final(children)@ == old(children)@
            }
        }),
{
    let app = match get_app_by_name(app_names, path) {
        Some(i) => i,
        None => return (-1, ProcessAction::Nothing),
    };
    children.push(ChildProcess { pid: new_pid, exited: false, exit_code: 0 });
    (new_pid as isize, ProcessAction::Spawn(new_pid, app))
}

/// Child `c` is one that `waitpid(pid)` waits for: any child for -1, else the one with that id.
pub open spec fn pid_matches(pid: isize, c: ChildProcess) -> bool {
    pid == -1 || pid as usize == c.pid
}

/// Index of the first child at or after `i` that matches `pid` and has exited, or the length.
pub open spec fn first_exited_from(children: Seq<ChildProcess>, pid: isize, i: int) -> int
    decreases children.len() - i,
{
    if i < 0 || i >= children.len() {
        children.len() as int
    } else if children[i].exited && pid_matches(pid, children[i]) {
        i
    } else {
        first_exited_from(children, pid, i + 1)
    }
}

/// Index of the first child that matches `pid` and has exited, or the length.
pub open spec fn first_exited(children: Seq<ChildProcess>, pid: isize) -> int {
    first_exited_from(children, pid, 0)
}

proof fn lemma_first_exited_reaches(children: Seq<ChildProcess>, pid: isize, i: int, k: int)
    requires
        0 <= i <= k <= children.len(),
        k < children.len() ==> children[k].exited && pid_matches(pid, children[k]),
        forall|j: int| 0 <= j < k ==> !(children[j].exited && pid_matches(pid, children[j])),
    ensures
        first_exited_from(children, pid, i) == k,
    decreases k - i,
{
    if i < k {
        lemma_first_exited_reaches(children, pid, i + 1, k);
    }
}

/// Waits for a child: where none matches `pid` (-1 matches every child), answers -1; where a
/// matching child has exited, the first one is reaped and the call answers its id and hands
/// back its exit code; otherwise answers -2.
pub fn sys_waitpid(children: &mut Vec<ChildProcess>, pid: isize) -> (r: (isize, Option<i32>))
    ensures
        ({
            let cs = old(children)@;
            let k = first_exited(cs, pid);
            if !exists|i: int| 0 <= i < cs.len() && pid_matches(pid, #[trigger] cs[i]) {
                r == (-1isize, None::<i32>) && final(children)@ == cs
            } else if k < cs.len() {
                &&& r == (cs[k].pid as isize, Some(cs[k].exit_code))
                &&& final(children)@ == cs.remove(k)
            } else {
                r == (-2isize, None::<i32>) && final(children)@ == cs
            }
        }),
{
    let ghost cs = children@;
    let mut any = false;
    let mut i: usize = 0;
    while i < children.len()
        invariant
            0 <= i <= cs.len(),
            children@ == cs,
            any == exists|j: int| 0 <= j < i && pid_matches(pid, #[trigger] cs[j]),
        decreases children.len() - i,
    {
        let matches = pid == -1 || pid as usize == children[i].pid;
        assert(matches == pid_matches(pid, cs[i as int]));
        if matches {
            any = true;
        }
        assert(any == exists|j: int| 0 <= j < i + 1 && pid_matches(pid, #[trigger] cs[j])) by {
            if matches {
                assert(pid_matches(pid, cs[i as int]));
            }
        }
        i = i + 1;
    }
    if !any {
        return (-1, None);
    }
    let mut idx: usize = 0;
    while idx < children.len()
        invariant
            0 <= idx <= cs.len(),
            children@ == cs,
            cs == old(children)@,
            exists|j: int| 0 <= j < cs.len() && pid_matches(pid, #[trigger] cs[j]),
            forall|j: int| 0 <= j < idx ==> !(cs[j].exited && pid_matches(pid, cs[j])),
        decreases children.len() - idx,
    {
        if children[idx].exited && (pid == -1 || pid as usize == children[idx].pid) {
            proof {
                lemma_first_exited_reaches(cs, pid, 0, idx as int);
            }
            let child = children.remove(idx);
            return (child.pid as isize, Some(child.exit_code));
        }
        idx = idx + 1;
    }
    proof {
        lemma_first_exited_reaches(cs, pid, 0, idx as int);
    }
    (-2, None)
}

/// Splits a time in microseconds into seconds and microseconds; answers 0.
pub fn sys_get_time(us: usize) -> (r: (isize, TimeVal))
    ensures
        r == (0isize, TimeVal { sec: us / 1_000_000, usec: us % 1_000_000 }),
{
    (0, TimeVal { sec: us / 1_000_000, usec: us % 1_000_000 })
}

/// The `n` lowest bytes of `v`, least significant first.
pub open spec fn le_bytes(v: nat, n: nat) -> Seq<u8>
    decreases n,
{
    if n == 0 {
        Seq::empty()
    } else {
        seq![(v % 256) as u8] + le_bytes(v / 256, (n - 1) as nat)
    }
}

/// The number of bytes in a `usize`.
pub open spec fn usize_bytes() -> nat {
    (usize::BITS / 8) as nat
}

/// The bytes of a `TimeVal` in user memory on the little-endian target: `sec`, then `usec`,
/// each as a `usize`.
pub open spec fn time_val_layout(tv: TimeVal) -> Seq<u8> {
    le_bytes(tv.sec as nat, usize_bytes()) + le_bytes(tv.usec as nat, usize_bytes())
}

/// The sum of the first `i` of `lens`.
pub open spec fn prefix_len(lens: Seq<usize>, i: int) -> int
    decreases i,
{
    if i <= 0 {
        0
    } else {
        prefix_len(lens, i - 1) + lens[i - 1]
    }
}

/// Where chunk `i` of a buffer split into pieces of lengths `lens` starts, counted in the
/// `total` bytes that are copied into it (none past the end).
pub open spec fn chunk_start(lens: Seq<usize>, total: int, i: int) -> int {
    if prefix_len(lens, i) < total {
        prefix_len(lens, i)
    } else {
        total
    }
}

/// Appends the `n` lowest bytes of `v`, least significant first.
fn push_le_bytes(out: &mut Vec<u8>, v: usize, n: usize)
    ensures
        final(out)@ == old(out)@ + le_bytes(v as nat, n as nat),
{
    let mut x = v;
    let mut i: usize = 0;
    while i < n
        invariant
            i <= n,
            out@ + le_bytes(x as nat, (n - i) as nat) == old(out)@ + le_bytes(v as nat, n as nat),
        decreases n - i,
    {
        let ghost before = out@;
        let ghost rest = le_bytes(x as nat / 256, (n - i - 1) as nat);
        assert(le_bytes(x as nat, (n - i) as nat) == seq![(x as nat % 256) as u8] + rest);
        out.push((x % 256) as u8);
        assert(before + le_bytes(x as nat, (n - i) as nat) =~= out@ + rest);
        x = x / 256;
        i = i + 1;
    }
    assert(out@ =~= out@ + le_bytes(x as nat, 0));
}

/// The bytes of `tv` as they lie in user memory, cut into pieces for a user buffer that is split
/// (at page boundaries) into chunks of lengths `chunk_lens`: each chunk gets the next bytes, as
/// many as fit and are left.
pub fn time_val_chunks(tv: &TimeVal, chunk_lens: &Vec<usize>) -> (r: Vec<Vec<u8>>)
    ensures
        r@.len() == chunk_lens@.len(),
        forall|i: int|
            0 <= i < chunk_lens@.len() ==> (#[trigger] r@[i])@ == time_val_layout(*tv).subrange(
                chunk_start(chunk_lens@, time_val_layout(*tv).len() as int, i),
                chunk_start(chunk_lens@, time_val_layout(*tv).len() as int, i + 1),
            ),
{
    let width = (usize::BITS / 8) as usize;
    let mut bytes: Vec<u8> = Vec::new();
    push_le_bytes(&mut bytes, tv.sec, width);
    push_le_bytes(&mut bytes, tv.usec, width);
    let ghost layout = time_val_layout(*tv);
    assert(bytes@ =~= layout);
    let total = bytes.len();
    let ghost lens = chunk_lens@;
    let mut out: Vec<Vec<u8>> = Vec::new();
    let mut copied: usize = 0;
    let mut i: usize = 0;
    while i < chunk_lens.len()
        invariant
            lens == chunk_lens@,
            bytes@ == layout,
            total == layout.len(),
            i <= lens.len(),
            out@.len() == i,
            copied == chunk_start(lens, total as int, i as int),
            copied <= total,
            forall|k: int|
                0 <= k < i ==> (#[trigger] out@[k])@ == layout.subrange(
                    chunk_start(lens, total as int, k),
                    chunk_start(lens, total as int, k + 1),
                ),
        decreases chunk_lens.len() - i,
    {
        let room = total - copied;
        let n = if chunk_lens[i] < room {
            chunk_lens[i]
        } else {
            room
        };
        assert(prefix_len(lens, i + 1) == prefix_len(lens, i as int) + lens[i as int]);
        assert(copied + n == chunk_start(lens, total as int, i + 1));
        let mut c: Vec<u8> = Vec::new();
        let mut k: usize = 0;
        while k < n
            invariant
                k <= n,
                copied + n <= total,
                bytes@ == layout,
                total == layout.len(),
                c@ == layout.subrange(copied as int, copied + k),
            decreases n - k,
        {
            c.push(bytes[copied + k]);
            k = k + 1;
            assert(c@ =~= layout.subrange(copied as int, copied + k));
        }
        out.push(c);
        copied = copied + n;
        i = i + 1;
    }
    out
}

/// Answers the old program break where moving it succeeded (`old_brk` is `Some`), -1 otherwise.
pub fn sys_sbrk(old_brk: Option<usize>) -> (r: isize)
    ensures
        r == match old_brk {
            Some(b) => b as isize,
            None => -1isize,
        },
{
    if let Some(old_break) = old_brk {
        old_break as isize
    } else {
        -1
    }
}

/// Sets the calling task's priority to `prio` and answers it; a priority below 2 is refused
/// with -1 and changes nothing.
pub fn sys_set_priority(task_prio: &mut usize, prio: isize) -> (r: isize)
    ensures
        prio < 2 ==> r == -1 && *final(task_prio) == *old(task_prio),
        prio >= 2 ==> r == prio && *final(task_prio) == prio as usize,
{
    if prio < 2 {
        return -1;
    }
    *task_prio = prio as usize;
    prio
}

/// The pages that a request for `len` bytes at `start` covers: from the page of `start` up to
/// the page at or after its end.
pub open spec fn page_range(start: usize, len: usize) -> (usize, usize) {
    (floor_vpn(va_of(start)), ceil_vpn(va_of((start + len) as usize)))
}

/// No page of `s .. e` is mapped.
pub open spec fn range_unmapped(ms: &MemorySet, s: usize, e: usize) -> bool {
    forall|vpn: usize| s <= vpn < e ==> translate_spec(ms.areas@, ms.leaf_tables@, vpn) != Some(true)
}

/// The arguments of `mmap` are refused at once: `start` is not page-aligned, or `prot` has a
/// bit above the read, write and execute bits, or none of them.
pub open spec fn mmap_args_bad(start: usize, prot: usize) -> bool {
    start % PAGE_SIZE != 0 || prot & !0x7usize != 0 || prot & 0x7usize == 0
}

/// Maps `len` bytes at `start` with the permissions `prot` (bit 0 read, 1 write, 2 execute),
/// given `free_frames` free physical pages. Answers -1 for bad arguments, for too few free
/// pages, or where a page of the range is mapped already; 0 for `len == 0` (mapping nothing)
/// and on success, where the range becomes a new user-accessible area.
pub fn sys_mmap(ms: &mut MemorySet, start: usize, len: usize, prot: usize, free_frames: usize) -> (r: isize)
    requires
        !mmap_args_bad(start, prot) && len != 0 ==> len + PAGE_SIZE <= usize::MAX,
        !mmap_args_bad(start, prot) && len != 0 && (len + PAGE_SIZE - 1) / PAGE_SIZE as int <= free_frames
            ==> start + len <= usize::MAX,
    ensures
        ({
            let (s, e) = page_range(start, len);
            if mmap_args_bad(start, prot) {
                r == -1 && final(ms).areas@ == old(ms).areas@ && final(ms).leaf_tables@ == old(ms).leaf_tables@
            } else if len == 0 {
                r == 0 && final(ms).areas@ == old(ms).areas@ && final(ms).leaf_tables@ == old(ms).leaf_tables@
            } else if (len + PAGE_SIZE - 1) / PAGE_SIZE as int > free_frames || !range_unmapped(old(ms), s, e) {
                r == -1 && final(ms).areas@ == old(ms).areas@ && final(ms).leaf_tables@ == old(ms).leaf_tables@
            } else {
                &&& r == 0
                &&& final(ms).areas@ == old(ms).areas@.push(
                    MapArea { start_vpn: s, end_vpn: e, perm: (((prot as u8) << 1u8) | 0x10u8) as u8 },
                )
                &&& final(ms).leaf_tables@.to_set() == leaves_after_map(old(ms).leaf_tables@, s, e)
            }
        }),
{
    if (start % PAGE_SIZE != 0) || (prot & !0x7 != 0) || (prot & 0x7 == 0) {
        return -1;
    }
    if len == 0 {
        return 0;
    }
    let required_pages = (len + PAGE_SIZE - 1) / PAGE_SIZE;
    if required_pages > free_frames {
        return -1;
    }
    let start_va = virt_addr(start);
    let start_vpn = va_floor(start_va);
    let end_va = virt_addr(start + len);
    let end_vpn = va_ceil(end_va);
    let mut cur_vpn = start_vpn;
    while cur_vpn < end_vpn
        invariant
            start_vpn <= cur_vpn,
            len != 0,
            !mmap_args_bad(start, prot),
            required_pages <= free_frames,
            required_pages == (len + PAGE_SIZE - 1) / PAGE_SIZE as int,
            (start_vpn, end_vpn) == page_range(start, len),
            ms.areas@ == old(ms).areas@,
            ms.leaf_tables@ == old(ms).leaf_tables@,
            forall|v: usize| start_vpn <= v < cur_vpn ==> translate_spec(ms.areas@, ms.leaf_tables@, v) != Some(true),
        decreases end_vpn - cur_vpn,
    {
        if let Some(valid) = ms.translate(cur_vpn) {
            if valid {
                assert(!range_unmapped(ms, start_vpn, end_vpn));
                return -1;
            }
        }
        cur_vpn = cur_vpn + 1;
    }
    let map_permission = ((prot as u8) << 1u8) | 0x10u8;
    ms.insert_framed_area(start_vpn, end_vpn, map_permission);
    0
}

/// Unmaps page by page from `vpn` to `end`: a page whose entry exists but is not valid stops
/// the work with -1; every other page has the area that starts at it, if any, unmapped.
pub open spec fn unmap_pages(areas: Seq<MapArea>, leaf_tables: Seq<usize>, vpn: int, end: int) -> (Seq<MapArea>, isize)
    decreases end - vpn,
{
    if vpn >= end || vpn < 0 || vpn > usize::MAX {
        (areas, 0isize)
    } else if translate_spec(areas, leaf_tables, vpn as usize) == Some(false) {
        (areas, -1isize)
    } else {
        unmap_pages(without_area_at(areas, vpn as usize), leaf_tables, vpn + 1, end)
    }
}

/// Unmapping the pages that a successful mmap has just mapped takes its area away again, and
/// the areas are as they were before the mmap. The answer is 0 for a single page; for more
/// pages, those after the first are found unmapped once the area is gone, and it is -1.
pub proof fn law_munmap_undoes_mmap(
    areas: Seq<MapArea>,
    leaf_tables: Seq<usize>,
    new_leaf_tables: Seq<usize>,
    s: usize,
    e: usize,
    perm: u8,
)
    requires
        s < e,
        areas_ok(areas, leaf_tables),
        forall|v: usize| s <= v < e ==> translate_spec(areas, leaf_tables, v) != Some(true),
        new_leaf_tables.to_set() == leaves_after_map(leaf_tables, s, e),
    ensures
        unmap_pages(areas.push(MapArea { start_vpn: s, end_vpn: e, perm }), new_leaf_tables, s as int, e as int)
            == (areas, if e == s + 1 { 0isize } else { -1isize }),
{
    let mapped = areas.push(MapArea { start_vpn: s, end_vpn: e, perm });
    assert(new_leaf_tables.to_set().contains((s / PTES_PER_TABLE) as usize));
    assert(mapped[areas.len() as int].contains_vpn(s));
    assert(is_mapped(mapped, s));
    assert forall|j: int| 0 <= j < areas.len() implies areas[j].start_vpn != s by {
        if areas[j].start_vpn == s {
            assert(areas[j].start_vpn < areas[j].end_vpn);
            assert(areas[j].contains_vpn(s));
            assert(leaf_tables.contains((s / PTES_PER_TABLE) as usize));
            assert(is_mapped(areas, s));
            assert(translate_spec(areas, leaf_tables, s) == Some(true));
        }
    }
    assert forall|j: int| 0 <= j < areas.len() as int implies mapped[j].start_vpn != s by {
        assert(mapped[j] == areas[j]);
    }
    lemma_area_starting_unique(mapped, s, areas.len() as int);
    assert(without_area_at(mapped, s) =~= areas);
    assert(unmap_pages(mapped, new_leaf_tables, s as int, e as int) == unmap_pages(
        areas,
        new_leaf_tables,
        s + 1,
        e as int,
    ));
    if s + 1 < e {
        let v = (s + 1) as usize;
        assert(new_leaf_tables.to_set().contains((v / PTES_PER_TABLE) as usize));
        if is_mapped(areas, v) {
            let i = choose|i: int| 0 <= i < areas.len() && #[trigger] areas[i].contains_vpn(v);
            assert(leaf_tables.contains((v / PTES_PER_TABLE) as usize));
            assert(translate_spec(areas, leaf_tables, v) == Some(true));
        }
        assert(translate_spec(areas, new_leaf_tables, v) == Some(false));
        assert(unmap_pages(areas, new_leaf_tables, s + 1, e as int) == (areas, -1isize));
    } else {
        assert(unmap_pages(areas, new_leaf_tables, s + 1, e as int) == (areas, 0isize));
    }
}

/// Unmaps `len` bytes at `start`: -1 where `start` is not page-aligned; 0 for `len == 0`;
/// otherwise page by page as `unmap_pages` says (the areas unmapped before a refusal stay
/// unmapped).
pub fn sys_munmap(ms: &mut MemorySet, start: usize, len: usize) -> (r: isize)
    requires
        start % PAGE_SIZE == 0 && len != 0 ==> start + len <= usize::MAX,
    ensures
        final(ms).leaf_tables@ == old(ms).leaf_tables@,
        ({
            let (s, e) = page_range(start, len);
            if start % PAGE_SIZE != 0 {
                r == -1 && final(ms).areas@ == old(ms).areas@
            } else if len == 0 {
                r == 0 && final(ms).areas@ == old(ms).areas@
            } else {
                (final(ms).areas@, r) == unmap_pages(old(ms).areas@, old(ms).leaf_tables@, s as int, e as int)
            }
        }),
{
    if start % PAGE_SIZE != 0 {
        return -1;
    }
    if len == 0 {
        return 0;
    }
    let start_va = virt_addr(start);
    let start_vpn = va_floor(start_va);
    let end_va = virt_addr(start + len);
    let end_vpn = va_ceil(end_va);
    let ghost leaves = ms.leaf_tables@;
    let mut cur_vpn = start_vpn;
    while cur_vpn < end_vpn
        invariant
            start_vpn <= cur_vpn,
            start % PAGE_SIZE == 0,
            len != 0,
            (start_vpn, end_vpn) == page_range(start, len),
            ms.leaf_tables@ == leaves,
            leaves == old(ms).leaf_tables@,
            unmap_pages(ms.areas@, leaves, cur_vpn as int, end_vpn as int) == unmap_pages(
                old(ms).areas@,
                leaves,
                start_vpn as int,
                end_vpn as int,
            ),
        decreases end_vpn - cur_vpn,
    {
        if let Some(valid) = ms.translate(cur_vpn) {
            if !valid {
                return -1;
            }
        }
        ms.remove_area_with_start_vpn(cur_vpn);
        cur_vpn = cur_vpn + 1;
    }
    0
}

} // verus!
