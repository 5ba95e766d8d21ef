use vstd::prelude::*;

use crate::config::{PAGE_SIZE, PTES_PER_TABLE};

verus! {

/// A virtual address as the MMU sees it: the low 39 bits of `v`.
pub open spec fn va_of(v: usize) -> usize {
    (v as int % 0x80_0000_0000int) as usize
}

/// The page that holds virtual address `va` (rounding down).
pub open spec fn floor_vpn(va: usize) -> usize {
    (va / PAGE_SIZE) as usize
}

/// The first page at or after virtual address `va` (rounding up).
pub open spec fn ceil_vpn(va: usize) -> usize {
    if va == 0 {
        0
    } else {
        ((va - 1 + PAGE_SIZE) / PAGE_SIZE as int) as usize
    }
}

/// The low 39 bits of `v`.
pub fn virt_addr(v: usize) -> (r: usize)
    ensures
        r == va_of(v),
{
    let r = (v as u64) % 0x80_0000_0000u64;
    assert(r <= v);
    r as usize
}

/// The page that holds `va`.
pub fn va_floor(va: usize) -> (r: usize)
    ensures
        r == floor_vpn(va),
{
    va / PAGE_SIZE
}

/// The first page at or after `va`.
pub fn va_ceil(va: usize) -> (r: usize)
    ensures
        r == ceil_vpn(va),
{
    let q = va / PAGE_SIZE;
    let m = va % PAGE_SIZE;
    assert(va == PAGE_SIZE * q + m && m < PAGE_SIZE);
    assert(q * PAGE_SIZE <= va);
    if m == 0 {
        assert(va > 0 ==> (va - 1 + PAGE_SIZE) / PAGE_SIZE as int == q);
        q
    } else {
        assert((va - 1 + PAGE_SIZE) / PAGE_SIZE as int == q + 1);
        q + 1
    }
}

/// A mapped area: pages `start_vpn .. end_vpn` with permission bits `perm`.
#[derive(Clone, Copy, PartialEq, Eq, Structural, Debug)]
pub struct MapArea {
    pub start_vpn: usize,
    pub end_vpn: usize,
    pub perm: u8,
}

impl MapArea {
    /// Page `vpn` lies in this area.
    pub open spec fn contains_vpn(self, vpn: usize) -> bool {
        self.start_vpn <= vpn < self.end_vpn
    }
}

/// The address space of a task: its mapped areas, and the last-level page-table pages that
/// exist (by `vpn / 512`; they stay once made).
pub struct MemorySet {
    pub areas: Vec<MapArea>,
    pub leaf_tables: Vec<usize>,
}

/// Every area holds at least one page, and every page of an area has its last-level table.
pub open spec fn areas_ok(areas: Seq<MapArea>, leaf_tables: Seq<usize>) -> bool {
    forall|i: int|
        0 <= i < areas.len() ==> {
            &&& (#[trigger] areas[i]).start_vpn < areas[i].end_vpn
            &&& forall|v: usize| areas[i].contains_vpn(v) ==> leaf_tables.contains((v / PTES_PER_TABLE) as usize)
        }
}

/// Page `vpn` lies in some area.
pub open spec fn is_mapped(areas: Seq<MapArea>, vpn: usize) -> bool {
    exists|i: int| 0 <= i < areas.len() && #[trigger] areas[i].contains_vpn(vpn)
}

/// What a page-table walk finds for page `vpn`: nothing where the last-level table is missing,
/// otherwise whether the entry is valid.
pub open spec fn translate_spec(areas: Seq<MapArea>, leaf_tables: Seq<usize>, vpn: usize) -> Option<bool> {
    if leaf_tables.contains((vpn / PTES_PER_TABLE) as usize) {
        Some(is_mapped(areas, vpn))
    } else {
        None
    }
}

/// Index of the first area at or after `i` that starts at `vpn`, or `areas.len()`.
pub open spec fn area_starting_from(areas: Seq<MapArea>, vpn: usize, i: int) -> int
    decreases areas.len() - i,
{
    if i < 0 || i >= areas.len() {
        areas.len() as int
    } else if areas[i].start_vpn == vpn {
        i
    } else {
        area_starting_from(areas, vpn, i + 1)
    }
}

/// Index of the first area that starts at `vpn`, or `areas.len()`.
pub open spec fn area_starting(areas: Seq<MapArea>, vpn: usize) -> int {
    area_starting_from(areas, vpn, 0)
}

/// The areas after the first one that starts at `vpn`, if any, is unmapped.
pub open spec fn without_area_at(areas: Seq<MapArea>, vpn: usize) -> Seq<MapArea> {
    let k = area_starting(areas, vpn);
    if k < areas.len() {
        areas.remove(k)
    } else {
        areas
    }
}

/// The last-level tables once pages `start .. end` are mapped: those that cover them are made.
pub open spec fn leaves_after_map(leaf_tables: Seq<usize>, start: usize, end: usize) -> Set<usize> {
    leaf_tables.to_set().union(
        Set::new(|l: usize| start < end && start / PTES_PER_TABLE <= l <= (end - 1) / PTES_PER_TABLE as int),
    )
}

proof fn lemma_push_to_set(s: Seq<usize>, x: usize)
    ensures
        s.push(x).to_set() =~= s.to_set().insert(x),
{
    assert forall|y: usize| #[trigger] s.push(x).to_set().contains(y) == s.to_set().insert(x).contains(y) by {
        if s.contains(y) {
            let k = choose|k: int| 0 <= k < s.len() && s[k] == y;
            assert(s.push(x)[k] == y);
        }
        if y == x {
            assert(s.push(x)[s.len() as int] == x);
        }
        if s.push(x).contains(y) {
            let k = choose|k: int| 0 <= k < s.push(x).len() && s.push(x)[k] == y;
            if k < s.len() {
                assert(s[k] == y);
            }
        }
    }
}

proof fn lemma_area_starting_from(areas: Seq<MapArea>, vpn: usize, i: int)
    requires
        0 <= i <= areas.len(),
    ensures
        i <= area_starting_from(areas, vpn, i) <= areas.len(),
        area_starting_from(areas, vpn, i) < areas.len() ==> areas[area_starting_from(areas, vpn, i)].start_vpn == vpn,
        forall|k: int| i <= k < area_starting_from(areas, vpn, i) ==> areas[k].start_vpn != vpn,
    decreases areas.len() - i,
{
    if i < areas.len() && areas[i].start_vpn != vpn {
        lemma_area_starting_from(areas, vpn, i + 1);
    }
}

/// The first area that starts at `vpn` is the one at `k` (`areas.len()`: there is none).
pub proof fn lemma_area_starting_unique(areas: Seq<MapArea>, vpn: usize, k: int)
    requires
        0 <= k <= areas.len(),
        k < areas.len() ==> areas[k].start_vpn == vpn,
        forall|j: int| 0 <= j < k ==> areas[j].start_vpn != vpn,
    ensures
        area_starting(areas, vpn) == k,
{
    lemma_area_starting_from(areas, vpn, 0);
    let f = area_starting(areas, vpn);
    if f < k {
        assert(areas[f].start_vpn == vpn);
    } else if k < f {
        assert(areas[k].start_vpn == vpn);
    }
}

impl MemorySet {
    /// An address space with no area and no page table.
    pub fn new_bare() -> (r: Self)
        ensures
            r.areas@ == Seq::<MapArea>::empty(),
            r.leaf_tables@ == Seq::<usize>::empty(),
            areas_ok(r.areas@, r.leaf_tables@),
    {
        MemorySet { areas: Vec::new(), leaf_tables: Vec::new() }
    }

    /// Walks the page table for page `vpn`.
    pub fn translate(&self, vpn: usize) -> (r: Option<bool>)
        ensures
            r == translate_spec(self.areas@, self.leaf_tables@, vpn),
    {
        let leaf = vpn / PTES_PER_TABLE;
        let mut has_leaf = false;
        let mut i: usize = 0;
        while i < self.leaf_tables.len()
            invariant
                0 <= i <= self.leaf_tables@.len(),
                has_leaf == exists|k: int| 0 <= k < i && self.leaf_tables@[k] == leaf,
            decreases self.leaf_tables.len() - i,
        {
            if self.leaf_tables[i] == leaf {
                has_leaf = true;
            }
            i = i + 1;
        }
        if !has_leaf {
            return None;
        }
        assert(self.leaf_tables@.contains(leaf));
        let mut j: usize = 0;
        while j < self.areas.len()
            invariant
                0 <= j <= self.areas@.len(),
                leaf == vpn / PTES_PER_TABLE,
                self.leaf_tables@.contains(leaf),
                forall|k: int| 0 <= k < j ==> !(#[trigger] self.areas@[k]).contains_vpn(vpn),
            decreases self.areas.len() - j,
        {
            if self.areas[j].start_vpn <= vpn && vpn < self.areas[j].end_vpn {
                assert(self.areas@[j as int].contains_vpn(vpn));
                return Some(true);
            }
            j = j + 1;
        }
        Some(false)
    }

    /// Maps the pages `start_vpn .. end_vpn` as a new area with permission bits `perm`.
    pub fn insert_framed_area(&mut self, start_vpn: usize, end_vpn: usize, perm: u8)
        ensures
            final(self).areas@ == old(self).areas@.push(MapArea { start_vpn, end_vpn, perm }),
            final(self).leaf_tables@.to_set() == leaves_after_map(old(self).leaf_tables@, start_vpn, end_vpn),
            start_vpn < end_vpn && areas_ok(old(self).areas@, old(self).leaf_tables@) ==> areas_ok(
                final(self).areas@,
                final(self).leaf_tables@,
            ),
    {
        let ghost old_leaves = self.leaf_tables@;
        self.areas.push(MapArea { start_vpn, end_vpn, perm });
        if start_vpn < end_vpn {
            let first = start_vpn / PTES_PER_TABLE;
            let last = (end_vpn - 1) / PTES_PER_TABLE;
            let mut l = first;
            while l <= last
                invariant
                    self.areas@ == old(self).areas@.push(MapArea { start_vpn, end_vpn, perm }),
                    first <= l <= last + 1,
                    last < usize::MAX,
                    first == start_vpn / PTES_PER_TABLE,
                    last == (end_vpn - 1) as usize / PTES_PER_TABLE,
                    self.leaf_tables@.to_set() == old_leaves.to_set().union(
                        Set::new(|x: usize| first <= x < l),
                    ),
                decreases last + 1 - l,
            {
                let mut present = false;
                let mut i: usize = 0;
                while i < self.leaf_tables.len()
                    invariant
                        0 <= i <= self.leaf_tables@.len(),
                        present == exists|k: int| 0 <= k < i && self.leaf_tables@[k] == l,
                    decreases self.leaf_tables.len() - i,
                {
                    if self.leaf_tables[i] == l {
                        present = true;
                    }
                    i = i + 1;
                }
                let ghost before = self.leaf_tables@;
                if !present {
                    self.leaf_tables.push(l);
                    proof {
                        lemma_push_to_set(before, l);
                    }
                } else {
                    assert(before.to_set().contains(l));
                }
                assert(self.leaf_tables@.to_set() =~= old_leaves.to_set().union(
                    Set::new(|x: usize| first <= x < l + 1),
                ));
                l = l + 1;
            }
            assert(self.leaf_tables@.to_set() =~= leaves_after_map(old_leaves, start_vpn, end_vpn));
            proof {
                let a = self.areas@;
                let l = self.leaf_tables@;
                if areas_ok(old(self).areas@, old_leaves) {
                    assert forall|i: int| 0 <= i < a.len() implies {
                        &&& (#[trigger] a[i]).start_vpn < a[i].end_vpn
                        &&& forall|v: usize| a[i].contains_vpn(v) ==> l.contains((v / PTES_PER_TABLE) as usize)
                    } by {
                        assert forall|v: usize| a[i].contains_vpn(v) implies l.contains((v / PTES_PER_TABLE) as usize) by {
                            assert(l.to_set().contains((v / PTES_PER_TABLE) as usize));
                        }
                    }
                }
            }
        } else {
            assert(self.leaf_tables@.to_set() =~= leaves_after_map(old_leaves, start_vpn, end_vpn));
        }
    }

    /// Unmaps the first area that starts at page `start_vpn`, if there is one.
    pub fn remove_area_with_start_vpn(&mut self, start_vpn: usize)
        ensures
            final(self).areas@ == without_area_at(old(self).areas@, start_vpn),
            final(self).leaf_tables@ == old(self).leaf_tables@,
            areas_ok(old(self).areas@, old(self).leaf_tables@) ==> areas_ok(final(self).areas@, final(self).leaf_tables@),
    {
        let mut i: usize = 0;
        while i < self.areas.len()
            invariant
                0 <= i <= self.areas@.len(),
                self.areas@ == old(self).areas@,
                self.leaf_tables@ == old(self).leaf_tables@,
                forall|k: int| 0 <= k < i ==> self.areas@[k].start_vpn != start_vpn,
            decreases self.areas.len() - i,
        {
            if self.areas[i].start_vpn == start_vpn {
                proof {
                    lemma_area_starting_unique(self.areas@, start_vpn, i as int);
                }
                self.areas.remove(i);
                return;
            }
            i = i + 1;
        }
        proof {
            lemma_area_starting_unique(self.areas@, start_vpn, i as int);
        }
    }
}

} // verus!
