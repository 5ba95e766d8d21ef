use vstd::prelude::*;

verus! {

/// Size of a virtual memory page in bytes.
pub const PAGE_SIZE: usize = 4096;

/// Number of distinct system calls a task can keep a count of.
pub const MAX_SYSCALL_NUM: usize = 500;

/// The stride a task of priority 1 advances by each time it is scheduled.
pub const BIG_STRIDE: usize = 0x10_0000;

/// Width in bits of a virtual address under SV39 paging.
pub const VA_WIDTH_SV39: usize = 39;

/// Number of page-table entries in one page-table page.
pub const PTES_PER_TABLE: usize = 512;

} // verus!
