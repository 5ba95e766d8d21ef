pub mod manager;
pub mod syscall_count;
