pub mod config;
pub mod fs;
pub mod mm;
pub mod sync;
pub mod syscall;
pub mod task;
