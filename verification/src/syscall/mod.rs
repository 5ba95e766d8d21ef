pub mod fs;
pub mod process;
pub mod sync;
