//! From what a bootloader reports to a running heap.

pub mod heap;
pub mod info;
pub mod laws;
pub mod limine;
pub mod multiboot2;
pub mod paging;
pub mod task;
