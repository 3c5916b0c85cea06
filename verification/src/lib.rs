//! Kernel memory and interrupt logic, verified.

pub mod align;
pub mod bitmap;
pub mod boot;
pub mod buddy;
pub mod framework;
pub mod gdt;
pub mod interrupts;
pub mod linking;
pub mod links;
pub mod memory;
pub mod platform;
pub mod profiler;
pub mod runner;
pub mod slab;
pub mod startup;
pub mod text;
pub mod tlsf;
pub mod vga;
pub mod workloads;
pub mod xtask;
