//! Interrupts: vectors, controllers, handlers and what they count.

pub mod apic;
pub mod dispatch;
pub mod exceptions;
pub mod handlers;
pub mod keyboard;
pub mod minimal;
pub mod pic;
pub mod stats;
pub mod vectors;
