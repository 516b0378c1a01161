//! Memory-management and task-scheduling core of a small supervisor-mode
//! kernel for a 64-bit RISC-V machine.
//!
//! The crate covers: physical/virtual address and page-number value types,
//! a stack-style physical frame allocator, an SV39 three-level radix page
//! table, mapping sets that assemble whole address spaces, the saved-register
//! contexts used for cooperative task switching, and the record crossing the
//! user/kernel boundary on a trap.  Hardware access (firmware calls, control
//! register writes, the context-switch primitive itself) lies outside the
//! crate; everything here is plain data and decisions about it.

pub mod address;
pub mod config;
pub mod frame_allocator;
pub mod memory_set;
pub mod page_table;
pub mod task;
pub mod trap;
