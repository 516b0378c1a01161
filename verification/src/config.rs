//! Fixed sizes and addresses of the kernel's layout.

use vstd::prelude::*;

verus! {

/// Size of each user stack in bytes.
pub const USER_STACK_SIZE: u64 = 4096 * 2;

/// Size of each per-task kernel stack in bytes.
pub const KERNEL_STACK_SIZE: u64 = 4096 * 2;

/// Size of the kernel heap in bytes.
pub const KERNEL_HEAP_SIZE: u64 = 0x30_0000;

/// Virtual address of the trampoline page: the highest page of the
/// address space.
pub const TRAMPOLINE: u64 = u64::MAX - 4096 + 1;

/// Virtual address of the trap-context page, directly below the
/// trampoline.
pub const TRAP_CONTEXT: u64 = TRAMPOLINE - 4096;

/// How many tasks the bring-up configuration provisions stacks for.
pub const MAX_APP_NUM: usize = 4;

} // verus!
