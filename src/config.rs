//! Memory-layout constants of the kernel and the board.
use vstd::prelude::*;

verus! {

/// Size of a page in bytes.
pub const PAGE_SIZE: u64 = 0x1000;

/// Number of offset bits in an address.
pub const PAGE_SIZE_BITS: u64 = 0xc;

/// Size of a kernel stack in bytes.
pub const KERNEL_STACK_SIZE: u64 = 0x2000;

/// Size of a user stack in bytes.
pub const USER_STACK_SIZE: u64 = 0x2000;

/// Size of the kernel heap in bytes.
pub const KERNEL_HEAP_SIZE: u64 = 0x20_0000;

/// Start of the kernel's direct window onto physical memory.
pub const KERNEL_ADDR_OFFSET: u64 = 0xffff_ffc0_0000_0000;

/// `KERNEL_ADDR_OFFSET` as a page number.
pub const KERNEL_PGNUM_OFFSET: u64 = 0xf_ffff_fc00_0000;

/// Virtual address of the trampoline page, the last page of the address space.
pub const TRAMPOLINE: u64 = 0xffff_ffff_ffff_f000;

/// Virtual address of the trap context page, just below the trampoline.
pub const TRAP_CONTEXT: u64 = 0xffff_ffff_ffff_e000;

/// End of physical memory, as a physical address.
pub const PHYS_MEMORY_END: u64 = 0x8800_0000;

/// End of physical memory, seen through the kernel window.
pub const MEMORY_END: u64 = 0xffff_ffc0_8800_0000;

} // verus!
