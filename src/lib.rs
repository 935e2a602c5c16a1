//! Virtual-memory subsystem of an SV39 (RISC-V) kernel: address and
//! page-number geometry, page-table entries, the physical frame allocator,
//! the three-level page table and address spaces built from map areas.
use vstd::prelude::*;

pub mod config;
pub mod address;
pub mod pte;
pub mod frame_allocator;
pub mod page_table;
pub mod memory_set;
pub mod translate;

use crate::address::PhysAddr;
use crate::frame_allocator::FrameAllocator;
use crate::memory_set::{KernelLayout, MapType, MemoryError, MemorySet, kernel_frames_needed, kernel_regions};
use crate::address::{page_ceil, page_floor};
use crate::pte::{PTEFlags, PageTableEntry};

verus! {

/// Brings memory up: a frame allocator over the frames between the end of the
/// kernel image and the end of memory, the kernel's address space over
/// `layout` and the MMIO windows `mmio`, and the value that activates it.
pub fn init(layout: &KernelLayout, mmio: &Vec<(u64, u64)>) -> (r: Result<(FrameAllocator, MemorySet, u64), MemoryError>)
    requires
        layout.ordered(),
    ensures
        r matches Ok(t) ==> {
            &&& t.0.wf()
            &&& t.0.start() == page_ceil(layout.ekernel as int)
            &&& t.0.end() == page_floor(layout.memory_end as int)
            &&& t.1.wf()
            &&& t.1.owns_frames(t.0)
            &&& t.2 == t.1.table().token_spec()
            &&& t.1.area_count() == kernel_regions(*layout, mmio@).len()
            &&& forall|i: int| 0 <= i < t.1.area_count() ==> {
                &&& (#[trigger] t.1.area(i)).kind() == MapType::Identical
                &&& t.1.area(i).start() == page_floor(kernel_regions(*layout, mmio@)[i].0 as int)
                &&& t.1.area(i).end() == page_ceil(kernel_regions(*layout, mmio@)[i].1 as int)
                &&& t.1.area(i).perm().bits == kernel_regions(*layout, mmio@)[i].2 & 30
            }
            &&& forall|i: int, k: int| 0 <= i < t.1.area_count() && 0 <= k < t.1.area(i).end() - t.1.area(i).start()
                ==> #[trigger] t.1.table().lookup_vpn(t.1.area(i).vpn_at(k))
                    == Some(PageTableEntry::encode(t.1.area(i).start() + k, t.1.area(i).perm().bits | PTEFlags::V))
            &&& t.1.table().lookup_vpn(MemorySet::trampoline_vpn()) == Some(PageTableEntry::encode(
                page_floor(layout.strampoline as int), PTEFlags::R | PTEFlags::X | PTEFlags::V))
        },
        r is Err ==> r == Err::<(FrameAllocator, MemorySet, u64), MemoryError>(MemoryError::TooLarge)
            || r == Err::<(FrameAllocator, MemorySet, u64), MemoryError>(MemoryError::Overlap)
            || (r == Err::<(FrameAllocator, MemorySet, u64), MemoryError>(MemoryError::OutOfFrames)
                && (page_floor(layout.memory_end as int) - page_ceil(layout.ekernel as int) < kernel_frames_needed(*layout, mmio@)
                    || kernel_frames_needed(*layout, mmio@) > usize::MAX / 512)),
        page_floor(layout.memory_end as int) > crate::pte::ppn_limit()
            || page_ceil(layout.ekernel as int) > page_floor(layout.memory_end as int)
            ==> r == Err::<(FrameAllocator, MemorySet, u64), MemoryError>(MemoryError::TooLarge),
{
    let start = PhysAddr(layout.ekernel).ceil();
    let end = PhysAddr(layout.memory_end).floor();
    if end.0 > 0x1000_0000_0000 || start.0 > end.0 {
        return Err(MemoryError::TooLarge);
    }
    let mut alloc = FrameAllocator::new(start, end);
    let kernel = match MemorySet::new_kernel(layout, mmio, &mut alloc) {
        Ok(k) => k,
        Err(e) => {
            return Err(e);
        },
    };
    let token = kernel.activate();
    Ok((alloc, kernel, token))
}

} // verus!
