use sv39mm::address::{PhysAddr, PhysPageNum, VirtAddr, VirtPageNum};
use sv39mm::frame_allocator::FrameAllocator;
use sv39mm::memory_set::{KernelLayout, MapPermission, MemoryError, MemorySet};
use sv39mm::page_table::{PageTable, PageTableError};
use sv39mm::pte::{PTEFlags, PageTableEntry};
use sv39mm::translate::{translated_byte_buffer, translated_refmut, translated_str};

fn pool() -> FrameAllocator {
    FrameAllocator::new(PhysPageNum(0x80400), PhysPageNum(0x80500))
}

#[test]
fn pte_layout() {
    let e = PageTableEntry::new(PhysPageNum(0x80200), PTEFlags::from_bits(PTEFlags::V | PTEFlags::R | PTEFlags::W));
    assert_eq!(e.bits, (0x80200u64 << 10) | 0b111);
    assert_eq!(e.ppn(), PhysPageNum(0x80200));
    assert_eq!(e.flags().bits(), 0b111);
    assert!(e.is_valid() && e.readable() && e.writable() && !e.executable());
    assert!(!PageTableEntry::empty().is_valid());
    assert!(e.flags().contains(PTEFlags::R | PTEFlags::W));
    assert!(!e.flags().contains(PTEFlags::X));
}

#[test]
fn remap_rejected_unmap_twice_fails() {
    let mut fa = pool();
    let root = fa.frame_alloc().unwrap();
    let mut pt = PageTable::new(root);
    let vpn = VirtPageNum(0x12345);
    let flags = PTEFlags::from_bits(PTEFlags::R | PTEFlags::W);
    assert_eq!(pt.map(vpn, PhysPageNum(0x90000), flags, &mut fa), Ok(()));
    assert_eq!(pt.map(vpn, PhysPageNum(0x90001), flags, &mut fa), Err(PageTableError::AlreadyMapped));
    let e = pt.translate(vpn).unwrap();
    assert_eq!(e.ppn(), PhysPageNum(0x90000));
    assert_eq!(e.flags().bits(), PTEFlags::V | PTEFlags::R | PTEFlags::W);
    assert_eq!(pt.unmap(vpn), Ok(()));
    assert_eq!(pt.unmap(vpn), Err(PageTableError::NotMapped));
    assert_eq!(pt.translate(vpn), None);
}

#[test]
fn mapping_one_page_leaves_neighbours_unmapped() {
    let mut fa = pool();
    let mut pt = PageTable::new(fa.frame_alloc().unwrap());
    let flags = PTEFlags::from_bits(PTEFlags::R);
    pt.map(VirtPageNum(0x200), PhysPageNum(0x9_0000), flags, &mut fa).unwrap();
    assert!(pt.translate(VirtPageNum(0x1ff)).is_none());
    assert!(pt.translate(VirtPageNum(0x201)).is_none());
    assert_eq!(pt.translate_va(VirtAddr(0x20_0abc)), Some(PhysAddr(0x9000_0abc)));
}

#[test]
fn map_without_frames_for_nodes_fails() {
    let mut fa = FrameAllocator::new(PhysPageNum(0x100), PhysPageNum(0x102));
    let mut pt = PageTable::new(fa.frame_alloc().unwrap());
    let flags = PTEFlags::from_bits(PTEFlags::R);
    assert_eq!(pt.map(VirtPageNum(5), PhysPageNum(7), flags, &mut fa), Err(PageTableError::OutOfFrames));
    assert!(pt.translate(VirtPageNum(5)).is_none());
}

#[test]
fn token_holds_mode_and_root() {
    let mut fa = pool();
    let pt = PageTable::new(fa.frame_alloc().unwrap());
    assert_eq!(pt.root_ppn_exec(), PhysPageNum(0x80400));
    assert_eq!(pt.token(), (8u64 << 60) | 0x80400);
}

#[test]
fn framed_area_buffer_across_boundary() {
    let mut fa = pool();
    let mut ms = MemorySet::new_bare(&mut fa).unwrap();
    let rw = MapPermission::from_bits(MapPermission::R | MapPermission::W);
    assert_eq!(ms.insert_framed_area(VirtAddr(0x1000), VirtAddr(0x4000), rw, &mut fa), Ok(()));
    for n in 1..4u64 {
        let e = ms.translate(VirtPageNum(n)).unwrap();
        assert_eq!(e.flags().bits(), PTEFlags::V | PTEFlags::R | PTEFlags::W);
    }
    assert!(ms.translate(VirtPageNum(4)).is_none());
    let segs = translated_byte_buffer(ms.page_table(), VirtAddr(0x1ffc), 8).unwrap();
    assert_eq!(segs.len(), 2);
    let total: usize = segs.iter().map(|s| s.end - s.start).sum();
    assert_eq!(total, 8);
    assert_eq!((segs[0].start, segs[0].end), (0xffc, 0x1000));
    assert_eq!((segs[1].start, segs[1].end), (0, 4));
    assert_eq!(segs[0].ppn, ms.translate(VirtPageNum(1)).unwrap().ppn());
    assert_eq!(segs[1].ppn, ms.translate(VirtPageNum(2)).unwrap().ppn());
    let one = translated_byte_buffer(ms.page_table(), VirtAddr(0x2010), 16).unwrap();
    assert_eq!(one.len(), 1);
    assert!(translated_byte_buffer(ms.page_table(), VirtAddr(0x3ff0), 0x20).is_none());
    assert!(translated_byte_buffer(ms.page_table(), VirtAddr(0x3ff0), 0).unwrap().is_empty());
}

#[test]
fn overlapping_area_rejected_and_removed_area_unmapped() {
    let mut fa = pool();
    let mut ms = MemorySet::new_bare(&mut fa).unwrap();
    let rw = MapPermission::from_bits(MapPermission::R | MapPermission::W);
    ms.insert_framed_area(VirtAddr(0x1000), VirtAddr(0x3000), rw, &mut fa).unwrap();
    assert_eq!(ms.insert_framed_area(VirtAddr(0x2000), VirtAddr(0x5000), rw, &mut fa), Err(MemoryError::Overlap));
    assert!(ms.translate(VirtPageNum(3)).is_none());
    assert_eq!(ms.remove_area_with_start_vpn(VirtPageNum(2), &mut fa), Err(MemoryError::NoSuchArea));
    let first = ms.translate(VirtPageNum(1)).unwrap().ppn();
    let second = ms.translate(VirtPageNum(2)).unwrap().ppn();
    assert_eq!(ms.remove_area_with_start_vpn(VirtPageNum(1), &mut fa), Ok(()));
    assert!(ms.translate(VirtPageNum(1)).is_none());
    assert!(ms.translate(VirtPageNum(2)).is_none());
    assert!(!fa.allocated(first.0));
    assert!(!fa.allocated(second.0));
    assert_eq!(fa.frame_alloc().unwrap().ppn(), first);
    assert_eq!(fa.frame_alloc().unwrap().ppn(), second);
}

#[test]
fn framed_area_runs_out_of_frames() {
    let mut fa = FrameAllocator::new(PhysPageNum(0x100), PhysPageNum(0x105));
    let mut ms = MemorySet::new_bare(&mut fa).unwrap();
    let r = MapPermission::from_bits(MapPermission::R);
    assert_eq!(ms.insert_framed_area(VirtAddr(0), VirtAddr(0x4000), r, &mut fa), Err(MemoryError::OutOfFrames));
    assert!(ms.translate(VirtPageNum(0)).is_some());
    assert!(ms.translate(VirtPageNum(1)).is_some());
    assert!(ms.translate(VirtPageNum(2)).is_none());
    assert_eq!(ms.remove_area_with_start_vpn(VirtPageNum(0), &mut fa), Ok(()));
    assert!(ms.translate(VirtPageNum(1)).is_none());
}

#[test]
fn user_string_and_value_translate() {
    let mut fa = pool();
    let mut ms = MemorySet::new_bare(&mut fa).unwrap();
    let rw = MapPermission::from_bits(MapPermission::R | MapPermission::W | MapPermission::U);
    ms.insert_framed_area(VirtAddr(0x1000), VirtAddr(0x3000), rw, &mut fa).unwrap();
    let first_ppn = ms.translate(VirtPageNum(1)).unwrap().ppn();
    let second_ppn = ms.translate(VirtPageNum(2)).unwrap().ppn();
    fa.write_byte(first_ppn, 0xffe, b'h');
    fa.write_byte(first_ppn, 0xfff, b'i');
    fa.write_byte(second_ppn, 0, b'!');
    let s = translated_str(ms.page_table(), &fa, VirtAddr(0x1ffe)).unwrap();
    assert_eq!(s, b"hi!".to_vec());
    assert_eq!(translated_refmut(ms.page_table(), VirtAddr(0x2008)), Some(PhysAddr((second_ppn.0 << 12) + 8)));
    assert_eq!(translated_refmut(ms.page_table(), VirtAddr(0x8008)), None);
    assert!(translated_str(ms.page_table(), &fa, VirtAddr(0x9000)).is_none());
}

#[test]
fn kernel_space_activation_is_repeatable() {
    let layout = KernelLayout {
        stext: 0x8020_0000,
        etext: 0x8020_3000,
        srodata: 0x8020_3000,
        erodata: 0x8020_4000,
        sdata: 0x8020_4000,
        edata: 0x8020_5000,
        sbss: 0x8020_5000,
        ebss: 0x8020_6000,
        ekernel: 0x8020_6000,
        memory_end: 0x8030_0000,
        strampoline: 0x8020_1000,
    };
    let mmio = vec![(0x0010_0000u64, 0x2000u64), (0x1000_1000u64, 0x1000u64)];
    let (_fa, ks, token) = sv39mm::init(&layout, &mmio).unwrap();
    let before: Vec<_> = (0x80200u64..0x80210).map(|n| ks.translate(VirtPageNum(n))).collect();
    assert_eq!(ks.activate(), token);
    assert_eq!(ks.activate(), token);
    let after: Vec<_> = (0x80200u64..0x80210).map(|n| ks.translate(VirtPageNum(n))).collect();
    assert_eq!(before, after);
    let text = ks.translate(VirtPageNum(0x80200)).unwrap();
    assert_eq!(text.ppn(), PhysPageNum(0x80200));
    assert_eq!(text.flags().bits(), PTEFlags::V | PTEFlags::R | PTEFlags::X);
    assert_eq!(ks.translate(VirtPageNum(0x10001)).unwrap().ppn(), PhysPageNum(0x10001));
    assert!(ks.translate(VirtPageNum(0x10002)).is_none());
    assert_eq!(token >> 60, 8);
    let tramp = ks.translate(VirtAddr(sv39mm::config::TRAMPOLINE).floor()).unwrap();
    assert_eq!(tramp.ppn(), PhysPageNum(0x80201));
    assert_eq!(tramp.flags().bits(), PTEFlags::V | PTEFlags::R | PTEFlags::X);
}

#[test]
fn oversized_area_rejected() {
    let mut fa = pool();
    let mut ms = MemorySet::new_bare(&mut fa).unwrap();
    let r = MapPermission::from_bits(MapPermission::R);
    let too_far = VirtAddr((0x800_0001u64) << 12);
    assert_eq!(ms.insert_framed_area(VirtAddr(0), too_far, r, &mut fa), Err(MemoryError::TooLarge));
    assert!(ms.translate(VirtPageNum(0)).is_none());
}

#[test]
fn identical_area_maps_same_numbers_and_page_buffer_is_one_piece() {
    let mut fa = pool();
    let mut ms = MemorySet::new_bare(&mut fa).unwrap();
    let rw = MapPermission::from_bits(MapPermission::R | MapPermission::W);
    assert_eq!(ms.insert_identical_area(VirtAddr(0x1000_0000), VirtAddr(0x1000_2000), rw, &mut fa), Ok(()));
    assert_eq!(ms.translate(VirtPageNum(0x10001)).unwrap().ppn(), PhysPageNum(0x10001));
    let segs = translated_byte_buffer(ms.page_table(), VirtAddr(0x1000_1000), 4096).unwrap();
    assert_eq!(segs.len(), 1);
    assert_eq!((segs[0].start, segs[0].end), (0, 4096));
    assert_eq!(ms.insert_identical_area(VirtAddr(0x1000_1000), VirtAddr(0x1000_1001), rw, &mut fa), Err(MemoryError::Overlap));
}

#[test]
fn two_byte_read_across_boundary_of_three_page_area() {
    let mut fa = pool();
    let mut ms = MemorySet::new_bare(&mut fa).unwrap();
    let rw = MapPermission::from_bits(MapPermission::R | MapPermission::W);
    assert_eq!(ms.insert_framed_area(VirtAddr(0x10000), VirtAddr(0x13000), rw, &mut fa), Ok(()));
    let v = translated_byte_buffer(ms.page_table(), VirtAddr(0x10fff), 2).unwrap();
    assert_eq!(v.len(), 2);
    assert_eq!((v[0].start, v[0].end), (0xfff, 0x1000));
    assert_eq!((v[1].start, v[1].end), (0, 1));
    assert_eq!(v[0].ppn, ms.translate(VirtPageNum(0x10)).unwrap().ppn());
    assert_eq!(v[1].ppn, ms.translate(VirtPageNum(0x11)).unwrap().ppn());
}

#[test]
fn init_over_the_board_memory() {
    let layout = KernelLayout {
        stext: 0x8020_0000,
        etext: 0x8020_3000,
        srodata: 0x8020_3000,
        erodata: 0x8020_4000,
        sdata: 0x8020_4000,
        edata: 0x8020_5000,
        sbss: 0x8020_5000,
        ebss: 0x8020_6000,
        ekernel: 0x8020_6000,
        memory_end: sv39mm::config::PHYS_MEMORY_END,
        strampoline: 0x8020_1000,
    };
    let mmio = vec![(0x0010_0000u64, 0x2000u64), (0x1000_1000u64, 0x1000u64)];
    let (mut fa, ks, _token) = sv39mm::init(&layout, &mmio).unwrap();
    assert_eq!(ks.translate(VirtPageNum(0x87fff)).unwrap().ppn(), PhysPageNum(0x87fff));
    assert!(ks.translate(VirtPageNum(0x88000)).is_none());
    assert!(fa.frame_alloc().is_some());
}
