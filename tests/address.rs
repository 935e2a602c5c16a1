use sv39mm::address::{KernelAddr, PhysAddr, PhysPageNum, SimpleRange, VPNRange, VirtAddr, VirtPageNum};
use sv39mm::config::{KERNEL_ADDR_OFFSET, PAGE_SIZE};

#[test]
fn phys_floor_ceil_aligned() {
    let p = PhysAddr(0x8020_0000);
    assert_eq!(p.floor().0, 0x80200);
    assert_eq!(p.ceil().0, 0x80200);
    assert!(p.aligned());
    assert_eq!(PhysAddr::from(p.floor()), p);
}

#[test]
fn phys_ceil_unaligned_is_floor_plus_one() {
    let p = PhysAddr(0x8020_0001);
    assert_eq!(p.floor().0, 0x80200);
    assert_eq!(p.ceil().0, 0x80201);
    assert!(!p.aligned());
    assert_eq!(p.page_offset(), 1);
}

#[test]
fn virt_floor_ceil_unaligned() {
    let v = VirtAddr(0x1234);
    assert_eq!(v.floor().0, 1);
    assert_eq!(v.ceil().0, 2);
    assert_eq!(v.page_offset(), 0x234);
    assert!(!v.aligned());
}

#[test]
fn virt_floor_ceil_aligned_and_zero() {
    let v = VirtAddr(0x3000);
    assert_eq!(v.floor(), v.ceil());
    assert_eq!(VirtAddr::from(v.floor()), v);
    assert_eq!(VirtAddr(0).ceil().0, 0);
}

#[test]
fn ceil_of_last_page_does_not_overflow() {
    let v = VirtAddr(u64::MAX);
    assert_eq!(v.floor().0, 0xf_ffff_ffff_ffff);
    assert_eq!(v.ceil().0, 0x10_0000_0000_0000);
}

#[test]
fn vpn_round_trip_through_address() {
    for n in [0u64, 1, 0x3ff_ffff, 0xf_ffff_fc00_0000, 0xf_ffff_ffff_ffff] {
        let v = VirtPageNum::new(n);
        let a = VirtAddr::from(v);
        assert!(a.aligned());
        assert_eq!(VirtPageNum::from_aligned(a), v);
    }
}

#[test]
fn ppn_round_trip_through_address() {
    let p = PhysPageNum(0x80200);
    let a = PhysAddr::from(p);
    assert_eq!(a.0, 0x8020_0000);
    assert_eq!(PhysPageNum::from_aligned(a), p);
}

#[test]
fn indexes_of_chosen_parts() {
    let (i0, i1, i2) = (0x1a5u64, 0x03u64, 0x1ffu64);
    let v = VirtPageNum((i0 << 18) | (i1 << 9) | i2);
    assert_eq!(v.indexes(), [0x1a5, 0x03, 0x1ff]);
    assert_eq!(VirtPageNum(0).indexes(), [0, 0, 0]);
}

#[test]
fn vpn_range_yields_each_page_once() {
    let r: VPNRange = SimpleRange::new(VirtPageNum(10), VirtPageNum(14));
    assert_eq!(r.get_start(), VirtPageNum(10));
    assert_eq!(r.get_end(), VirtPageNum(14));
    let items = r.items();
    assert_eq!(items, vec![VirtPageNum(10), VirtPageNum(11), VirtPageNum(12), VirtPageNum(13)]);
    let mut it = r.into_iter();
    let mut seen = Vec::new();
    while let Some(v) = it.next() {
        seen.push(v);
    }
    assert_eq!(seen, items);
    assert_eq!(it.next(), None);
}

#[test]
fn empty_vpn_range_yields_nothing() {
    let r: VPNRange = SimpleRange::new(VirtPageNum(7), VirtPageNum(7));
    assert!(r.items().is_empty());
    assert_eq!(r.into_iter().next(), None);
}

#[test]
fn non_canonical_virt_addr_rejected() {
    assert!(VirtAddr::try_new(1u64 << 38).is_none());
    assert!(VirtAddr::try_new(0x0000_8000_0000_0000).is_none());
    assert!(VirtAddr::try_new(0xffff_ffc0_0000_0000).is_some());
    assert!(VirtAddr::try_new((1u64 << 38) - 1).is_some());
}

#[test]
fn non_canonical_words_rejected_for_every_kind() {
    assert!(PhysAddr::try_new(1u64 << 56).is_none());
    assert!(PhysAddr::try_new(0xff00_0000_0000_0000).is_none());
    assert!(PhysAddr::try_new(0xff80_0000_0000_0000).is_some());
    assert!(PhysAddr::try_new(0x00ff_ffff_ffff_ffff).is_some());
    assert!(PhysPageNum::try_new(1u64 << 44).is_none());
    assert!(PhysPageNum::try_new(0x80200).is_some());
    assert!(PhysPageNum::try_new(0xffff_f000_0000_0000).is_none());
    assert!(PhysPageNum::try_new(0xffff_f800_0000_0000).is_some());
    assert!(VirtPageNum::try_new(1u64 << 26).is_none());
    assert!(VirtPageNum::try_new(0xf_ffff_fc00_0000).is_some());
    assert!(VirtPageNum::try_new(1u64 << 52).is_none());
}

#[test]
fn kernel_addr_conversion_is_its_own_inverse() {
    let p = PhysAddr(0x8020_1234);
    let k = KernelAddr::from(p);
    assert_eq!(k.0, 0x8020_1234 + KERNEL_ADDR_OFFSET);
    assert_eq!(PhysAddr::from(k), p);
    assert_eq!(PhysPageNum::from(k), PhysPageNum(0x80201));
    assert_eq!(VirtAddr::from(k).0, k.0);
}

#[test]
fn virt_addr_word_is_sign_extended() {
    assert_eq!(u64::from(VirtAddr(0x40_0000_0000)), 0xffff_ffc0_0000_0000);
    assert_eq!(u64::from(VirtAddr(0x1000)), 0x1000);
    assert_eq!(u64::from(PhysAddr(5)), 5);
    assert_eq!(PAGE_SIZE, 4096);
}
