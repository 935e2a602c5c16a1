use sv39mm::address::PhysPageNum;
use sv39mm::frame_allocator::FrameAllocator;

#[test]
fn reused_frame_reads_back_zero() {
    let mut fa = FrameAllocator::new(PhysPageNum(0x100), PhysPageNum(0x104));
    let f = fa.frame_alloc().unwrap();
    let ppn = f.ppn();
    for off in [0usize, 1, 100, 4095] {
        fa.write_byte(f.ppn(), off, 0xab);
    }
    assert_eq!(fa.read_byte(ppn, 100), 0xab);
    assert!(fa.frame_dealloc(f));
    let g = fa.frame_alloc().unwrap();
    assert_eq!(g.ppn(), ppn);
    for off in 0..4096usize {
        assert_eq!(fa.read_byte(g.ppn(), off), 0);
    }
}

#[test]
fn frames_come_in_order_then_run_out() {
    let mut fa = FrameAllocator::new(PhysPageNum(0x10), PhysPageNum(0x12));
    let a = fa.frame_alloc().unwrap();
    let b = fa.frame_alloc().unwrap();
    assert_eq!(a.ppn(), PhysPageNum(0x10));
    assert_eq!(b.ppn(), PhysPageNum(0x11));
    assert!(fa.frame_alloc().is_none());
}

#[test]
fn most_recently_returned_frame_comes_first() {
    let mut fa = FrameAllocator::new(PhysPageNum(0x10), PhysPageNum(0x20));
    let a = fa.frame_alloc().unwrap();
    let b = fa.frame_alloc().unwrap();
    let (pa, pb) = (a.ppn(), b.ppn());
    assert!(fa.frame_dealloc(a));
    assert!(fa.frame_dealloc(b));
    assert_eq!(fa.frame_alloc().unwrap().ppn(), pb);
    assert_eq!(fa.frame_alloc().unwrap().ppn(), pa);
    assert_eq!(fa.frame_alloc().unwrap().ppn(), PhysPageNum(0x12));
}

#[test]
fn returned_frame_is_no_longer_allocated() {
    let mut fa = FrameAllocator::new(PhysPageNum(0x10), PhysPageNum(0x20));
    let a = fa.frame_alloc().unwrap();
    let p = a.ppn();
    assert!(fa.frame_dealloc(a));
    assert!(!fa.allocated(p.0));
    assert!(!fa.allocated(0x15));
    let again = fa.frame_alloc().unwrap();
    assert_eq!(again.ppn(), p);
    assert!(fa.allocated(p.0));
}

#[test]
fn empty_pool_gives_none() {
    let mut fa = FrameAllocator::new(PhysPageNum(0x10), PhysPageNum(0x10));
    assert!(fa.frame_alloc().is_none());
}
