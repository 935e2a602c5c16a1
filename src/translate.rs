//! Translation of user buffers, values and strings through a page table.
use vstd::prelude::*;
use crate::address::{PhysAddr, PhysPageNum, VirtAddr, VirtPageNum, page_floor};
use crate::address::page_offset_of;
use crate::frame_allocator::FrameAllocator;
use crate::page_table::PageTable;

verus! {

/// A run of bytes inside one physical page: offsets `[start, end)` of page `ppn`.
#[derive(Clone, Copy, PartialEq, Eq, Structural, Debug)]
pub struct BufferSegment {
    pub ppn: PhysPageNum,
    pub start: usize,
    pub end: usize,
}

/// Number of pages that the bytes `[ptr, ptr + len)` touch.
pub open spec fn pages_touched(ptr: int, len: int) -> int {
    if len <= 0 {
        0
    } else {
        page_floor(ptr + len - 1) - page_floor(ptr) + 1
    }
}

/// First byte of the `i`-th touched page that lies in `[ptr, ptr + len)`.
pub open spec fn seg_lo(ptr: int, i: int) -> int {
    let base = (page_floor(ptr) + i) * 4096;
    if ptr > base { ptr } else { base }
}

/// One past the last byte of the `i`-th touched page that lies in `[ptr, ptr + len)`.
pub open spec fn seg_hi(ptr: int, len: int, i: int) -> int {
    let top = (page_floor(ptr) + i + 1) * 4096;
    if ptr + len < top { ptr + len } else { top }
}

/// Total number of bytes of `segs`.
pub open spec fn seg_total(segs: Seq<BufferSegment>) -> int
    decreases segs.len(),
{
    if segs.len() == 0 {
        0
    } else {
        seg_total(segs.drop_last()) + (segs.last().end - segs.last().start)
    }
}

/// The page number of a translated entry of `pt` for page `n`, if mapped.
pub open spec fn frame_of(pt: PageTable, n: int) -> Option<int> {
    match pt.lookup_vpn(VirtPageNum(n as u64)) {
        Some(e) => Some(e.ppn_spec()),
        None => None,
    }
}

/// The pieces, one per page, that hold the user bytes `[ptr, ptr + len)`:
/// piece `i` holds the part of the `i`-th touched page inside the range. `None`
/// where a touched page is not mapped.
pub fn translated_byte_buffer(pt: &PageTable, ptr: VirtAddr, len: usize) -> (r: Option<Vec<BufferSegment>>)
    requires
        pt.wf(),
        ptr.0 + len <= u64::MAX,
    ensures
        r is None <==> exists|i: int| 0 <= i < pages_touched(ptr.0 as int, len as int)
            && (#[trigger] frame_of(*pt, page_floor(ptr.0 as int) + i)) is None,
        r matches Some(v) ==> {
            &&& v@.len() == pages_touched(ptr.0 as int, len as int)
            &&& seg_total(v@) == len
            &&& forall|i: int| 0 <= i < v@.len() ==> {
                let base = (page_floor(ptr.0 as int) + i) * 4096;
                &&& frame_of(*pt, page_floor(ptr.0 as int) + i) == Some((#[trigger] v@[i]).ppn.0 as int)
                &&& v@[i].start == seg_lo(ptr.0 as int, i) - base
                &&& v@[i].end == seg_hi(ptr.0 as int, len as int, i) - base
            }
        },
{
    let start = ptr.0;
    let end = ptr.0 + len as u64;
    let fp = start / 4096;
    let mut cur = start;
    let mut out: Vec<BufferSegment> = Vec::new();
    let ghost p = start as int;
    let ghost l = len as int;
    proof {
        assert(p == fp * 4096 + p % 4096) by (nonlinear_arith)
            requires
                fp == p / 4096,
        ;
    }
    while cur < end
        invariant
            start <= cur <= end,
            start == ptr.0,
            end == start + len,
            p == start,
            l == len,
            fp == page_floor(p),
            p == fp * 4096 + p % 4096,
            pt.wf(),
            out@.len() == 0 ==> cur == start,
            out@.len() > 0 ==> cur == seg_hi(p, l, out@.len() - 1),
            cur < end ==> cur == seg_lo(p, out@.len() as int),
            cur < end ==> page_floor(cur as int) == fp + out@.len(),
            cur == end ==> out@.len() == pages_touched(p, l),
            cur < end ==> out@.len() < pages_touched(p, l),
            seg_total(out@) == cur - start,
            forall|j: int| 0 <= j < pages_touched(p, l) && j < out@.len() ==> (#[trigger] frame_of(*pt, fp + j)) is Some,
            forall|i: int| 0 <= i < out@.len() ==> {
                let base = (fp + i) * 4096;
                &&& frame_of(*pt, fp + i) == Some((#[trigger] out@[i]).ppn.0 as int)
                &&& out@[i].start == seg_lo(p, i) - base
                &&& out@[i].end == seg_hi(p, l, i) - base
            },
        decreases end - cur,
    {
        let k = out.len();
        let vpn = VirtPageNum(cur / 4096);
        let off = cur % 4096;
        let room = 4096 - off;
        let seg_len = if end - cur < room { end - cur } else { room };
        assert(vpn.0 == fp + k);
        match pt.translate(vpn) {
            None => {
                assert(frame_of(*pt, fp + k) is None);
                assert(0 <= k < pages_touched(p, l));
                assert(page_floor(ptr.0 as int) == fp as int);
                assert(page_floor(ptr.0 as int) + k == fp + k);
                assert(frame_of(*pt, page_floor(ptr.0 as int) + k) is None);
                return None;
            },
            Some(e) => {
                let ppn = e.ppn();
                let seg = BufferSegment { ppn, start: off as usize, end: (off + seg_len) as usize };
                let ghost before = out@;
                out.push(seg);
                proof {
                    assert(cur as int == (fp + k) * 4096 + off) by (nonlinear_arith)
                        requires
                            vpn.0 == fp + k,
                            vpn.0 == cur / 4096,
                            off == cur % 4096,
                    ;
                    assert((fp + k + 1) * 4096 == (fp + k) * 4096 + 4096) by (nonlinear_arith);
                    assert(out@.drop_last() == before);
                }
                cur = cur + seg_len;
                proof {
                    if cur < end {
                        assert(page_floor(cur as int) == fp + k + 1) by (nonlinear_arith)
                            requires
                                cur == (fp + k + 1) * 4096,
                        ;
                    } else {
                        assert(page_floor(p + l - 1) == fp + k) by (nonlinear_arith)
                            requires
                                p + l == cur,
                                (fp + k) * 4096 < cur <= (fp + k) * 4096 + 4096,
                        ;
                    }
                }
            },
        }
    }
    Some(out)
}

/// The physical address where the value at user address `ptr` lives, or
/// `None` where its page is not mapped.
pub fn translated_refmut(pt: &PageTable, ptr: VirtAddr) -> (r: Option<PhysAddr>)
    requires
        pt.wf(),
    ensures
        r is None <==> frame_of(*pt, page_floor(ptr.0 as int)) is None,
        r matches Some(pa) ==> pa.0 == frame_of(*pt, page_floor(ptr.0 as int))->Some_0 * 4096 + page_offset_of(ptr.0 as int),
{
    let r = pt.translate_va(ptr);
    proof {
        assert(VirtPageNum((ptr.0 / 4096) as u64) == VirtPageNum(page_floor(ptr.0 as int) as u64));
        if r is Some {
            let n = frame_of(*pt, page_floor(ptr.0 as int))->Some_0;
            assert(0 <= n < 0x1000_0000_0000);
            assert((n * 4096) % 0x1_0000_0000_0000_0000 == n * 4096) by (nonlinear_arith)
                requires
                    0 <= n < 0x1000_0000_0000,
            ;
        }
    }
    r
}

/// The byte at user address `va`: `None` where its page is not mapped to a
/// frame that `mem` has handed out.
pub open spec fn user_byte(pt: PageTable, mem: FrameAllocator, va: int) -> Option<u8> {
    match frame_of(pt, page_floor(va)) {
        Some(n) => if mem.is_allocated(n as u64) && n < 0x1_0000_0000_0000_0000 {
            Some(mem.contents(n as u64)[page_offset_of(va)])
        } else {
            None
        },
        None => None,
    }
}

/// The `n` bytes from user address `ptr` on can all be read, and none is zero.
pub open spec fn nonzero_prefix(pt: PageTable, mem: FrameAllocator, ptr: int, n: int) -> bool {
    forall|i: int| 0 <= i < n ==> (#[trigger] user_byte(pt, mem, ptr + i)) is Some && user_byte(pt, mem, ptr + i)->Some_0 != 0
}

/// The bytes from user address `ptr` up to, not including, the first zero
/// byte. `None` where a byte before that zero cannot be read.
pub fn translated_str(pt: &PageTable, mem: &FrameAllocator, ptr: VirtAddr) -> (r: Option<Vec<u8>>)
    requires
        pt.wf(),
        mem.wf(),
    ensures
        r matches Some(s) ==> {
            &&& forall|i: int| 0 <= i < s@.len() ==> #[trigger] user_byte(*pt, *mem, ptr.0 + i) == Some(s@[i]) && s@[i] != 0
            &&& user_byte(*pt, *mem, ptr.0 + s@.len()) == Some(0u8)
        },
        r is None ==> exists|n: int| 0 <= n && ptr.0 + n <= u64::MAX && #[trigger] nonzero_prefix(*pt, *mem, ptr.0 as int, n)
            && (user_byte(*pt, *mem, ptr.0 + n) is None || ptr.0 + n == u64::MAX),
{
    let mut out: Vec<u8> = Vec::new();
    let mut va = ptr.0;
    loop
        invariant
            pt.wf(),
            mem.wf(),
            va == ptr.0 + out@.len(),
            forall|i: int| 0 <= i < out@.len() ==> #[trigger] user_byte(*pt, *mem, ptr.0 + i) == Some(out@[i]) && out@[i] != 0,
        decreases u64::MAX - va,
    {
        let b = match pt.translate_va(VirtAddr(va)) {
            None => {
                proof {
                    assert(VirtPageNum((va / 4096) as u64) == VirtPageNum(page_floor(va as int) as u64));
                    assert(user_byte(*pt, *mem, ptr.0 + out@.len()) is None);
                    assert(nonzero_prefix(*pt, *mem, ptr.0 as int, out@.len() as int));
                }
                return None;
            },
            Some(pa) => {
                let ppn = pa.floor();
                let off = pa.page_offset();
                proof {
                    assert(VirtPageNum((va / 4096) as u64) == VirtPageNum(page_floor(va as int) as u64));
                    let n = frame_of(*pt, page_floor(va as int))->Some_0;
                    assert(0 <= n < 0x1000_0000_0000);
                    assert(pa.0 == n * 4096 + page_offset_of(va as int));
                    assert(page_floor(pa.0 as int) == n && page_offset_of(pa.0 as int) == page_offset_of(va as int)) by (nonlinear_arith)
                        requires
                            pa.0 == n * 4096 + page_offset_of(va as int),
                            0 <= page_offset_of(va as int) < 4096,
                    ;
                }
                if !mem.allocated(ppn.0) {
                    assert(user_byte(*pt, *mem, ptr.0 + out@.len()) is None);
                    assert(nonzero_prefix(*pt, *mem, ptr.0 as int, out@.len() as int));
                    return None;
                }
                mem.read_byte(ppn, off)
            },
        };
        if b == 0 {
            return Some(out);
        }
        if va == u64::MAX {
            assert(nonzero_prefix(*pt, *mem, ptr.0 as int, out@.len() as int));
            return None;
        }
        out.push(b);
        va = va + 1;
    }
}

} // verus!
