//! The physical frame allocator and the memory of the frames it hands out.
//!
//! Frames `[start, end)` are handed out first from the stack of returned
//! frames (most recently returned first), then in ascending order from the
//! part of the pool never handed out. Each frame is zero-filled before it is
//! handed out. The allocator also holds the frames' bytes, so that what an
//! owner writes can be read back through the frame's number.
use vstd::prelude::*;
use crate::address::PhysPageNum;
use crate::config::PAGE_SIZE;

verus! {

/// The bytes of a frame that was just handed out.
pub open spec fn zero_page() -> Seq<u8> {
    Seq::new(PAGE_SIZE as nat, |i: int| 0u8)
}

/// Exclusive ownership of one allocated physical frame. Only the allocator
/// makes one.
#[derive(Debug)]
pub struct FrameTracker {
    ppn: PhysPageNum,
}

impl FrameTracker {
    pub closed spec fn spec_ppn(&self) -> PhysPageNum {
        self.ppn
    }

    /// The frame's number.
    #[verifier::when_used_as_spec(spec_ppn)]
    pub fn ppn(&self) -> (r: PhysPageNum)
        ensures
            r == self.spec_ppn(),
    {
        self.ppn
    }
}

/// Allocator over the frames `[start, end)`.
pub struct FrameAllocator {
    start: u64,
    current: u64,
    end: u64,
    recycled: Vec<u64>,
    frames: Vec<Vec<u8>>,
}

impl FrameAllocator {
    pub closed spec fn start(&self) -> int {
        self.start as int
    }

    pub closed spec fn end(&self) -> int {
        self.end as int
    }

    /// Whether frame `p` is in the pool, waiting to be handed out.
    pub closed spec fn is_free(&self, p: u64) -> bool {
        (self.current <= p < self.end) || self.recycled@.contains(p)
    }

    /// Whether frame `p` is handed out and not yet returned.
    pub open spec fn is_allocated(&self, p: u64) -> bool {
        self.start() <= p < self.end() && !self.is_free(p)
    }

    /// Number of frames in the pool.
    pub closed spec fn free_count(&self) -> int {
        self.recycled@.len() + (self.end - self.current)
    }

    /// The frame returned most recently and not handed out again, if any.
    pub closed spec fn last_returned(&self) -> Option<u64> {
        if self.recycled@.len() == 0 {
            None
        } else {
            Some(self.recycled@.last())
        }
    }

    /// The bytes of an allocated frame.
    pub closed spec fn contents(&self, p: u64) -> Seq<u8> {
        self.frames@[p - self.start]@
    }

    pub closed spec fn wf(&self) -> bool {
        &&& self.start <= self.current <= self.end
        &&& self.recycled@.no_duplicates()
        &&& forall|i: int| 0 <= i < self.recycled@.len() ==> self.start <= #[trigger] self.recycled@[i] < self.current
        &&& self.frames@.len() == self.current - self.start
        &&& forall|i: int| 0 <= i < self.frames@.len() ==> (#[trigger] self.frames@[i])@.len() == PAGE_SIZE
    }

    /// An allocator over the frames `[start, end)`, all of them free.
    pub fn new(start: PhysPageNum, end: PhysPageNum) -> (r: Self)
        requires
            start.0 <= end.0,
        ensures
            r.wf(),
            r.start() == start.0,
            r.end() == end.0,
            forall|p: u64| r.is_free(p) <==> start.0 <= p < end.0,
            r.free_count() == end.0 - start.0,
            r.last_returned() is None,
    {
        FrameAllocator { start: start.0, current: start.0, end: end.0, recycled: Vec::new(), frames: Vec::new() }
    }

    /// Hands out a zero-filled frame: the most recently returned one if any,
    /// else the lowest never handed out; `None` once the pool is empty.
    pub fn frame_alloc(&mut self) -> (r: Option<FrameTracker>)
        requires
            old(self).wf(),
        ensures
            final(self).wf(),
            final(self).start() == old(self).start(),
            final(self).end() == old(self).end(),
            r is None <==> old(self).free_count() == 0,
            r is None ==> *final(self) == *old(self),
            r matches Some(f) ==> {
                &&& old(self).is_free(f.ppn().0)
                &&& final(self).is_allocated(f.ppn().0)
                &&& final(self).contents(f.ppn().0) == zero_page()
                &&& final(self).free_count() == old(self).free_count() - 1
                &&& (old(self).last_returned() matches Some(q) ==> f.ppn().0 == q)
            },
            r matches Some(f) ==> forall|p: u64|
                p != f.ppn().0 ==> (#[trigger] final(self).is_free(p) == old(self).is_free(p)),
            r matches Some(f) ==> forall|p: u64|
                old(self).is_allocated(p) ==> #[trigger] final(self).contents(p) == old(self).contents(p),
    {
        if self.recycled.len() > 0 {
            let p = self.recycled.pop().unwrap();
            assert(old(self).recycled@[old(self).recycled@.len() - 1] == p);
            let n = self.frames.len();
            assert(self.start <= p < self.current);
            assert((p - self.start) < n);
            let idx = (p - self.start) as usize;
            let page: Vec<u8> = vec![0u8; 4096];
            assert(page@ =~= zero_page());
            self.frames.set(idx, page);
            proof {
                assert(self.recycled@ =~= old(self).recycled@.drop_last());
                assert(self.contents(p) =~= zero_page());
                assert forall|q: u64| old(self).is_allocated(q) implies #[trigger] self.contents(q) == old(self).contents(q) by {
                    assert(q != p);
                }
                assert forall|q: u64| q != p implies #[trigger] self.is_free(q) == old(self).is_free(q) by {
                    if old(self).recycled@.contains(q) {
                        let k = choose|k: int| 0 <= k < old(self).recycled@.len() && old(self).recycled@[k] == q;
                        assert(k != old(self).recycled@.len() - 1);
                        assert(self.recycled@[k] == q);
                    }
                }
                assert(!self.recycled@.contains(p)) by {
                    if self.recycled@.contains(p) {
                        let k = choose|k: int| 0 <= k < self.recycled@.len() && self.recycled@[k] == p;
                        assert(old(self).recycled@[k] == old(self).recycled@[old(self).recycled@.len() - 1]);
                    }
                }
                assert(old(self).recycled@.contains(p)) by {
                    assert(old(self).recycled@[old(self).recycled@.len() - 1] == p);
                }
            }
            Some(FrameTracker { ppn: PhysPageNum(p) })
        } else if self.current == self.end {
            None
        } else {
            let p = self.current;
            let page: Vec<u8> = vec![0u8; 4096];
            assert(page@ =~= zero_page());
            self.frames.push(page);
            self.current = self.current + 1;
            proof {
                assert(self.contents(p) =~= zero_page());
                assert(!self.recycled@.contains(p)) by {
                    if self.recycled@.contains(p) {
                        let k = choose|k: int| 0 <= k < self.recycled@.len() && self.recycled@[k] == p;
                    }
                }
                assert forall|q: u64| old(self).is_allocated(q) implies #[trigger] self.contents(q) == old(self).contents(q) by {
                    assert(self.frames@[q - self.start] == old(self).frames@[q - self.start]);
                }
            }
            Some(FrameTracker { ppn: PhysPageNum(p) })
        }
    }

    /// Whether frame `p` is handed out and not yet returned.
    pub fn allocated(&self, p: u64) -> (r: bool)
        requires
            self.wf(),
        ensures
            r == self.is_allocated(p),
    {
        if p < self.start || p >= self.current {
            return false;
        }
        let mut i: usize = 0;
        while i < self.recycled.len()
            invariant
                i <= self.recycled@.len(),
                forall|j: int| 0 <= j < i ==> self.recycled@[j] != p,
            decreases self.recycled@.len() - i,
        {
            if self.recycled[i] == p {
                return false;
            }
            i = i + 1;
        }
        true
    }

    /// Gives a frame back to the pool, where it is the next one handed out.
    /// A frame that is not handed out is refused (`false`) and nothing changes.
    pub fn frame_dealloc(&mut self, frame: FrameTracker) -> (r: bool)
        requires
            old(self).wf(),
        ensures
            final(self).wf(),
            final(self).start() == old(self).start(),
            final(self).end() == old(self).end(),
            r == old(self).is_allocated(frame.ppn().0),
            !r ==> *final(self) == *old(self),
            r ==> final(self).is_free(frame.ppn().0),
            forall|p: u64| p != frame.ppn().0 ==> #[trigger] final(self).is_free(p) == old(self).is_free(p),
            r ==> final(self).free_count() == old(self).free_count() + 1,
            r ==> final(self).last_returned() == Some(frame.ppn().0),
            forall|p: u64| final(self).is_allocated(p) ==> #[trigger] final(self).contents(p) == old(self).contents(p),
    {
        let p = frame.ppn().0;
        if !self.allocated(p) {
            return false;
        }
        self.recycled.push(p);
        proof {
            assert(self.recycled@ == old(self).recycled@.push(p));
            assert(self.recycled@[self.recycled@.len() - 1] == p);
            assert forall|q: u64| q != p implies #[trigger] self.is_free(q) == old(self).is_free(q) by {
                if self.recycled@.contains(q) {
                    let k = choose|k: int| 0 <= k < self.recycled@.len() && self.recycled@[k] == q;
                    assert(old(self).recycled@[k] == q);
                }
                if old(self).recycled@.contains(q) {
                    let k = choose|k: int| 0 <= k < old(self).recycled@.len() && old(self).recycled@[k] == q;
                    assert(self.recycled@[k] == q);
                }
            }
            assert(self.recycled@.no_duplicates()) by {
                assert forall|i: int, j: int| 0 <= i < self.recycled@.len() && 0 <= j < self.recycled@.len() && i != j
                    implies self.recycled@[i] != self.recycled@[j] by {
                    if i < old(self).recycled@.len() && j < old(self).recycled@.len() {
                    } else if i < old(self).recycled@.len() {
                        assert(old(self).recycled@.contains(self.recycled@[i]));
                    } else {
                        assert(old(self).recycled@.contains(self.recycled@[j]));
                    }
                }
            }
        }
        true
    }

    /// Byte `offset` of allocated frame `ppn`.
    pub fn read_byte(&self, ppn: PhysPageNum, offset: usize) -> (r: u8)
        requires
            self.wf(),
            self.is_allocated(ppn.0),
            offset < PAGE_SIZE,
        ensures
            r == self.contents(ppn.0)[offset as int],
    {
        let n = self.frames.len();
        assert(ppn.0 - self.start < n);
        let idx = (ppn.0 - self.start) as usize;
        self.frames[idx][offset]
    }

    /// Sets byte `offset` of allocated frame `ppn` to `b`.
    pub fn write_byte(&mut self, ppn: PhysPageNum, offset: usize, b: u8)
        requires
            old(self).wf(),
            old(self).is_allocated(ppn.0),
            offset < PAGE_SIZE,
        ensures
            final(self).wf(),
            final(self).start() == old(self).start(),
            final(self).end() == old(self).end(),
            forall|p: u64| #[trigger] final(self).is_free(p) == old(self).is_free(p),
            final(self).free_count() == old(self).free_count(),
            final(self).last_returned() == old(self).last_returned(),
            final(self).contents(ppn.0) == old(self).contents(ppn.0).update(offset as int, b),
            forall|p: u64| old(self).is_allocated(p) && p != ppn.0 ==> #[trigger] final(self).contents(p) == old(self).contents(p),
    {
        let n = self.frames.len();
        assert(ppn.0 - self.start < n);
        let idx = (ppn.0 - self.start) as usize;
        let mut page = self.frames[idx].clone();
        page.set(offset, b);
        self.frames.set(idx, page);
        proof {
            assert forall|p: u64| old(self).is_allocated(p) && p != ppn.0 implies #[trigger] self.contents(p) == old(self).contents(p) by {
                assert(p - self.start != idx);
            }
        }
    }
}

} // verus!
