//! Address spaces: a page table and the map areas whose pages it maps.
use vstd::prelude::*;
use crate::address::{PhysAddr, PhysPageNum, VPNRange, VirtAddr, VirtPageNum, page_ceil, page_floor};
use crate::frame_allocator::{FrameAllocator, FrameTracker};
use crate::page_table::PageTable;
use crate::config::TRAMPOLINE;
use crate::pte::{PTEFlags, PageTableEntry, ppn_limit};

verus! {

/// Number of distinct walks of an SV39 table: three 9-bit indices.
pub open spec fn walk_count() -> int {
    0x800_0000
}

/// Whether `v` and `w` take the same walk through a page table.
pub open spec fn same_walk(v: VirtPageNum, w: VirtPageNum) -> bool {
    &&& v.index_at(0) == w.index_at(0)
    &&& v.index_at(1) == w.index_at(1)
    &&& v.index_at(2) == w.index_at(2)
}

proof fn lemma_walk_bits(v: u64)
    ensures
        (v / 0x4_0000) % 512 * 0x4_0000 + (v / 512) % 512 * 512 + v % 512 == v % 0x800_0000,
{
    assert((v / 0x4_0000) % 512 * 0x4_0000 + (v / 512) % 512 * 512 + v % 512 == v % 0x800_0000) by (bit_vector);
}

/// Distinct page numbers less than `walk_count()` apart take distinct walks.
pub proof fn lemma_distinct_walks(v: VirtPageNum, w: VirtPageNum)
    requires
        v.0 != w.0,
        -walk_count() < v.0 - w.0 < walk_count(),
    ensures
        !same_walk(v, w),
{
    lemma_walk_bits(v.0);
    lemma_walk_bits(w.0);
    if same_walk(v, w) {
        let x = v.0 as int;
        let y = w.0 as int;
        assert(x % 0x800_0000 == y % 0x800_0000);
        assert(false) by (nonlinear_arith)
            requires
                x % 0x800_0000 == y % 0x800_0000,
                x != y,
                -0x800_0000 < x - y < 0x800_0000,
                x >= 0,
                y >= 0,
        ;
    }
}

proof fn lemma_walk_in_range(v: VirtPageNum)
    ensures
        PageTable::is_walk(v.index_at(0), v.index_at(1), v.index_at(2)),
{
}

/// At most how many frames mapping `n` pages of an area of kind `t` takes:
/// two table nodes per page, and for a framed area the page's own frame.
pub open spec fn frames_needed(t: MapType, n: int) -> int {
    match t {
        MapType::Framed => 3 * n,
        MapType::Identical => 2 * n,
    }
}

/// Why an address-space update was refused.
#[derive(Clone, Copy, PartialEq, Eq, Structural, Debug)]
pub enum MemoryError {
    /// A page of the new area is mapped already.
    Overlap,
    /// The area spans more pages than a table can tell apart.
    TooLarge,
    /// No frame was left.
    OutOfFrames,
    /// No area starts at the given page.
    NoSuchArea,
}

/// Access rights of a map area: the R, W, X and U bits of an entry.
#[derive(Clone, Copy, PartialEq, Eq, Structural, Debug)]
pub struct MapPermission {
    pub bits: u8,
}

impl MapPermission {
    pub const R: u8 = 2;
    pub const W: u8 = 4;
    pub const X: u8 = 8;
    pub const U: u8 = 16;

    /// The rights in `bits` that an area can carry; other bits are dropped.
    pub fn from_bits(bits: u8) -> (r: Self)
        ensures
            r.bits == bits & 30,
    {
        MapPermission { bits: bits & 30 }
    }
}

/// How an area's pages find their frames.
#[derive(Clone, Copy, PartialEq, Eq, Structural, Debug)]
pub enum MapType {
    /// Each page maps to the frame of the same number.
    Identical,
    /// Each page maps to a frame of its own, owned by the area.
    Framed,
}

/// A contiguous run of virtual pages sharing one permission and one backing.
pub struct MapArea {
    vpn_range: VPNRange,
    data_frames: Vec<FrameTracker>,
    map_type: MapType,
    map_perm: MapPermission,
}

impl MapArea {
    pub closed spec fn start(&self) -> int {
        self.vpn_range.start().0 as int
    }

    pub closed spec fn end(&self) -> int {
        self.vpn_range.end().0 as int
    }

    /// Number of frames the area owns.
    pub closed spec fn frame_count(&self) -> int {
        self.data_frames@.len() as int
    }

    /// The frame number of the `k`-th frame the area owns.
    pub closed spec fn frame(&self, k: int) -> u64 {
        self.data_frames@[k].ppn().0
    }

    /// Every frame the area owns is handed out by `alloc`.
    pub open spec fn frames_allocated(&self, alloc: FrameAllocator) -> bool {
        forall|k: int| 0 <= k < self.frame_count() ==> alloc.is_allocated(#[trigger] self.frame(k))
    }

    /// The area owns no frame twice.
    pub open spec fn frames_distinct(&self) -> bool {
        forall|k: int, l: int| 0 <= k < self.frame_count() && 0 <= l < self.frame_count() && k != l
            ==> #[trigger] self.frame(k) != #[trigger] self.frame(l)
    }

    /// No frame is owned by both areas.
    pub open spec fn frames_apart(&self, other: MapArea) -> bool {
        forall|k: int, l: int| 0 <= k < self.frame_count() && 0 <= l < other.frame_count()
            ==> #[trigger] self.frame(k) != #[trigger] other.frame(l)
    }

    pub closed spec fn perm(&self) -> MapPermission {
        self.map_perm
    }

    pub closed spec fn kind(&self) -> MapType {
        self.map_type
    }

    /// Page `k` of the area.
    pub open spec fn vpn_at(&self, k: int) -> VirtPageNum {
        VirtPageNum((self.start() + k) as u64)
    }

    /// The frame that page `k` of the area maps to.
    pub closed spec fn ppn_at(&self, k: int) -> int {
        match self.map_type {
            MapType::Identical => self.start() + k,
            MapType::Framed => self.data_frames@[k].ppn().0 as int,
        }
    }

    /// The frame that page `k` maps to, where `frame` would become its frame.
    pub closed spec fn ppn_at_with(&self, k: int, frame: Option<FrameTracker>) -> int {
        match self.map_type {
            MapType::Identical => self.start() + k,
            MapType::Framed => match frame {
                Some(f) => f.ppn().0 as int,
                None => 0,
            },
        }
    }

    /// The entry that maps page `k` of the area.
    pub open spec fn leaf_at(&self, k: int) -> PageTableEntry {
        PageTableEntry::encode(self.ppn_at(k), self.perm().bits | PTEFlags::V)
    }

    pub closed spec fn wf(&self) -> bool {
        &&& self.vpn_range.wf()
        &&& self.end() - self.start() <= walk_count()
        &&& self.map_perm.bits < 32
        &&& match self.map_type {
            MapType::Identical => self.end() <= ppn_limit(),
            MapType::Framed => self.data_frames@.len() == self.end() - self.start(),
        }
    }

    /// The area of the pages that `[start_va, end_va)` touches, with nothing mapped yet.
    pub fn new(start_va: VirtAddr, end_va: VirtAddr, map_type: MapType, map_perm: MapPermission) -> (r: Self)
        requires
            start_va.0 <= end_va.0,
        ensures
            r.start() == page_floor(start_va.0 as int),
            r.end() == page_ceil(end_va.0 as int),
            r.kind() == map_type,
            r.perm() == map_perm,
            r.frame_count() == 0,
    {
        let s = start_va.floor();
        let e = end_va.ceil();
        MapArea { vpn_range: VPNRange::new(s, e), data_frames: Vec::new(), map_type, map_perm }
    }
}

/// An address space: its page table and its areas.
pub struct MemorySet {
    page_table: PageTable,
    areas: Vec<MapArea>,
}

impl MemorySet {
    pub closed spec fn table(&self) -> PageTable {
        self.page_table
    }

    pub closed spec fn area_count(&self) -> int {
        self.areas@.len() as int
    }

    pub closed spec fn area(&self, i: int) -> MapArea {
        self.areas@[i]
    }

    pub closed spec fn wf(&self) -> bool {
        &&& self.page_table.wf()
        &&& forall|i: int| 0 <= i < self.areas@.len() ==> (#[trigger] self.areas@[i]).wf()
        &&& forall|i: int, k: int| 0 <= i < self.areas@.len() && 0 <= k < self.areas@[i].end() - self.areas@[i].start()
            ==> self.page_table.lookup_vpn(#[trigger] self.areas@[i].vpn_at(k)) == Some(self.areas@[i].leaf_at(k))
        &&& forall|i: int, j: int, k: int, l: int| 0 <= i < self.areas@.len() && 0 <= j < self.areas@.len() && i != j
            && 0 <= k < self.areas@[i].end() - self.areas@[i].start()
            && 0 <= l < self.areas@[j].end() - self.areas@[j].start()
            ==> !same_walk(#[trigger] self.areas@[i].vpn_at(k), #[trigger] self.areas@[j].vpn_at(l))
    }

    /// Every frame an area owns is handed out by `alloc`, and no frame is
    /// owned twice.
    pub closed spec fn owns_frames(&self, alloc: FrameAllocator) -> bool {
        &&& forall|i: int| 0 <= i < self.areas@.len() ==> (#[trigger] self.areas@[i]).frames_allocated(alloc)
            && self.areas@[i].frames_distinct()
        &&& forall|i: int, j: int| 0 <= i < self.areas@.len() && 0 <= j < self.areas@.len() && i != j
            ==> (#[trigger] self.areas@[i]).frames_apart(#[trigger] self.areas@[j])
    }

    /// Ownership survives a change of `alloc` that returns no handed-out frame.
    proof fn lemma_owns_frames_kept(&self, a0: FrameAllocator, a1: FrameAllocator)
        requires
            self.owns_frames(a0),
            forall|p: u64| a0.is_allocated(p) ==> #[trigger] a1.is_allocated(p),
        ensures
            self.owns_frames(a1),
    {
        assert forall|i: int| 0 <= i < self.areas@.len() implies (#[trigger] self.areas@[i]).frames_allocated(a1)
            && self.areas@[i].frames_distinct() by {
            assert forall|k: int| 0 <= k < self.areas@[i].frame_count() implies a1.is_allocated(#[trigger] self.areas@[i].frame(k)) by {
                assert(a0.is_allocated(self.areas@[i].frame(k)));
            }
        }
    }

    /// Ownership survives a change of `alloc` that keeps every owned frame handed out.
    proof fn lemma_owns_frames_moved(&self, a0: FrameAllocator, a1: FrameAllocator)
        requires
            self.owns_frames(a0),
            forall|i: int, k: int| 0 <= i < self.areas@.len() && 0 <= k < self.areas@[i].frame_count()
                ==> a1.is_allocated(#[trigger] self.areas@[i].frame(k)),
        ensures
            self.owns_frames(a1),
    {
        assert forall|i: int| 0 <= i < self.areas@.len() implies (#[trigger] self.areas@[i]).frames_allocated(a1)
            && self.areas@[i].frames_distinct() by {
            assert forall|k: int| 0 <= k < self.areas@[i].frame_count() implies a1.is_allocated(#[trigger] self.areas@[i].frame(k)) by {
            }
        }
    }

    /// An address space with an empty root table in a fresh frame and no
    /// areas; `None` where no frame is left.
    pub fn new_bare(alloc: &mut FrameAllocator) -> (r: Option<Self>)
        requires
            old(alloc).wf(),
        ensures
            final(alloc).wf(),
            final(alloc).start() == old(alloc).start(),
            final(alloc).end() == old(alloc).end(),
            r is None <==> old(alloc).free_count() == 0,
            r matches Some(m) ==> m.owns_frames(*final(alloc)),
            r matches Some(m) ==> m.table().node_count() == 1 && final(alloc).free_count() == old(alloc).free_count() - 1,
            r matches Some(m) ==> m.wf() && m.area_count() == 0 && forall|a: int, b: int, c: int|
                PageTable::is_walk(a, b, c) ==> #[trigger] m.table().lookup(a, b, c) is None,
    {
        match alloc.frame_alloc() {
            None => None,
            Some(root) => Some(MemorySet { page_table: PageTable::new(root), areas: Vec::new() }),
        }
    }

    /// The page table of this address space.
    pub fn page_table(&self) -> (r: &PageTable)
        ensures
            *r == self.table(),
    {
        &self.page_table
    }

    /// The value of the translation-root register for this address space.
    pub fn token(&self) -> (r: u64)
        requires
            self.wf(),
        ensures
            r == self.table().token_spec(),
    {
        self.page_table.token()
    }

    /// The entry of page `vpn`, or `None` where it is not mapped.
    pub fn translate(&self, vpn: VirtPageNum) -> (r: Option<PageTableEntry>)
        requires
            self.wf(),
        ensures
            r == self.table().lookup_vpn(vpn),
    {
        self.page_table.translate(vpn)
    }

    /// Maps every page of `area`, which holds no frames yet, and adds it.
    /// Refused, with nothing changed, where the area spans more than
    /// `walk_count()` pages or one of its pages is mapped already. Where the
    /// frames run out, the pages mapped so far stay, as an area that starts
    /// where `area` starts.
    #[verifier::rlimit(50)]
    fn push(&mut self, area: MapArea, alloc: &mut FrameAllocator) -> (r: Result<(), MemoryError>)
        requires
            old(self).wf(),
            old(alloc).wf(),
            old(alloc).end() <= ppn_limit(),
            area.vpn_range.wf(),
            area.map_perm.bits < 32,
            area.data_frames@.len() == 0,
            area.map_type == MapType::Identical ==> area.end() <= ppn_limit(),
            old(self).owns_frames(*old(alloc)),
        ensures
            final(self).wf(),
            final(self).owns_frames(*final(alloc)),
            forall|p: u64| old(alloc).is_allocated(p) ==> #[trigger] final(alloc).is_allocated(p),
            final(alloc).wf(),
            final(alloc).start() == old(alloc).start(),
            final(alloc).end() == old(alloc).end(),
            (r == Err::<(), MemoryError>(MemoryError::TooLarge)) <==> area.end() - area.start() > walk_count(),
            r != Err::<(), MemoryError>(MemoryError::TooLarge) ==> ((r == Err::<(), MemoryError>(MemoryError::Overlap))
                <==> exists|k: int| 0 <= k < area.end() - area.start()
                    && (#[trigger] old(self).table().lookup_vpn(area.vpn_at(k))) is Some),
            r == Err::<(), MemoryError>(MemoryError::TooLarge) || r == Err::<(), MemoryError>(MemoryError::Overlap)
                ==> *final(self) == *old(self) && *final(alloc) == *old(alloc),
            r is Ok || r == Err::<(), MemoryError>(MemoryError::OutOfFrames) ==> {
                &&& final(self).area_count() == old(self).area_count() + 1
                &&& final(self).area(old(self).area_count()).start() == area.start()
                &&& final(self).area(old(self).area_count()).perm() == area.perm()
                &&& final(self).area(old(self).area_count()).kind() == area.kind()
            },
            r is Ok ==> final(self).area(old(self).area_count()).end() == area.end(),
            r is Ok ==> final(alloc).free_count() >= old(alloc).free_count() - frames_needed(area.map_type, area.end() - area.start()),
            r is Ok ==> final(self).table().node_count() <= old(self).table().node_count() + 2 * (area.end() - area.start()),
            r == Err::<(), MemoryError>(MemoryError::OutOfFrames) ==>
                old(alloc).free_count() < frames_needed(area.map_type, area.end() - area.start())
                || old(self).table().node_count() + 2 * (area.end() - area.start()) > usize::MAX / 512,
            forall|i: int| 0 <= i < old(self).area_count() ==> #[trigger] final(self).area(i) == old(self).area(i),
            r is Err ==> r != Err::<(), MemoryError>(MemoryError::NoSuchArea),
    {
        let ghost a_in = area;
        let s0 = area.vpn_range.get_start().0;
        let e0 = area.vpn_range.get_end().0;
        if e0 - s0 > 0x800_0000 {
            return Err(MemoryError::TooLarge);
        }
        let n = e0 - s0;
        let mut k: u64 = 0;
        while k < n
            invariant
                k <= n,
                n == area.end() - area.start(),
                s0 == area.start(),
                n <= walk_count(),
                area == a_in,
                *self == *old(self),
                *alloc == *old(alloc),
                self.wf(),
                alloc.wf(),
                self.owns_frames(*alloc),
                forall|j: int| 0 <= j < k ==> (#[trigger] self.table().lookup_vpn(area.vpn_at(j))) is None,
            decreases n - k,
        {
            if self.page_table.translate(VirtPageNum(s0 + k)).is_some() {
                assert(old(self).table().lookup_vpn(area.vpn_at(k as int)) is Some);
                return Err(MemoryError::Overlap);
            }
            k = k + 1;
        }
        proof {
            assert forall|i: int, l: int, j: int| 0 <= i < self.areas@.len()
                && 0 <= l < self.areas@[i].end() - self.areas@[i].start() && 0 <= j < n
                implies !same_walk(#[trigger] self.areas@[i].vpn_at(l), #[trigger] area.vpn_at(j)) by {
                assert(self.page_table.lookup_vpn(self.areas@[i].vpn_at(l)) is Some);
                assert(self.page_table.lookup_vpn(area.vpn_at(j)) is None);
            }
        }
        let mut ar = area;
        let perm = ar.map_perm;
        let flags = PTEFlags::from_bits(perm.bits);
        k = 0;
        while k < n
            invariant
                k <= n,
                n == ar.end() - ar.start(),
                s0 == ar.start(),
                n <= walk_count(),
                ar.vpn_range.wf(),
                ar.vpn_range == a_in.vpn_range,
                area == a_in,
                ar.map_type == a_in.map_type,
                ar.map_perm == perm,
                perm == a_in.map_perm,
                flags.bits == perm.bits,
                perm.bits < 32,
                ar.map_type == MapType::Identical ==> ar.end() <= ppn_limit() && ar.data_frames@.len() == 0,
                ar.map_type == MapType::Framed ==> ar.data_frames@.len() == k,
                self.wf(),
                self.areas@ == old(self).areas@,
                alloc.wf(),
                alloc.start() == old(alloc).start(),
                alloc.end() == old(alloc).end(),
                alloc.end() <= ppn_limit(),
                forall|j: int| 0 <= j < k ==> #[trigger] self.table().lookup_vpn(ar.vpn_at(j)) == Some(ar.leaf_at(j)),
                forall|j: int| k <= j < n ==> (#[trigger] self.table().lookup_vpn(ar.vpn_at(j))) is None,
                forall|j: int| 0 <= j < n ==> (#[trigger] old(self).table().lookup_vpn(a_in.vpn_at(j))) is None,
                forall|i: int, l: int, j: int| 0 <= i < self.areas@.len()
                    && 0 <= l < self.areas@[i].end() - self.areas@[i].start() && 0 <= j < n
                    ==> !same_walk(#[trigger] self.areas@[i].vpn_at(l), #[trigger] ar.vpn_at(j)),
                self.owns_frames(*alloc),
                ar.frames_allocated(*alloc),
                ar.frames_distinct(),
                forall|i: int| 0 <= i < self.areas@.len() ==> (#[trigger] self.areas@[i]).frames_apart(ar),
                forall|p: u64| old(alloc).is_allocated(p) ==> #[trigger] alloc.is_allocated(p),
                alloc.free_count() >= old(alloc).free_count() - frames_needed(a_in.map_type, k as int),
                self.table().node_count() <= old(self).table().node_count() + 2 * k,
            decreases n - k,
        {
            let ghost a_prev = ar;
            let ghost fc_prev = alloc.free_count();
            let ghost nc_prev = self.table().node_count();
            let ok = self.map_page(&mut ar, k, alloc);
            proof {
                if ok {
                    assert(alloc.free_count() >= old(alloc).free_count() - frames_needed(a_in.map_type, k + 1));
                } else {
                    assert(old(alloc).free_count() < frames_needed(a_in.map_type, n as int)
                        || old(self).table().node_count() + 2 * n > usize::MAX / 512);
                }
                assert(ar.start() == a_in.start() && ar.end() == a_in.end());
                assert forall|i: int, l: int, j: int| 0 <= i < self.areas@.len()
                    && 0 <= l < self.areas@[i].end() - self.areas@[i].start() && 0 <= j < n
                    implies !same_walk(#[trigger] self.areas@[i].vpn_at(l), #[trigger] ar.vpn_at(j)) by {
                    assert(ar.vpn_at(j) == a_prev.vpn_at(j));
                    assert(!same_walk(self.areas@[i].vpn_at(l), a_prev.vpn_at(j)));
                }
                assert forall|j: int| 0 <= j < n implies (#[trigger] old(self).table().lookup_vpn(a_in.vpn_at(j))) is None by {
                }
            }
            if !ok {
                proof {
                    assert(!exists|j: int| 0 <= j < a_in.end() - a_in.start()
                        && (#[trigger] old(self).table().lookup_vpn(a_in.vpn_at(j))) is Some);
                }
                return self.keep_mapped(ar, k, alloc);
            }
            k = k + 1;
        }
        proof {
            assert(ar.wf());
        }
        self.add_area(ar, alloc);
        Ok(())
    }

    /// Adds `area`, whose pages are all mapped and take walks that no page of
    /// another area takes.
    fn add_area(&mut self, area: MapArea, alloc: &FrameAllocator)
        requires
            old(self).wf(),
            area.wf(),
            old(self).owns_frames(*alloc),
            area.frames_allocated(*alloc),
            area.frames_distinct(),
            forall|i: int| 0 <= i < old(self).areas@.len() ==> (#[trigger] old(self).areas@[i]).frames_apart(area),
            forall|j: int| 0 <= j < area.end() - area.start() ==>
                #[trigger] old(self).table().lookup_vpn(area.vpn_at(j)) == Some(area.leaf_at(j)),
            forall|i: int, l: int, j: int| 0 <= i < old(self).areas@.len()
                && 0 <= l < old(self).areas@[i].end() - old(self).areas@[i].start() && 0 <= j < area.end() - area.start()
                ==> !same_walk(#[trigger] old(self).areas@[i].vpn_at(l), #[trigger] area.vpn_at(j)),
        ensures
            final(self).wf(),
            final(self).owns_frames(*alloc),
            final(self).page_table == old(self).page_table,
            final(self).areas@ == old(self).areas@.push(area),
    {
        self.areas.push(area);
        proof {
            let n = old(self).areas@.len() as int;
            assert forall|i: int| 0 <= i < self.areas@.len() implies (#[trigger] self.areas@[i]).frames_allocated(*alloc)
                && self.areas@[i].frames_distinct() by {
                if i < n {
                    assert(self.areas@[i] == old(self).areas@[i]);
                }
            }
            assert forall|i: int, j: int| 0 <= i < self.areas@.len() && 0 <= j < self.areas@.len() && i != j
                implies (#[trigger] self.areas@[i]).frames_apart(#[trigger] self.areas@[j]) by {
                if i < n && j < n {
                    assert(self.areas@[i] == old(self).areas@[i]);
                    assert(self.areas@[j] == old(self).areas@[j]);
                } else if i < n {
                    assert(self.areas@[i] == old(self).areas@[i]);
                    assert(old(self).areas@[i].frames_apart(area));
                } else {
                    let o = old(self).areas@[j];
                    assert(self.areas@[j] == o);
                    assert(o.frames_apart(area));
                    assert forall|k: int, l: int| 0 <= k < area.frame_count() && 0 <= l < o.frame_count()
                        implies #[trigger] area.frame(k) != #[trigger] o.frame(l) by {
                        assert(o.frame(l) != area.frame(k));
                    }
                }
            }
            assert forall|i: int, k: int| 0 <= i < self.areas@.len() && 0 <= k < self.areas@[i].end() - self.areas@[i].start()
                implies self.page_table.lookup_vpn(#[trigger] self.areas@[i].vpn_at(k)) == Some(self.areas@[i].leaf_at(k)) by {
                if i < n {
                    assert(self.areas@[i] == old(self).areas@[i]);
                } else {
                    assert(self.areas@[i] == area);
                    assert(old(self).table().lookup_vpn(area.vpn_at(k)) == Some(area.leaf_at(k)));
                }
            }
            assert forall|i: int, j: int, k: int, l: int| 0 <= i < self.areas@.len() && 0 <= j < self.areas@.len() && i != j
                && 0 <= k < self.areas@[i].end() - self.areas@[i].start()
                && 0 <= l < self.areas@[j].end() - self.areas@[j].start()
                implies !same_walk(#[trigger] self.areas@[i].vpn_at(k), #[trigger] self.areas@[j].vpn_at(l)) by {
                if i < n && j < n {
                    assert(self.areas@[i] == old(self).areas@[i]);
                    assert(self.areas@[j] == old(self).areas@[j]);
                } else if i < n {
                    assert(self.areas@[i] == old(self).areas@[i]);
                    assert(!same_walk(old(self).areas@[i].vpn_at(k), area.vpn_at(l)));
                } else {
                    assert(self.areas@[j] == old(self).areas@[j]);
                    assert(!same_walk(old(self).areas@[j].vpn_at(l), area.vpn_at(k)));
                }
            }
        }
    }

    /// Adds the first `k` pages of `area`, which are mapped, and reports that
    /// the frames ran out.
    fn keep_mapped(&mut self, area: MapArea, k: u64, alloc: &FrameAllocator) -> (r: Result<(), MemoryError>)
        requires
            old(self).wf(),
            old(self).owns_frames(*alloc),
            area.frames_allocated(*alloc),
            area.frames_distinct(),
            forall|i: int| 0 <= i < old(self).areas@.len() ==> (#[trigger] old(self).areas@[i]).frames_apart(area),
            area.vpn_range.wf(),
            area.map_perm.bits < 32,
            k <= area.end() - area.start() <= walk_count(),
            area.map_type == MapType::Identical ==> area.end() <= ppn_limit(),
            area.map_type == MapType::Framed ==> area.data_frames@.len() == k,
            forall|j: int| 0 <= j < k ==> #[trigger] old(self).table().lookup_vpn(area.vpn_at(j)) == Some(area.leaf_at(j)),
            forall|i: int, l: int, j: int| 0 <= i < old(self).areas@.len()
                && 0 <= l < old(self).areas@[i].end() - old(self).areas@[i].start() && 0 <= j < area.end() - area.start()
                ==> !same_walk(#[trigger] old(self).areas@[i].vpn_at(l), #[trigger] area.vpn_at(j)),
        ensures
            r == Err::<(), MemoryError>(MemoryError::OutOfFrames),
            final(self).wf(),
            final(self).owns_frames(*alloc),
            final(self).page_table == old(self).page_table,
            final(self).areas@.len() == old(self).areas@.len() + 1,
            forall|i: int| 0 <= i < old(self).areas@.len() ==> #[trigger] final(self).areas@[i] == old(self).areas@[i],
            final(self).area(old(self).area_count()).start() == area.start(),
            final(self).area(old(self).area_count()).perm() == area.perm(),
            final(self).area(old(self).area_count()).kind() == area.kind(),
    {
        let ghost a0 = area;
        let mut area = area;
        let s = area.vpn_range.get_start();
        area.vpn_range = VPNRange::new(s, VirtPageNum(s.0 + k));
        proof {
            assert(area.start() == a0.start());
            assert forall|j: int| 0 <= j < k implies #[trigger] old(self).table().lookup_vpn(area.vpn_at(j)) == Some(area.leaf_at(j)) by {
                assert(area.vpn_at(j) == a0.vpn_at(j));
                assert(old(self).table().lookup_vpn(a0.vpn_at(j)) == Some(a0.leaf_at(j)));
            }
            assert forall|i: int, l: int, j: int| 0 <= i < old(self).areas@.len()
                && 0 <= l < old(self).areas@[i].end() - old(self).areas@[i].start() && 0 <= j < area.end() - area.start()
                implies !same_walk(#[trigger] old(self).areas@[i].vpn_at(l), #[trigger] area.vpn_at(j)) by {
                assert(area.vpn_at(j) == a0.vpn_at(j));
                assert(!same_walk(old(self).areas@[i].vpn_at(l), a0.vpn_at(j)));
            }
            assert(area.data_frames == a0.data_frames);
            assert(area.frame_count() == a0.frame_count());
            assert forall|j: int| 0 <= j < area.frame_count() implies #[trigger] area.frame(j) == a0.frame(j) by {
            }
            assert forall|i: int| 0 <= i < old(self).areas@.len() implies (#[trigger] old(self).areas@[i]).frames_apart(area) by {
                let o = old(self).areas@[i];
                assert(o.frames_apart(a0));
                assert forall|j: int, l: int| 0 <= j < o.frame_count() && 0 <= l < area.frame_count()
                    implies #[trigger] o.frame(j) != #[trigger] area.frame(l) by {
                    assert(o.frame(j) != a0.frame(l));
                }
            }
            assert forall|j: int| 0 <= j < area.frame_count() implies alloc.is_allocated(#[trigger] area.frame(j)) by {
                assert(alloc.is_allocated(a0.frame(j)));
            }
            assert forall|j: int, l: int| 0 <= j < area.frame_count() && 0 <= l < area.frame_count() && j != l
                implies #[trigger] area.frame(j) != #[trigger] area.frame(l) by {
                assert(a0.frame(j) != a0.frame(l));
            }
        }
        self.add_area(area, alloc);
        Err(MemoryError::OutOfFrames)
    }

    /// Maps page `k` of `area`, the first page not mapped yet; `false` where
    /// the frames ran out, with the first `k` pages still mapped.
    fn map_page(&mut self, area: &mut MapArea, k: u64, alloc: &mut FrameAllocator) -> (ok: bool)
        requires
            old(area).vpn_range.wf(),
            k < old(area).end() - old(area).start() <= walk_count(),
            old(area).map_perm.bits < 32,
            old(area).map_type == MapType::Identical ==> old(area).end() <= ppn_limit() && old(area).data_frames@.len() == 0,
            old(area).map_type == MapType::Framed ==> old(area).data_frames@.len() == k,
            old(self).wf(),
            old(alloc).wf(),
            old(alloc).end() <= ppn_limit(),
            forall|j: int| 0 <= j < k ==> #[trigger] old(self).table().lookup_vpn(old(area).vpn_at(j)) == Some(old(area).leaf_at(j)),
            forall|j: int| k <= j < old(area).end() - old(area).start() ==> (#[trigger] old(self).table().lookup_vpn(old(area).vpn_at(j))) is None,
            forall|i: int, l: int, j: int| 0 <= i < old(self).areas@.len()
                && 0 <= l < old(self).areas@[i].end() - old(self).areas@[i].start() && 0 <= j < old(area).end() - old(area).start()
                ==> !same_walk(#[trigger] old(self).areas@[i].vpn_at(l), #[trigger] old(area).vpn_at(j)),
            old(self).owns_frames(*old(alloc)),
            old(area).frames_allocated(*old(alloc)),
            old(area).frames_distinct(),
            forall|i: int| 0 <= i < old(self).areas@.len() ==> (#[trigger] old(self).areas@[i]).frames_apart(*old(area)),
        ensures
            ok ==> final(alloc).free_count() >= old(alloc).free_count() - frames_needed(old(area).map_type, 1),
            ok ==> final(self).table().node_count() <= old(self).table().node_count() + 2,
            !ok ==> old(alloc).free_count() < frames_needed(old(area).map_type, 1)
                || old(self).table().node_count() + 2 > usize::MAX / 512,
            final(self).owns_frames(*final(alloc)),
            final(area).frames_allocated(*final(alloc)),
            final(area).frames_distinct(),
            forall|i: int| 0 <= i < final(self).areas@.len() ==> (#[trigger] final(self).areas@[i]).frames_apart(*final(area)),
            forall|p: u64| old(alloc).is_allocated(p) ==> #[trigger] final(alloc).is_allocated(p),
            final(area).vpn_range == old(area).vpn_range,
            final(area).map_type == old(area).map_type,
            final(area).map_perm == old(area).map_perm,
            final(self).wf(),
            final(self).areas@ == old(self).areas@,
            final(alloc).wf(),
            final(alloc).start() == old(alloc).start(),
            final(alloc).end() == old(alloc).end(),
            old(area).map_type == MapType::Identical ==> final(area).data_frames@.len() == 0,
            old(area).map_type == MapType::Framed ==> final(area).data_frames@.len() == (if ok { k + 1 } else { k as int }),
            forall|j: int| 0 <= j < (if ok { k + 1 } else { k as int }) ==>
                #[trigger] final(self).table().lookup_vpn(final(area).vpn_at(j)) == Some(final(area).leaf_at(j)),
            forall|j: int| k < j < old(area).end() - old(area).start() ==> (#[trigger] final(self).table().lookup_vpn(final(area).vpn_at(j))) is None,
    {
        let s0 = area.vpn_range.get_start().0;
        let vpn = VirtPageNum(s0 + k);
        let flags = PTEFlags::from_bits(area.map_perm.bits);
        let (ppn, frame) = match Self::frame_for(area, k, alloc) {
            None => {
                return false;
            },
            Some(pf) => pf,
        };
        let ghost alloc_mid = *alloc;
        let res = self.page_table.map(vpn, ppn, flags, alloc);
        let ghost alloc_mapped = *alloc;
        proof {
            Self::lemma_map_keeps_others(old(self).page_table, self.page_table, *old(area), k as int, old(self).areas@);
        }
        match res {
            Err(_) => {
                if let Some(f) = frame {
                    alloc.frame_dealloc(f);
                }
                proof {
                    assert(old(area).vpn_at(k as int) == vpn);
                    assert(old(self).table().lookup_vpn(vpn) is None);
                    assert(res == Err::<(), crate::page_table::PageTableError>(crate::page_table::PageTableError::OutOfFrames));
                    assert(alloc_mid.free_count() < 2 || old(self).table().node_count() + 2 > usize::MAX / 512);
                    assert forall|p: u64| old(alloc).is_allocated(p) implies #[trigger] alloc.is_allocated(p) by {
                        assert(alloc_mid.is_allocated(p));
                        assert(alloc_mapped.is_allocated(p));
                    }
                    old(self).lemma_owns_frames_kept(*old(alloc), *alloc);
                    assert(area.frames_allocated(*alloc)) by {
                        assert forall|j: int| 0 <= j < area.frame_count() implies alloc.is_allocated(#[trigger] area.frame(j)) by {
                            assert(old(alloc).is_allocated(area.frame(j)));
                        }
                    }
                    assert forall|j: int| 0 <= j < k implies
                        #[trigger] self.table().lookup_vpn(area.vpn_at(j)) == Some(area.leaf_at(j)) by {
                        assert(old(self).table().lookup_vpn(old(area).vpn_at(j)) == Some(old(area).leaf_at(j)));
                        assert(self.page_table.lookup_vpn(old(area).vpn_at(j)) == old(self).page_table.lookup_vpn(old(area).vpn_at(j)));
                    }
                    assert forall|j: int| k < j < old(area).end() - old(area).start() implies
                        (#[trigger] self.table().lookup_vpn(area.vpn_at(j))) is None by {
                        assert(old(self).table().lookup_vpn(old(area).vpn_at(j)) is None);
                        assert(self.page_table.lookup_vpn(old(area).vpn_at(j)) == old(self).page_table.lookup_vpn(old(area).vpn_at(j)));
                    }
                }
                return false;
            },
            Ok(()) => {},
        }
        let ghost a0 = *area;
        if let Some(f) = frame {
            area.data_frames.push(f);
        }
        proof {
            assert(area.vpn_at(k as int) == vpn);
            assert(area.leaf_at(k as int) == PageTableEntry::encode(ppn.0 as int, flags.bits | PTEFlags::V));
            assert forall|j: int| 0 <= j < k implies #[trigger] area.leaf_at(j) == a0.leaf_at(j) by {
                if area.map_type == MapType::Framed {
                    assert(area.data_frames@[j] == a0.data_frames@[j]);
                }
            }
            assert forall|p: u64| old(alloc).is_allocated(p) implies #[trigger] alloc.is_allocated(p) by {
                assert(alloc_mid.is_allocated(p));
            }
            old(self).lemma_owns_frames_kept(*old(alloc), *alloc);
            assert forall|j: int| 0 <= j < a0.frame_count() implies #[trigger] area.frame(j) == a0.frame(j)
                && old(alloc).is_allocated(a0.frame(j)) by {
                assert(area.data_frames@[j] == a0.data_frames@[j]);
            }
            if area.map_type == MapType::Framed {
                let f = area.data_frames@[k as int];
                assert(area.frame(k as int) == f.ppn().0);
                assert(old(alloc).is_free(f.ppn().0));
                assert(alloc.is_allocated(f.ppn().0));
                assert forall|j: int| 0 <= j < area.frame_count() implies alloc.is_allocated(#[trigger] area.frame(j)) by {
                    if j < k {
                        assert(old(alloc).is_allocated(a0.frame(j)));
                    }
                }
                assert forall|j: int, l: int| 0 <= j < area.frame_count() && 0 <= l < area.frame_count() && j != l
                    implies #[trigger] area.frame(j) != #[trigger] area.frame(l) by {
                    if j < k && l < k {
                        assert(a0.frame(j) != a0.frame(l));
                    } else if j < k {
                        assert(old(alloc).is_allocated(a0.frame(j)));
                    } else {
                        assert(old(alloc).is_allocated(a0.frame(l)));
                    }
                }
                assert forall|i: int| 0 <= i < self.areas@.len() implies (#[trigger] self.areas@[i]).frames_apart(*area) by {
                    let o = self.areas@[i];
                    assert(o.frames_apart(a0));
                    assert forall|j: int, l: int| 0 <= j < o.frame_count() && 0 <= l < area.frame_count()
                        implies #[trigger] o.frame(j) != #[trigger] area.frame(l) by {
                        assert(old(self).owns_frames(*old(alloc)));
                        assert(o.frames_allocated(*old(alloc)));
                        assert(old(alloc).is_allocated(o.frame(j)));
                        if l < k {
                            assert(o.frame(j) != a0.frame(l));
                        }
                    }
                }
            } else {
                assert(area.data_frames == a0.data_frames);
                assert forall|i: int| 0 <= i < self.areas@.len() implies (#[trigger] self.areas@[i]).frames_apart(*area) by {
                    assert(self.areas@[i].frames_apart(a0));
                }
                assert(area.frames_allocated(*alloc));
            }
            assert forall|j: int| 0 <= j < k + 1 implies
                #[trigger] self.table().lookup_vpn(area.vpn_at(j)) == Some(area.leaf_at(j)) by {
                assert(area.vpn_at(j) == old(area).vpn_at(j));
                if j < k {
                    assert(area.leaf_at(j) == a0.leaf_at(j));
                    assert(old(self).table().lookup_vpn(old(area).vpn_at(j)) == Some(old(area).leaf_at(j)));
                    assert(self.page_table.lookup_vpn(old(area).vpn_at(j)) == old(self).page_table.lookup_vpn(old(area).vpn_at(j)));
                }
            }
            assert forall|j: int| k < j < old(area).end() - old(area).start() implies
                (#[trigger] self.table().lookup_vpn(area.vpn_at(j))) is None by {
                assert(area.vpn_at(j) == old(area).vpn_at(j));
                assert(old(self).table().lookup_vpn(old(area).vpn_at(j)) is None);
                assert(self.page_table.lookup_vpn(old(area).vpn_at(j)) == old(self).page_table.lookup_vpn(old(area).vpn_at(j)));
            }
        }
        true
    }

    /// The frame for page `k` of `area`: the page's own number for an identical
    /// area, else a fresh frame, which the caller keeps; `None` where no frame is left.
    fn frame_for(area: &MapArea, k: u64, alloc: &mut FrameAllocator) -> (r: Option<(PhysPageNum, Option<FrameTracker>)>)
        requires
            old(alloc).wf(),
            old(alloc).end() <= ppn_limit(),
            area.vpn_range.wf(),
            k < area.end() - area.start(),
            area.map_type == MapType::Identical ==> area.end() <= ppn_limit(),
        ensures
            final(alloc).wf(),
            final(alloc).start() == old(alloc).start(),
            final(alloc).end() == old(alloc).end(),
            r is None ==> area.map_type == MapType::Framed && *final(alloc) == *old(alloc),
            forall|p: u64| old(alloc).is_allocated(p) ==> #[trigger] final(alloc).is_allocated(p),
            r matches Some(pf) ==> (pf.1 matches Some(f) ==> old(alloc).is_free(f.ppn().0) && final(alloc).is_allocated(f.ppn().0)),
            r is None ==> old(alloc).free_count() == 0,
            final(alloc).free_count() >= old(alloc).free_count() - 1,
            r matches Some(pf) ==> {
                &&& pf.0.0 < ppn_limit()
                &&& pf.0.0 == area.ppn_at_with(k as int, pf.1)
                &&& area.map_type == MapType::Identical ==> pf.1 is None && *final(alloc) == *old(alloc)
                &&& area.map_type == MapType::Framed ==> (pf.1 matches Some(f) && f.ppn() == pf.0)
            },
    {
        let s0 = area.vpn_range.get_start().0;
        match area.map_type {
            MapType::Identical => Some((PhysPageNum(s0 + k), None)),
            MapType::Framed => {
                match alloc.frame_alloc() {
                    None => None,
                    Some(f) => {
                        let p = f.ppn();
                        Some((p, Some(f)))
                    },
                }
            },
        }
    }

    /// A map that changed only the walk of page `k` of `area` leaves the other
    /// pages of `area`, and every page of `areas`, as they were.
    proof fn lemma_map_keeps_others(pt0: PageTable, pt1: PageTable, area: MapArea, k: int, areas: Seq<MapArea>)
        requires
            0 <= k < area.end() - area.start() <= walk_count(),
            area.start() >= 0,
            forall|a: int, b: int, d: int| PageTable::is_walk(a, b, d)
                && (a != area.vpn_at(k).index_at(0) || b != area.vpn_at(k).index_at(1) || d != area.vpn_at(k).index_at(2))
                ==> #[trigger] pt1.lookup(a, b, d) == pt0.lookup(a, b, d),
            forall|i: int, l: int, j: int| 0 <= i < areas.len()
                && 0 <= l < areas[i].end() - areas[i].start() && 0 <= j < area.end() - area.start()
                ==> !same_walk(#[trigger] areas[i].vpn_at(l), #[trigger] area.vpn_at(j)),
        ensures
            forall|j: int| 0 <= j < area.end() - area.start() && j != k ==>
                #[trigger] pt1.lookup_vpn(area.vpn_at(j)) == pt0.lookup_vpn(area.vpn_at(j)),
            forall|i: int, l: int| 0 <= i < areas.len() && 0 <= l < areas[i].end() - areas[i].start() ==>
                #[trigger] pt1.lookup_vpn(areas[i].vpn_at(l)) == pt0.lookup_vpn(areas[i].vpn_at(l)),
    {
        assert forall|j: int| 0 <= j < area.end() - area.start() && j != k implies
            #[trigger] pt1.lookup_vpn(area.vpn_at(j)) == pt0.lookup_vpn(area.vpn_at(j)) by {
            lemma_distinct_walks(area.vpn_at(j), area.vpn_at(k));
            lemma_walk_in_range(area.vpn_at(j));
        }
        assert forall|i: int, l: int| 0 <= i < areas.len() && 0 <= l < areas[i].end() - areas[i].start() implies
            #[trigger] pt1.lookup_vpn(areas[i].vpn_at(l)) == pt0.lookup_vpn(areas[i].vpn_at(l)) by {
            assert(!same_walk(areas[i].vpn_at(l), area.vpn_at(k)));
            lemma_walk_in_range(areas[i].vpn_at(l));
        }
    }

    /// Adds an area over the pages that `[start_va, end_va)` touches, each page
    /// mapped with `permission` to a fresh frame that the area owns.
    /// Refused, with nothing changed, where a page of it is mapped already or
    /// it spans more than `walk_count()` pages. Where the frames run out, the
    /// pages mapped so far stay, as an area that starts at the same page.
    pub fn insert_framed_area(
        &mut self,
        start_va: VirtAddr,
        end_va: VirtAddr,
        permission: MapPermission,
        alloc: &mut FrameAllocator,
    ) -> (r: Result<(), MemoryError>)
        requires
            old(self).wf(),
            old(alloc).wf(),
            old(alloc).end() <= ppn_limit(),
            start_va.0 <= end_va.0,
            old(self).owns_frames(*old(alloc)),
        ensures
            final(self).wf(),
            final(self).owns_frames(*final(alloc)),
            final(alloc).wf(),
            final(alloc).start() == old(alloc).start(),
            final(alloc).end() == old(alloc).end(),
            (r == Err::<(), MemoryError>(MemoryError::TooLarge))
                <==> page_ceil(end_va.0 as int) - page_floor(start_va.0 as int) > walk_count(),
            r != Err::<(), MemoryError>(MemoryError::TooLarge) ==> ((r == Err::<(), MemoryError>(MemoryError::Overlap))
                <==> exists|k: int| 0 <= k < page_ceil(end_va.0 as int) - page_floor(start_va.0 as int)
                    && (#[trigger] old(self).table().lookup_vpn(VirtPageNum((page_floor(start_va.0 as int) + k) as u64))) is Some),
            r == Err::<(), MemoryError>(MemoryError::TooLarge) || r == Err::<(), MemoryError>(MemoryError::Overlap)
                ==> *final(self) == *old(self) && *final(alloc) == *old(alloc),
            r == Err::<(), MemoryError>(MemoryError::OutOfFrames) ==>
                old(alloc).free_count() < 3 * (page_ceil(end_va.0 as int) - page_floor(start_va.0 as int))
                || old(self).table().node_count() + 2 * (page_ceil(end_va.0 as int) - page_floor(start_va.0 as int)) > usize::MAX / 512,
            r is Ok ==> final(alloc).free_count() >= old(alloc).free_count() - 3 * (page_ceil(end_va.0 as int) - page_floor(start_va.0 as int)),
            r is Err ==> r != Err::<(), MemoryError>(MemoryError::NoSuchArea),
            forall|i: int| 0 <= i < old(self).area_count() ==> #[trigger] final(self).area(i) == old(self).area(i),
            r is Ok ==> {
                let a = final(self).area(old(self).area_count());
                &&& final(self).area_count() == old(self).area_count() + 1
                &&& a.start() == page_floor(start_va.0 as int)
                &&& a.end() == page_ceil(end_va.0 as int)
                &&& a.perm().bits == permission.bits & 30
                &&& a.kind() == MapType::Framed
                &&& forall|k: int| 0 <= k < a.end() - a.start() ==>
                    #[trigger] final(self).table().lookup_vpn(a.vpn_at(k)) == Some(a.leaf_at(k))
            },
    {
        let perm = MapPermission::from_bits(permission.bits);
        assert(perm.bits < 32) by {
            let b = permission.bits;
            assert(b & 30 < 32) by (bit_vector);
        }
        let area = MapArea::new(start_va, end_va, MapType::Framed, perm);
        let ghost a0 = area;
        let r = self.push(area, alloc);
        proof {
            if r is Ok {
                let a = self.areas@[old(self).areas@.len() as int];
                assert(a.wf());
                assert forall|k: int| 0 <= k < a.end() - a.start() implies
                    #[trigger] self.table().lookup_vpn(a.vpn_at(k)) == Some(a.leaf_at(k)) by {
                }
            }
            let n = a0.end() - a0.start();
            if exists|k: int| 0 <= k < n && (#[trigger] old(self).table().lookup_vpn(a0.vpn_at(k))) is Some {
                let k = choose|k: int| 0 <= k < n && (#[trigger] old(self).table().lookup_vpn(a0.vpn_at(k))) is Some;
                assert(a0.vpn_at(k) == VirtPageNum((page_floor(start_va.0 as int) + k) as u64));
                assert(old(self).table().lookup_vpn(VirtPageNum((page_floor(start_va.0 as int) + k) as u64)) is Some);
            }
            if exists|k: int| 0 <= k < n
                && (#[trigger] old(self).table().lookup_vpn(VirtPageNum((page_floor(start_va.0 as int) + k) as u64))) is Some {
                let k = choose|k: int| 0 <= k < n
                    && (#[trigger] old(self).table().lookup_vpn(VirtPageNum((page_floor(start_va.0 as int) + k) as u64))) is Some;
                assert(a0.vpn_at(k) == VirtPageNum((page_floor(start_va.0 as int) + k) as u64));
                assert(old(self).table().lookup_vpn(a0.vpn_at(k)) is Some);
            }
        }
        r
    }

    /// Index of the area that starts at page `start`, if any.
    fn find_area(&self, start: VirtPageNum) -> (r: Option<usize>)
        requires
            self.wf(),
        ensures
            r is None <==> forall|i: int| 0 <= i < self.area_count() ==> #[trigger] self.area(i).start() != start.0,
            r matches Some(i) ==> i < self.area_count() && self.area(i as int).start() == start.0,
    {
        let mut i: usize = 0;
        while i < self.areas.len()
            invariant
                i <= self.areas@.len(),
                forall|j: int| 0 <= j < i ==> #[trigger] self.area(j).start() != start.0,
            decreases self.areas@.len() - i,
        {
            if self.areas[i].vpn_range.get_start().0 == start.0 {
                assert(self.area(i as int).start() == start.0);
                return Some(i);
            }
            i = i + 1;
        }
        None
    }

    /// Takes area `i` out of the list; its pages stay mapped.
    fn take_area(&mut self, i: usize, alloc: &FrameAllocator) -> (area: MapArea)
        requires
            old(self).wf(),
            i < old(self).area_count(),
            old(self).owns_frames(*alloc),
        ensures
            final(self).owns_frames(*alloc),
            area.frames_allocated(*alloc),
            area.frames_distinct(),
            forall|j: int| 0 <= j < final(self).areas@.len() ==> (#[trigger] final(self).areas@[j]).frames_apart(area),
            final(self).page_table == old(self).page_table,
            area == old(self).area(i as int),
            final(self).areas@ == old(self).areas@.remove(i as int),
            final(self).wf(),
            area.wf(),
            forall|k: int| 0 <= k < area.end() - area.start() ==>
                #[trigger] final(self).table().lookup_vpn(area.vpn_at(k)) == Some(area.leaf_at(k)),
            forall|j: int, l: int, k: int| 0 <= j < final(self).areas@.len()
                && 0 <= l < final(self).areas@[j].end() - final(self).areas@[j].start() && 0 <= k < area.end() - area.start()
                ==> !same_walk(#[trigger] final(self).areas@[j].vpn_at(l), #[trigger] area.vpn_at(k)),
    {
        let area = self.areas.remove(i);
        proof {
            let o = old(self).areas@;
            let m = self.areas@;
            assert forall|j: int| 0 <= j < m.len() implies #[trigger] m[j] == o[if j < i { j } else { j + 1 }] by {
            }
            assert forall|j: int| 0 <= j < m.len() implies (#[trigger] m[j]).wf() by {
                assert(m[j] == o[if j < i { j } else { j + 1 }]);
            }
            assert forall|j: int, k: int| 0 <= j < m.len() && 0 <= k < m[j].end() - m[j].start()
                implies self.page_table.lookup_vpn(#[trigger] m[j].vpn_at(k)) == Some(m[j].leaf_at(k)) by {
                let oj = if j < i { j } else { j + 1 };
                assert(m[j] == o[oj]);
            }
            assert forall|j: int, j2: int, k: int, l: int| 0 <= j < m.len() && 0 <= j2 < m.len() && j != j2
                && 0 <= k < m[j].end() - m[j].start()
                && 0 <= l < m[j2].end() - m[j2].start()
                implies !same_walk(#[trigger] m[j].vpn_at(k), #[trigger] m[j2].vpn_at(l)) by {
                let oj = if j < i { j } else { j + 1 };
                let oj2 = if j2 < i { j2 } else { j2 + 1 };
                assert(m[j] == o[oj]);
                assert(m[j2] == o[oj2]);
                assert(!same_walk(o[oj].vpn_at(k), o[oj2].vpn_at(l)));
            }
            assert forall|j: int, l: int, k: int| 0 <= j < m.len()
                && 0 <= l < m[j].end() - m[j].start() && 0 <= k < area.end() - area.start()
                implies !same_walk(#[trigger] m[j].vpn_at(l), #[trigger] area.vpn_at(k)) by {
                let oj = if j < i { j } else { j + 1 };
                assert(m[j] == o[oj]);
                assert(!same_walk(o[oj].vpn_at(l), o[i as int].vpn_at(k)));
            }
            assert forall|k: int| 0 <= k < area.end() - area.start() implies
                #[trigger] self.table().lookup_vpn(area.vpn_at(k)) == Some(area.leaf_at(k)) by {
                assert(o[i as int] == area);
            }
            assert(o[i as int] == area);
            assert forall|j: int| 0 <= j < m.len() implies (#[trigger] m[j]).frames_allocated(*alloc) && m[j].frames_distinct() by {
                assert(m[j] == o[if j < i { j } else { j + 1 }]);
            }
            assert forall|j: int, j2: int| 0 <= j < m.len() && 0 <= j2 < m.len() && j != j2
                implies (#[trigger] m[j]).frames_apart(#[trigger] m[j2]) by {
                assert(m[j] == o[if j < i { j } else { j + 1 }]);
                assert(m[j2] == o[if j2 < i { j2 } else { j2 + 1 }]);
            }
            assert forall|j: int| 0 <= j < m.len() implies (#[trigger] m[j]).frames_apart(area) by {
                assert(m[j] == o[if j < i { j } else { j + 1 }]);
            }
        }
        area
    }

    /// Removes the area that starts at page `start_vpn`: unmaps its pages and
    /// gives its frames back to `alloc`. Refused, with nothing changed, where
    /// no area starts there.
    pub fn remove_area_with_start_vpn(&mut self, start_vpn: VirtPageNum, alloc: &mut FrameAllocator)
        -> (r: Result<(), MemoryError>)
        requires
            old(self).wf(),
            old(alloc).wf(),
            old(self).owns_frames(*old(alloc)),
        ensures
            final(self).wf(),
            final(self).owns_frames(*final(alloc)),
            final(alloc).wf(),
            final(alloc).start() == old(alloc).start(),
            final(alloc).end() == old(alloc).end(),
            r is Err <==> forall|i: int| 0 <= i < old(self).area_count() ==> #[trigger] old(self).area(i).start() != start_vpn.0,
            r is Err ==> r == Err::<(), MemoryError>(MemoryError::NoSuchArea) && *final(self) == *old(self) && *final(alloc) == *old(alloc),
            r is Ok ==> exists|i: int| 0 <= i < old(self).area_count() && #[trigger] old(self).area(i).start() == start_vpn.0 && {
                &&& final(self).area_count() == old(self).area_count() - 1
                &&& forall|k: int| 0 <= k < old(self).area(i).end() - old(self).area(i).start() ==>
                    (#[trigger] final(self).table().lookup_vpn(old(self).area(i).vpn_at(k))) is None
                &&& forall|k: int| 0 <= k < old(self).area(i).frame_count() ==>
                    final(alloc).is_free(#[trigger] old(self).area(i).frame(k))
                &&& forall|j: int| 0 <= j < final(self).area_count() ==>
                    #[trigger] final(self).area(j) == old(self).area(if j < i { j } else { j + 1 })
            },
    {
        let i = match self.find_area(start_vpn) {
            None => {
                return Err(MemoryError::NoSuchArea);
            },
            Some(i) => i,
        };
        let mut area = self.take_area(i, alloc);
        let ghost a0 = area;
        let ghost mid_areas = self.areas@;
        let s0 = area.vpn_range.get_start().0;
        let n = area.vpn_range.get_end().0 - s0;
        let mut k: u64 = 0;
        while k < n
            invariant
                k <= n,
                area == a0,
                a0.wf(),
                n == a0.end() - a0.start(),
                s0 == a0.start(),
                self.wf(),
                self.areas@ == mid_areas,
                *alloc == *old(alloc),
                self.owns_frames(*alloc),
                forall|j: int| 0 <= j < k ==> (#[trigger] self.table().lookup_vpn(a0.vpn_at(j))) is None,
                forall|j: int| k <= j < n ==> #[trigger] self.table().lookup_vpn(a0.vpn_at(j)) == Some(a0.leaf_at(j)),
                forall|j: int, l: int, k2: int| 0 <= j < self.areas@.len()
                    && 0 <= l < self.areas@[j].end() - self.areas@[j].start() && 0 <= k2 < n
                    ==> !same_walk(#[trigger] self.areas@[j].vpn_at(l), #[trigger] a0.vpn_at(k2)),
            decreases n - k,
        {
            self.unmap_page(&area, k);
            k = k + 1;
        }
        proof {
            assert(a0.frames_allocated(*alloc));
        }
        while area.data_frames.len() > 0
            invariant
                alloc.wf(),
                alloc.start() == old(alloc).start(),
                alloc.end() == old(alloc).end(),
                self.wf(),
                self.areas@ == mid_areas,
                self.owns_frames(*alloc),
                area.data_frames@.len() <= a0.data_frames@.len(),
                forall|j: int| 0 <= j < area.data_frames@.len() ==> #[trigger] area.data_frames@[j] == a0.data_frames@[j],
                forall|j: int| 0 <= j < area.data_frames@.len() ==> alloc.is_allocated(#[trigger] a0.frame(j)),
                a0.frames_distinct(),
                forall|j: int| 0 <= j < self.areas@.len() ==> (#[trigger] self.areas@[j]).frames_apart(a0),
                forall|j: int| area.data_frames@.len() <= j < a0.frame_count() ==> alloc.is_free(#[trigger] a0.frame(j)),
            decreases area.data_frames@.len(),
        {
            let fr = area.data_frames.pop().unwrap();
            let ghost last = area.data_frames@.len() as int;
            let ghost before = *alloc;
            proof {
                assert(fr == a0.data_frames@[last]);
                assert(fr.ppn().0 == a0.frame(last));
            }
            alloc.frame_dealloc(fr);
            proof {
                assert forall|i2: int, k2: int| 0 <= i2 < self.areas@.len() && 0 <= k2 < self.areas@[i2].frame_count()
                    implies alloc.is_allocated(#[trigger] self.areas@[i2].frame(k2)) by {
                    assert(self.areas@[i2].frames_apart(a0));
                    assert(self.areas@[i2].frame(k2) != a0.frame(last));
                    assert(before.is_allocated(self.areas@[i2].frame(k2)));
                }
                self.lemma_owns_frames_moved(before, *alloc);
                assert forall|j: int| 0 <= j < area.data_frames@.len() implies alloc.is_allocated(#[trigger] a0.frame(j)) by {
                    assert(a0.frame(j) != a0.frame(last));
                    assert(before.is_allocated(a0.frame(j)));
                }
                assert forall|j: int| area.data_frames@.len() <= j < a0.frame_count() implies alloc.is_free(#[trigger] a0.frame(j)) by {
                    if j > last {
                        assert(a0.frame(j) != a0.frame(last));
                        assert(before.is_free(a0.frame(j)));
                    }
                }
            }
        }
        proof {
            assert(old(self).area(i as int).start() == start_vpn.0);
            assert forall|j: int| 0 <= j < self.area_count() implies
                #[trigger] self.area(j) == old(self).area(if j < i { j } else { j + 1 }) by {
            }
        }
        Ok(())
    }

    /// Unmaps page `k` of `area`, a removed area whose pages from `k` on are
    /// still mapped.
    #[verifier::rlimit(100)]
    fn unmap_page(&mut self, area: &MapArea, k: u64)
        requires
            old(self).wf(),
            area.wf(),
            k < area.end() - area.start(),
            forall|j: int| 0 <= j < k ==> (#[trigger] old(self).table().lookup_vpn(area.vpn_at(j))) is None,
            forall|j: int| k <= j < area.end() - area.start() ==>
                #[trigger] old(self).table().lookup_vpn(area.vpn_at(j)) == Some(area.leaf_at(j)),
            forall|j: int, l: int, k2: int| 0 <= j < old(self).areas@.len()
                && 0 <= l < old(self).areas@[j].end() - old(self).areas@[j].start() && 0 <= k2 < area.end() - area.start()
                ==> !same_walk(#[trigger] old(self).areas@[j].vpn_at(l), #[trigger] area.vpn_at(k2)),
        ensures
            final(self).wf(),
            final(self).areas@ == old(self).areas@,
            forall|j: int| 0 <= j <= k ==> (#[trigger] final(self).table().lookup_vpn(area.vpn_at(j))) is None,
            forall|j: int| k < j < area.end() - area.start() ==>
                #[trigger] final(self).table().lookup_vpn(area.vpn_at(j)) == Some(area.leaf_at(j)),
    {
        let s0 = area.vpn_range.get_start().0;
        let vpn = VirtPageNum(s0 + k);
        let _ = self.page_table.unmap(vpn);
        proof {
            assert(area.vpn_at(k as int) == vpn);
            Self::lemma_map_keeps_others(old(self).page_table, self.page_table, *area, k as int, self.areas@);
            assert forall|j: int| 0 <= j <= k implies (#[trigger] self.table().lookup_vpn(area.vpn_at(j))) is None by {
                if j < k {
                    assert(old(self).table().lookup_vpn(area.vpn_at(j)) is None);
                }
            }
            assert forall|i: int, l: int| 0 <= i < self.areas@.len() && 0 <= l < self.areas@[i].end() - self.areas@[i].start()
                implies self.page_table.lookup_vpn(#[trigger] self.areas@[i].vpn_at(l)) == Some(self.areas@[i].leaf_at(l)) by {
                assert(old(self).page_table.lookup_vpn(self.areas@[i].vpn_at(l)) == Some(self.areas@[i].leaf_at(l)));
            }
        }
    }

    /// The page of the trampoline, the last page of the address space.
    pub open spec fn trampoline_vpn() -> VirtPageNum {
        VirtPageNum((TRAMPOLINE / 4096) as u64)
    }

    /// Maps the trampoline page, readable and executable, to frame
    /// `strampoline`, which holds the trap entry and exit code. Refused where
    /// that page is mapped already.
    pub fn map_trampoline(&mut self, strampoline: PhysPageNum, alloc: &mut FrameAllocator) -> (r: Result<(), MemoryError>)
        requires
            old(self).wf(),
            old(alloc).wf(),
            old(alloc).end() <= ppn_limit(),
            strampoline.0 < ppn_limit(),
            old(self).owns_frames(*old(alloc)),
        ensures
            final(self).wf(),
            final(self).owns_frames(*final(alloc)),
            final(alloc).wf(),
            final(alloc).start() == old(alloc).start(),
            final(alloc).end() == old(alloc).end(),
            final(self).area_count() == old(self).area_count(),
            forall|i: int| 0 <= i < old(self).area_count() ==> #[trigger] final(self).area(i) == old(self).area(i),
            (r == Err::<(), MemoryError>(MemoryError::Overlap)) <==> old(self).table().lookup_vpn(Self::trampoline_vpn()) is Some,
            r is Err ==> r == Err::<(), MemoryError>(MemoryError::Overlap) || r == Err::<(), MemoryError>(MemoryError::OutOfFrames),
            r == Err::<(), MemoryError>(MemoryError::OutOfFrames) ==> old(alloc).free_count() < 2
                || old(self).table().node_count() + 2 > usize::MAX / 512,
            final(alloc).free_count() >= old(alloc).free_count() - 2,
            final(self).table().node_count() <= old(self).table().node_count() + 2,
            r is Ok ==> final(self).table().lookup_vpn(Self::trampoline_vpn())
                == Some(PageTableEntry::encode(strampoline.0 as int, PTEFlags::R | PTEFlags::X | PTEFlags::V)),
    {
        let vpn = VirtPageNum(TRAMPOLINE / 4096);
        let flags = PTEFlags::from_bits(PTEFlags::R | PTEFlags::X);
        let ghost pt0 = self.page_table;
        let res = self.page_table.map(vpn, strampoline, flags, alloc);
        proof {
            old(self).lemma_owns_frames_kept(*old(alloc), *alloc);
            assert forall|i: int, k: int| 0 <= i < self.areas@.len() && 0 <= k < self.areas@[i].end() - self.areas@[i].start()
                implies self.page_table.lookup_vpn(#[trigger] self.areas@[i].vpn_at(k)) == Some(self.areas@[i].leaf_at(k)) by {
                let w = self.areas@[i].vpn_at(k);
                lemma_walk_in_range(w);
                assert(pt0.lookup_vpn(w) == Some(self.areas@[i].leaf_at(k)));
                if same_walk(w, vpn) {
                    assert(pt0.lookup_vpn(w) == pt0.lookup_vpn(vpn));
                }
            }
        }
        match res {
            Ok(()) => Ok(()),
            Err(crate::page_table::PageTableError::AlreadyMapped) => Err(MemoryError::Overlap),
            Err(_) => Err(MemoryError::OutOfFrames),
        }
    }

    /// The value to load into the translation-root register to switch to this
    /// address space. Loading it, and the fence that follows, is the caller's
    /// part; nothing here changes.
    pub fn activate(&self) -> (r: u64)
        requires
            self.wf(),
        ensures
            r == self.table().token_spec(),
    {
        self.page_table.token()
    }

    /// Adds an area over the pages that `[start_va, end_va)` touches, each page
    /// mapped with `permission` to the frame of the same number. Refused, with
    /// nothing changed, where a page of it is mapped already, or it spans more
    /// than `walk_count()` pages or reaches past the largest frame number.
    pub fn insert_identical_area(
        &mut self,
        start_va: VirtAddr,
        end_va: VirtAddr,
        permission: MapPermission,
        alloc: &mut FrameAllocator,
    ) -> (r: Result<(), MemoryError>)
        requires
            old(self).wf(),
            old(alloc).wf(),
            old(alloc).end() <= ppn_limit(),
            start_va.0 <= end_va.0,
            old(self).owns_frames(*old(alloc)),
        ensures
            final(self).wf(),
            final(self).owns_frames(*final(alloc)),
            final(alloc).wf(),
            final(alloc).start() == old(alloc).start(),
            final(alloc).end() == old(alloc).end(),
            (r == Err::<(), MemoryError>(MemoryError::TooLarge))
                <==> (page_ceil(end_va.0 as int) - page_floor(start_va.0 as int) > walk_count()
                    || page_ceil(end_va.0 as int) > ppn_limit()),
            r != Err::<(), MemoryError>(MemoryError::TooLarge) ==> ((r == Err::<(), MemoryError>(MemoryError::Overlap))
                <==> exists|k: int| 0 <= k < page_ceil(end_va.0 as int) - page_floor(start_va.0 as int)
                    && (#[trigger] old(self).table().lookup_vpn(VirtPageNum((page_floor(start_va.0 as int) + k) as u64))) is Some),
            r == Err::<(), MemoryError>(MemoryError::OutOfFrames) ==>
                old(alloc).free_count() < 2 * (page_ceil(end_va.0 as int) - page_floor(start_va.0 as int))
                || old(self).table().node_count() + 2 * (page_ceil(end_va.0 as int) - page_floor(start_va.0 as int)) > usize::MAX / 512,
            r is Err ==> r != Err::<(), MemoryError>(MemoryError::NoSuchArea),
            r is Ok ==> final(alloc).free_count() >= old(alloc).free_count() - 2 * (page_ceil(end_va.0 as int) - page_floor(start_va.0 as int)),
            r is Ok ==> final(self).table().node_count()
                <= old(self).table().node_count() + 2 * (page_ceil(end_va.0 as int) - page_floor(start_va.0 as int)),
            r == Err::<(), MemoryError>(MemoryError::TooLarge) || r == Err::<(), MemoryError>(MemoryError::Overlap)
                ==> *final(self) == *old(self) && *final(alloc) == *old(alloc),
            forall|i: int| 0 <= i < old(self).area_count() ==> #[trigger] final(self).area(i) == old(self).area(i),
            r is Ok ==> {
                let a = final(self).area(old(self).area_count());
                &&& final(self).area_count() == old(self).area_count() + 1
                &&& a.start() == page_floor(start_va.0 as int)
                &&& a.end() == page_ceil(end_va.0 as int)
                &&& a.perm().bits == permission.bits & 30
                &&& a.kind() == MapType::Identical
                &&& forall|k: int| 0 <= k < a.end() - a.start() ==>
                    #[trigger] final(self).table().lookup_vpn(a.vpn_at(k))
                        == Some(PageTableEntry::encode(a.start() + k, a.perm().bits | PTEFlags::V))
            },
    {
        let perm = MapPermission::from_bits(permission.bits);
        assert(perm.bits < 32) by {
            let b = permission.bits;
            assert(b & 30 < 32) by (bit_vector);
        }
        let area = MapArea::new(start_va, end_va, MapType::Identical, perm);
        let ghost a0 = area;
        if area.vpn_range.get_end().0 > 0x1000_0000_0000 {
            return Err(MemoryError::TooLarge);
        }
        let r = self.push(area, alloc);
        proof {
            if r is Ok {
                let a = self.areas@[old(self).areas@.len() as int];
                assert(a.wf());
                assert forall|k: int| 0 <= k < a.end() - a.start() implies
                    #[trigger] self.table().lookup_vpn(a.vpn_at(k))
                        == Some(PageTableEntry::encode(a.start() + k, a.perm().bits | PTEFlags::V)) by {
                }
            }
            let n = a0.end() - a0.start();
            if exists|k: int| 0 <= k < n && (#[trigger] old(self).table().lookup_vpn(a0.vpn_at(k))) is Some {
                let k = choose|k: int| 0 <= k < n && (#[trigger] old(self).table().lookup_vpn(a0.vpn_at(k))) is Some;
                assert(a0.vpn_at(k) == VirtPageNum((page_floor(start_va.0 as int) + k) as u64));
                assert(old(self).table().lookup_vpn(VirtPageNum((page_floor(start_va.0 as int) + k) as u64)) is Some);
            }
            if exists|k: int| 0 <= k < n
                && (#[trigger] old(self).table().lookup_vpn(VirtPageNum((page_floor(start_va.0 as int) + k) as u64))) is Some {
                let k = choose|k: int| 0 <= k < n
                    && (#[trigger] old(self).table().lookup_vpn(VirtPageNum((page_floor(start_va.0 as int) + k) as u64))) is Some;
                assert(a0.vpn_at(k) == VirtPageNum((page_floor(start_va.0 as int) + k) as u64));
                assert(old(self).table().lookup_vpn(a0.vpn_at(k)) is Some);
            }
        }
        r
    }
}

/// Where the kernel image's sections lie, as linked: each a byte range.
#[derive(Clone, Copy, PartialEq, Eq, Structural, Debug)]
pub struct KernelLayout {
    pub stext: u64,
    pub etext: u64,
    pub srodata: u64,
    pub erodata: u64,
    pub sdata: u64,
    pub edata: u64,
    pub sbss: u64,
    pub ebss: u64,
    pub ekernel: u64,
    pub memory_end: u64,
    pub strampoline: u64,
}

impl KernelLayout {
    /// The sections follow one another in this order.
    pub open spec fn ordered(&self) -> bool {
        self.stext <= self.etext <= self.srodata <= self.erodata <= self.sdata <= self.edata
            <= self.sbss <= self.ebss <= self.ekernel <= self.memory_end
    }
}

/// A region of the kernel's address space: start and end byte addresses, and
/// the permission bits of its pages.
pub type Region = (u64, u64, u8);

/// The kernel image's sections and the rest of physical memory, in order.
pub open spec fn kernel_sections(l: KernelLayout) -> Seq<Region> {
    seq![
        (l.stext, l.etext, MapPermission::R | MapPermission::X),
        (l.srodata, l.erodata, MapPermission::R),
        (l.sdata, l.edata, MapPermission::R | MapPermission::W),
        (l.sbss, l.ebss, MapPermission::R | MapPermission::W),
        (l.ekernel, l.memory_end, MapPermission::R | MapPermission::W),
    ]
}

/// The region of an MMIO window `(base, length)`.
pub open spec fn window_region(w: (u64, u64)) -> Region {
    (w.0, (w.0 + w.1) as u64, MapPermission::R | MapPermission::W)
}

/// Every region of the kernel's address space, in the order they are mapped.
pub open spec fn kernel_regions(l: KernelLayout, mmio: Seq<(u64, u64)>) -> Seq<Region> {
    kernel_sections(l) + mmio.map_values(|w: (u64, u64)| window_region(w))
}

/// Number of pages the first `i` regions touch.
pub open spec fn region_pages(r: Seq<Region>, i: int) -> int
    decreases i,
{
    if i <= 0 {
        0
    } else {
        region_pages(r, i - 1) + (page_ceil(r[i - 1].1 as int) - page_floor(r[i - 1].0 as int))
    }
}

/// At most how many frames building the kernel's address space takes: the
/// root, two table nodes per page, and two for the trampoline.
pub open spec fn kernel_frames_needed(l: KernelLayout, mmio: Seq<(u64, u64)>) -> int {
    let r = kernel_regions(l, mmio);
    3 + 2 * region_pages(r, r.len() as int)
}

proof fn lemma_region_pages_mono(r: Seq<Region>, i: int, j: int)
    requires
        0 <= i <= j <= r.len(),
        forall|k: int| 0 <= k < r.len() ==> (#[trigger] r[k]).0 <= r[k].1,
    ensures
        region_pages(r, i) <= region_pages(r, j),
    decreases j - i,
{
    if i < j {
        lemma_region_pages_mono(r, i, j - 1);
        assert(page_floor(r[j - 1].0 as int) <= page_ceil(r[j - 1].1 as int)) by (nonlinear_arith)
            requires
                r[j - 1].0 <= r[j - 1].1,
        ;
    }
}

impl MemorySet {
    /// Page `k` of identical area `i` maps to frame `start + k`.
    proof fn lemma_identical_mapped(&self, i: int, k: int)
        requires
            self.wf(),
            0 <= i < self.area_count(),
            0 <= k < self.area(i).end() - self.area(i).start(),
            self.area(i).kind() == MapType::Identical,
        ensures
            self.table().lookup_vpn(self.area(i).vpn_at(k))
                == Some(PageTableEntry::encode(self.area(i).start() + k, self.area(i).perm().bits | PTEFlags::V)),
    {
        assert(self.page_table.lookup_vpn(self.areas@[i].vpn_at(k)) == Some(self.areas@[i].leaf_at(k)));
    }

    /// The kernel's address space: text (read, execute), read-only data (read),
    /// data and bss (read, write), the rest of physical memory (read, write),
    /// and each MMIO window `(base, length)` (read, write), each an area whose
    /// pages map to the frames of the same numbers, in that order; and the
    /// trampoline page, mapped to the frame that holds `strampoline`.
    /// Where it fails, it fails for a region too large or reaching past the
    /// largest frame number, for regions that share a page, or for want of frames.
    pub fn new_kernel(layout: &KernelLayout, mmio: &Vec<(u64, u64)>, alloc: &mut FrameAllocator)
        -> (r: Result<Self, MemoryError>)
        requires
            old(alloc).wf(),
            old(alloc).end() <= ppn_limit(),
            layout.ordered(),
        ensures
            final(alloc).wf(),
            final(alloc).start() == old(alloc).start(),
            final(alloc).end() == old(alloc).end(),
            r is Err ==> r == Err::<Self, MemoryError>(MemoryError::TooLarge) || r == Err::<Self, MemoryError>(MemoryError::Overlap)
                || (r == Err::<Self, MemoryError>(MemoryError::OutOfFrames)
                    && (old(alloc).free_count() < kernel_frames_needed(*layout, mmio@)
                        || kernel_frames_needed(*layout, mmio@) > usize::MAX / 512)),
            r matches Ok(m) ==> {
                let regs = kernel_regions(*layout, mmio@);
                &&& m.wf()
                &&& m.owns_frames(*final(alloc))
                &&& m.area_count() == regs.len()
                &&& forall|i: int| 0 <= i < m.area_count() ==> {
                    &&& (#[trigger] m.area(i)).kind() == MapType::Identical
                    &&& m.area(i).start() == page_floor(regs[i].0 as int)
                    &&& m.area(i).end() == page_ceil(regs[i].1 as int)
                    &&& m.area(i).perm().bits == regs[i].2 & 30
                }
                &&& forall|i: int, k: int| 0 <= i < m.area_count() && 0 <= k < m.area(i).end() - m.area(i).start()
                    ==> #[trigger] m.table().lookup_vpn(m.area(i).vpn_at(k))
                        == Some(PageTableEntry::encode(m.area(i).start() + k, m.area(i).perm().bits | PTEFlags::V))
                &&& m.table().lookup_vpn(Self::trampoline_vpn()) == Some(PageTableEntry::encode(
                    page_floor(layout.strampoline as int), PTEFlags::R | PTEFlags::X | PTEFlags::V))
            },
    {
        let ghost regs_spec = kernel_regions(*layout, mmio@);
        let mut regs: Vec<Region> = Vec::new();
        regs.push((layout.stext, layout.etext, MapPermission::R | MapPermission::X));
        regs.push((layout.srodata, layout.erodata, MapPermission::R));
        regs.push((layout.sdata, layout.edata, MapPermission::R | MapPermission::W));
        regs.push((layout.sbss, layout.ebss, MapPermission::R | MapPermission::W));
        regs.push((layout.ekernel, layout.memory_end, MapPermission::R | MapPermission::W));
        proof {
            assert(regs@ =~= kernel_sections(*layout) + mmio@.take(0).map_values(|w: (u64, u64)| window_region(w)));
        }
        let mut i: usize = 0;
        while i < mmio.len()
            invariant
                i <= mmio@.len(),
                regs@ == kernel_sections(*layout) + mmio@.take(i as int).map_values(|w: (u64, u64)| window_region(w)),
                forall|j: int| 0 <= j < regs@.len() ==> (#[trigger] regs@[j]).0 <= regs@[j].1,
                layout.ordered(),
                *alloc == *old(alloc),
                alloc.wf(),
            decreases mmio@.len() - i,
        {
            let (base, length) = mmio[i];
            if length > u64::MAX - base {
                return Err(MemoryError::TooLarge);
            }
            regs.push((base, base + length, MapPermission::R | MapPermission::W));
            proof {
                assert(mmio@.take(i + 1) =~= mmio@.take(i as int).push(mmio@[i as int]));
                assert(regs@ =~= kernel_sections(*layout) + mmio@.take(i + 1).map_values(|w: (u64, u64)| window_region(w)));
            }
            i = i + 1;
        }
        proof {
            assert(mmio@.take(mmio@.len() as int) =~= mmio@);
            assert(regs@ == regs_spec);
        }
        let ghost total = region_pages(regs_spec, regs_spec.len() as int);
        proof {
            lemma_region_pages_mono(regs_spec, 0, regs_spec.len() as int);
            assert(region_pages(regs_spec, 0) == 0);
        }
        let mut m = match MemorySet::new_bare(alloc) {
            None => {
                return Err(MemoryError::OutOfFrames);
            },
            Some(m) => m,
        };
        let mut i: usize = 0;
        while i < regs.len()
            invariant
                i <= regs@.len(),
                regs@ == regs_spec,
                regs_spec == kernel_regions(*layout, mmio@),
                total == region_pages(regs_spec, regs_spec.len() as int),
                forall|j: int| 0 <= j < regs@.len() ==> (#[trigger] regs@[j]).0 <= regs@[j].1,
                m.wf(),
                m.owns_frames(*alloc),
                m.area_count() == i,
                forall|j: int| 0 <= j < m.area_count() ==> {
                    &&& (#[trigger] m.area(j)).kind() == MapType::Identical
                    &&& m.area(j).start() == page_floor(regs_spec[j].0 as int)
                    &&& m.area(j).end() == page_ceil(regs_spec[j].1 as int)
                    &&& m.area(j).perm().bits == regs_spec[j].2 & 30
                },
                alloc.wf(),
                alloc.start() == old(alloc).start(),
                alloc.end() == old(alloc).end(),
                alloc.end() <= ppn_limit(),
                alloc.free_count() >= old(alloc).free_count() - 1 - 2 * region_pages(regs_spec, i as int),
                m.table().node_count() <= 1 + 2 * region_pages(regs_spec, i as int),
            decreases regs@.len() - i,
        {
            let (s0, e0, bits) = regs[i];
            let ghost n = page_ceil(e0 as int) - page_floor(s0 as int);
            proof {
                lemma_region_pages_mono(regs_spec, i + 1, regs_spec.len() as int);
                assert(region_pages(regs_spec, i + 1) == region_pages(regs_spec, i as int) + n);
            }
            let ghost free_before = alloc.free_count();
            let ghost nodes_before = m.table().node_count();
            let ghost m_before = m;
            let perm = MapPermission::from_bits(bits);
            let r = m.add_identical(VirtAddr(s0), VirtAddr(e0), perm, alloc);
            match r {
                Err(e) => {
                    proof {
                        assert(n >= 0) by (nonlinear_arith)
                            requires
                                n == page_ceil(e0 as int) - page_floor(s0 as int),
                                s0 <= e0,
                        ;
                        if e == MemoryError::OutOfFrames {
                            assert(free_before < 2 * n || nodes_before + 2 * n > usize::MAX / 512);
                            assert(region_pages(regs_spec, i + 1) <= total);
                            assert(kernel_frames_needed(*layout, mmio@) == 3 + 2 * total);
                            assert(old(alloc).free_count() < kernel_frames_needed(*layout, mmio@)
                                || kernel_frames_needed(*layout, mmio@) > usize::MAX / 512);
                        }
                    }
                    return Err(e);
                },
                Ok(()) => {},
            }
            proof {
                assert((bits & 30) & 30 == bits & 30) by (bit_vector);
                assert forall|j: int| 0 <= j < m.area_count() implies {
                    &&& (#[trigger] m.area(j)).kind() == MapType::Identical
                    &&& m.area(j).start() == page_floor(regs_spec[j].0 as int)
                    &&& m.area(j).end() == page_ceil(regs_spec[j].1 as int)
                    &&& m.area(j).perm().bits == regs_spec[j].2 & 30
                } by {
                    if j < i {
                        assert(m.area(j) == m_before.area(j));
                    }
                }
            }
            i = i + 1;
        }
        let tramp = PhysAddr(layout.strampoline).floor();
        if tramp.0 >= 0x1000_0000_0000 {
            return Err(MemoryError::TooLarge);
        }
        let ghost before = m;
        let r = m.map_trampoline(tramp, alloc);
        if r.is_err() {
            return Err(r.unwrap_err());
        }
        proof {
            assert forall|i: int, k: int| 0 <= i < m.area_count() && 0 <= k < m.area(i).end() - m.area(i).start()
                implies #[trigger] m.table().lookup_vpn(m.area(i).vpn_at(k))
                    == Some(PageTableEntry::encode(m.area(i).start() + k, m.area(i).perm().bits | PTEFlags::V)) by {
                assert(m.area(i) == before.area(i));
                m.lemma_identical_mapped(i, k);
            }
            assert forall|i: int| 0 <= i < m.area_count() implies {
                &&& (#[trigger] m.area(i)).kind() == MapType::Identical
                &&& m.area(i).start() == page_floor(regs_spec[i].0 as int)
                &&& m.area(i).end() == page_ceil(regs_spec[i].1 as int)
                &&& m.area(i).perm().bits == regs_spec[i].2 & 30
            } by {
                assert(m.area(i) == before.area(i));
            }
        }
        Ok(m)
    }

    /// `insert_identical_area`, with the new area and the frames it took spelled out.
    fn add_identical(&mut self, start_va: VirtAddr, end_va: VirtAddr, permission: MapPermission, alloc: &mut FrameAllocator)
        -> (r: Result<(), MemoryError>)
        requires
            old(self).wf(),
            old(alloc).wf(),
            old(alloc).end() <= ppn_limit(),
            start_va.0 <= end_va.0,
            old(self).owns_frames(*old(alloc)),
        ensures
            final(self).wf(),
            final(self).owns_frames(*final(alloc)),
            final(alloc).wf(),
            final(alloc).start() == old(alloc).start(),
            final(alloc).end() == old(alloc).end(),
            r is Err ==> r == Err::<(), MemoryError>(MemoryError::TooLarge) || r == Err::<(), MemoryError>(MemoryError::Overlap)
                || (r == Err::<(), MemoryError>(MemoryError::OutOfFrames) && (
                    old(alloc).free_count() < 2 * (page_ceil(end_va.0 as int) - page_floor(start_va.0 as int))
                    || old(self).table().node_count() + 2 * (page_ceil(end_va.0 as int) - page_floor(start_va.0 as int))
                        > usize::MAX / 512)),
            r is Ok ==> {
                &&& final(self).area_count() == old(self).area_count() + 1
                &&& forall|j: int| 0 <= j < old(self).area_count() ==> #[trigger] final(self).area(j) == old(self).area(j)
                &&& final(self).area(old(self).area_count()).kind() == MapType::Identical
                &&& final(self).area(old(self).area_count()).start() == page_floor(start_va.0 as int)
                &&& final(self).area(old(self).area_count()).end() == page_ceil(end_va.0 as int)
                &&& final(self).area(old(self).area_count()).perm().bits == permission.bits & 30
                &&& final(alloc).free_count() >= old(alloc).free_count() - 2 * (page_ceil(end_va.0 as int) - page_floor(start_va.0 as int))
                &&& final(self).table().node_count()
                    <= old(self).table().node_count() + 2 * (page_ceil(end_va.0 as int) - page_floor(start_va.0 as int))
            },
    {
        let r = self.insert_identical_area(start_va, end_va, permission, alloc);
        proof {
            if r is Err {
                let e = r->Err_0;
                assert(e != MemoryError::NoSuchArea);
                assert(e == MemoryError::TooLarge || e == MemoryError::Overlap || e == MemoryError::OutOfFrames);
            }
        }
        r
    }
}

} // verus!
