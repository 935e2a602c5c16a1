//! Physical and virtual addresses, page numbers, and ranges of page numbers.
use vstd::prelude::*;
use crate::config::{KERNEL_ADDR_OFFSET, PAGE_SIZE};

verus! {

/// Number of distinct machine words: `u64::MAX + 1`.
pub open spec fn word_modulus() -> int {
    0x1_0000_0000_0000_0000
}

/// A physical address whose bits 56..63 are a zero extension (all clear) or
/// a sign extension of bit 55 (all set, with bit 55 set).
pub open spec fn pa_canonical(v: u64) -> bool {
    v < 0x100_0000_0000_0000 || v >= 0xff80_0000_0000_0000
}

/// A physical page number whose bits 44..63 are a zero extension (all clear)
/// or a sign extension of bit 43 (all set, with bit 43 set).
pub open spec fn ppn_canonical(v: u64) -> bool {
    v < 0x1000_0000_0000 || v >= 0xffff_f800_0000_0000
}

/// An SV39 virtual address whose bits 39..63 all equal bit 38.
pub open spec fn va_canonical(v: u64) -> bool {
    v < 0x40_0000_0000 || v >= 0xffff_ffc0_0000_0000
}

/// A virtual page number: a canonical virtual address shifted right by the
/// offset bits, so bits 26..51 all equal and bits 52..63 are zero.
pub open spec fn vpn_canonical(v: u64) -> bool {
    v < 0x400_0000 || (0xf_ffff_fc00_0000 <= v && v < 0x10_0000_0000_0000)
}

/// The page that holds byte address `a`.
pub open spec fn page_floor(a: int) -> int {
    a / PAGE_SIZE as int
}

/// The first page that starts at or above byte address `a`.
pub open spec fn page_ceil(a: int) -> int {
    (a + PAGE_SIZE as int - 1) / PAGE_SIZE as int
}

/// The first byte of page `n`, truncated to a machine word as a left shift does.
pub open spec fn page_start(n: int) -> int {
    (n * PAGE_SIZE as int) % word_modulus()
}

/// Position of `a` inside its page.
pub open spec fn page_offset_of(a: int) -> int {
    a % PAGE_SIZE as int
}

/// A word read as an SV39 virtual address: bits 39..63 replaced by bit 38.
pub open spec fn sign_extend_va(v: u64) -> u64 {
    if v >= 0x40_0000_0000 {
        v | 0xffff_ff80_0000_0000
    } else {
        v
    }
}

/// An address in the kernel's direct window onto physical memory.
#[derive(Clone, Copy, PartialEq, Eq, Structural, PartialOrd, Ord, Debug)]
pub struct KernelAddr(pub u64);

/// A physical byte address.
#[derive(Clone, Copy, PartialEq, Eq, Structural, PartialOrd, Ord, Debug)]
pub struct PhysAddr(pub u64);

/// A virtual byte address.
#[derive(Clone, Copy, PartialEq, Eq, Structural, PartialOrd, Ord, Debug)]
pub struct VirtAddr(pub u64);

/// A physical page number.
#[derive(Clone, Copy, PartialEq, Eq, Structural, PartialOrd, Ord, Debug)]
pub struct PhysPageNum(pub u64);

/// A virtual page number.
#[derive(Clone, Copy, PartialEq, Eq, Structural, PartialOrd, Ord, Debug)]
pub struct VirtPageNum(pub u64);

impl PhysAddr {
    pub open spec fn wf(&self) -> bool {
        pa_canonical(self.0)
    }

    /// The address `v`; `v` must be canonical.
    pub fn new(v: u64) -> (r: Self)
        requires
            pa_canonical(v),
        ensures
            r.0 == v,
    {
        PhysAddr(v)
    }

    /// The address `v`, or `None` where `v` is not canonical.
    pub fn try_new(v: u64) -> (r: Option<Self>)
        ensures
            r == (if pa_canonical(v) { Some(PhysAddr(v)) } else { None::<PhysAddr> }),
    {
        if v < 0x100_0000_0000_0000 || v >= 0xff80_0000_0000_0000 {
            Some(PhysAddr(v))
        } else {
            None
        }
    }

    /// The page that holds this address.
    pub fn floor(&self) -> (r: PhysPageNum)
        ensures
            r.0 == page_floor(self.0 as int),
    {
        PhysPageNum(self.0 / PAGE_SIZE)
    }

    /// The first page at or above this address.
    pub fn ceil(&self) -> (r: PhysPageNum)
        ensures
            r.0 == page_ceil(self.0 as int),
    {
        if self.0 % PAGE_SIZE == 0 {
            PhysPageNum(self.0 / PAGE_SIZE)
        } else {
            PhysPageNum(self.0 / PAGE_SIZE + 1)
        }
    }

    /// The low twelve bits: the offset inside the page.
    pub fn page_offset(&self) -> (r: usize)
        ensures
            r == page_offset_of(self.0 as int),
    {
        let v = self.0;
        assert(v & 0xfff == v % 4096) by (bit_vector);
        (v & (PAGE_SIZE - 1)) as usize
    }

    /// Whether this address starts a page.
    pub fn aligned(&self) -> (r: bool)
        ensures
            r == (page_offset_of(self.0 as int) == 0),
    {
        self.page_offset() == 0
    }
}

impl PhysPageNum {
    pub open spec fn wf(&self) -> bool {
        ppn_canonical(self.0)
    }

    /// The page number `v`; `v` must be canonical.
    pub fn new(v: u64) -> (r: Self)
        requires
            ppn_canonical(v),
        ensures
            r.0 == v,
    {
        PhysPageNum(v)
    }

    /// The page number `v`, or `None` where `v` is not canonical.
    pub fn try_new(v: u64) -> (r: Option<Self>)
        ensures
            r == (if ppn_canonical(v) { Some(PhysPageNum(v)) } else { None::<PhysPageNum> }),
    {
        if v < 0x1000_0000_0000 || v >= 0xffff_f800_0000_0000 {
            Some(PhysPageNum(v))
        } else {
            None
        }
    }

    /// The page that starts at `pa`, which must be page aligned.
    pub fn from_aligned(pa: PhysAddr) -> (r: Self)
        requires
            page_offset_of(pa.0 as int) == 0,
        ensures
            r.0 == page_floor(pa.0 as int),
    {
        pa.floor()
    }
}

impl VirtAddr {
    pub open spec fn wf(&self) -> bool {
        va_canonical(self.0)
    }

    /// The address `v`; `v` must be canonical.
    pub fn new(v: u64) -> (r: Self)
        requires
            va_canonical(v),
        ensures
            r.0 == v,
    {
        VirtAddr(v)
    }

    /// The address `v`, or `None` where `v` is not canonical.
    pub fn try_new(v: u64) -> (r: Option<Self>)
        ensures
            r == (if va_canonical(v) { Some(VirtAddr(v)) } else { None::<VirtAddr> }),
    {
        if v < 0x40_0000_0000 || v >= 0xffff_ffc0_0000_0000 {
            Some(VirtAddr(v))
        } else {
            None
        }
    }

    /// The page that holds this address.
    pub fn floor(&self) -> (r: VirtPageNum)
        ensures
            r.0 == page_floor(self.0 as int),
    {
        VirtPageNum(self.0 / PAGE_SIZE)
    }

    /// The first page at or above this address.
    pub fn ceil(&self) -> (r: VirtPageNum)
        ensures
            r.0 == page_ceil(self.0 as int),
    {
        if self.0 % PAGE_SIZE == 0 {
            VirtPageNum(self.0 / PAGE_SIZE)
        } else {
            VirtPageNum(self.0 / PAGE_SIZE + 1)
        }
    }

    /// The low twelve bits: the offset inside the page.
    pub fn page_offset(&self) -> (r: usize)
        ensures
            r == page_offset_of(self.0 as int),
    {
        let v = self.0;
        assert(v & 0xfff == v % 4096) by (bit_vector);
        (v & (PAGE_SIZE - 1)) as usize
    }

    /// Whether this address starts a page.
    pub fn aligned(&self) -> (r: bool)
        ensures
            r == (page_offset_of(self.0 as int) == 0),
    {
        self.page_offset() == 0
    }
}

impl VirtPageNum {
    pub open spec fn wf(&self) -> bool {
        vpn_canonical(self.0)
    }

    /// The page number `v`; `v` must be canonical.
    pub fn new(v: u64) -> (r: Self)
        requires
            vpn_canonical(v),
        ensures
            r.0 == v,
    {
        VirtPageNum(v)
    }

    /// The page number `v`, or `None` where `v` is not canonical.
    pub fn try_new(v: u64) -> (r: Option<Self>)
        ensures
            r == (if vpn_canonical(v) { Some(VirtPageNum(v)) } else { None::<VirtPageNum> }),
    {
        if v < 0x400_0000 || (0xf_ffff_fc00_0000 <= v && v < 0x10_0000_0000_0000) {
            Some(VirtPageNum(v))
        } else {
            None
        }
    }

    /// The page that starts at `va`, which must be page aligned.
    pub fn from_aligned(va: VirtAddr) -> (r: Self)
        requires
            page_offset_of(va.0 as int) == 0,
        ensures
            r.0 == page_floor(va.0 as int),
    {
        va.floor()
    }

    /// The three 9-bit indices of an SV39 walk, root level first.
    pub open spec fn index_at(&self, level: int) -> int {
        if level == 0 {
            (self.0 as int / 0x4_0000) % 512
        } else if level == 1 {
            (self.0 as int / 512) % 512
        } else {
            self.0 as int % 512
        }
    }

    /// The three 9-bit indices of an SV39 walk, root level first.
    pub fn indexes(&self) -> (r: [usize; 3])
        ensures
            r@ == seq![self.index_at(0), self.index_at(1), self.index_at(2)].map_values(|i: int| i as usize),
    {
        let v = self.0;
        assert(v >> 18 & 511 == (v / 0x4_0000) % 512) by (bit_vector);
        assert(v >> 9 & 511 == (v / 512) % 512) by (bit_vector);
        assert(v & 511 == v % 512) by (bit_vector);
        let r = [(v >> 18 & 511) as usize, (v >> 9 & 511) as usize, (v & 511) as usize];
        assert(r@ =~= seq![self.index_at(0), self.index_at(1), self.index_at(2)].map_values(|i: int| i as usize));
        r
    }
}


impl From<u64> for KernelAddr {
    fn from(v: u64) -> Self {
        KernelAddr(v)
    }
}

impl vstd::std_specs::convert::FromSpecImpl<u64> for KernelAddr {
    open spec fn obeys_from_spec() -> bool {
        true
    }

    open spec fn from_spec(v: u64) -> Self {
        KernelAddr(v)
    }
}

/// The kernel window address of a physical address: the window offset is added
/// modulo the word size, so that the way back is its exact inverse.
impl From<PhysAddr> for KernelAddr {
    fn from(v: PhysAddr) -> Self {
        KernelAddr(v.0.wrapping_add(KERNEL_ADDR_OFFSET))
    }
}

impl vstd::std_specs::convert::FromSpecImpl<PhysAddr> for KernelAddr {
    open spec fn obeys_from_spec() -> bool {
        true
    }

    open spec fn from_spec(v: PhysAddr) -> Self {
        KernelAddr(((v.0 + KERNEL_ADDR_OFFSET) % word_modulus()) as u64)
    }
}

/// The physical address behind a kernel window address.
impl From<KernelAddr> for PhysAddr {
    fn from(v: KernelAddr) -> Self {
        PhysAddr(v.0.wrapping_sub(KERNEL_ADDR_OFFSET))
    }
}

impl vstd::std_specs::convert::FromSpecImpl<KernelAddr> for PhysAddr {
    open spec fn obeys_from_spec() -> bool {
        true
    }

    open spec fn from_spec(v: KernelAddr) -> Self {
        PhysAddr(((v.0 - KERNEL_ADDR_OFFSET) % word_modulus()) as u64)
    }
}

impl From<KernelAddr> for VirtAddr {
    fn from(v: KernelAddr) -> Self {
        VirtAddr(v.0)
    }
}

impl vstd::std_specs::convert::FromSpecImpl<KernelAddr> for VirtAddr {
    open spec fn obeys_from_spec() -> bool {
        true
    }

    open spec fn from_spec(v: KernelAddr) -> Self {
        VirtAddr(v.0)
    }
}

/// The physical page that holds the byte behind a kernel window address.
impl From<KernelAddr> for PhysPageNum {
    fn from(v: KernelAddr) -> Self {
        PhysAddr::from(v).floor()
    }
}

impl vstd::std_specs::convert::FromSpecImpl<KernelAddr> for PhysPageNum {
    open spec fn obeys_from_spec() -> bool {
        true
    }

    open spec fn from_spec(v: KernelAddr) -> Self {
        PhysPageNum(page_floor((v.0 - KERNEL_ADDR_OFFSET) % word_modulus()) as u64)
    }
}

/// The first byte of a physical page.
impl From<PhysPageNum> for PhysAddr {
    fn from(v: PhysPageNum) -> Self {
        PhysAddr(v.0.wrapping_mul(PAGE_SIZE))
    }
}

impl vstd::std_specs::convert::FromSpecImpl<PhysPageNum> for PhysAddr {
    open spec fn obeys_from_spec() -> bool {
        true
    }

    open spec fn from_spec(v: PhysPageNum) -> Self {
        PhysAddr(page_start(v.0 as int) as u64)
    }
}

/// The first byte of a virtual page.
impl From<VirtPageNum> for VirtAddr {
    fn from(v: VirtPageNum) -> Self {
        VirtAddr(v.0.wrapping_mul(PAGE_SIZE))
    }
}

impl vstd::std_specs::convert::FromSpecImpl<VirtPageNum> for VirtAddr {
    open spec fn obeys_from_spec() -> bool {
        true
    }

    open spec fn from_spec(v: VirtPageNum) -> Self {
        VirtAddr(page_start(v.0 as int) as u64)
    }
}

impl From<PhysAddr> for u64 {
    fn from(v: PhysAddr) -> Self {
        v.0
    }
}

impl vstd::std_specs::convert::FromSpecImpl<PhysAddr> for u64 {
    open spec fn obeys_from_spec() -> bool {
        true
    }

    open spec fn from_spec(v: PhysAddr) -> Self {
        v.0
    }
}

impl From<PhysPageNum> for u64 {
    fn from(v: PhysPageNum) -> Self {
        v.0
    }
}

impl vstd::std_specs::convert::FromSpecImpl<PhysPageNum> for u64 {
    open spec fn obeys_from_spec() -> bool {
        true
    }

    open spec fn from_spec(v: PhysPageNum) -> Self {
        v.0
    }
}

impl From<VirtPageNum> for u64 {
    fn from(v: VirtPageNum) -> Self {
        v.0
    }
}

impl vstd::std_specs::convert::FromSpecImpl<VirtPageNum> for u64 {
    open spec fn obeys_from_spec() -> bool {
        true
    }

    open spec fn from_spec(v: VirtPageNum) -> Self {
        v.0
    }
}

/// The word of a virtual address, with bits 39..63 set from bit 38.
impl From<VirtAddr> for u64 {
    fn from(v: VirtAddr) -> Self {
        if v.0 >= 0x40_0000_0000 {
            v.0 | 0xffff_ff80_0000_0000
        } else {
            v.0
        }
    }
}

impl vstd::std_specs::convert::FromSpecImpl<VirtAddr> for u64 {
    open spec fn obeys_from_spec() -> bool {
        true
    }

    open spec fn from_spec(v: VirtAddr) -> Self {
        sign_extend_va(v.0)
    }
}

/// A value with a successor: each step moves one place up a total order
/// that `rank` numbers.
pub trait StepByOne: Sized {
    /// Place of the value in its order.
    spec fn rank(&self) -> int;

    /// Whether the value has a successor.
    spec fn can_step(&self) -> bool;

    /// Moves to the successor.
    fn step(&mut self)
        requires
            old(self).can_step(),
        ensures
            final(self).rank() == old(self).rank() + 1,
    ;

    /// Whether `self` comes no later than `other`.
    fn precedes_or_is(&self, other: &Self) -> (r: bool)
        ensures
            r == (self.rank() <= other.rank()),
    ;

    /// Whether `self` and `other` stand at the same place.
    fn same_place(&self, other: &Self) -> (r: bool)
        ensures
            r == (self.rank() == other.rank()),
    ;

    /// A value below another one has a successor.
    proof fn lemma_below_can_step(&self, other: &Self)
        requires
            self.rank() < other.rank(),
        ensures
            self.can_step(),
    ;
}

impl StepByOne for VirtPageNum {
    open spec fn rank(&self) -> int {
        self.0 as int
    }

    open spec fn can_step(&self) -> bool {
        self.0 < u64::MAX
    }

    fn step(&mut self) {
        self.0 = self.0 + 1;
    }

    fn precedes_or_is(&self, other: &Self) -> (r: bool) {
        self.0 <= other.0
    }

    fn same_place(&self, other: &Self) -> (r: bool) {
        self.0 == other.0
    }

    proof fn lemma_below_can_step(&self, other: &Self) {
    }
}

/// The half-open range `[l, r)` of a steppable type.
#[derive(Clone, Copy)]
pub struct SimpleRange<T: StepByOne + Copy> {
    l: T,
    r: T,
}

impl<T: StepByOne + Copy> SimpleRange<T> {
    pub closed spec fn start(&self) -> T {
        self.l
    }

    pub closed spec fn end(&self) -> T {
        self.r
    }

    /// `start` never lies above `end`.
    pub open spec fn wf(&self) -> bool {
        self.start().rank() <= self.end().rank()
    }

    /// Number of values in the range.
    pub open spec fn len(&self) -> int {
        self.end().rank() - self.start().rank()
    }

    /// The range from `start` up to, not including, `end`; `start` must not lie above `end`.
    pub fn new(start: T, end: T) -> (r: Self)
        requires
            start.rank() <= end.rank(),
        ensures
            r.start() == start,
            r.end() == end,
            r.wf(),
    {
        SimpleRange { l: start, r: end }
    }

    pub fn get_start(&self) -> (r: T)
        ensures
            r == self.start(),
    {
        self.l
    }

    pub fn get_end(&self) -> (r: T)
        ensures
            r == self.end(),
    {
        self.r
    }

    /// A fresh walk over the range, from its start.
    pub fn into_iter(self) -> (r: SimpleRangeIterator<T>)
        ensures
            r.current() == self.start(),
            r.end() == self.end(),
    {
        SimpleRangeIterator::new(self.l, self.r)
    }

    /// Every value of the range, in ascending order.
    pub fn items(&self) -> (r: Vec<T>)
        requires
            self.wf(),
        ensures
            r@.len() == self.len(),
            forall|i: int| 0 <= i < r@.len() ==> #[trigger] r@[i].rank() == self.start().rank() + i,
    {
        let mut it = SimpleRangeIterator::new(self.l, self.r);
        let mut out: Vec<T> = Vec::new();
        loop
            invariant
                it.wf(),
                it.end() == self.r,
                it.current().rank() == self.l.rank() + out@.len(),
                forall|i: int| 0 <= i < out@.len() ==> #[trigger] out@[i].rank() == self.l.rank() + i,
            ensures
                it.current().rank() == self.r.rank(),
                forall|i: int| 0 <= i < out@.len() ==> #[trigger] out@[i].rank() == self.l.rank() + i,
            decreases it.end().rank() - it.current().rank(),
        {
            match it.next() {
                Some(t) => out.push(t),
                None => break,
            }
        }
        out
    }
}

/// A walk over a `SimpleRange`: the next value to hand out, and the end.
pub struct SimpleRangeIterator<T: StepByOne + Copy> {
    current: T,
    end: T,
}

impl<T: StepByOne + Copy> SimpleRangeIterator<T> {
    pub closed spec fn current(&self) -> T {
        self.current
    }

    pub closed spec fn end(&self) -> T {
        self.end
    }

    /// The walk has not passed its end.
    pub open spec fn wf(&self) -> bool {
        self.current().rank() <= self.end().rank()
    }

    pub fn new(l: T, r: T) -> (it: Self)
        ensures
            it.current() == l,
            it.end() == r,
    {
        SimpleRangeIterator { current: l, end: r }
    }

    /// The next value, or `None` once the end is reached.
    pub fn next(&mut self) -> (r: Option<T>)
        requires
            old(self).wf(),
        ensures
            final(self).wf(),
            final(self).end() == old(self).end(),
            old(self).current().rank() == old(self).end().rank() ==> r is None && *final(self) == *old(self),
            old(self).current().rank() < old(self).end().rank() ==> r == Some(old(self).current())
                && final(self).current().rank() == old(self).current().rank() + 1,
    {
        if self.current.same_place(&self.end) {
            None
        } else {
            let t = self.current;
            proof {
                self.current.lemma_below_can_step(&self.end);
            }
            self.current.step();
            Some(t)
        }
    }
}

/// A range of virtual page numbers.
pub type VPNRange = SimpleRange<VirtPageNum>;

proof fn lemma_floor_ceil(a: u64)
    ensures
        page_offset_of(a as int) == 0 ==> page_start(page_floor(a as int)) == a
            && page_ceil(a as int) == page_floor(a as int),
        page_offset_of(a as int) != 0 ==> page_ceil(a as int) == page_floor(a as int) + 1,
{
    let q = a as int / 4096;
    let r = a as int % 4096;
    assert(a as int == q * 4096 + r && 0 <= r < 4096 && 0 <= q) by (nonlinear_arith)
        requires
            q == a as int / 4096,
            r == a as int % 4096,
            a >= 0,
    ;
    assert((a as int + 4095) / 4096 == if r == 0 { q } else { q + 1 }) by (nonlinear_arith)
        requires
            a as int == q * 4096 + r,
            0 <= r < 4096,
    ;
    assert(r == 0 ==> (q * 4096) % word_modulus() == q * 4096) by (nonlinear_arith)
        requires
            a as int == q * 4096 + r,
            a < word_modulus(),
            0 <= q,
    ;
}

/// On a page-aligned physical address, the first byte of its floor page is the
/// address itself and ceil equals floor; elsewhere ceil is one past floor.
pub proof fn lemma_phys_floor_ceil(p: PhysAddr)
    ensures
        page_offset_of(p.0 as int) == 0 ==> PhysAddr(page_start(page_floor(p.0 as int)) as u64) == p
            && page_ceil(p.0 as int) == page_floor(p.0 as int),
        page_offset_of(p.0 as int) != 0 ==> page_ceil(p.0 as int) == page_floor(p.0 as int) + 1,
{
    lemma_floor_ceil(p.0);
}

/// On a page-aligned virtual address, the first byte of its floor page is the
/// address itself and ceil equals floor; elsewhere ceil is one past floor.
pub proof fn lemma_virt_floor_ceil(v: VirtAddr)
    ensures
        page_offset_of(v.0 as int) == 0 ==> VirtAddr(page_start(page_floor(v.0 as int)) as u64) == v
            && page_ceil(v.0 as int) == page_floor(v.0 as int),
        page_offset_of(v.0 as int) != 0 ==> page_ceil(v.0 as int) == page_floor(v.0 as int) + 1,
{
    lemma_floor_ceil(v.0);
}

/// A valid virtual page number survives the trip through the address of its
/// first byte: that address is page aligned and its page is the number again.
pub proof fn lemma_vpn_round_trip(v: VirtPageNum)
    requires
        v.wf(),
    ensures
        page_offset_of(page_start(v.0 as int)) == 0,
        page_floor(page_start(v.0 as int)) == v.0,
{
    let n = v.0 as int;
    assert(0 <= n * 4096 < word_modulus()) by (nonlinear_arith)
        requires
            0 <= n < 0x10_0000_0000_0000,
    ;
    assert((n * 4096) % 4096 == 0 && (n * 4096) / 4096 == n) by (nonlinear_arith);
}

/// The page number built from three 9-bit indices, root level first, gives
/// those indices back.
pub proof fn lemma_indexes_of_parts(i0: int, i1: int, i2: int)
    requires
        0 <= i0 < 512,
        0 <= i1 < 512,
        0 <= i2 < 512,
    ensures
        VirtPageNum((i0 * 0x4_0000 + i1 * 512 + i2) as u64).index_at(0) == i0,
        VirtPageNum((i0 * 0x4_0000 + i1 * 512 + i2) as u64).index_at(1) == i1,
        VirtPageNum((i0 * 0x4_0000 + i1 * 512 + i2) as u64).index_at(2) == i2,
{
    let n = i0 * 0x4_0000 + i1 * 512 + i2;
    assert(0 <= n < 0x800_0000) by (nonlinear_arith)
        requires
            n == i0 * 0x4_0000 + i1 * 512 + i2,
            0 <= i0 < 512,
            0 <= i1 < 512,
            0 <= i2 < 512,
    ;
    assert(n / 0x4_0000 == i0) by (nonlinear_arith)
        requires
            n == i0 * 0x4_0000 + i1 * 512 + i2,
            0 <= i1 < 512,
            0 <= i2 < 512,
    ;
    assert(n / 512 == i0 * 512 + i1) by (nonlinear_arith)
        requires
            n == i0 * 0x4_0000 + i1 * 512 + i2,
            0 <= i2 < 512,
    ;
    assert((i0 * 512 + i1) % 512 == i1) by (nonlinear_arith)
        requires
            0 <= i0,
            0 <= i1 < 512,
    ;
    assert(n % 512 == i2) by (nonlinear_arith)
        requires
            n == i0 * 0x4_0000 + i1 * 512 + i2,
            0 <= i0,
            0 <= i1,
            0 <= i2 < 512,
    ;
}

} // verus!
