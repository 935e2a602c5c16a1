//! The SV39 page-table entry: a physical page number in bits 10..53 and eight
//! flag bits in bits 0..7.
use vstd::prelude::*;
use crate::address::PhysPageNum;

verus! {

/// Largest physical page number an entry can hold, plus one.
pub open spec fn ppn_limit() -> int {
    0x1000_0000_0000
}

/// The physical page number held by an entry word.
pub open spec fn pte_ppn(bits: u64) -> int {
    (bits as int / 1024) % ppn_limit()
}

/// The flag byte held by an entry word.
pub open spec fn pte_flags(bits: u64) -> u8 {
    (bits % 256) as u8
}

/// The eight flag bits of an entry.
#[derive(Clone, Copy, PartialEq, Eq, Structural, Debug)]
pub struct PTEFlags {
    pub bits: u8,
}

impl PTEFlags {
    /// Valid.
    pub const V: u8 = 1;
    /// Readable.
    pub const R: u8 = 2;
    /// Writable.
    pub const W: u8 = 4;
    /// Executable.
    pub const X: u8 = 8;
    /// Accessible from user mode.
    pub const U: u8 = 16;
    /// Global.
    pub const G: u8 = 32;
    /// Accessed.
    pub const A: u8 = 64;
    /// Dirty.
    pub const D: u8 = 128;

    pub fn from_bits(bits: u8) -> (r: Self)
        ensures
            r.bits == bits,
    {
        PTEFlags { bits }
    }

    pub fn bits(&self) -> (r: u8)
        ensures
            r == self.bits,
    {
        self.bits
    }

    /// Whether every bit of `mask` is set.
    pub fn contains(&self, mask: u8) -> (r: bool)
        ensures
            r == (self.bits & mask == mask),
    {
        self.bits & mask == mask
    }

    /// These flags together with `mask`.
    pub fn with(&self, mask: u8) -> (r: Self)
        ensures
            r.bits == self.bits | mask,
    {
        PTEFlags { bits: self.bits | mask }
    }
}

/// One entry of a page-table node.
#[derive(Clone, Copy, PartialEq, Eq, Structural, Debug)]
pub struct PageTableEntry {
    pub bits: u64,
}

impl PageTableEntry {
    /// The entry whose page number is `ppn` and whose flags are `flags`.
    pub open spec fn encode(ppn: int, flags: u8) -> Self {
        PageTableEntry { bits: (ppn * 1024 + flags) as u64 }
    }

    pub open spec fn ppn_spec(&self) -> int {
        pte_ppn(self.bits)
    }

    pub open spec fn flags_spec(&self) -> u8 {
        pte_flags(self.bits)
    }

    pub open spec fn valid_spec(&self) -> bool {
        self.bits % 2 == 1
    }

    /// The entry for page `ppn` with `flags`; the page number must fit in 44 bits.
    pub fn new(ppn: PhysPageNum, flags: PTEFlags) -> (r: Self)
        requires
            ppn.0 < ppn_limit(),
        ensures
            r == Self::encode(ppn.0 as int, flags.bits),
            r.ppn_spec() == ppn.0,
            r.flags_spec() == flags.bits,
    {
        let p = ppn.0;
        let f = flags.bits as u64;
        assert(p << 10 | f == p * 1024 + f) by (bit_vector)
            requires
                p < 0x1000_0000_0000,
                f < 256,
        ;
        assert(((p * 1024 + f) / 1024) % 0x1000_0000_0000 == p && (p * 1024 + f) % 256 == f
            && (p * 1024 + f) < 0x1_0000_0000_0000_0000)
            by (nonlinear_arith)
            requires
                p < 0x1000_0000_0000,
                f < 256,
        ;
        PageTableEntry { bits: p << 10 | f }
    }

    /// The entry with no bit set.
    pub fn empty() -> (r: Self)
        ensures
            r.bits == 0,
            !r.valid_spec(),
    {
        PageTableEntry { bits: 0 }
    }

    /// The page number in bits 10..53.
    pub fn ppn(&self) -> (r: PhysPageNum)
        ensures
            r.0 == self.ppn_spec(),
    {
        let b = self.bits;
        assert(b >> 10 & 0xfff_ffff_ffff == (b / 1024) % 0x1000_0000_0000) by (bit_vector);
        PhysPageNum(b >> 10 & 0xfff_ffff_ffff)
    }

    /// The flag byte.
    pub fn flags(&self) -> (r: PTEFlags)
        ensures
            r.bits == self.flags_spec(),
    {
        let b = self.bits;
        assert((b & 0xff) as u8 == (b % 256) as u8) by (bit_vector);
        PTEFlags { bits: (b & 0xff) as u8 }
    }

    pub fn is_valid(&self) -> (r: bool)
        ensures
            r == self.valid_spec(),
    {
        let b = self.bits;
        assert(b & 1 == b % 2) by (bit_vector);
        self.bits & 1 == 1
    }

    pub fn readable(&self) -> (r: bool)
        ensures
            r == (self.flags_spec() & 2 != 0),
    {
        let b = self.bits;
        assert((b & 2 != 0) == ((b % 256) as u8 & 2 != 0)) by (bit_vector);
        self.bits & 2 != 0
    }

    pub fn writable(&self) -> (r: bool)
        ensures
            r == (self.flags_spec() & 4 != 0),
    {
        let b = self.bits;
        assert((b & 4 != 0) == ((b % 256) as u8 & 4 != 0)) by (bit_vector);
        self.bits & 4 != 0
    }

    pub fn executable(&self) -> (r: bool)
        ensures
            r == (self.flags_spec() & 8 != 0),
    {
        let b = self.bits;
        assert((b & 8 != 0) == ((b % 256) as u8 & 8 != 0)) by (bit_vector);
        self.bits & 8 != 0
    }
}

} // verus!
