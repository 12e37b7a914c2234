//! Page table entries of Sv39 and their flags.
use vstd::prelude::*;
use crate::mm::address::{PhysPageNum, PPN_MASK};

verus! {

/// The flags in the low byte of a page table entry.
#[derive(Clone, Copy, Debug, PartialEq, Eq, Structural)]
pub struct PTEFlags {
    pub bits: u8,
}

#[allow(non_snake_case)]
impl PTEFlags {
    /// Valid.
    pub fn V() -> (f: PTEFlags)
        ensures f.bits == 1,
    {
        PTEFlags { bits: 1 }
    }

    /// Readable.
    pub fn R() -> (f: PTEFlags)
        ensures f.bits == 2,
    {
        PTEFlags { bits: 2 }
    }

    /// Writable.
    pub fn W() -> (f: PTEFlags)
        ensures f.bits == 4,
    {
        PTEFlags { bits: 4 }
    }

    /// Executable.
    pub fn X() -> (f: PTEFlags)
        ensures f.bits == 8,
    {
        PTEFlags { bits: 8 }
    }

    /// Accessible from user mode.
    pub fn U() -> (f: PTEFlags)
        ensures f.bits == 16,
    {
        PTEFlags { bits: 16 }
    }

    /// Global.
    pub fn G() -> (f: PTEFlags)
        ensures f.bits == 32,
    {
        PTEFlags { bits: 32 }
    }

    /// Accessed.
    pub fn A() -> (f: PTEFlags)
        ensures f.bits == 64,
    {
        PTEFlags { bits: 64 }
    }

    /// Dirty.
    pub fn D() -> (f: PTEFlags)
        ensures f.bits == 128,
    {
        PTEFlags { bits: 128 }
    }

    /// No flag set.
    pub fn empty() -> (f: PTEFlags)
        ensures f.bits == 0,
    {
        PTEFlags { bits: 0 }
    }

    /// The raw bits.
    pub fn bits(&self) -> (r: u8)
        ensures r == self.bits,
    {
        self.bits
    }

    /// The flags with these bits; every bit of a byte names a flag, so this never fails.
    pub fn from_bits(bits: u8) -> (r: Option<PTEFlags>)
        ensures r == Some(PTEFlags { bits }),
    {
        Some(PTEFlags { bits })
    }

    /// The flags set in either.
    pub fn union(self, other: PTEFlags) -> (r: PTEFlags)
        ensures r.bits == self.bits | other.bits,
    {
        PTEFlags { bits: self.bits | other.bits }
    }

    /// The flags set in both.
    pub fn intersection(self, other: PTEFlags) -> (r: PTEFlags)
        ensures r.bits == self.bits & other.bits,
    {
        PTEFlags { bits: self.bits & other.bits }
    }

    /// Whether every flag of `other` is set here.
    pub fn contains(self, other: PTEFlags) -> (r: bool)
        ensures r == (self.bits & other.bits == other.bits),
    {
        self.bits & other.bits == other.bits
    }
}

/// A page table entry: flags in bits 0..8, the physical page number in bits 10..54.
#[derive(Clone, Copy, Debug, PartialEq, Eq, Structural)]
pub struct PageTableEntry {
    pub bits: u64,
}

impl PageTableEntry {
    pub open spec fn spec_new(ppn: u64, flags: u8) -> PageTableEntry {
        PageTableEntry { bits: (ppn << 10u64) | (flags as u64) }
    }

    pub open spec fn spec_ppn(self) -> u64 {
        (self.bits >> 10u64) & PPN_MASK
    }

    pub open spec fn spec_flags(self) -> u8 {
        self.bits as u8
    }

    pub open spec fn spec_is_valid(self) -> bool {
        self.bits & 1u64 != 0
    }

    pub open spec fn spec_readable(self) -> bool {
        self.bits & 2u64 != 0
    }

    pub open spec fn spec_writable(self) -> bool {
        self.bits & 4u64 != 0
    }

    pub open spec fn spec_executable(self) -> bool {
        self.bits & 8u64 != 0
    }

    /// The entry made of a page number and flags.
    pub fn new(ppn: PhysPageNum, flags: PTEFlags) -> (r: PageTableEntry)
        ensures
            r == PageTableEntry::spec_new(ppn.0, flags.bits),
            ppn.0 < 0x1000_0000_0000 ==> r.spec_ppn() == ppn.0,
            r.spec_flags() == flags.bits,
            r.spec_is_valid() == (flags.bits & 1 != 0),
    {
        proof {
            lemma_new_fields(ppn.0, flags.bits);
        }
        PageTableEntry { bits: ppn.0 << 10 | flags.bits as u64 }
    }

    /// The entry with no bit set.
    pub fn empty() -> (r: PageTableEntry)
        ensures
            r.bits == 0,
            !r.spec_is_valid(),
    {
        proof {
            assert(0u64 & 1u64 == 0) by (bit_vector);
        }
        PageTableEntry { bits: 0 }
    }

    /// The physical page number held by this entry.
    pub fn ppn(&self) -> (r: PhysPageNum)
        ensures
            r.0 == self.spec_ppn(),
            r.0 < 0x1000_0000_0000,
    {
        let b = self.bits;
        proof {
            assert((b >> 10u64) & 0xfff_ffff_ffffu64 < 0x1000_0000_0000) by (bit_vector);
        }
        PhysPageNum(b >> 10 & PPN_MASK)
    }

    /// The flags of this entry.
    pub fn flags(&self) -> (r: PTEFlags)
        ensures
            r.bits == self.spec_flags(),
    {
        PTEFlags::from_bits(self.bits as u8).unwrap()
    }

    /// Whether the valid flag is set.
    pub fn is_valid(&self) -> (r: bool)
        ensures
            r == self.spec_is_valid(),
    {
        proof {
            lemma_flag_bits(self.bits);
        }
        self.flags().intersection(PTEFlags::V()) != PTEFlags::empty()
    }

    /// Whether the readable flag is set.
    pub fn readable(&self) -> (r: bool)
        ensures
            r == self.spec_readable(),
    {
        proof {
            lemma_flag_bits(self.bits);
        }
        self.flags().intersection(PTEFlags::R()) != PTEFlags::empty()
    }

    /// Whether the writable flag is set.
    pub fn writable(&self) -> (r: bool)
        ensures
            r == self.spec_writable(),
    {
        proof {
            lemma_flag_bits(self.bits);
        }
        self.flags().intersection(PTEFlags::W()) != PTEFlags::empty()
    }

    /// Whether the executable flag is set.
    pub fn executable(&self) -> (r: bool)
        ensures
            r == self.spec_executable(),
    {
        proof {
            lemma_flag_bits(self.bits);
        }
        self.flags().intersection(PTEFlags::X()) != PTEFlags::empty()
    }
}

/// An entry built from a page number below 2^44 and flags gives both back.
pub proof fn lemma_new_fields(ppn: u64, flags: u8)
    ensures
        ppn < 0x1000_0000_0000 ==> PageTableEntry::spec_new(ppn, flags).spec_ppn() == ppn,
        PageTableEntry::spec_new(ppn, flags).spec_flags() == flags,
        PageTableEntry::spec_new(ppn, flags).spec_is_valid() == (flags & 1 != 0),
        PageTableEntry::spec_new(ppn, flags).spec_readable() == (flags & 2 != 0),
        PageTableEntry::spec_new(ppn, flags).spec_writable() == (flags & 4 != 0),
        PageTableEntry::spec_new(ppn, flags).spec_executable() == (flags & 8 != 0),
{
    let b = (ppn << 10u64) | (flags as u64);
    assert(b == (ppn << 10u64) | (flags as u64) ==> (ppn < 0x1000_0000_0000 ==> (b >> 10u64)
        & 0xfff_ffff_ffffu64 == ppn) && b as u8 == flags) by (bit_vector);
    lemma_flag_bits(b);
}

/// Adding the valid flag makes flags valid.
pub proof fn lemma_with_valid(flags: u8)
    ensures
        (flags | 1u8) & 1u8 != 0,
{
    assert((flags | 1u8) & 1u8 != 0) by (bit_vector);
}

/// The flag bits of an entry are the bits of its low byte.
pub proof fn lemma_flag_bits(b: u64)
    ensures
        (b as u8) & 1u8 == 0 <==> b & 1u64 == 0,
        (b as u8) & 2u8 == 0 <==> b & 2u64 == 0,
        (b as u8) & 4u8 == 0 <==> b & 4u64 == 0,
        (b as u8) & 8u8 == 0 <==> b & 8u64 == 0,
{
    assert(((b as u8) & 1u8 == 0 <==> b & 1u64 == 0) && ((b as u8) & 2u8 == 0 <==> b & 2u64 == 0)
        && ((b as u8) & 4u8 == 0 <==> b & 4u64 == 0) && ((b as u8) & 8u8 == 0 <==> b & 8u64 == 0))
        by (bit_vector);
}

} // verus!
