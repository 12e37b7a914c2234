//! Sv39 addresses and page numbers.
use vstd::prelude::*;

verus! {

/// Size of a page in bytes.
pub const PAGE_SIZE: u64 = 4096;

/// Number of bits of the offset within a page.
pub const PAGE_SIZE_BITS: u64 = 12;

/// Width of a physical address under Sv39.
pub const PA_WIDTH_SV39: u64 = 56;

/// Width of a virtual address under Sv39.
pub const VA_WIDTH_SV39: u64 = 39;

/// Width of a physical page number under Sv39.
pub const PPN_WIDTH_SV39: u64 = 44;

/// Width of a virtual page number under Sv39.
pub const VPN_WIDTH_SV39: u64 = 27;

/// Mask of the bits of a physical page number.
pub const PPN_MASK: u64 = 0xfff_ffff_ffff;

/// Mask of the bits of a virtual address.
pub const VA_MASK: u64 = 0x7f_ffff_ffff;

/// Mask of the bits of a virtual page number.
pub const VPN_MASK: u64 = 0x7ff_ffff;

/// First virtual address whose top Sv39 bit is set.
pub const VA_SIGN_BIT: u64 = 0x40_0000_0000;

/// A physical page number.
#[derive(Clone, Copy, Debug, PartialEq, Eq, Structural)]
pub struct PhysPageNum(pub u64);

/// A virtual address.
#[derive(Clone, Copy, Debug, PartialEq, Eq, Structural)]
pub struct VirtAddr(pub u64);

/// A virtual page number.
#[derive(Clone, Copy, Debug, PartialEq, Eq, Structural)]
pub struct VirtPageNum(pub u64);

/// The index into the page directory of `level` (0 is the root) selected by `vpn`.
pub open spec fn vpn_index(vpn: u64, level: int) -> usize {
    if level == 0 {
        ((vpn >> 18u64) & 511u64) as usize
    } else if level == 1 {
        ((vpn >> 9u64) & 511u64) as usize
    } else {
        (vpn & 511u64) as usize
    }
}

pub proof fn lemma_vpn_index_bounds(vpn: u64)
    ensures
        (vpn >> 18u64) & 511u64 < 512,
        (vpn >> 9u64) & 511u64 < 512,
        vpn & 511u64 < 512,
        vpn_index(vpn, 0) < 512,
        vpn_index(vpn, 1) < 512,
        vpn_index(vpn, 2) < 512,
{
    assert((vpn >> 18u64) & 511u64 < 512 && (vpn >> 9u64) & 511u64 < 512 && vpn & 511u64 < 512)
        by (bit_vector);
}

/// Two page numbers select the same entries at every level exactly when their
/// low 27 bits agree.
pub proof fn lemma_vpn_index_eq(a: u64, b: u64)
    ensures
        (vpn_index(a, 0) == vpn_index(b, 0) && vpn_index(a, 1) == vpn_index(b, 1)
            && vpn_index(a, 2) == vpn_index(b, 2)) <==> (a & VPN_MASK == b & VPN_MASK),
{
    lemma_vpn_index_bounds(a);
    lemma_vpn_index_bounds(b);
    assert(((a >> 18u64) & 511u64 == (b >> 18u64) & 511u64 && (a >> 9u64) & 511u64 == (b >> 9u64)
        & 511u64 && a & 511u64 == b & 511u64) <==> (a & 0x7ff_ffffu64 == b & 0x7ff_ffffu64))
        by (bit_vector);
}

pub proof fn lemma_vpn_mask_idempotent(a: u64)
    ensures
        (a & VPN_MASK) & VPN_MASK == a & VPN_MASK,
        a & VPN_MASK < 0x800_0000,
        a < 0x800_0000 ==> a & VPN_MASK == a,
{
    assert((a & 0x7ff_ffffu64) & 0x7ff_ffffu64 == a & 0x7ff_ffffu64 && a & 0x7ff_ffffu64 < 0x800_0000
        && (a < 0x800_0000 ==> a & 0x7ff_ffffu64 == a)) by (bit_vector);
}

impl PhysPageNum {
    /// The page number made of the low 44 bits of `v`.
    pub fn from_u64(v: u64) -> (r: PhysPageNum)
        ensures
            r.0 == v & PPN_MASK,
            r.0 < 0x1000_0000_0000,
            v < 0x1000_0000_0000 ==> r.0 == v,
    {
        proof {
            assert(v & 0xfff_ffff_ffffu64 < 0x1000_0000_0000 && (v < 0x1000_0000_0000 ==> v
                & 0xfff_ffff_ffffu64 == v)) by (bit_vector);
        }
        PhysPageNum(v & PPN_MASK)
    }
}

impl VirtAddr {
    /// The address made of the low 39 bits of `v`.
    pub fn from_u64(v: u64) -> (r: VirtAddr)
        ensures
            r.0 == v & VA_MASK,
            v < 0x80_0000_0000 ==> r.0 == v,
    {
        proof {
            assert(v < 0x80_0000_0000 ==> v & 0x7f_ffff_ffffu64 == v) by (bit_vector);
        }
        VirtAddr(v & VA_MASK)
    }

    /// The address as a 64-bit value, with the top Sv39 bit extended.
    pub open spec fn spec_to_u64(self) -> u64 {
        if self.0 >= VA_SIGN_BIT {
            self.0 | !VA_MASK
        } else {
            self.0
        }
    }

    /// The address as a 64-bit value, with the top Sv39 bit extended.
    pub fn to_u64(self) -> (r: u64)
        ensures
            r == self.spec_to_u64(),
            self.0 < VA_SIGN_BIT ==> r == self.0,
            self.0 >= VA_SIGN_BIT ==> r >= self.0 && r >= 0xffff_ff80_0000_0000,
    {
        if self.0 >= VA_SIGN_BIT {
            let r = self.0 | !VA_MASK;
            proof {
                let x = self.0;
                assert(x | !0x7f_ffff_ffffu64 >= x && x | !0x7f_ffff_ffffu64 >= 0xffff_ff80_0000_0000u64)
                    by (bit_vector);
            }
            r
        } else {
            self.0
        }
    }

    /// The page that holds this address.
    pub fn floor(self) -> (r: VirtPageNum)
        ensures
            r.0 == self.0 / PAGE_SIZE,
    {
        VirtPageNum(self.0 / PAGE_SIZE)
    }

    /// The offset of this address within its page.
    pub fn page_offset(self) -> (r: u64)
        ensures
            r == self.0 % PAGE_SIZE,
            r < PAGE_SIZE,
    {
        let x = self.0;
        proof {
            assert(x & 4095u64 == x % 4096) by (bit_vector);
        }
        x & (PAGE_SIZE - 1)
    }

    /// The smaller of two addresses.
    pub fn min(self, other: VirtAddr) -> (r: VirtAddr)
        ensures
            r.0 == if self.0 <= other.0 { self.0 } else { other.0 },
    {
        if self.0 <= other.0 {
            self
        } else {
            other
        }
    }
}

impl VirtPageNum {
    /// The first address of this page.
    pub fn to_addr(self) -> (r: VirtAddr)
        ensures
            r.0 == self.0 << 12u64,
            self.0 < 0x10_0000_0000_0000 ==> r.0 == self.0 * PAGE_SIZE,
    {
        let v = self.0;
        proof {
            assert(v < 0x10_0000_0000_0000 ==> v << 12u64 == v * 4096) by (bit_vector);
        }
        VirtAddr(v << PAGE_SIZE_BITS)
    }

    /// The indices into the three levels of page directories, root first.
    pub fn indexes(&self) -> (idx: [usize; 3])
        ensures
            idx@.len() == 3,
            idx@[0] == vpn_index(self.0, 0),
            idx@[1] == vpn_index(self.0, 1),
            idx@[2] == vpn_index(self.0, 2),
            idx@[0] < 512 && idx@[1] < 512 && idx@[2] < 512,
    {
        proof {
            lemma_vpn_index_bounds(self.0);
        }
        let vpn = self.0;
        let i2 = (vpn & 511) as usize;
        let i1 = ((vpn >> 9) & 511) as usize;
        let i0 = ((vpn >> 18) & 511) as usize;
        [i0, i1, i2]
    }

    /// Moves to the next page.
    pub fn step(&mut self)
        requires
            old(self).0 < u64::MAX,
        ensures
            final(self).0 == old(self).0 + 1,
    {
        self.0 = self.0 + 1;
    }
}

} // verus!
