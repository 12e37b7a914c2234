//! Physical memory as an array of 4 KiB frames, read as bytes or as
//! little-endian 64-bit page table entries.
use vstd::prelude::*;
use crate::mm::address::{PhysPageNum, PAGE_SIZE};
use crate::mm::pte::PageTableEntry;

verus! {

/// Byte `k` (0 is the least significant) of `v`.
pub open spec fn byte_of(v: u64, k: int) -> u8 {
    if k == 0 {
        (v & 0xffu64) as u8
    } else if k == 1 {
        ((v >> 8u64) & 0xffu64) as u8
    } else if k == 2 {
        ((v >> 16u64) & 0xffu64) as u8
    } else if k == 3 {
        ((v >> 24u64) & 0xffu64) as u8
    } else if k == 4 {
        ((v >> 32u64) & 0xffu64) as u8
    } else if k == 5 {
        ((v >> 40u64) & 0xffu64) as u8
    } else if k == 6 {
        ((v >> 48u64) & 0xffu64) as u8
    } else {
        ((v >> 56u64) & 0xffu64) as u8
    }
}

/// The 64-bit value whose little-endian bytes are `b0` to `b7`.
pub open spec fn le_word(b0: u8, b1: u8, b2: u8, b3: u8, b4: u8, b5: u8, b6: u8, b7: u8) -> u64 {
    (b0 as u64) | ((b1 as u64) << 8u64) | ((b2 as u64) << 16u64) | ((b3 as u64) << 24u64) | ((
    b4 as u64) << 32u64) | ((b5 as u64) << 40u64) | ((b6 as u64) << 48u64) | ((b7 as u64)
        << 56u64)
}

/// The little-endian 64-bit value stored at `a`.
pub open spec fn word_at(s: Seq<u8>, a: int) -> u64 {
    le_word(s[a], s[a + 1], s[a + 2], s[a + 3], s[a + 4], s[a + 5], s[a + 6], s[a + 7])
}

/// `s` with the little-endian bytes of `v` stored at `a`.
pub open spec fn with_word(s: Seq<u8>, a: int, v: u64) -> Seq<u8> {
    Seq::new(s.len(), |i: int| if a <= i < a + 8 { byte_of(v, i - a) } else { s[i] })
}

/// `s` with the `n` bytes from `a` on set to zero.
pub open spec fn with_zeros(s: Seq<u8>, a: int, n: int) -> Seq<u8> {
    Seq::new(s.len(), |i: int| if a <= i < a + n { 0u8 } else { s[i] })
}

/// Every byte of frame `p` is zero.
pub open spec fn frame_zeroed(m: PhysMem, p: u64) -> bool {
    forall|off: int| 0 <= off < 4096 ==> #[trigger] m.byte_at(p, off) == 0
}

/// Frame `p` holds the same bytes in `m1` and `m2`.
pub open spec fn frame_unchanged(m1: PhysMem, m2: PhysMem, p: u64) -> bool {
    forall|off: int| 0 <= off < 4096 ==> #[trigger] m2.byte_at(p, off) == m1.byte_at(p, off)
}

/// A frame of a well-formed memory lies within its bytes, and two distinct
/// frames share no byte.
pub proof fn lemma_frame_place(m: PhysMem, p: u64, q: u64)
    requires
        m.wf(),
        m.has_frame(p),
        m.has_frame(q),
    ensures
        0 <= m.frame_addr(p),
        m.frame_addr(p) + 4096 <= m.bytes@.len(),
        p != q ==> m.frame_addr(p) + 4096 <= m.frame_addr(q) || m.frame_addr(q) + 4096
            <= m.frame_addr(p),
{
    let a: int = p - m.base_ppn;
    let b: int = q - m.base_ppn;
    let n: int = m.n_frames as int;
    assert(0 <= a * 4096 && a * 4096 + 4096 <= n * 4096) by (nonlinear_arith)
        requires
            0 <= a < n,
    ;
    if a < b {
        assert(a * 4096 + 4096 <= b * 4096) by (nonlinear_arith)
            requires
                a < b,
        ;
    } else if b < a {
        assert(b * 4096 + 4096 <= a * 4096) by (nonlinear_arith)
            requires
                b < a,
        ;
    }
}

/// Storing the bytes of a value and reading them back gives the value; eight zero
/// bytes read as zero.
pub proof fn lemma_le_word(v: u64)
    ensures
        le_word(byte_of(v, 0), byte_of(v, 1), byte_of(v, 2), byte_of(v, 3), byte_of(v, 4), byte_of(v, 5),
            byte_of(v, 6), byte_of(v, 7)) == v,
        le_word(0, 0, 0, 0, 0, 0, 0, 0) == 0,
{
    assert(((v & 0xffu64) as u8 as u64) | ((((v >> 8u64) & 0xffu64) as u8 as u64) << 8u64) | (
    (((v >> 16u64) & 0xffu64) as u8 as u64) << 16u64) | ((((v >> 24u64) & 0xffu64) as u8 as u64)
        << 24u64) | ((((v >> 32u64) & 0xffu64) as u8 as u64) << 32u64) | ((((v >> 40u64)
        & 0xffu64) as u8 as u64) << 40u64) | ((((v >> 48u64) & 0xffu64) as u8 as u64) << 48u64) | ((
    ((v >> 56u64) & 0xffu64) as u8 as u64) << 56u64) == v && (0u8 as u64) | ((0u8 as u64) << 8u64)
        | ((0u8 as u64) << 16u64) | ((0u8 as u64) << 24u64) | ((0u8 as u64) << 32u64) | ((0u8 as u64)
        << 40u64) | ((0u8 as u64) << 48u64) | ((0u8 as u64) << 56u64) == 0) by (bit_vector);
}

/// After storing `e` as entry `idx` of frame `q`, that entry reads as `e` and
/// every other entry of every frame reads as before.
pub proof fn lemma_pte_after_write(m: PhysMem, m2: PhysMem, q: u64, idx: int, e: PageTableEntry)
    requires
        m.wf(),
        m.has_frame(q),
        0 <= idx < 512,
        m2.base_ppn == m.base_ppn,
        m2.n_frames == m.n_frames,
        m2.bytes@ == with_word(m.bytes@, m.frame_addr(q) + idx * 8, e.bits),
    ensures
        forall|p: u64, k: int|
            #![trigger m2.pte_at(p, k)]
            m2.has_frame(p) && 0 <= k < 512 ==> m2.pte_at(p, k) == if p == q && k == idx {
                e
            } else {
                m.pte_at(p, k)
            },
{
    let a = m.frame_addr(q) + idx * 8;
    lemma_le_word(e.bits);
    assert forall|p: u64, k: int|
        #![trigger m2.pte_at(p, k)]
        m2.has_frame(p) && 0 <= k < 512 implies m2.pte_at(p, k) == if p == q && k == idx {
            e
        } else {
            m.pte_at(p, k)
        } by {
        let b = m.frame_addr(p) + k * 8;
        if p == q && k == idx {
            assert(b == a);
        } else {
            assert(b + 8 <= a || a + 8 <= b);
            assert(word_at(m2.bytes@, b) == word_at(m.bytes@, b));
        }
    }
}

/// Physical memory: `n_frames` frames of 4 KiB, the first of which has page
/// number `base_ppn`.
pub struct PhysMem {
    pub base_ppn: u64,
    pub n_frames: u64,
    pub bytes: Vec<u8>,
}

impl PhysMem {
    pub open spec fn wf(&self) -> bool {
        &&& self.bytes@.len() == self.n_frames * 4096
        &&& self.base_ppn + self.n_frames <= 0x1000_0000_0000
    }

    /// Whether the frame `ppn` is part of this memory.
    pub open spec fn has_frame(&self, ppn: u64) -> bool {
        self.base_ppn <= ppn < self.base_ppn + self.n_frames
    }

    /// The index in `bytes` of the first byte of frame `ppn`.
    pub open spec fn frame_addr(&self, ppn: u64) -> int {
        (ppn - self.base_ppn) * 4096
    }

    /// The byte at offset `off` of frame `ppn`.
    pub open spec fn byte_at(&self, ppn: u64, off: int) -> u8 {
        self.bytes@[self.frame_addr(ppn) + off]
    }

    /// Entry `idx` of frame `ppn`, read as a page directory.
    pub open spec fn pte_at(&self, ppn: u64, idx: int) -> PageTableEntry {
        PageTableEntry { bits: word_at(self.bytes@, self.frame_addr(ppn) + idx * 8) }
    }

    /// The index in `bytes` of the first byte of frame `ppn`.
    fn frame_index(&self, ppn: PhysPageNum) -> (a: usize)
        requires
            self.wf(),
            self.has_frame(ppn.0),
        ensures
            a == self.frame_addr(ppn.0),
            a + 4096 <= self.bytes@.len(),
    {
        let x = ppn.0 - self.base_ppn;
        assert(x * 4096 + 4096 <= self.n_frames * 4096) by (nonlinear_arith)
            requires
                x < self.n_frames,
        ;
        let len = self.bytes.len();
        let r = x * 4096;
        assert(r < len);
        r as usize
    }

    /// A memory of `n_frames` zero-filled frames starting at page `base_ppn`.
    pub fn new(base_ppn: u64, n_frames: u64) -> (m: PhysMem)
        requires
            base_ppn + n_frames <= 0x1000_0000_0000,
            n_frames * 4096 <= usize::MAX,
        ensures
            m.wf(),
            m.base_ppn == base_ppn,
            m.n_frames == n_frames,
            forall|i: int| 0 <= i < m.bytes@.len() ==> m.bytes@[i] == 0,
    {
        let total = (n_frames * PAGE_SIZE) as usize;
        let mut bytes: Vec<u8> = Vec::new();
        let mut i: usize = 0;
        while i < total
            invariant
                i <= total,
                bytes@.len() == i,
                forall|j: int| 0 <= j < i ==> bytes@[j] == 0,
            decreases total - i,
        {
            bytes.push(0);
            i = i + 1;
        }
        PhysMem { base_ppn, n_frames, bytes }
    }

    /// The byte at offset `off` of frame `ppn`.
    pub fn read_byte(&self, ppn: PhysPageNum, off: usize) -> (b: u8)
        requires
            self.wf(),
            self.has_frame(ppn.0),
            off < 4096,
        ensures
            b == self.byte_at(ppn.0, off as int),
    {
        let a = self.frame_index(ppn) + off;
        self.bytes[a]
    }

    /// Stores `b` at offset `off` of frame `ppn`.
    pub fn write_byte(&mut self, ppn: PhysPageNum, off: usize, b: u8)
        requires
            old(self).wf(),
            old(self).has_frame(ppn.0),
            off < 4096,
        ensures
            final(self).wf(),
            final(self).base_ppn == old(self).base_ppn,
            final(self).n_frames == old(self).n_frames,
            final(self).bytes@ == old(self).bytes@.update(old(self).frame_addr(ppn.0) + off, b),
    {
        let a = self.frame_index(ppn) + off;
        self.bytes.set(a, b);
    }

    /// Entry `idx` of frame `ppn`, read as a page directory.
    pub fn read_pte(&self, ppn: PhysPageNum, idx: usize) -> (e: PageTableEntry)
        requires
            self.wf(),
            self.has_frame(ppn.0),
            idx < 512,
        ensures
            e == self.pte_at(ppn.0, idx as int),
    {
        let a = self.frame_index(ppn) + idx * 8;
        let bits = (self.bytes[a] as u64) | ((self.bytes[a + 1] as u64) << 8) | ((self.bytes[a
            + 2] as u64) << 16) | ((self.bytes[a + 3] as u64) << 24) | ((self.bytes[a + 4] as u64)
            << 32) | ((self.bytes[a + 5] as u64) << 40) | ((self.bytes[a + 6] as u64) << 48) | ((
        self.bytes[a + 7] as u64) << 56);
        PageTableEntry { bits }
    }

    /// Stores `e` as entry `idx` of frame `ppn`.
    pub fn write_pte(&mut self, ppn: PhysPageNum, idx: usize, e: PageTableEntry)
        requires
            old(self).wf(),
            old(self).has_frame(ppn.0),
            idx < 512,
        ensures
            final(self).wf(),
            final(self).base_ppn == old(self).base_ppn,
            final(self).n_frames == old(self).n_frames,
            final(self).bytes@ == with_word(
                old(self).bytes@,
                old(self).frame_addr(ppn.0) + idx * 8,
                e.bits,
            ),
            forall|p: u64, k: int|
                #![trigger final(self).pte_at(p, k)]
                final(self).has_frame(p) && 0 <= k < 512 ==> final(self).pte_at(p, k) == if p
                    == ppn.0 && k == idx {
                    e
                } else {
                    old(self).pte_at(p, k)
                },
            forall|p: u64|
                old(self).has_frame(p) && p != ppn.0 ==> #[trigger] frame_unchanged(
                    *old(self),
                    *final(self),
                    p,
                ),
    {
        let a = self.frame_index(ppn) + idx * 8;
        let v = e.bits;
        self.bytes.set(a, (v & 0xff) as u8);
        self.bytes.set(a + 1, ((v >> 8) & 0xff) as u8);
        self.bytes.set(a + 2, ((v >> 16) & 0xff) as u8);
        self.bytes.set(a + 3, ((v >> 24) & 0xff) as u8);
        self.bytes.set(a + 4, ((v >> 32) & 0xff) as u8);
        self.bytes.set(a + 5, ((v >> 40) & 0xff) as u8);
        self.bytes.set(a + 6, ((v >> 48) & 0xff) as u8);
        self.bytes.set(a + 7, ((v >> 56) & 0xff) as u8);
        proof {
            assert(self.bytes@ =~= with_word(old(self).bytes@, a as int, v));
            lemma_pte_after_write(*old(self), *self, ppn.0, idx as int, e);
            assert forall|p: u64|
                old(self).has_frame(p) && p != ppn.0 implies #[trigger] frame_unchanged(
                    *old(self),
                    *self,
                    p,
                ) by {
                lemma_frame_place(*old(self), p, ppn.0);
            }
        }
    }

    /// Fills frame `ppn` with zeros.
    pub fn zero_frame(&mut self, ppn: PhysPageNum)
        requires
            old(self).wf(),
            old(self).has_frame(ppn.0),
        ensures
            final(self).wf(),
            final(self).base_ppn == old(self).base_ppn,
            final(self).n_frames == old(self).n_frames,
            final(self).bytes@ == with_zeros(old(self).bytes@, old(self).frame_addr(ppn.0), 4096),
            forall|p: u64, k: int|
                #![trigger final(self).pte_at(p, k)]
                final(self).has_frame(p) && 0 <= k < 512 ==> final(self).pte_at(p, k) == if p
                    == ppn.0 {
                    PageTableEntry { bits: 0 }
                } else {
                    old(self).pte_at(p, k)
                },
            forall|p: u64|
                old(self).has_frame(p) && p != ppn.0 ==> #[trigger] frame_unchanged(
                    *old(self),
                    *final(self),
                    p,
                ),
    {
        let a = self.frame_index(ppn);
        let mut i: usize = 0;
        while i < 4096
            invariant
                self.wf(),
                self.base_ppn == old(self).base_ppn,
                self.n_frames == old(self).n_frames,
                old(self).has_frame(ppn.0),
                a == old(self).frame_addr(ppn.0),
                i <= 4096,
                self.bytes@ == with_zeros(old(self).bytes@, a as int, i as int),
            decreases 4096 - i,
        {
            self.bytes.set(a + i, 0);
            proof {
                assert(self.bytes@ =~= with_zeros(old(self).bytes@, a as int, i + 1));
            }
            i = i + 1;
        }
        proof {
            lemma_le_word(0);
            let ghost old_bytes = old(self).bytes@;
            assert forall|p: u64, k: int|
                #![trigger self.pte_at(p, k)]
                self.has_frame(p) && 0 <= k < 512 implies self.pte_at(p, k) == if p == ppn.0 {
                    PageTableEntry { bits: 0 }
                } else {
                    old(self).pte_at(p, k)
                } by {
                let b = self.frame_addr(p) + k * 8;
                if p == ppn.0 {
                    assert(word_at(self.bytes@, b) == le_word(0, 0, 0, 0, 0, 0, 0, 0));
                } else {
                    assert(b + 8 <= a || a + 4096 <= b);
                    assert(word_at(self.bytes@, b) == word_at(old_bytes, b));
                }
            }
            assert forall|p: u64|
                old(self).has_frame(p) && p != ppn.0 implies #[trigger] frame_unchanged(
                    *old(self),
                    *self,
                    p,
                ) by {
                lemma_frame_place(*old(self), p, ppn.0);
            }
        }
    }
}

} // verus!
