//! Access to user memory through the page table named by a `satp` token.
use vstd::prelude::*;
use crate::mm::address::{PhysPageNum, VirtAddr, PAGE_SIZE, PPN_MASK};
use crate::mm::page_table::PageTable;
use crate::mm::phys_mem::PhysMem;
use crate::mm::pt_spec::{in_bounds, translate_spec, not_table_frame, lemma_table_frames_unchanged};
use crate::mm::pte::PTEFlags;

verus! {

/// Bytes `start` up to `end` (excluded) of frame `ppn`.
#[derive(Clone, Copy, Debug, PartialEq, Eq, Structural)]
pub struct UserSegment {
    pub ppn: PhysPageNum,
    pub start: usize,
    pub end: usize,
}

/// The first page of the range that starts at `ptr`.
pub open spec fn first_page(ptr: int) -> int {
    ptr / 4096
}

/// How many pages the `len` bytes from `ptr` touch.
pub open spec fn n_pages(ptr: int, len: int) -> int {
    if len <= 0 {
        0
    } else {
        (ptr + len - 1) / 4096 - ptr / 4096 + 1
    }
}

/// The first address of the range within its `k`-th page.
pub open spec fn seg_start_va(ptr: int, k: int) -> int {
    if k == 0 {
        ptr
    } else {
        (first_page(ptr) + k) * 4096
    }
}

/// The address just past the range within its `k`-th page.
pub open spec fn seg_end_va(ptr: int, len: int, k: int) -> int {
    if k == n_pages(ptr, len) - 1 {
        ptr + len
    } else {
        (first_page(ptr) + k + 1) * 4096
    }
}

/// The leaf entry of the page that holds user address `va`.
pub open spec fn user_pte_ppn(mem: PhysMem, root: u64, va: int) -> u64 {
    translate_spec(mem, root, (va / 4096) as u64)->Some_0.spec_ppn()
}

/// Where user address `va` lies in physical memory.
pub open spec fn user_pa(mem: PhysMem, root: u64, va: int) -> int {
    mem.frame_addr(user_pte_ppn(mem, root, va)) + va % 4096
}

/// Every page of the range reaches a leaf entry.
pub open spec fn range_mapped(mem: PhysMem, root: u64, ptr: int, len: int) -> bool {
    forall|k: int| 0 <= k < n_pages(ptr, len) ==> (#[trigger] translate_spec(mem, root, (first_page(ptr) + k) as u64)) is Some
}

/// Every page of the range reaches a leaf entry that names a frame of the memory.
pub open spec fn range_in_mem(mem: PhysMem, root: u64, ptr: int, len: int) -> bool {
    &&& range_mapped(mem, root, ptr, len)
    &&& forall|k: int|
        0 <= k < n_pages(ptr, len) ==> mem.has_frame(
            (#[trigger] translate_spec(mem, root, (first_page(ptr) + k) as u64))->Some_0.spec_ppn(),
        )
}

/// The parts of the `len` bytes from `ptr`, page by page, in physical memory.
pub open spec fn user_segments(mem: PhysMem, root: u64, ptr: int, len: int) -> Seq<UserSegment> {
    Seq::new(
        n_pages(ptr, len) as nat,
        |k: int|
            UserSegment {
                ppn: PhysPageNum(
                    translate_spec(mem, root, (first_page(ptr) + k) as u64)->Some_0.spec_ppn(),
                ),
                start: (seg_start_va(ptr, k) - (first_page(ptr) + k) * 4096) as usize,
                end: (seg_end_va(ptr, len, k) - (first_page(ptr) + k) * 4096) as usize,
            },
    )
}

/// The leaf entry of page `vpn` is valid and has every flag of `flags`.
pub open spec fn page_allows(mem: PhysMem, root: u64, vpn: int, flags: u8) -> bool {
    match translate_spec(mem, root, vpn as u64) {
        Some(e) => e.spec_is_valid() && e.spec_flags() & flags == flags,
        None => false,
    }
}

/// The pages that `check_user_range` looks at: from the page of `start` to the
/// page of `start + len - 1`.
pub open spec fn checked_pages(start: int, len: int) -> int {
    (start + len - 1) / 4096 + 1 - start / 4096
}

/// Every page that `check_user_range` looks at allows `flags`.
pub open spec fn range_allows(mem: PhysMem, root: u64, start: int, len: int, flags: u8) -> bool {
    forall|v: int|
        start / 4096 <= v < start / 4096 + checked_pages(start, len) ==> #[trigger] page_allows(
            mem,
            root,
            v,
            flags,
        )
}

/// Arithmetic of the split of a range into pages.
pub proof fn lemma_segment_bounds(ptr: int, len: int, k: int)
    requires
        0 <= ptr,
        0 < len,
        0 <= k < n_pages(ptr, len),
    ensures
        (first_page(ptr) + k) * 4096 <= seg_start_va(ptr, k) < seg_end_va(ptr, len, k) <= (first_page(ptr) + k) * 4096 + 4096,
        k + 1 < n_pages(ptr, len) ==> seg_end_va(ptr, len, k) == seg_start_va(ptr, k + 1),
        k + 1 < n_pages(ptr, len) ==> seg_end_va(ptr, len, k) == (first_page(ptr) + k + 1) * 4096,
        k + 1 < n_pages(ptr, len) ==> seg_end_va(ptr, len, k) < ptr + len,
        seg_start_va(ptr, 0) == ptr,
        seg_end_va(ptr, len, n_pages(ptr, len) - 1) == ptr + len,
        ptr <= seg_start_va(ptr, k),
        seg_end_va(ptr, len, k) <= ptr + len,
        forall|va: int| seg_start_va(ptr, k) <= va < seg_end_va(ptr, len, k) ==> #[trigger] (va / 4096) == first_page(ptr) + k,
{
    let f = first_page(ptr);
    let l = (ptr + len - 1) / 4096;
    assert(f * 4096 <= ptr < f * 4096 + 4096);
    assert(l * 4096 <= ptr + len - 1 < l * 4096 + 4096);
    assert forall|va: int| seg_start_va(ptr, k) <= va < seg_end_va(ptr, len, k) implies #[trigger] (va / 4096) == f + k by {
        assert((f + k) * 4096 <= va < (f + k) * 4096 + 4096);
    }
}

/// How many of the `len` bytes from `ptr` the page walk of
/// `translated_byte_buffer` covers: it stops at the first page boundary at or
/// past the top of the lower half of the Sv39 space, where the next address
/// reads as a kernel address.
pub open spec fn walk_len(ptr: int, len: int) -> int {
    if ptr + len <= 0x40_0000_0000 {
        len
    } else if ptr < 0x40_0000_0000 {
        0x40_0000_0000 - ptr
    } else if ptr + len <= (ptr / 4096 + 1) * 4096 {
        len
    } else {
        (ptr / 4096 + 1) * 4096 - ptr
    }
}

/// Facts on the part of a range that the page walk covers.
pub proof fn lemma_walk_len(ptr: int, len: int)
    requires
        0 <= ptr,
        0 <= len,
    ensures
        0 <= walk_len(ptr, len) <= len,
        len > 0 ==> walk_len(ptr, len) > 0,
        walk_len(ptr, len) < len ==> ptr + walk_len(ptr, len) >= 0x40_0000_0000,
        walk_len(ptr, len) < len ==> ptr + walk_len(ptr, len) == (first_page(ptr) + n_pages(
            ptr,
            walk_len(ptr, len),
        )) * 4096,
        n_pages(ptr, walk_len(ptr, len)) > 1 ==> ptr + walk_len(ptr, len) <= 0x40_0000_0000,
{
    let f = first_page(ptr);
    assert(f * 4096 <= ptr < f * 4096 + 4096);
    let w = walk_len(ptr, len);
    if w > 0 {
        let l = (ptr + w - 1) / 4096;
        assert(l * 4096 <= ptr + w - 1 < l * 4096 + 4096);
        if ptr >= 0x40_0000_0000 {
            assert(l == f);
        }
        if w < len && ptr < 0x40_0000_0000 {
            assert(0x40_0000_0000int == 0x400_0000int * 4096);
            assert(l == 0x3ff_ffff);
        }
    }
}

/// The number of bytes that the segments before the `k`-th one hold.
pub open spec fn bytes_before(ptr: int, k: int) -> int {
    seg_start_va(ptr, k) - ptr
}

/// Splits the `len` bytes from `ptr` into their parts in the frames that the
/// table named by `token` maps them to, page by page, up to where the walk
/// stops (see `walk_len`).
pub fn translated_byte_buffer(mem: &PhysMem, token: u64, ptr: u64, len: u64) -> (v: Vec<UserSegment>)
    requires
        mem.wf(),
        in_bounds(*mem, token & PPN_MASK),
        ptr + len < 0x80_0000_0000,
        range_mapped(*mem, token & PPN_MASK, ptr as int, walk_len(ptr as int, len as int)),
    ensures
        v@ == user_segments(*mem, token & PPN_MASK, ptr as int, walk_len(ptr as int, len as int)),
{
    let page_table = PageTable::from_token(token);
    let ghost root = token & PPN_MASK;
    let ghost wl = walk_len(ptr as int, len as int);
    let ghost n = n_pages(ptr as int, wl);
    proof {
        lemma_walk_len(ptr as int, len as int);
    }
    let mut start = ptr;
    let end = ptr + len;
    let mut v: Vec<UserSegment> = Vec::new();
    let ghost mut k: int = 0;
    while start < end
        invariant
            mem.wf(),
            page_table.root() == root,
            in_bounds(*mem, root),
            end == ptr + len,
            end < 0x80_0000_0000,
            wl == walk_len(ptr as int, len as int),
            0 <= wl <= len,
            len > 0 ==> wl > 0,
            wl < len ==> ptr + wl >= 0x40_0000_0000,
            wl < len ==> ptr + wl == (first_page(ptr as int) + n) * 4096,
            n > 1 ==> ptr + wl <= 0x40_0000_0000,
            range_mapped(*mem, root, ptr as int, wl),
            n == n_pages(ptr as int, wl),
            0 <= k <= n,
            k < n ==> start == seg_start_va(ptr as int, k),
            k == n ==> start >= end,
            v@ == user_segments(*mem, root, ptr as int, wl).take(k),
        decreases n - k,
    {
        proof {
            if k == n {
                assert(false);
            }
            lemma_segment_bounds(ptr as int, wl, k);
        }
        let start_va = VirtAddr::from_u64(start);
        let mut vpn = start_va.floor();
        proof {
            assert(vpn.0 == first_page(ptr as int) + k);
            assert((translate_spec(*mem, root, (first_page(ptr as int) + k) as u64)) is Some);
        }
        let ppn = page_table.translate(mem, vpn).unwrap().ppn();
        vpn.step();
        let mut end_va: VirtAddr = vpn.to_addr();
        end_va = end_va.min(VirtAddr::from_u64(end));
        proof {
            assert(end_va.0 == seg_end_va(ptr as int, wl, k));
        }
        let seg = if end_va.page_offset() == 0 {
            UserSegment { ppn, start: start_va.page_offset() as usize, end: PAGE_SIZE as usize }
        } else {
            UserSegment {
                ppn,
                start: start_va.page_offset() as usize,
                end: end_va.page_offset() as usize,
            }
        };
        proof {
            let segs = user_segments(*mem, root, ptr as int, wl);
            assert(seg == segs[k]);
            assert(segs.take(k + 1) =~= segs.take(k).push(segs[k]));
        }
        v.push(seg);
        start = end_va.to_u64();
        proof {
            k = k + 1;
        }
    }
    proof {
        if k < n {
            lemma_segment_bounds(ptr as int, wl, k);
        }
        assert(user_segments(*mem, root, ptr as int, wl).take(n) =~= user_segments(*mem, root, ptr as int, wl));
    }
    v
}

/// Addresses with any of these bits set are not user addresses.
pub const USER_ADDR_CHECK_MASK: u64 = 0xffff_8000_0000_0000;

/// The flags that `copy_to_user` asks of the pages it writes: R, W and U.
pub open spec fn copy_flags() -> u8 {
    22
}

/// The flags that `read_user` asks of the pages it reads: R and U.
pub open spec fn read_flags() -> u8 {
    18
}

/// The memory after storing the first `k` bytes of `data` at user address `ptr`,
/// located through the mappings of `mem`.
pub open spec fn store_user(mem: PhysMem, root: u64, ptr: int, data: Seq<u8>, k: int) -> Seq<u8>
    decreases k,
{
    if k <= 0 {
        mem.bytes@
    } else {
        store_user(mem, root, ptr, data, k - 1).update(user_pa(mem, root, ptr + k - 1), data[k - 1])
    }
}

/// Every page of a checked range reaches a leaf entry.
pub proof fn lemma_allows_mapped(mem: PhysMem, root: u64, ptr: int, len: int, flags: u8)
    requires
        0 <= ptr,
        0 <= len,
        range_allows(mem, root, ptr, len, flags),
    ensures
        range_mapped(mem, root, ptr, len),
{
    assert forall|k: int| 0 <= k < n_pages(ptr, len) implies (#[trigger] translate_spec(mem, root, (first_page(ptr) + k) as u64)) is Some by {
        let v = ptr / 4096 + k;
        assert(page_allows(mem, root, v, flags));
    }
}

proof fn lemma_flag_consts()
    ensures
        (2u8 | 4u8) | 16u8 == 22u8,
        2u8 | 16u8 == 18u8,
{
    assert((2u8 | 4u8) | 16u8 == 22u8 && 2u8 | 16u8 == 18u8) by (bit_vector);
}

/// Whether every page from the one of `start` to the one of `start + len - 1`
/// is valid with all of `flags`.
pub fn check_user_range(mem: &PhysMem, token: u64, start: u64, len: u64, flags: PTEFlags) -> (r: bool)
    requires
        mem.wf(),
        in_bounds(*mem, token & PPN_MASK),
        1 <= start + len,
        start + len - 1 <= u64::MAX,
    ensures
        r == range_allows(*mem, token & PPN_MASK, start as int, len as int, flags.bits),
{
    let page_table = PageTable::from_token(token);
    let ghost root = token & PPN_MASK;
    let mut current = VirtAddr(start).floor();
    let last = if len > 0 {
        start + (len - 1)
    } else {
        start - 1
    };
    let end = last / PAGE_SIZE + 1;
    let rlen: u64 = end - start / PAGE_SIZE;
    let mut i: u64 = 0;
    while i < rlen
        invariant
            mem.wf(),
            page_table.root() == root,
            root == token & PPN_MASK,
            in_bounds(*mem, root),
            rlen == checked_pages(start as int, len as int),
            i <= rlen,
            current.0 == (start as int) / 4096 + i,
            forall|v: int| (start as int) / 4096 <= v < (start as int) / 4096 + i ==> #[trigger] page_allows(*mem, root, v, flags.bits),
        decreases rlen - i,
    {
        let allowed = match page_table.translate(mem, current) {
            Some(pte) => pte.is_valid() && pte.flags().intersection(flags) == flags,
            None => false,
        };
        if !allowed {
            proof {
                let v = (start as int) / 4096 + i;
                assert(!page_allows(*mem, root, v, flags.bits));
                assert((start as int) / 4096 <= v < (start as int) / 4096 + checked_pages(start as int, len as int));
            }
            return false;
        }
        current.step();
        i = i + 1;
    }
    true
}

/// Writes `data` at user address `user_ptr` of the address space named by
/// `token`. When some page of the range is not valid, readable, writable and
/// accessible to the user, nothing is written and the result is -1. Otherwise
/// the bytes that the page walk covers (see `walk_len`) are written, and the
/// result is 0 when that is all of `data`, -1 when the range reaches past the
/// lower half of the address space.
pub fn copy_to_user(mem: &mut PhysMem, token: u64, user_ptr: u64, data: &Vec<u8>) -> (r: isize)
    requires
        old(mem).wf(),
        user_ptr & USER_ADDR_CHECK_MASK == 0 ==> in_bounds(*old(mem), token & PPN_MASK),
        user_ptr & USER_ADDR_CHECK_MASK == 0 ==> 1 <= user_ptr + data@.len() && user_ptr + data@.len() - 1 <= u64::MAX,
        user_ptr & USER_ADDR_CHECK_MASK == 0 && range_allows(*old(mem), token & PPN_MASK, user_ptr as int, data@.len() as int, copy_flags()) ==> {
            &&& user_ptr + data@.len() < 0x80_0000_0000
            &&& range_in_mem(
                *old(mem),
                token & PPN_MASK,
                user_ptr as int,
                walk_len(user_ptr as int, data@.len() as int),
            )
        },
    ensures
        final(mem).wf(),
        final(mem).base_ppn == old(mem).base_ppn,
        final(mem).n_frames == old(mem).n_frames,
        ({
            let ok = user_ptr & USER_ADDR_CHECK_MASK == 0 && range_allows(
                *old(mem),
                token & PPN_MASK,
                user_ptr as int,
                data@.len() as int,
                copy_flags(),
            );
            let w = walk_len(user_ptr as int, data@.len() as int);
            &&& r == if ok && w == data@.len() { 0 } else { -1 }
            &&& ok ==> final(mem).bytes@ == store_user(*old(mem), token & PPN_MASK, user_ptr as int, data@, w)
            &&& !ok ==> final(mem).bytes@ == old(mem).bytes@
        }),
{
    let ghost root = token & PPN_MASK;
    let ghost m0 = *mem;
    let len = data.len() as u64;
    proof {
        lemma_flag_consts();
    }
    if (user_ptr & USER_ADDR_CHECK_MASK) != 0 || !check_user_range(
        mem,
        token,
        user_ptr,
        len,
        PTEFlags::R().union(PTEFlags::W()).union(PTEFlags::U()),
    ) {
        return -1;
    }
    let ghost wl = walk_len(user_ptr as int, len as int);
    proof {
        lemma_walk_len(user_ptr as int, len as int);
        lemma_allows_mapped(m0, root, user_ptr as int, len as int, copy_flags());
        assert forall|k: int| 0 <= k < n_pages(user_ptr as int, wl) implies (#[trigger] translate_spec(
            m0,
            root,
            (first_page(user_ptr as int) + k) as u64,
        )) is Some by {
            assert(n_pages(user_ptr as int, wl) <= n_pages(user_ptr as int, len as int));
        }
    }
    let segs = translated_byte_buffer(mem, token, user_ptr, len);
    let ghost n = n_pages(user_ptr as int, wl);
    let mut copied: usize = 0;
    let mut k: usize = 0;
    while k < segs.len()
        invariant
            mem.wf(),
            mem.base_ppn == m0.base_ppn,
            mem.n_frames == m0.n_frames,
            m0.wf(),
            segs@ == user_segments(m0, root, user_ptr as int, wl),
            len == data@.len(),
            data@.len() <= usize::MAX,
            0 <= wl <= len,
            len > 0 ==> wl > 0,
            n == segs@.len(),
            n == n_pages(user_ptr as int, wl),
            user_ptr + len < 0x80_0000_0000,
            range_in_mem(m0, root, user_ptr as int, wl),
            k <= n,
            k < n ==> copied == bytes_before(user_ptr as int, k as int),
            k == n ==> copied == wl,
            mem.bytes@ == store_user(m0, root, user_ptr as int, data@, copied as int),
        decreases n - k,
    {
        let seg = segs[k];
        proof {
            lemma_segment_bounds(user_ptr as int, wl, k as int);
            assert(mem.has_frame(seg.ppn.0));
        }
        let seg_len = seg.end - seg.start;
        let left = data.len() - copied;
        let copy_len = if seg_len < left {
            seg_len
        } else {
            left
        };
        proof {
            assert(copy_len == seg_len);
        }
        let mut i: usize = 0;
        while i < copy_len
            invariant
                mem.wf(),
                mem.base_ppn == m0.base_ppn,
                mem.n_frames == m0.n_frames,
                m0.wf(),
                segs@ == user_segments(m0, root, user_ptr as int, wl),
                len == data@.len(),
                data@.len() <= usize::MAX,
                0 < wl <= len,
                k < n,
                n == n_pages(user_ptr as int, wl),
                seg == segs@[k as int],
                user_ptr + len < 0x80_0000_0000,
                copied == bytes_before(user_ptr as int, k as int),
                copy_len == seg.end - seg.start,
                seg.end <= 4096,
                copied + copy_len <= wl,
                mem.has_frame(seg.ppn.0),
                i <= copy_len,
                mem.bytes@ == store_user(m0, root, user_ptr as int, data@, copied + i),
            decreases copy_len - i,
        {
            proof {
                lemma_segment_bounds(user_ptr as int, wl, k as int);
                let va = user_ptr + copied + i;
                assert(va / 4096 == first_page(user_ptr as int) + k);
                assert(user_pa(m0, root, va) == m0.frame_addr(seg.ppn.0) + seg.start + i);
            }
            mem.write_byte(seg.ppn, seg.start + i, data[copied + i]);
            i = i + 1;
        }
        copied = copied + copy_len;
        proof {
            lemma_segment_bounds(user_ptr as int, wl, k as int);
        }
        k = k + 1;
    }
    if copied == data.len() {
        0
    } else {
        -1
    }
}

/// Reads `len` bytes at user address `user_ptr` of the address space named by
/// `token`: the bytes when every page is valid, readable and accessible to the
/// user, `Err(-1)` otherwise. A range that passes the check must be one that
/// the page walk covers whole (see `walk_len`): past where the walk stops, the
/// rest of the value would be read from nowhere.
pub fn read_user(mem: &PhysMem, token: u64, user_ptr: u64, len: usize) -> (r: Result<Vec<u8>, isize>)
    requires
        mem.wf(),
        user_ptr & USER_ADDR_CHECK_MASK == 0 ==> in_bounds(*mem, token & PPN_MASK),
        user_ptr & USER_ADDR_CHECK_MASK == 0 ==> 1 <= user_ptr + len && user_ptr + len - 1 <= u64::MAX,
        user_ptr & USER_ADDR_CHECK_MASK == 0 && range_allows(*mem, token & PPN_MASK, user_ptr as int, len as int, read_flags()) ==> {
            &&& user_ptr + len < 0x80_0000_0000
            &&& walk_len(user_ptr as int, len as int) == len
            &&& range_in_mem(*mem, token & PPN_MASK, user_ptr as int, len as int)
        },
    ensures
        ({
            let ok = user_ptr & USER_ADDR_CHECK_MASK == 0 && range_allows(
                *mem,
                token & PPN_MASK,
                user_ptr as int,
                len as int,
                read_flags(),
            );
            &&& !ok ==> (r matches Err(e) && e == -1)
            &&& ok ==> r is Ok
            &&& ok ==> r->Ok_0@.len() == len
            &&& ok ==> forall|i: int| 0 <= i < len ==> #[trigger] r->Ok_0@[i] == mem.bytes@[user_pa(*mem, token & PPN_MASK, user_ptr + i)]
        }),
{
    let ghost root = token & PPN_MASK;
    proof {
        lemma_flag_consts();
    }
    if (user_ptr & USER_ADDR_CHECK_MASK) != 0 || !check_user_range(
        mem,
        token,
        user_ptr,
        len as u64,
        PTEFlags::R().union(PTEFlags::U()),
    ) {
        return Err(-1);
    }
    proof {
        lemma_allows_mapped(*mem, root, user_ptr as int, len as int, read_flags());
    }
    let segs = translated_byte_buffer(mem, token, user_ptr, len as u64);
    let ghost n = n_pages(user_ptr as int, len as int);
    let mut data: Vec<u8> = Vec::new();
    let mut k: usize = 0;
    while k < segs.len()
        invariant
            mem.wf(),
            segs@ == user_segments(*mem, root, user_ptr as int, len as int),
            n == segs@.len(),
            user_ptr + len < 0x80_0000_0000,
            range_in_mem(*mem, root, user_ptr as int, len as int),
            k <= n,
            k < n ==> data@.len() == bytes_before(user_ptr as int, k as int),
            k == n ==> data@.len() == len,
            forall|i: int| 0 <= i < data@.len() ==> #[trigger] data@[i] == mem.bytes@[user_pa(*mem, root, user_ptr + i)],
        decreases n - k,
    {
        let seg = segs[k];
        proof {
            lemma_segment_bounds(user_ptr as int, len as int, k as int);
            assert(mem.has_frame(seg.ppn.0));
        }
        let seg_len = seg.end - seg.start;
        let left = len - data.len();
        let copy_len = if seg_len < left {
            seg_len
        } else {
            left
        };
        let ghost copied = data@.len();
        let mut i: usize = 0;
        while i < copy_len
            invariant
                mem.wf(),
                segs@ == user_segments(*mem, root, user_ptr as int, len as int),
                k < n,
                n == n_pages(user_ptr as int, len as int),
                seg == segs@[k as int],
                user_ptr + len < 0x80_0000_0000,
                copied == bytes_before(user_ptr as int, k as int),
                copy_len == seg.end - seg.start,
                seg.end <= 4096,
                mem.has_frame(seg.ppn.0),
                i <= copy_len,
                data@.len() == copied + i,
                forall|j: int| 0 <= j < data@.len() ==> #[trigger] data@[j] == mem.bytes@[user_pa(*mem, root, user_ptr + j)],
            decreases copy_len - i,
        {
            proof {
                lemma_segment_bounds(user_ptr as int, len as int, k as int);
                let va = user_ptr + copied + i;
                assert(va / 4096 == first_page(user_ptr as int) + k);
                assert(user_pa(*mem, root, va) == mem.frame_addr(seg.ppn.0) + seg.start + i);
            }
            let b = mem.read_byte(seg.ppn, seg.start + i);
            data.push(b);
            i = i + 1;
        }
        proof {
            lemma_segment_bounds(user_ptr as int, len as int, k as int);
        }
        k = k + 1;
    }
    Ok(data)
}

/// Storing bytes leaves every position that none of them goes to as it was.
proof fn lemma_store_user_other(mem: PhysMem, root: u64, ptr: int, data: Seq<u8>, k: int, b: int)
    requires
        0 <= k <= data.len(),
        forall|i: int| 0 <= i < k ==> 0 <= #[trigger] user_pa(mem, root, ptr + i) < mem.bytes@.len(),
        forall|i: int| 0 <= i < k ==> #[trigger] user_pa(mem, root, ptr + i) != b,
    ensures
        store_user(mem, root, ptr, data, k).len() == mem.bytes@.len(),
        0 <= b < mem.bytes@.len() ==> store_user(mem, root, ptr, data, k)[b] == mem.bytes@[b],
    decreases k,
{
    if k > 0 {
        lemma_store_user_other(mem, root, ptr, data, k - 1, b);
        assert(user_pa(mem, root, ptr + (k - 1)) != b);
    }
}

/// After storing bytes at distinct positions, each position holds its byte.
proof fn lemma_store_user_at(mem: PhysMem, root: u64, ptr: int, data: Seq<u8>, k: int, j: int)
    requires
        0 <= j < k <= data.len(),
        forall|i: int| 0 <= i < k ==> 0 <= #[trigger] user_pa(mem, root, ptr + i) < mem.bytes@.len(),
        forall|a: int, b: int|
            0 <= a < b < data.len() ==> #[trigger] user_pa(mem, root, ptr + a) != #[trigger] user_pa(
                mem,
                root,
                ptr + b,
            ),
    ensures
        store_user(mem, root, ptr, data, k)[user_pa(mem, root, ptr + j)] == data[j],
    decreases k,
{
    lemma_store_user_other(mem, root, ptr, data, k - 1, -1);
    if j < k - 1 {
        lemma_store_user_at(mem, root, ptr, data, k - 1, j);
        assert(user_pa(mem, root, ptr + j) != user_pa(mem, root, ptr + (k - 1)));
    }
}

/// What `copy_to_user` writes, `read_user` reads back: when the user pages of
/// the range lie in frames of the memory that hold no directory of the table,
/// and no two bytes of the range share a physical place, storing `data` leaves
/// every translation as it was, and each byte of the range then reads as the
/// byte of `data` stored there.
pub proof fn lemma_copy_then_read(mem: PhysMem, mem2: PhysMem, root: u64, ptr: int, data: Seq<u8>)
    requires
        mem.wf(),
        in_bounds(mem, root),
        0 <= ptr,
        forall|i: int|
            0 <= i < data.len() ==> (#[trigger] translate_spec(mem, root, ((ptr + i) / 4096) as u64)) is Some,
        forall|i: int|
            0 <= i < data.len() ==> mem.has_frame(#[trigger] user_pte_ppn(mem, root, ptr + i)) && not_table_frame(
                mem,
                root,
                user_pte_ppn(mem, root, ptr + i),
            ),
        forall|a: int, b: int|
            0 <= a < b < data.len() ==> #[trigger] user_pa(mem, root, ptr + a) != #[trigger] user_pa(
                mem,
                root,
                ptr + b,
            ),
        mem2.base_ppn == mem.base_ppn,
        mem2.n_frames == mem.n_frames,
        mem2.bytes@ == store_user(mem, root, ptr, data, data.len() as int),
    ensures
        mem2.wf(),
        forall|vpn: u64| #[trigger] translate_spec(mem2, root, vpn) == translate_spec(mem, root, vpn),
        forall|flags: u8| #[trigger] range_allows(mem2, root, ptr, data.len() as int, flags) == range_allows(
            mem,
            root,
            ptr,
            data.len() as int,
            flags,
        ),
        forall|i: int| 0 <= i < data.len() ==> #[trigger] mem2.bytes@[user_pa(mem2, root, ptr + i)] == data[i],
        in_bounds(mem2, root),
        forall|len: int| #[trigger] range_in_mem(mem, root, ptr, len) ==> range_in_mem(mem2, root, ptr, len),
{
    let n = data.len() as int;
    // Where each byte goes: within the frame of its page.
    assert forall|i: int| 0 <= i < n implies mem.frame_addr(#[trigger] user_pte_ppn(mem, root, ptr + i)) <= user_pa(
        mem,
        root,
        ptr + i,
    ) < mem.frame_addr(user_pte_ppn(mem, root, ptr + i)) + 4096 && user_pa(mem, root, ptr + i) < mem.bytes@.len() by {
        let q = user_pte_ppn(mem, root, ptr + i);
        assert(mem.has_frame(q));
    }
    assert forall|i: int| 0 <= i < n implies 0 <= #[trigger] user_pa(mem, root, ptr + i) < mem.bytes@.len() by {
        assert(mem.has_frame(user_pte_ppn(mem, root, ptr + i)));
    }
    lemma_store_user_other(mem, root, ptr, data, n, -1);
    assert(mem2.wf());
    // The directories are untouched.
    assert forall|p: u64, k: int|
        #![trigger mem2.pte_at(p, k)]
        mem.has_frame(p) && 0 <= k < 512 && !not_table_frame(mem, root, p) implies mem2.pte_at(p, k)
            == mem.pte_at(p, k) by {
        let a = mem.frame_addr(p) + k * 8;
        assert forall|x: int| a <= x < a + 8 implies mem2.bytes@[x] == mem.bytes@[x] by {
            assert forall|i: int| 0 <= i < n implies #[trigger] user_pa(mem, root, ptr + i) != x by {
                let q = user_pte_ppn(mem, root, ptr + i);
                assert(q != p);
            }
            lemma_store_user_other(mem, root, ptr, data, n, x);
        }
    }
    lemma_table_frames_unchanged(mem, mem2, root);
    assert forall|flags: u8| #[trigger] range_allows(mem2, root, ptr, n, flags) == range_allows(
        mem,
        root,
        ptr,
        n,
        flags,
    ) by {
        assert forall|v: int| #[trigger] page_allows(mem2, root, v, flags) == page_allows(mem, root, v, flags) by {
            assert(translate_spec(mem2, root, v as u64) == translate_spec(mem, root, v as u64));
        }
        if range_allows(mem, root, ptr, n, flags) {
            assert forall|v: int|
                ptr / 4096 <= v < ptr / 4096 + checked_pages(ptr, n) implies #[trigger] page_allows(mem2, root, v, flags) by {
                assert(page_allows(mem, root, v, flags));
            }
        }
        if range_allows(mem2, root, ptr, n, flags) {
            assert forall|v: int|
                ptr / 4096 <= v < ptr / 4096 + checked_pages(ptr, n) implies #[trigger] page_allows(mem, root, v, flags) by {
                assert(page_allows(mem2, root, v, flags));
            }
        }
    }
    assert forall|i: int| 0 <= i < n implies #[trigger] mem2.bytes@[user_pa(mem2, root, ptr + i)] == data[i] by {
        assert(translate_spec(mem2, root, ((ptr + i) / 4096) as u64) == translate_spec(mem, root, ((ptr + i) / 4096) as u64));
        assert(user_pa(mem2, root, ptr + i) == user_pa(mem, root, ptr + i));
        lemma_store_user_at(mem, root, ptr, data, n, i);
    }
}

/// A range whose pages allow what `copy_to_user` asks allows what
/// `read_user` asks.
pub proof fn lemma_copy_flags_allow_read(mem: PhysMem, root: u64, ptr: int, len: int)
    requires
        range_allows(mem, root, ptr, len, copy_flags()),
    ensures
        range_allows(mem, root, ptr, len, read_flags()),
{
    assert forall|v: int|
        ptr / 4096 <= v < ptr / 4096 + checked_pages(ptr, len) implies #[trigger] page_allows(
            mem,
            root,
            v,
            read_flags(),
        ) by {
        assert(page_allows(mem, root, v, copy_flags()));
        let f = translate_spec(mem, root, v as u64)->Some_0.spec_flags();
        assert(f & 22u8 == 22u8 ==> f & 18u8 == 18u8) by (bit_vector);
    }
}

/// Read after copy: when the bytes `got` are what `read_user` gives for the
/// range in the memory that storing `data` produced (each the byte at its
/// place), they are `data`, under the conditions of `lemma_copy_then_read`.
pub proof fn lemma_read_after_copy(
    mem: PhysMem,
    mem2: PhysMem,
    root: u64,
    ptr: int,
    data: Seq<u8>,
    got: Seq<u8>,
)
    requires
        mem.wf(),
        in_bounds(mem, root),
        0 <= ptr,
        forall|i: int|
            0 <= i < data.len() ==> (#[trigger] translate_spec(mem, root, ((ptr + i) / 4096) as u64)) is Some,
        forall|i: int|
            0 <= i < data.len() ==> mem.has_frame(#[trigger] user_pte_ppn(mem, root, ptr + i)) && not_table_frame(
                mem,
                root,
                user_pte_ppn(mem, root, ptr + i),
            ),
        forall|a: int, b: int|
            0 <= a < b < data.len() ==> #[trigger] user_pa(mem, root, ptr + a) != #[trigger] user_pa(
                mem,
                root,
                ptr + b,
            ),
        mem2.base_ppn == mem.base_ppn,
        mem2.n_frames == mem.n_frames,
        mem2.bytes@ == store_user(mem, root, ptr, data, data.len() as int),
        got.len() == data.len(),
        forall|i: int| 0 <= i < got.len() ==> #[trigger] got[i] == mem2.bytes@[user_pa(mem2, root, ptr + i)],
    ensures
        got == data,
{
    lemma_copy_then_read(mem, mem2, root, ptr, data);
    assert(got =~= data);
}

} // verus!
