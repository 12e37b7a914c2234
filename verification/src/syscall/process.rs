//! Process management system calls.
use vstd::prelude::*;
use crate::mm::address::{PhysPageNum, VirtAddr, VirtPageNum, PAGE_SIZE, VPN_MASK, vpn_index};
use crate::mm::machine::Machine;
use crate::mm::address::PPN_MASK;
use crate::mm::phys_mem::{PhysMem, byte_of, frame_unchanged, frame_zeroed, lemma_frame_place};
use crate::mm::user_mem::{copy_flags, copy_to_user, range_allows, range_in_mem, store_user, walk_len, USER_ADDR_CHECK_MASK};
use crate::mm::page_table::PageTable;
use crate::mm::pt_spec::{dirs1, dirs2, dirs_needed, frames_needed, has_dir1, in_bounds, lookup, mappings, not_table_frame, same_but_frame, lemma_frames_needed_dirs, lemma_other_frame, tree};
use crate::mm::pte::{PTEFlags, PageTableEntry};

verus! {

/// A time of day: seconds and microseconds.
#[derive(Clone, Copy, Debug, PartialEq, Eq, Structural)]
pub struct TimeVal {
    pub sec: usize,
    pub usec: usize,
}

/// The 16 bytes of a `TimeVal` of `sec` seconds and `usec` microseconds, each
/// field as a little-endian 64-bit word.
pub open spec fn timeval_bytes(sec: u64, usec: u64) -> Seq<u8> {
    Seq::new(16, |i: int| if i < 8 { byte_of(sec, i) } else { byte_of(usec, i - 8) })
}

/// The 16 bytes that `sys_get_time` writes for the time `us` read back, as
/// two little-endian 64-bit words, as `us / 1_000_000` seconds and then
/// `us % 1_000_000` microseconds.
pub proof fn lemma_timeval_bytes_read_back(us: u64)
    ensures
        ({
            let b = timeval_bytes((us / 1_000_000) as u64, (us % 1_000_000) as u64);
            &&& b.len() == 16
            &&& (b[0] as u64) | ((b[1] as u64) << 8u64) | ((b[2] as u64) << 16u64) | ((b[3] as u64) << 24u64)
                | ((b[4] as u64) << 32u64) | ((b[5] as u64) << 40u64) | ((b[6] as u64) << 48u64) | ((
            b[7] as u64) << 56u64) == us / 1_000_000
            &&& (b[8] as u64) | ((b[9] as u64) << 8u64) | ((b[10] as u64) << 16u64) | ((b[11] as u64)
                << 24u64) | ((b[12] as u64) << 32u64) | ((b[13] as u64) << 40u64) | ((b[14] as u64)
                << 48u64) | ((b[15] as u64) << 56u64) == us % 1_000_000
        }),
{
    let sec = (us / 1_000_000) as u64;
    let usec = (us % 1_000_000) as u64;
    crate::mm::phys_mem::lemma_le_word(sec);
    crate::mm::phys_mem::lemma_le_word(usec);
}

/// The bytes of a `TimeVal` of `sec` seconds and `usec` microseconds.
fn timeval_to_bytes(sec: u64, usec: u64) -> (v: Vec<u8>)
    ensures
        v@ == timeval_bytes(sec, usec),
{
    let mut v: Vec<u8> = Vec::new();
    v.push((sec & 0xff) as u8);
    v.push(((sec >> 8) & 0xff) as u8);
    v.push(((sec >> 16) & 0xff) as u8);
    v.push(((sec >> 24) & 0xff) as u8);
    v.push(((sec >> 32) & 0xff) as u8);
    v.push(((sec >> 40) & 0xff) as u8);
    v.push(((sec >> 48) & 0xff) as u8);
    v.push(((sec >> 56) & 0xff) as u8);
    v.push((usec & 0xff) as u8);
    v.push(((usec >> 8) & 0xff) as u8);
    v.push(((usec >> 16) & 0xff) as u8);
    v.push(((usec >> 24) & 0xff) as u8);
    v.push(((usec >> 32) & 0xff) as u8);
    v.push(((usec >> 40) & 0xff) as u8);
    v.push(((usec >> 48) & 0xff) as u8);
    v.push(((usec >> 56) & 0xff) as u8);
    proof {
        assert(v@ =~= timeval_bytes(sec, usec));
    }
    v
}

/// Writes the time `us` (in microseconds) as a `TimeVal` of seconds and
/// microseconds at user address `ts` of the address space named by `token`,
/// as `copy_to_user` writes its 16 bytes, which may lie on two pages. The
/// result is that of `copy_to_user`: 0 when written, -1 otherwise.
pub fn sys_get_time(mem: &mut PhysMem, token: u64, ts: u64, us: u64, _tz: usize) -> (r: isize)
    requires
        old(mem).wf(),
        ts & USER_ADDR_CHECK_MASK == 0 ==> in_bounds(*old(mem), token & PPN_MASK),
        ts & USER_ADDR_CHECK_MASK == 0 ==> ts + 15 <= u64::MAX,
        ts & USER_ADDR_CHECK_MASK == 0 && range_allows(*old(mem), token & PPN_MASK, ts as int, 16, copy_flags()) ==> {
            &&& ts + 16 < 0x80_0000_0000
            &&& range_in_mem(*old(mem), token & PPN_MASK, ts as int, walk_len(ts as int, 16))
        },
    ensures
        final(mem).wf(),
        final(mem).base_ppn == old(mem).base_ppn,
        final(mem).n_frames == old(mem).n_frames,
        ({
            let ok = ts & USER_ADDR_CHECK_MASK == 0 && range_allows(
                *old(mem),
                token & PPN_MASK,
                ts as int,
                16,
                copy_flags(),
            );
            let w = walk_len(ts as int, 16);
            let data = timeval_bytes((us / 1_000_000) as u64, (us % 1_000_000) as u64);
            &&& r == if ok && w == 16 { 0 } else { -1 }
            &&& ok ==> final(mem).bytes@ == store_user(*old(mem), token & PPN_MASK, ts as int, data, w)
            &&& !ok ==> final(mem).bytes@ == old(mem).bytes@
        }),
{
    let data = timeval_to_bytes(us / 1_000_000, us % 1_000_000);
    copy_to_user(mem, token, ts, &data)
}

/// Tracing is not provided: the call always fails with -1.
pub fn sys_trace(_trace_request: usize, _id: usize, _data: usize) -> (r: isize)
    ensures
        r == -1,
{
    -1
}

/// The result of changing the program break, given what the change gave: the
/// old break, or -1 when the change was refused.
pub fn sys_sbrk(old_brk: Option<usize>) -> (r: isize)
    ensures
        r == match old_brk {
            Some(b) => b as isize,
            None => -1isize,
        },
{
    if let Some(old_brk) = old_brk {
        old_brk as isize
    } else {
        -1
    }
}

/// The arguments of `sys_mmap` ask for a page-aligned, non-empty range with
/// some of the R, W, X permission bits and no other bit.
pub open spec fn mmap_args_ok(start: int, len: int, port: int) -> bool {
    len != 0 && port != 0 && start % 4096 == 0 && port <= 7
}

/// The number of pages of the `len` bytes from `start`.
pub open spec fn span_pages(start: int, len: int) -> int {
    (start + len - 1) / 4096 + 1 - start / 4096
}

/// The pages, by their 27-bit number, that `sys_mmap` maps when it maps `n`
/// pages from `vpn` on, one after the other, while the pages `keys` are
/// mapped: it stops at the first page already mapped, and the flag tells
/// whether it mapped all `n`.
pub open spec fn mmap_pages(keys: Set<u64>, vpn: int, n: int) -> (Seq<u64>, bool)
    decreases n,
{
    if n <= 0 {
        (Seq::empty(), true)
    } else if keys.contains((vpn as u64) & VPN_MASK) {
        (Seq::empty(), false)
    } else {
        let rest = mmap_pages(keys.insert((vpn as u64) & VPN_MASK), vpn + 1, n - 1);
        (seq![(vpn as u64) & VPN_MASK] + rest.0, rest.1)
    }
}

/// The mappings `v1` are the mappings `v0` with the pages `ks` added, mapped
/// with `flags` to distinct frames that were free in `m0`, are taken in `m1`
/// and belong to `owned`.
pub open spec fn mmap_done(
    v0: Map<u64, PageTableEntry>,
    v1: Map<u64, PageTableEntry>,
    ks: Seq<u64>,
    flags: u8,
    m0: Machine,
    m1: Machine,
    owned: Seq<PhysPageNum>,
) -> bool {
    &&& forall|k: u64| #[trigger] v1.dom().contains(k) <==> v0.dom().contains(k) || ks.contains(k)
    &&& forall|k: u64| v0.dom().contains(k) ==> #[trigger] v1[k] == v0[k]
    &&& forall|j: int|
        0 <= j < ks.len() ==> #[trigger] v1[ks[j]] == PageTableEntry::spec_new(v1[ks[j]].spec_ppn(), flags)
    &&& forall|j: int|
        0 <= j < ks.len() ==> m0.frame_allocator.is_free(#[trigger] v1[ks[j]].spec_ppn())
            && !m1.frame_allocator.is_free(v1[ks[j]].spec_ppn())
            && owned.contains(PhysPageNum(v1[ks[j]].spec_ppn()))
    &&& forall|i: int, j: int|
        0 <= i < j < ks.len() ==> #[trigger] v1[ks[i]].spec_ppn() != #[trigger] v1[ks[j]].spec_ppn()
}

/// Unmaps `n` pages from `vpn` on, one after the other, stopping at the first
/// page not mapped; the flag tells whether all were unmapped.
pub open spec fn unmap_range(view: Map<u64, PageTableEntry>, vpn: int, n: int) -> (Map<u64, PageTableEntry>, bool)
    decreases n,
{
    if n <= 0 {
        (view, true)
    } else if !view.contains_key((vpn as u64) & VPN_MASK) {
        (view, false)
    } else {
        unmap_range(view.remove((vpn as u64) & VPN_MASK), vpn + 1, n - 1)
    }
}

/// How many frames `sys_mmap` takes while it maps `n` pages from `vpn` on,
/// when the table has the directories `d1` and `d2` and maps the pages
/// `keys`: for each page one frame and the directories its walk lacks, and one
/// frame, given back at once, for the first page already mapped.
pub open spec fn mmap_frames(d1: Set<int>, d2: Set<(int, int)>, keys: Set<u64>, vpn: int, n: int) -> nat
    decreases n,
{
    if n <= 0 {
        0
    } else if keys.contains((vpn as u64) & VPN_MASK) {
        1
    } else {
        let v = vpn as u64;
        1 + dirs_needed(d1, d2, v) + mmap_frames(
            d1.insert(vpn_index(v, 0) as int),
            d2.insert((vpn_index(v, 0) as int, vpn_index(v, 1) as int)),
            keys.insert(v & VPN_MASK),
            vpn + 1,
            n - 1,
        )
    }
}

/// Whether `x` is an element of `v`.
fn vec_contains(v: &Vec<u64>, x: u64) -> (r: bool)
    ensures
        r == v@.contains(x),
{
    let mut i: usize = 0;
    while i < v.len()
        invariant
            i <= v@.len(),
            forall|j: int| 0 <= j < i ==> v@[j] != x,
        decreases v@.len() - i,
    {
        if v[i] == x {
            assert(v@[i as int] == x);
            return true;
        }
        i = i + 1;
    }
    false
}

/// How many free frames `sys_mmap` needs to map the pages of the `len` bytes
/// from `start`, for the table with root `pt` in `mem` (see `mmap_frames`).
pub fn count_mmap_frames(pt: &PageTable, mem: &PhysMem, start: usize, len: usize) -> (r: u64)
    requires
        mem.wf(),
        in_bounds(*mem, pt.root()),
        len != 0,
        start + len - 1 <= usize::MAX,
    ensures
        r == mmap_frames(
            dirs1(*mem, pt.root()),
            dirs2(*mem, pt.root()),
            mappings(*mem, pt.root()).dom(),
            start as int / 4096,
            span_pages(start as int, len as int),
        ),
{
    let ghost root = pt.root();
    let root_ppn = pt.root_ppn();
    let first = (start / (PAGE_SIZE as usize)) as u64;
    let end = (start + (len - 1)) / (PAGE_SIZE as usize) + 1;
    let npages = (end - start / (PAGE_SIZE as usize)) as u64;
    let ghost total = mmap_frames(
        dirs1(*mem, root),
        dirs2(*mem, root),
        mappings(*mem, root).dom(),
        start as int / 4096,
        span_pages(start as int, len as int),
    );
    let ghost mut d1 = dirs1(*mem, root);
    let ghost mut d2 = dirs2(*mem, root);
    let ghost mut keys = mappings(*mem, root).dom();
    let mut added1: Vec<u64> = Vec::new();
    let mut added2: Vec<u64> = Vec::new();
    let mut added_keys: Vec<u64> = Vec::new();
    let mut acc: u64 = 0;
    let mut i: u64 = 0;
    while i < npages
        invariant
            mem.wf(),
            in_bounds(*mem, root),
            root == pt.root(),
            root_ppn.0 == root,
            first == start as int / 4096,
            npages == span_pages(start as int, len as int),
            first + npages <= 0x10_0000_0000_0000,
            i <= npages,
            acc <= 3 * i,
            total == mmap_frames(
                dirs1(*mem, root),
                dirs2(*mem, root),
                mappings(*mem, root).dom(),
                start as int / 4096,
                span_pages(start as int, len as int),
            ),
            total == acc + mmap_frames(d1, d2, keys, first + i, npages - i),
            forall|x: int| #[trigger] d1.contains(x) <==> dirs1(*mem, root).contains(x) || (0 <= x
                < 512 && added1@.contains(x as u64)),
            forall|q: (int, int)| #[trigger] d2.contains(q) <==> dirs2(*mem, root).contains(q) || (0
                <= q.0 < 512 && 0 <= q.1 < 512 && added2@.contains((q.0 * 512 + q.1) as u64)),
            forall|x: u64| #[trigger] keys.contains(x) <==> mappings(*mem, root).dom().contains(x)
                || added_keys@.contains(x),
        decreases npages - i,
    {
        let vpn = first + i;
        let key = vpn & VPN_MASK;
        proof {
            crate::mm::address::lemma_vpn_index_bounds(vpn);
            crate::mm::pt_spec::lemma_mappings_key(*mem, root, vpn);
            assert(((first + i) as u64) == vpn);
        }
        let mapped_before = match pt.translate(mem, VirtPageNum(vpn)) {
            Some(e) => e.is_valid(),
            None => false,
        };
        if mapped_before || vec_contains(&added_keys, key) {
            proof {
                assert(keys.contains(key));
                assert(mmap_frames(d1, d2, keys, first + i, npages - i) == 1);
            }
            return acc + 1;
        }
        let idxs = VirtPageNum(vpn).indexes();
        let i0 = idxs[0];
        let i1 = idxs[1];
        let e0 = mem.read_pte(root_ppn, i0);
        let in_mem1 = e0.is_valid();
        let in_mem2 = if in_mem1 {
            proof {
                assert(has_dir1(*mem, root, i0 as int));
            }
            mem.read_pte(e0.ppn(), i1).is_valid()
        } else {
            false
        };
        let pair = (i0 as u64) * 512 + (i1 as u64);
        let has1 = in_mem1 || vec_contains(&added1, i0 as u64);
        let has2 = in_mem2 || vec_contains(&added2, pair);
        proof {
            assert(dirs1(*mem, root).contains(i0 as int) == in_mem1);
            assert(dirs2(*mem, root).contains((i0 as int, i1 as int)) == in_mem2);
            assert(has1 == d1.contains(i0 as int));
            assert(has2 == d2.contains((i0 as int, i1 as int)));
        }
        let need: u64 = if !has1 {
            2
        } else if !has2 {
            1
        } else {
            0
        };
        proof {
            assert(need == dirs_needed(d1, d2, vpn));
            assert(mmap_frames(d1, d2, keys, first + i, npages - i) == 1 + need + mmap_frames(
                d1.insert(i0 as int),
                d2.insert((i0 as int, i1 as int)),
                keys.insert(key),
                first + i + 1,
                npages - i - 1,
            ));
        }
        acc = acc + 1 + need;
        let ghost a1 = added1@;
        let ghost a2 = added2@;
        let ghost ak = added_keys@;
        added1.push(i0 as u64);
        added2.push(pair);
        added_keys.push(key);
        proof {
            d1 = d1.insert(i0 as int);
            d2 = d2.insert((i0 as int, i1 as int));
            keys = keys.insert(key);
            assert forall|x: int| #[trigger] d1.contains(x) <==> dirs1(*mem, root).contains(x) || (0
                <= x < 512 && added1@.contains(x as u64)) by {
                if 0 <= x < 512 && added1@.contains(x as u64) && x != i0 {
                    let j = choose|j: int| 0 <= j < added1@.len() && added1@[j] == x as u64;
                    assert(j < a1.len());
                    assert(a1[j] == x as u64);
                }
                if 0 <= x < 512 && a1.contains(x as u64) {
                    let j = choose|j: int| 0 <= j < a1.len() && a1[j] == x as u64;
                    assert(added1@[j] == x as u64);
                }
                if x == i0 {
                    assert(added1@[added1@.len() - 1] == i0 as u64);
                }
            }
            assert forall|q: (int, int)| #[trigger] d2.contains(q) <==> dirs2(*mem, root).contains(q)
                || (0 <= q.0 < 512 && 0 <= q.1 < 512 && added2@.contains((q.0 * 512 + q.1) as u64)) by {
                if 0 <= q.0 < 512 && 0 <= q.1 < 512 && added2@.contains((q.0 * 512 + q.1) as u64) && q != (i0 as int, i1 as int) {
                    assert((q.0 * 512 + q.1) as u64 != pair);
                    let j = choose|j: int| 0 <= j < added2@.len() && added2@[j] == (q.0 * 512 + q.1) as u64;
                    assert(j < a2.len());
                    assert(a2[j] == (q.0 * 512 + q.1) as u64);
                }
                if 0 <= q.0 < 512 && 0 <= q.1 < 512 && a2.contains((q.0 * 512 + q.1) as u64) {
                    let j = choose|j: int| 0 <= j < a2.len() && a2[j] == (q.0 * 512 + q.1) as u64;
                    assert(added2@[j] == (q.0 * 512 + q.1) as u64);
                }
                if q == (i0 as int, i1 as int) {
                    assert(added2@[added2@.len() - 1] == pair);
                }
            }
            assert forall|x: u64| #[trigger] keys.contains(x) <==> mappings(*mem, root).dom().contains(x)
                || added_keys@.contains(x) by {
                if added_keys@.contains(x) && x != key {
                    let j = choose|j: int| 0 <= j < added_keys@.len() && added_keys@[j] == x;
                    assert(j < ak.len());
                    assert(ak[j] == x);
                }
                if ak.contains(x) {
                    let j = choose|j: int| 0 <= j < ak.len() && ak[j] == x;
                    assert(added_keys@[j] == x);
                }
                if x == key {
                    assert(added_keys@[added_keys@.len() - 1] == key);
                }
            }
        }
        i = i + 1;
    }
    acc
}

/// The flags that `sys_mmap` gives the pages it maps for `port`: the
/// permission bits shifted past the valid bit, with U and V.
pub open spec fn mmap_flags(port: int) -> u8 {
    (((port * 2) as u8) | 16u8) | 1u8
}

/// The flag byte of an entry that `sys_mmap` makes for `port` (one to seven):
/// bits R, W and X are bits 0, 1 and 2 of `port`, and U and V are set.
proof fn lemma_mmap_flag_bytes()
    ensures
        forall|port: usize, ppn: u64|
            1 <= port <= 7 ==> #[trigger] PageTableEntry::spec_new(ppn, mmap_flags(port as int)).bits & 0xff
                == ((port as u64) << 1u64) | 0x11,
{
    assert forall|port: usize, ppn: u64|
        1 <= port <= 7 implies #[trigger] PageTableEntry::spec_new(ppn, mmap_flags(port as int)).bits & 0xff
            == ((port as u64) << 1u64) | 0x11 by {
        let p: u64 = port as u64;
        let f: u8 = mmap_flags(port as int);
        assert(f == (((p * 2) as u8) | 16u8) | 1u8);
        assert(1 <= p <= 7 ==> ((ppn << 10u64) | (((((p * 2) as u8) | 16u8) | 1u8) as u64)) & 0xffu64
            == (p << 1u64) | 0x11u64) by (bit_vector);
    }
}

/// A page that `sys_mmap` maps for `port` gets the permissions of `port`:
/// readable exactly when bit 0 of `port` is set, writable for bit 1,
/// executable for bit 2; it is valid and accessible to the user, and its
/// flag byte is `port` shifted past the valid bit, with U and V.
pub proof fn lemma_mmap_page_permissions(port: usize, e: PageTableEntry)
    requires
        1 <= port <= 7,
        e == PageTableEntry::spec_new(e.spec_ppn(), mmap_flags(port as int)),
    ensures
        e.bits & 0xff == ((port as u64) << 1u64) | 0x11,
        e.spec_readable() == (port & 1 != 0),
        e.spec_writable() == (port & 2 != 0),
        e.spec_executable() == (port & 4 != 0),
        e.spec_is_valid(),
        e.bits & 16 != 0,
{
    lemma_mmap_flag_bytes();
    assert(e.bits & 0xff == ((port as u64) << 1u64) | 0x11);
    let b = e.bits;
    let p = port as u64;
    assert(b & 0xffu64 == (p << 1u64) | 0x11u64 && 1 <= p <= 7 ==> ((b & 2u64 != 0) == (p & 1u64 != 0)
        && (b & 4u64 != 0) == (p & 2u64 != 0) && (b & 8u64 != 0) == (p & 4u64 != 0) && b & 1u64 != 0
        && b & 16u64 != 0)) by (bit_vector);
    assert(port & 1 != 0 <==> p & 1u64 != 0) by (bit_vector)
        requires
            p == port as u64,
    ;
    assert(port & 2 != 0 <==> p & 2u64 != 0) by (bit_vector)
        requires
            p == port as u64,
    ;
    assert(port & 4 != 0 <==> p & 4u64 != 0) by (bit_vector)
        requires
            p == port as u64,
    ;
}

/// `sys_mmap` takes exactly the arguments that ask for a non-empty,
/// page-aligned range and whose `port` has some of the bits R, W, X (0 to 2)
/// and no other bit: it refuses `port` 0 and every `port` above 7.
pub proof fn lemma_mmap_refuses_bad_arguments(start: int, len: int, port: int)
    ensures
        port == 0 || port > 7 || len == 0 || start % 4096 != 0 ==> !mmap_args_ok(start, len, port),
        1 <= port <= 7 && len != 0 && start % 4096 == 0 ==> mmap_args_ok(start, len, port),
{
}

/// Maps page `vpn` to `ppn` with `flags` unless the page is mapped already:
/// 1 when it maps, 0 when the page was mapped.
fn map_page(pt: &mut PageTable, m: &mut Machine, vpn: VirtPageNum, ppn: PhysPageNum, flags: PTEFlags) -> (r: usize)
    requires
        old(pt).wf(old(m)),
        frames_needed(old(m).mem, old(pt).root(), vpn.0) <= old(m).frame_allocator.free_count(),
    ensures
        final(pt).wf(final(m)),
        final(pt).root() == old(pt).root(),
        r == if lookup(old(m).mem, old(pt).root(), vpn.0) is Some { 0usize } else { 1usize },
        r == 0 ==> *final(m) == *old(m),
        r == 1 ==> mappings(final(m).mem, final(pt).root()) == mappings(old(m).mem, old(pt).root()).insert(
            vpn.0 & VPN_MASK,
            PageTableEntry::spec_new(ppn.0, flags.bits | 1),
        ),
        r == 1 ==> final(m).frame_allocator.free_count() + frames_needed(old(m).mem, old(pt).root(), vpn.0)
            == old(m).frame_allocator.free_count(),
        forall|i: int|
            0 <= i < final(pt).owned_frames().len() ==> old(pt).owned_frames().contains(
                #[trigger] final(pt).owned_frames()[i],
            ) || old(m).frame_allocator.is_free(final(pt).owned_frames()[i].0),
        final(pt).owned_frames().len() >= old(pt).owned_frames().len(),
        final(pt).owned_frames().subrange(0, old(pt).owned_frames().len() as int) == old(pt).owned_frames(),
        forall|p: u64|
            old(m).frame_allocator.is_free(p) && !final(m).frame_allocator.is_free(p)
                ==> #[trigger] final(pt).owned_frames().contains(PhysPageNum(p)),
        r == 1 ==> dirs1(final(m).mem, final(pt).root()) == dirs1(old(m).mem, old(pt).root()).insert(
            vpn_index(vpn.0, 0) as int,
        ),
        r == 1 ==> dirs2(final(m).mem, final(pt).root()) == dirs2(old(m).mem, old(pt).root()).insert(
            (vpn_index(vpn.0, 0) as int, vpn_index(vpn.0, 1) as int),
        ),
        forall|p: u64| #[trigger]
            final(m).frame_allocator.is_free(p) ==> old(m).frame_allocator.is_free(p),
        final(m).frame_allocator.end == old(m).frame_allocator.end,
        final(m).mem.base_ppn == old(m).mem.base_ppn,
        final(m).mem.n_frames == old(m).mem.n_frames,
        forall|p: u64|
            #![trigger not_table_frame(final(m).mem, final(pt).root(), p)]
            not_table_frame(old(m).mem, old(pt).root(), p) && !old(m).frame_allocator.is_free(p)
                ==> not_table_frame(final(m).mem, final(pt).root(), p),
        forall|p: u64|
            old(m).mem.has_frame(p) && not_table_frame(old(m).mem, old(pt).root(), p)
                && !old(m).frame_allocator.is_free(p) ==> #[trigger] frame_unchanged(
                old(m).mem,
                final(m).mem,
                p,
            ),
{
    proof {
        assert(tree(m.mem, pt.root()));
    }
    if let Some(pte) = pt.translate(&m.mem, vpn) {
        if pte.is_valid() {
            return 0;
        }
    }
    pt.map(m, vpn, ppn, flags);
    1
}

/// Unmaps page `vpn` if it is mapped: 1 when it unmaps, 0 when the page was not mapped.
fn unmap_page(pt: &mut PageTable, m: &mut Machine, vpn: VirtPageNum) -> (r: usize)
    requires
        old(pt).wf(old(m)),
    ensures
        final(pt).wf(final(m)),
        final(pt).root() == old(pt).root(),
        r == if lookup(old(m).mem, old(pt).root(), vpn.0) is Some { 1usize } else { 0usize },
        r == 0 ==> *final(m) == *old(m),
        r == 1 ==> mappings(final(m).mem, final(pt).root()) == mappings(old(m).mem, old(pt).root()).remove(
            vpn.0 & VPN_MASK,
        ),
        final(m).frame_allocator == old(m).frame_allocator,
        final(m).mem.base_ppn == old(m).mem.base_ppn,
        final(m).mem.n_frames == old(m).mem.n_frames,
        final(pt).owned_frames() == old(pt).owned_frames(),
        forall|p: u64|
            old(m).mem.has_frame(p) && not_table_frame(old(m).mem, old(pt).root(), p)
                ==> #[trigger] frame_unchanged(old(m).mem, final(m).mem, p),
        forall|p: u64| #[trigger]
            not_table_frame(final(m).mem, final(pt).root(), p) == not_table_frame(
                old(m).mem,
                old(pt).root(),
                p,
            ),
{
    if let Some(pte) = pt.translate(&m.mem, vpn) {
        if pte.is_valid() {
            pt.unmap(m, vpn);
            return 1;
        }
    }
    0
}

/// Maps the pages of `len` bytes from `start` to fresh frames with the
/// permissions `port` (bit 0 read, bit 1 write, bit 2 execute) and user access.
/// Refused with -1 when the range is empty or not page-aligned or `port` has
/// no permission or another bit; fails with -1 at the first page already
/// mapped, keeping the pages mapped before it. Each page gets a zero-filled
/// frame of its own, which the table then owns and gives back only when it is
/// released: a frame given back while a page still maps it would be handed
/// out again, to another page or as a directory, under that page.
#[verifier::rlimit(40)]
pub fn sys_mmap(pt: &mut PageTable, m: &mut Machine, start: usize, len: usize, port: usize) -> (r: isize)
    requires
        old(pt).wf(old(m)),
        mmap_args_ok(start as int, len as int, port as int) ==> start + len - 1 <= usize::MAX
            && old(m).frame_allocator.free_count() >= mmap_frames(
                dirs1(old(m).mem, old(pt).root()),
                dirs2(old(m).mem, old(pt).root()),
                mappings(old(m).mem, old(pt).root()).dom(),
                start as int / 4096,
                span_pages(start as int, len as int),
            ),
    ensures
        final(pt).wf(final(m)),
        final(pt).root() == old(pt).root(),
        !mmap_args_ok(start as int, len as int, port as int) ==> r == -1 && *final(m) == *old(m)
            && *final(pt) == *old(pt),
        port == 0 || port > 7 || len == 0 || start % 4096 != 0 ==> r == -1 && *final(m) == *old(m)
            && *final(pt) == *old(pt),
        1 <= port <= 7 && len != 0 && start % 4096 == 0 ==> forall|j: int|
            0 <= j < mmap_pages(
                mappings(old(m).mem, old(pt).root()).dom(),
                start as int / 4096,
                span_pages(start as int, len as int),
            ).0.len() ==> #[trigger] mappings(final(m).mem, final(pt).root())[mmap_pages(
                mappings(old(m).mem, old(pt).root()).dom(),
                start as int / 4096,
                span_pages(start as int, len as int),
            ).0[j]].bits & 0xff == ((port as u64) << 1u64) | 0x11,
        mmap_args_ok(start as int, len as int, port as int) ==> ({
            let pages = mmap_pages(
                mappings(old(m).mem, old(pt).root()).dom(),
                start as int / 4096,
                span_pages(start as int, len as int),
            );
            &&& r == if pages.1 { 0 } else { -1 }
            &&& mmap_done(
                mappings(old(m).mem, old(pt).root()),
                mappings(final(m).mem, final(pt).root()),
                pages.0,
                mmap_flags(port as int),
                *old(m),
                *final(m),
                final(pt).owned_frames(),
            )
            &&& forall|j: int|
                0 <= j < pages.0.len() ==> #[trigger] frame_zeroed(
                    final(m).mem,
                    mappings(final(m).mem, final(pt).root())[pages.0[j]].spec_ppn(),
                )
        }),
        forall|p: u64|
            old(m).mem.has_frame(p) && not_table_frame(old(m).mem, old(pt).root(), p)
                && !old(m).frame_allocator.is_free(p) ==> #[trigger] frame_unchanged(
                old(m).mem,
                final(m).mem,
                p,
            ),
        final(pt).owned_frames().len() >= old(pt).owned_frames().len(),
        final(pt).owned_frames().subrange(0, old(pt).owned_frames().len() as int) == old(pt).owned_frames(),
        forall|p: u64|
            old(m).frame_allocator.is_free(p) && !final(m).frame_allocator.is_free(p)
                ==> #[trigger] final(pt).owned_frames().contains(PhysPageNum(p)),
{
    proof {
        lemma_mmap_refuses_bad_arguments(start as int, len as int, port as int);
        lemma_mmap_flag_bytes();
    }
    let mut vpn = VirtAddr(start as u64).floor();
    if len == 0 || port == 0 || VirtAddr(start as u64).page_offset() != 0 || port > 7 {
        return -1;
    }
    let end = (start + (len - 1)) / (PAGE_SIZE as usize) + 1;
    let npages: usize = end - start / (PAGE_SIZE as usize);
    let ghost root = pt.root();
    let ghost v0 = mappings(m.mem, root);
    let ghost target = mmap_pages(v0.dom(), start as int / 4096, npages as int);
    let ghost mut ks: Seq<u64> = Seq::empty();
    proof {
        assert(port <= 7 ==> (port << 1usize) == port * 2) by (bit_vector);
        assert(target.0 =~= ks + target.0);
        assert(pt.owned_frames().subrange(0, pt.owned_frames().len() as int) =~= pt.owned_frames());
    }
    let flags = PTEFlags::from_bits((port << 1) as u8).unwrap().union(PTEFlags::U());
    proof {
        assert(flags.bits | 1 == mmap_flags(port as int));
    }
    let mut i: usize = 0;
    while i < npages
        invariant
            pt.wf(m),
            pt.root() == root,
            root == old(pt).root(),
            v0 == mappings(old(m).mem, root),
            mmap_args_ok(start as int, len as int, port as int),
            npages == span_pages(start as int, len as int),
            target == mmap_pages(v0.dom(), start as int / 4096, npages as int),
            i <= npages,
            vpn.0 == start as int / 4096 + i,
            start as int / 4096 + npages <= 0x10_0000_0000_0000,
            flags.bits | 1 == mmap_flags(port as int),
            target.0 == ks + mmap_pages(mappings(m.mem, root).dom(), start as int / 4096 + i, npages - i).0,
            target.1 == mmap_pages(mappings(m.mem, root).dom(), start as int / 4096 + i, npages - i).1,
            mmap_done(v0, mappings(m.mem, root), ks, mmap_flags(port as int), *old(m), *m, pt.owned_frames()),
            forall|j: int|
                0 <= j < ks.len() ==> #[trigger] frame_zeroed(m.mem, mappings(m.mem, root)[ks[j]].spec_ppn())
                    && m.mem.has_frame(mappings(m.mem, root)[ks[j]].spec_ppn())
                    && not_table_frame(m.mem, root, mappings(m.mem, root)[ks[j]].spec_ppn()),
            m.frame_allocator.free_count() >= mmap_frames(
                dirs1(m.mem, root),
                dirs2(m.mem, root),
                mappings(m.mem, root).dom(),
                start as int / 4096 + i,
                npages - i,
            ),
            m.mem.base_ppn == old(m).mem.base_ppn,
            m.mem.n_frames == old(m).mem.n_frames,
            m.frame_allocator.end == old(m).frame_allocator.end,
            forall|p: u64| #[trigger]
                m.frame_allocator.is_free(p) ==> old(m).frame_allocator.is_free(p),
            forall|p: u64|
                old(m).mem.has_frame(p) && not_table_frame(old(m).mem, root, p)
                    && !old(m).frame_allocator.is_free(p) ==> #[trigger] not_table_frame(m.mem, root, p),
            forall|p: u64|
                old(m).mem.has_frame(p) && not_table_frame(old(m).mem, root, p)
                    && !old(m).frame_allocator.is_free(p) ==> #[trigger] frame_unchanged(old(m).mem, m.mem, p),
            pt.owned_frames().len() >= old(pt).owned_frames().len(),
            pt.owned_frames().subrange(0, old(pt).owned_frames().len() as int) == old(pt).owned_frames(),
            forall|p: u64|
                old(m).frame_allocator.is_free(p) && !m.frame_allocator.is_free(p)
                    ==> #[trigger] pt.owned_frames().contains(PhysPageNum(p)),
        decreases npages - i,
    {
        let ghost m0 = *m;
        let ghost o0 = pt.owned_frames();
        let ghost cur = mappings(m0.mem, root);
        let ghost key = vpn.0 & VPN_MASK;
        proof {
            m0.frame_allocator.lemma_free_below_end();
            lemma_mmap_flag_bytes();
        }
        let ft = m.frame_alloc().unwrap();
        let ghost m1 = *m;
        let ghost f = ft.0;
        proof {
            assert(m0.frame_allocator.is_free(f));
            assert(not_table_frame(m0.mem, root, f));
            assert(same_but_frame(m0.mem, m1.mem, f));
            lemma_other_frame(m0.mem, m1.mem, root, f);
            assert forall|p: u64|
                #![trigger m1.frame_allocator.is_free(p)]
                m1.frame_allocator.is_free(p) implies not_table_frame(m1.mem, root, p) by {
                assert(m0.frame_allocator.is_free(p));
            }
            assert forall|j: int| 0 <= j < o0.len() implies crate::mm::page_table::owned_frame_ok(
                &m1,
                #[trigger] o0[j].0,
            ) by {
                assert(crate::mm::page_table::owned_frame_ok(&m0, o0[j].0));
            }
            assert(pt.wf(&m1));
            crate::mm::address::lemma_vpn_index_bounds(vpn.0);
            lemma_frames_needed_dirs(m1.mem, root, vpn.0);
            assert(((start as int / 4096 + i) as u64) == vpn.0);
            crate::mm::pt_spec::lemma_mappings_key(m1.mem, root, vpn.0);
            assert(mappings(m1.mem, root) == cur);
            if cur.dom().contains(key) {
                assert(lookup(m1.mem, root, vpn.0) is Some);
                assert(frames_needed(m1.mem, root, vpn.0) == 0);
            } else {
                assert(mmap_frames(
                    dirs1(m1.mem, root),
                    dirs2(m1.mem, root),
                    cur.dom(),
                    start as int / 4096 + i,
                    npages - i,
                ) >= 1 + dirs_needed(dirs1(m1.mem, root), dirs2(m1.mem, root), vpn.0));
            }
        }
        let re = map_page(pt, m, vpn, ft, flags);
        let ghost m2 = *m;
        let ghost o2 = pt.owned_frames();
        proof {
            let n0 = old(pt).owned_frames().len() as int;
            assert(o2.subrange(0, n0) =~= o2.subrange(0, o0.len() as int).subrange(0, n0));
            assert forall|x: PhysPageNum| o0.contains(x) implies o2.contains(x) by {
                let j = choose|j: int| 0 <= j < o0.len() && o0[j] == x;
                assert(o2.subrange(0, o0.len() as int)[j] == x);
                assert(o2[j] == x);
            }
            assert forall|p: u64|
                old(m).frame_allocator.is_free(p) && !m2.frame_allocator.is_free(p) && p != f
                    implies #[trigger] o2.contains(PhysPageNum(p)) by {
                if !m0.frame_allocator.is_free(p) {
                    assert(o0.contains(PhysPageNum(p)));
                } else {
                    assert(m1.frame_allocator.is_free(p));
                }
            }
            assert(!m2.frame_allocator.is_free(f));
            assert(m2.mem.has_frame(f));
            assert(not_table_frame(m2.mem, root, f));
            assert forall|p: u64|
                old(m).mem.has_frame(p) && not_table_frame(old(m).mem, root, p)
                    && !old(m).frame_allocator.is_free(p) implies #[trigger] frame_unchanged(
                    old(m).mem,
                    m2.mem,
                    p,
                ) && not_table_frame(m2.mem, root, p) by {
                assert(not_table_frame(m0.mem, root, p));
                assert(frame_unchanged(old(m).mem, m0.mem, p));
                assert(!m0.frame_allocator.is_free(p));
                assert(frame_unchanged(m0.mem, m1.mem, p));
                assert(not_table_frame(m1.mem, root, p));
                assert(!m1.frame_allocator.is_free(p));
                assert(frame_unchanged(m1.mem, m2.mem, p));
            }
            // The frames of the pages mapped so far stay zero-filled.
            assert forall|j: int| 0 <= j < ks.len() implies #[trigger] frame_zeroed(m2.mem, cur[ks[j]].spec_ppn())
                && m2.mem.has_frame(cur[ks[j]].spec_ppn()) && not_table_frame(m2.mem, root, cur[ks[j]].spec_ppn()) by {
                let q = cur[ks[j]].spec_ppn();
                assert(frame_zeroed(m0.mem, q));
                assert(!m0.frame_allocator.is_free(q));
                assert(frame_unchanged(m0.mem, m1.mem, q));
                assert(not_table_frame(m1.mem, root, q));
                assert(!m1.frame_allocator.is_free(q));
                assert(frame_unchanged(m1.mem, m2.mem, q));
                assert(not_table_frame(m2.mem, root, q));
            }
            // The frame of this page is zero-filled.
            assert forall|off: int| 0 <= off < 4096 implies #[trigger] m1.mem.byte_at(f, off) == 0 by {
                lemma_frame_place(m0.mem, f, f);
            }
            assert(frame_unchanged(m1.mem, m2.mem, f));
            assert(frame_zeroed(m2.mem, f));
            // The frames of the pages mapped so far are other than `f`.
            assert forall|j: int| 0 <= j < ks.len() implies #[trigger] cur[ks[j]].spec_ppn() != f by {
                assert(!m0.frame_allocator.is_free(cur[ks[j]].spec_ppn()));
            }
            // `f` is none of the frames the table owned.
            assert forall|j: int| 0 <= j < o2.len() implies #[trigger] o2[j] != ft by {
                if o0.contains(o2[j]) {
                    let l = choose|l: int| 0 <= l < o0.len() && o0[l] == o2[j];
                    assert(crate::mm::page_table::owned_frame_ok(&m0, o0[l].0));
                } else {
                    assert(m1.frame_allocator.is_free(o2[j].0));
                }
            }
        }
        if re == 0 {
            m.frame_dealloc(ft);
            proof {
                assert forall|p: u64|
                    #![trigger m.frame_allocator.is_free(p)]
                    m.frame_allocator.is_free(p) implies not_table_frame(m.mem, root, p) by {
                    if p != f {
                        assert(m2.frame_allocator.is_free(p));
                    }
                }
                assert forall|j: int| 0 <= j < o2.len() implies crate::mm::page_table::owned_frame_ok(
                    m,
                    #[trigger] o2[j].0,
                ) by {
                    assert(crate::mm::page_table::owned_frame_ok(&m2, o2[j].0));
                    assert(o2[j] != ft);
                }
                assert(mappings(m.mem, root) == cur);
                assert(cur.dom().contains(key));
                assert(((start as int / 4096 + i) as u64) == vpn.0);
                assert(mmap_pages(cur.dom(), start as int / 4096 + i, npages - i) == (Seq::<u64>::empty(), false));
                assert(target.0 =~= ks);
                assert forall|j: int| 0 <= j < ks.len() implies !m.frame_allocator.is_free(
                    #[trigger] cur[ks[j]].spec_ppn(),
                ) by {
                    assert(cur[ks[j]].spec_ppn() != f);
                }
                assert forall|p: u64|
                    old(m).frame_allocator.is_free(p) && !m.frame_allocator.is_free(p)
                        implies #[trigger] o2.contains(PhysPageNum(p)) by {
                    assert(p != f);
                }
                assert forall|p: u64|
                    old(m).mem.has_frame(p) && not_table_frame(old(m).mem, root, p)
                        && !old(m).frame_allocator.is_free(p) implies #[trigger] frame_unchanged(
                        old(m).mem,
                        m.mem,
                        p,
                    ) by {
                    assert(frame_unchanged(old(m).mem, m2.mem, p));
                }
            }
            return -1;
        }
        pt.add_frame(m, ft);
        proof {
            let o3 = pt.owned_frames();
            let v2 = mappings(m.mem, root);
            let ks2 = ks.push(key);
            let mf = mmap_flags(port as int);
            assert(o3 == o2.push(ft));
            assert(!cur.dom().contains(key));
            assert(v2 == cur.insert(key, PageTableEntry::spec_new(f, mf)));
            crate::mm::pte::lemma_new_fields(f, mf);
            assert(f < 0x1000_0000_0000);
            assert(v2[key].spec_ppn() == f);
            let n0 = old(pt).owned_frames().len() as int;
            assert(o3.subrange(0, n0) =~= o2.subrange(0, n0));
            // The rest of the range, after this page.
            assert(((start as int / 4096 + i) as u64) == vpn.0);
            assert(mmap_pages(cur.dom(), start as int / 4096 + i, npages - i).0 =~= seq![key] + mmap_pages(
                v2.dom(),
                start as int / 4096 + i + 1,
                npages - i - 1,
            ).0) by {
                assert(v2.dom() =~= cur.dom().insert(key));
            }
            assert(v2.dom() =~= cur.dom().insert(key));
            assert(target.0 =~= ks2 + mmap_pages(v2.dom(), start as int / 4096 + i + 1, npages - i - 1).0);
            assert(mmap_frames(
                dirs1(m1.mem, root),
                dirs2(m1.mem, root),
                cur.dom(),
                start as int / 4096 + i,
                npages - i,
            ) == 1 + dirs_needed(dirs1(m1.mem, root), dirs2(m1.mem, root), vpn.0) + mmap_frames(
                dirs1(m.mem, root),
                dirs2(m.mem, root),
                v2.dom(),
                start as int / 4096 + i + 1,
                npages - i - 1,
            ));
            // The pages mapped so far, with this one.
            assert forall|k: u64| #[trigger] v2.dom().contains(k) <==> v0.dom().contains(k) || ks2.contains(k) by {
                if ks2.contains(k) && k != key {
                    let j = choose|j: int| 0 <= j < ks2.len() && ks2[j] == k;
                    assert(ks[j] == k);
                }
                if ks.contains(k) {
                    let j = choose|j: int| 0 <= j < ks.len() && ks[j] == k;
                    assert(ks2[j] == k);
                }
                if k == key {
                    assert(ks2[ks.len() as int] == key);
                }
            }
            assert forall|k: u64| v0.dom().contains(k) implies #[trigger] v2[k] == v0[k] by {
                assert(cur.dom().contains(k));
            }
            assert forall|j: int| 0 <= j < ks.len() implies #[trigger] v2[ks2[j]] == cur[ks[j]] by {
                assert(ks2[j] == ks[j]);
                assert(cur.dom().contains(ks[j]));
            }
            assert forall|j: int|
                0 <= j < ks2.len() implies #[trigger] v2[ks2[j]] == PageTableEntry::spec_new(
                    v2[ks2[j]].spec_ppn(),
                    mf,
                ) by {
                if j < ks.len() {
                    assert(v2[ks2[j]] == cur[ks[j]]);
                }
            }
            assert forall|j: int|
                0 <= j < ks2.len() implies old(m).frame_allocator.is_free(#[trigger] v2[ks2[j]].spec_ppn())
                    && !m.frame_allocator.is_free(v2[ks2[j]].spec_ppn())
                    && o3.contains(PhysPageNum(v2[ks2[j]].spec_ppn())) by {
                if j < ks.len() {
                    assert(v2[ks2[j]] == cur[ks[j]]);
                    assert(o2.contains(PhysPageNum(cur[ks[j]].spec_ppn())));
                    let l = choose|l: int| 0 <= l < o2.len() && o2[l] == PhysPageNum(cur[ks[j]].spec_ppn());
                    assert(o3[l] == o2[l]);
                } else {
                    assert(o3[o2.len() as int] == ft);
                }
            }
            assert forall|a: int, b: int|
                0 <= a < b < ks2.len() implies #[trigger] v2[ks2[a]].spec_ppn() != #[trigger] v2[ks2[b]].spec_ppn() by {
                assert(v2[ks2[a]] == cur[ks[a]]);
                if b < ks.len() {
                    assert(v2[ks2[b]] == cur[ks[b]]);
                } else {
                    assert(cur[ks[a]].spec_ppn() != f);
                }
            }
            assert forall|p: u64|
                old(m).frame_allocator.is_free(p) && !m.frame_allocator.is_free(p)
                    implies #[trigger] o3.contains(PhysPageNum(p)) by {
                if p == f {
                    assert(o3[o2.len() as int] == ft);
                } else {
                    assert(o2.contains(PhysPageNum(p)));
                    let l = choose|l: int| 0 <= l < o2.len() && o2[l] == PhysPageNum(p);
                    assert(o3[l] == o2[l]);
                }
            }
            assert forall|p: u64|
                old(m).mem.has_frame(p) && not_table_frame(old(m).mem, root, p)
                    && !old(m).frame_allocator.is_free(p) implies #[trigger] frame_unchanged(
                    old(m).mem,
                    m.mem,
                    p,
                ) by {
                assert(frame_unchanged(old(m).mem, m2.mem, p));
            }
            assert forall|p: u64|
                old(m).mem.has_frame(p) && not_table_frame(old(m).mem, root, p)
                    && !old(m).frame_allocator.is_free(p) implies #[trigger] not_table_frame(
                    m.mem,
                    root,
                    p,
                ) by {
                assert(frame_unchanged(old(m).mem, m2.mem, p));
            }
            assert forall|j: int| 0 <= j < ks2.len() implies #[trigger] frame_zeroed(m.mem, v2[ks2[j]].spec_ppn())
                && m.mem.has_frame(v2[ks2[j]].spec_ppn()) && not_table_frame(m.mem, root, v2[ks2[j]].spec_ppn()) by {
                if j < ks.len() {
                    assert(v2[ks2[j]] == cur[ks[j]]);
                    assert(frame_zeroed(m2.mem, cur[ks[j]].spec_ppn()));
                }
            }
            ks = ks2;
        }
        vpn.step();
        i = i + 1;
    }
    proof {
        assert(target.0 =~= ks);
    }
    0
}

/// Unmaps the pages of `len` bytes from `start`. Refused with -1 when the
/// range is empty or not page-aligned; fails with -1 at the first page not
/// mapped, keeping the pages before it unmapped.
pub fn sys_munmap(pt: &mut PageTable, m: &mut Machine, start: usize, len: usize) -> (r: isize)
    requires
        old(pt).wf(old(m)),
        len != 0 && start % 4096 == 0 ==> start + len - 1 <= usize::MAX,
    ensures
        final(pt).wf(final(m)),
        final(pt).root() == old(pt).root(),
        final(m).frame_allocator == old(m).frame_allocator,
        !(len != 0 && start % 4096 == 0) ==> r == -1 && *final(m) == *old(m),
        len != 0 && start % 4096 == 0 ==> ({
            let res = unmap_range(mappings(old(m).mem, old(pt).root()), start as int / 4096, span_pages(start as int, len as int));
            &&& r == if res.1 { 0 } else { -1 }
            &&& mappings(final(m).mem, final(pt).root()) == res.0
        }),
        forall|p: u64|
            old(m).mem.has_frame(p) && not_table_frame(old(m).mem, old(pt).root(), p)
                ==> #[trigger] frame_unchanged(old(m).mem, final(m).mem, p),
        final(pt).owned_frames() == old(pt).owned_frames(),
{
    let mut vpn = VirtAddr(start as u64).floor();
    if len == 0 || VirtAddr(start as u64).page_offset() != 0 {
        return -1;
    }
    let end = (start + (len - 1)) / (PAGE_SIZE as usize) + 1;
    let npages: usize = end - start / (PAGE_SIZE as usize);
    let ghost root = pt.root();
    let ghost target = unmap_range(mappings(m.mem, root), start as int / 4096, npages as int);
    let mut i: usize = 0;
    while i < npages
        invariant
            pt.wf(m),
            pt.root() == root,
            root == old(pt).root(),
            len != 0 && start % 4096 == 0,
            npages == span_pages(start as int, len as int),
            target == unmap_range(mappings(old(m).mem, root), start as int / 4096, npages as int),
            m.frame_allocator == old(m).frame_allocator,
            i <= npages,
            vpn.0 == start as int / 4096 + i,
            start as int / 4096 + npages <= 0x10_0000_0000_0000,
            unmap_range(mappings(m.mem, root), start as int / 4096 + i, npages - i) == target,
            m.mem.base_ppn == old(m).mem.base_ppn,
            m.mem.n_frames == old(m).mem.n_frames,
            forall|p: u64| #[trigger]
                not_table_frame(m.mem, root, p) == not_table_frame(old(m).mem, root, p),
            forall|p: u64|
                old(m).mem.has_frame(p) && not_table_frame(old(m).mem, root, p)
                    ==> #[trigger] frame_unchanged(old(m).mem, m.mem, p),
            pt.owned_frames() == old(pt).owned_frames(),
        decreases npages - i,
    {
        let ghost m1 = *m;
        let re = unmap_page(pt, m, vpn);
        proof {
            crate::mm::pt_spec::lemma_mappings_key(m1.mem, root, vpn.0);
            assert forall|p: u64|
                old(m).mem.has_frame(p) && not_table_frame(old(m).mem, root, p)
                    implies #[trigger] frame_unchanged(old(m).mem, m.mem, p) by {
                assert(not_table_frame(m1.mem, root, p));
                assert(frame_unchanged(old(m).mem, m1.mem, p));
                assert(frame_unchanged(m1.mem, m.mem, p));
            }
        }
        if re == 0 {
            return -1;
        }
        vpn.step();
        i = i + 1;
    }
    0
}

/// The pages that `mmap_pages` maps are the first pages of the range, in
/// order: its `j`-th page is page `vpn + j`.
pub proof fn lemma_mmap_pages_in_order(keys: Set<u64>, vpn: int, n: int)
    ensures
        mmap_pages(keys, vpn, n).0.len() <= if n < 0 { 0 } else { n },
        mmap_pages(keys, vpn, n).1 ==> mmap_pages(keys, vpn, n).0.len() == if n < 0 { 0 } else { n },
        forall|j: int|
            0 <= j < mmap_pages(keys, vpn, n).0.len() ==> #[trigger] mmap_pages(keys, vpn, n).0[j]
                == ((vpn + j) as u64) & VPN_MASK,
    decreases n,
{
    if n > 0 && !keys.contains((vpn as u64) & VPN_MASK) {
        let k = (vpn as u64) & VPN_MASK;
        lemma_mmap_pages_in_order(keys.insert(k), vpn + 1, n - 1);
        let rest = mmap_pages(keys.insert(k), vpn + 1, n - 1).0;
        assert forall|j: int| 0 <= j < mmap_pages(keys, vpn, n).0.len() implies #[trigger] mmap_pages(
            keys,
            vpn,
            n,
        ).0[j] == ((vpn + j) as u64) & VPN_MASK by {
            if j > 0 {
                assert(mmap_pages(keys, vpn, n).0[j] == rest[j - 1]);
                assert(vpn + 1 + (j - 1) == vpn + j);
            }
        }
    }
}

/// No page that `mmap_pages` maps is among the pages mapped before.
proof fn lemma_mmap_pages_fresh(keys: Set<u64>, vpn: int, n: int)
    ensures
        forall|j: int|
            0 <= j < mmap_pages(keys, vpn, n).0.len() ==> !keys.contains(
                #[trigger] mmap_pages(keys, vpn, n).0[j],
            ),
    decreases n,
{
    if n > 0 && !keys.contains((vpn as u64) & VPN_MASK) {
        let k = (vpn as u64) & VPN_MASK;
        lemma_mmap_pages_fresh(keys.insert(k), vpn + 1, n - 1);
        let rest = mmap_pages(keys.insert(k), vpn + 1, n - 1).0;
        assert forall|j: int| 0 <= j < mmap_pages(keys, vpn, n).0.len() implies !keys.contains(
            #[trigger] mmap_pages(keys, vpn, n).0[j],
        ) by {
            if j > 0 {
                assert(mmap_pages(keys, vpn, n).0[j] == rest[j - 1]);
            }
        }
    }
}

/// Unmapping the pages that a full `mmap_pages` run added, over mappings that
/// hold the pages `keys`, gives back the mappings `v0`.
proof fn lemma_unmap_mapped_pages(
    v0: Map<u64, PageTableEntry>,
    v: Map<u64, PageTableEntry>,
    keys: Set<u64>,
    vpn: int,
    n: int,
)
    requires
        mmap_pages(keys, vpn, n).1,
        forall|k: u64| v0.dom().contains(k) ==> keys.contains(k),
        forall|k: u64| #[trigger] v.dom().contains(k) <==> v0.dom().contains(k) || mmap_pages(keys, vpn, n).0.contains(k),
        forall|k: u64| v0.dom().contains(k) ==> #[trigger] v[k] == v0[k],
    ensures
        unmap_range(v, vpn, n) == (v0, true),
    decreases n,
{
    if n <= 0 {
        assert(v =~= v0);
    } else {
        let k0 = (vpn as u64) & VPN_MASK;
        let keys1 = keys.insert(k0);
        let rest = mmap_pages(keys1, vpn + 1, n - 1).0;
        lemma_mmap_pages_fresh(keys1, vpn + 1, n - 1);
        assert(mmap_pages(keys, vpn, n).0 == seq![k0] + rest);
        assert((seq![k0] + rest)[0] == k0);
        assert(v.dom().contains(k0));
        let w = v.remove(k0);
        assert forall|k: u64| #[trigger] w.dom().contains(k) <==> v0.dom().contains(k) || rest.contains(k) by {
            if rest.contains(k) {
                let j = choose|j: int| 0 <= j < rest.len() && rest[j] == k;
                assert((seq![k0] + rest)[j + 1] == k);
                assert(!keys1.contains(rest[j]));
            }
            if (seq![k0] + rest).contains(k) && k != k0 {
                let s1 = seq![k0] + rest;
                let j = choose|j: int| 0 <= j < s1.len() && s1[j] == k;
                assert(s1[0] == k0);
                assert(j > 0);
                assert(s1[j] == rest[j - 1]);
                assert(rest.contains(k));
            }
        }
        lemma_unmap_mapped_pages(v0, w, keys1, vpn + 1, n - 1);
    }
}

/// Unmapping a range that `sys_mmap` has just mapped in full gives back the
/// mappings from before: whenever `v1` is `v0` with the pages of a full
/// `mmap_pages` run added, `unmap_range` over the same pages succeeds and
/// gives `v0`.
pub proof fn lemma_munmap_undoes_mmap(
    v0: Map<u64, PageTableEntry>,
    v1: Map<u64, PageTableEntry>,
    vpn: int,
    n: int,
)
    requires
        mmap_pages(v0.dom(), vpn, n).1,
        forall|k: u64| #[trigger] v1.dom().contains(k) <==> v0.dom().contains(k) || mmap_pages(v0.dom(), vpn, n).0.contains(k),
        forall|k: u64| v0.dom().contains(k) ==> #[trigger] v1[k] == v0[k],
    ensures
        unmap_range(v1, vpn, n) == (v0, true),
{
    lemma_unmap_mapped_pages(v0, v1, v0.dom(), vpn, n);
}

/// `sys_munmap` after a `sys_mmap` that returned 0: when the mappings `v1`
/// are what `sys_mmap` left over the mappings `v0` (its contract for a
/// result of 0), unmapping the same range succeeds and gives back `v0`, so
/// `sys_munmap` of the range returns 0 and leaves the mappings from before.
pub proof fn lemma_munmap_after_mmap(
    v0: Map<u64, PageTableEntry>,
    v1: Map<u64, PageTableEntry>,
    start: int,
    len: int,
    port: int,
    m0: Machine,
    m1: Machine,
    owned: Seq<PhysPageNum>,
)
    requires
        mmap_args_ok(start, len, port),
        mmap_pages(v0.dom(), start / 4096, span_pages(start, len)).1,
        mmap_done(
            v0,
            v1,
            mmap_pages(v0.dom(), start / 4096, span_pages(start, len)).0,
            mmap_flags(port),
            m0,
            m1,
            owned,
        ),
    ensures
        unmap_range(v1, start / 4096, span_pages(start, len)) == (v0, true),
{
    lemma_munmap_undoes_mmap(v0, v1, start / 4096, span_pages(start, len));
}

} // verus!
