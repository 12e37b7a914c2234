//! Page tables held in physical memory.
use vstd::prelude::*;
use crate::mm::address::{PhysPageNum, VirtPageNum, vpn_index, lemma_vpn_index_bounds, PPN_MASK, VPN_MASK};
use crate::mm::machine::Machine;
use crate::mm::phys_mem::{PhysMem, frame_unchanged};
use crate::mm::pt_spec::{dir2, dirs1, dirs2, frames_needed, has_dir1, dir1, has_dir2, lemma_add_dir1, lemma_add_dir2, lemma_bit_consts, lemma_write_leaf, mappings, not_table_frame, translate_spec, tree, in_bounds, lookup};
use crate::mm::pte::{PTEFlags, PageTableEntry, lemma_new_fields, lemma_with_valid};

verus! {

/// Frame `p` is a frame of the memory that the allocator has handed out.
pub open spec fn owned_frame_ok(m: &Machine, p: u64) -> bool {
    &&& m.mem.has_frame(p)
    &&& !m.frame_allocator.is_free(p)
    &&& p < m.frame_allocator.end
}

/// A page table: its root directory and the frames that it owns.
pub struct PageTable {
    root_ppn: PhysPageNum,
    frames: Vec<PhysPageNum>,
}

/// `satp` mode bits that select Sv39.
pub const SATP_SV39: u64 = 0x8000_0000_0000_0000;

/// Reading the root page number back from a token gives it back.
pub proof fn lemma_token_roundtrip(root: u64)
    requires
        root < 0x1000_0000_0000,
    ensures
        ((8u64 << 60u64) | root) & PPN_MASK == root,
        (8u64 << 60u64) | root == SATP_SV39 | root,
{
    assert(root < 0x1000_0000_0000 ==> ((8u64 << 60u64) | root) & 0xfff_ffff_ffffu64 == root
        && (8u64 << 60u64) | root == 0x8000_0000_0000_0000u64 | root) by (bit_vector);
}

impl PageTable {
    /// The page number of the root directory.
    pub closed spec fn root(&self) -> u64 {
        self.root_ppn.0
    }

    /// The frames that this table owns, in the order it took them.
    pub closed spec fn owned_frames(&self) -> Seq<PhysPageNum> {
        self.frames@
    }

    /// The table is a tree in the memory of `m`, none of its directories is
    /// free, and the frames it owns are distinct frames of the memory that the
    /// allocator handed out.
    pub open spec fn wf(&self, m: &Machine) -> bool {
        &&& m.wf()
        &&& tree(m.mem, self.root())
        &&& forall|p: u64|
            #![trigger m.frame_allocator.is_free(p)]
            m.frame_allocator.is_free(p) ==> not_table_frame(m.mem, self.root(), p)
        &&& self.owned_frames().no_duplicates()
        &&& forall|i: int|
            0 <= i < self.owned_frames().len() ==> owned_frame_ok(m, #[trigger] self.owned_frames()[i].0)
    }

    /// A new, empty table, whose root directory is a frame taken from `m`.
    pub fn new(m: &mut Machine) -> (pt: PageTable)
        requires
            old(m).wf(),
            old(m).frame_allocator.free_count() > 0,
        ensures
            pt.wf(final(m)),
            Some(pt.root()) == old(m).frame_allocator.next_frame(),
            pt.owned_frames() == seq![PhysPageNum(pt.root())],
            mappings(final(m).mem, pt.root()) == Map::<u64, PageTableEntry>::empty(),
            forall|v: u64| #[trigger] translate_spec(final(m).mem, pt.root(), v) is None,
            final(m).frame_allocator.free_count() + 1 == old(m).frame_allocator.free_count(),
            forall|p: u64| #[trigger]
                final(m).frame_allocator.is_free(p) <==> old(m).frame_allocator.is_free(p) && p
                    != pt.root(),
            forall|p: u64|
                old(m).mem.has_frame(p) && !old(m).frame_allocator.is_free(p) ==> #[trigger] frame_unchanged(
                    old(m).mem,
                    final(m).mem,
                    p,
                ),
            forall|p: u64|
                old(m).frame_allocator.is_free(p) && !final(m).frame_allocator.is_free(p)
                    ==> #[trigger] pt.owned_frames().contains(PhysPageNum(p)),
    {
        let frame = m.frame_alloc().unwrap();
        let pt = PageTable { root_ppn: frame, frames: vec![frame] };
        proof {
            let root = frame.0;
            lemma_bit_consts();
            assert forall|i0: int| 0 <= i0 < 512 implies !#[trigger] has_dir1(m.mem, root, i0) by {
                assert(m.mem.pte_at(root, i0) == PageTableEntry { bits: 0 });
            }
            assert forall|p: u64|
                #![trigger m.frame_allocator.is_free(p)]
                m.frame_allocator.is_free(p) implies not_table_frame(m.mem, root, p) by {}
            assert forall|v: u64| #[trigger] translate_spec(m.mem, root, v) is None by {
                lemma_vpn_index_bounds(v);
            }
            assert forall|v: u64| #[trigger] lookup(m.mem, root, v) is None by {
                assert(translate_spec(m.mem, root, v) is None);
            }
            assert(mappings(m.mem, root) =~= Map::<u64, PageTableEntry>::empty());
            assert(pt.frames@ =~= seq![frame]);
            assert(pt.frames@[0] == frame);
        }
        pt
    }

    /// A table that reads the root directory named by the token `satp`, and owns no frame.
    pub fn from_token(satp: u64) -> (pt: PageTable)
        ensures
            pt.root() == satp & PPN_MASK,
            pt.owned_frames() == Seq::<PhysPageNum>::empty(),
    {
        let root_ppn = PhysPageNum::from_u64(satp & PPN_MASK);
        proof {
            assert((satp & 0xfff_ffff_ffffu64) & 0xfff_ffff_ffffu64 == satp & 0xfff_ffff_ffffu64)
                by (bit_vector);
        }
        PageTable { root_ppn, frames: Vec::new() }
    }

    /// Reads entry `idx` of directory `ppn`; when it is not valid, points it to a
    /// fresh zero-filled frame taken from `m`. Returns the directory it points to.
    fn next_dir_create(&mut self, m: &mut Machine, ppn: PhysPageNum, idx: usize) -> (r: PhysPageNum)
        requires
            old(m).wf(),
            old(m).mem.has_frame(ppn.0),
            idx < 512,
            !old(m).mem.pte_at(ppn.0, idx as int).spec_is_valid() ==> old(
                m,
            ).frame_allocator.free_count() > 0,
        ensures
            final(m).wf(),
            final(self).root() == old(self).root(),
            final(m).frame_allocator.end == old(m).frame_allocator.end,
            old(m).mem.pte_at(ppn.0, idx as int).spec_is_valid() ==> *final(m) == *old(m)
                && final(self).owned_frames() == old(self).owned_frames() && r.0 == old(
                m,
            ).mem.pte_at(ppn.0, idx as int).spec_ppn(),
            !old(m).mem.pte_at(ppn.0, idx as int).spec_is_valid() ==> {
                &&& Some(r.0) == old(m).frame_allocator.next_frame()
                &&& old(m).frame_allocator.is_free(r.0)
                &&& old(m).mem.has_frame(r.0)
                &&& final(m).frame_allocator.free_count() + 1 == old(m).frame_allocator.free_count()
                &&& forall|p: u64| #[trigger]
                    final(m).frame_allocator.is_free(p) <==> old(m).frame_allocator.is_free(p) && p
                        != r.0
                &&& final(m).mem.base_ppn == old(m).mem.base_ppn
                &&& final(m).mem.n_frames == old(m).mem.n_frames
                &&& forall|p: u64, k: int|
                    #![trigger final(m).mem.pte_at(p, k)]
                    old(m).mem.has_frame(p) && 0 <= k < 512 ==> final(m).mem.pte_at(p, k) == if p
                        == ppn.0 && k == idx {
                        PageTableEntry::spec_new(r.0, 1)
                    } else if p == r.0 {
                        PageTableEntry { bits: 0 }
                    } else {
                        old(m).mem.pte_at(p, k)
                    }
                &&& final(self).owned_frames() == old(self).owned_frames().push(r)
            },
            forall|p: u64|
                old(m).mem.has_frame(p) && p != ppn.0 && !old(m).frame_allocator.is_free(p)
                    ==> #[trigger] frame_unchanged(old(m).mem, final(m).mem, p),
    {
        let pte = m.mem.read_pte(ppn, idx);
        if !pte.is_valid() {
            let ghost m0 = *m;
            let frame = m.frame_alloc().unwrap();
            let ghost m1 = *m;
            m.mem.write_pte(ppn, idx, PageTableEntry::new(frame, PTEFlags::V()));
            self.frames.push(frame);
            proof {
                assert forall|p: u64|
                    m0.mem.has_frame(p) && p != ppn.0 && !m0.frame_allocator.is_free(p)
                        implies #[trigger] frame_unchanged(m0.mem, m.mem, p) by {
                    assert(frame_unchanged(m0.mem, m1.mem, p));
                    assert(frame_unchanged(m1.mem, m.mem, p));
                }
            }
            frame
        } else {
            pte.ppn()
        }
    }

    /// The location (directory and index) of the leaf entry of `vpn`, adding the
    /// directories that its walk lacks.
    pub fn find_pte_create(&mut self, m: &mut Machine, vpn: VirtPageNum) -> (r: Option<
        (PhysPageNum, usize),
    >)
        requires
            old(self).wf(old(m)),
            frames_needed(old(m).mem, old(self).root(), vpn.0) <= old(
                m,
            ).frame_allocator.free_count(),
        ensures
            final(self).wf(final(m)),
            final(self).root() == old(self).root(),
            r == Some(
                (
                    PhysPageNum(
                        dir2(
                            final(m).mem,
                            final(self).root(),
                            vpn_index(vpn.0, 0) as int,
                            vpn_index(vpn.0, 1) as int,
                        ),
                    ),
                    vpn_index(vpn.0, 2),
                ),
            ),
            has_dir2(
                final(m).mem,
                final(self).root(),
                vpn_index(vpn.0, 0) as int,
                vpn_index(vpn.0, 1) as int,
            ),
            frames_needed(final(m).mem, final(self).root(), vpn.0) == 0,
            translate_spec(final(m).mem, final(self).root(), vpn.0) == Some(
                match translate_spec(old(m).mem, old(self).root(), vpn.0) {
                    Some(e) => e,
                    None => PageTableEntry { bits: 0 },
                },
            ),
            mappings(final(m).mem, final(self).root()) == mappings(old(m).mem, old(self).root()),
            final(m).frame_allocator.free_count() + frames_needed(old(m).mem, old(self).root(), vpn.0)
                == old(m).frame_allocator.free_count(),
            forall|p: u64| #[trigger]
                final(m).frame_allocator.is_free(p) ==> old(m).frame_allocator.is_free(p),
            final(m).frame_allocator.end == old(m).frame_allocator.end,
            forall|p: u64|
                #![trigger not_table_frame(final(m).mem, final(self).root(), p)]
                not_table_frame(old(m).mem, old(self).root(), p) && !old(m).frame_allocator.is_free(p)
                    ==> not_table_frame(final(m).mem, final(self).root(), p),
            final(self).owned_frames().len() == old(self).owned_frames().len() + frames_needed(
                old(m).mem,
                old(self).root(),
                vpn.0,
            ),
            forall|i: int|
                0 <= i < final(self).owned_frames().len() ==> old(self).owned_frames().contains(
                    #[trigger] final(self).owned_frames()[i],
                ) || old(m).frame_allocator.is_free(final(self).owned_frames()[i].0),
            final(self).owned_frames().subrange(0, old(self).owned_frames().len() as int)
                == old(self).owned_frames(),
            forall|p: u64|
                old(m).frame_allocator.is_free(p) && !final(m).frame_allocator.is_free(p)
                    ==> #[trigger] final(self).owned_frames().contains(PhysPageNum(p)),
            final(m).mem.base_ppn == old(m).mem.base_ppn,
            final(m).mem.n_frames == old(m).mem.n_frames,
            forall|p: u64|
                old(m).mem.has_frame(p) && not_table_frame(old(m).mem, old(self).root(), p)
                    && !old(m).frame_allocator.is_free(p) ==> #[trigger] frame_unchanged(
                    old(m).mem,
                    final(m).mem,
                    p,
                ),
            dirs1(final(m).mem, final(self).root()) == dirs1(old(m).mem, old(self).root()).insert(
                vpn_index(vpn.0, 0) as int,
            ),
            dirs2(final(m).mem, final(self).root()) == dirs2(old(m).mem, old(self).root()).insert(
                (vpn_index(vpn.0, 0) as int, vpn_index(vpn.0, 1) as int),
            ),
    {
        let idxs = vpn.indexes();
        let ghost root = self.root();
        let ghost m0 = *m;
        let ghost o0 = self.owned_frames();
        let ghost i0 = idxs[0] as int;
        let ghost i1 = idxs[1] as int;
        proof {
            lemma_vpn_index_bounds(vpn.0);
        }
        // Level 0: the root directory.
        let ppn1 = self.next_dir_create(m, self.root_ppn, idxs[0]);
        let ghost m1 = *m;
        let ghost o1 = self.owned_frames();
        proof {
            if !has_dir1(m0.mem, root, i0) {
                lemma_new_fields(ppn1.0, 1);
                lemma_add_dir1(m0.mem, m1.mem, root, i0, ppn1.0);
            }
            assert(has_dir1(m1.mem, root, i0) && dir1(m1.mem, root, i0) == ppn1.0);
            assert(m1.mem.has_frame(ppn1.0));
            assert(dirs1(m1.mem, root) =~= dirs1(m0.mem, root).insert(i0));
            assert(dirs2(m1.mem, root) =~= dirs2(m0.mem, root));
            assert(has_dir1(m0.mem, root, i0) ==> has_dir2(m1.mem, root, i0, i1) == has_dir2(
                m0.mem,
                root,
                i0,
                i1,
            ));
        }
        proof {
            assert forall|p: u64|
                #![trigger not_table_frame(m1.mem, root, p)]
                not_table_frame(m0.mem, root, p) && !m0.frame_allocator.is_free(p) implies not_table_frame(
                    m1.mem,
                    root,
                    p,
                ) by {
                if !has_dir1(m0.mem, root, i0) {
                    assert(p != ppn1.0);
                }
            }
        }
        // Level 1.
        let ppn2 = self.next_dir_create(m, ppn1, idxs[1]);
        let ghost m2 = *m;
        proof {
            if !has_dir2(m1.mem, root, i0, i1) {
                lemma_new_fields(ppn2.0, 1);
                lemma_add_dir2(m1.mem, m2.mem, root, i0, i1, ppn2.0);
            }
            assert(has_dir2(m2.mem, root, i0, i1) && dir2(m2.mem, root, i0, i1) == ppn2.0);
            assert(dirs1(m2.mem, root) =~= dirs1(m1.mem, root));
            assert(dirs2(m2.mem, root) =~= dirs2(m1.mem, root).insert((i0, i1)));
            assert forall|p: u64|
                #![trigger not_table_frame(m2.mem, root, p)]
                not_table_frame(m0.mem, root, p) && !m0.frame_allocator.is_free(p) implies not_table_frame(
                    m2.mem,
                    root,
                    p,
                ) by {
                assert(not_table_frame(m1.mem, root, p));
                if !has_dir2(m1.mem, root, i0, i1) {
                    assert(!m1.frame_allocator.is_free(p));
                    assert(p != ppn2.0);
                }
            }
            assert forall|p: u64|
                m0.mem.has_frame(p) && not_table_frame(m0.mem, root, p) && !m0.frame_allocator.is_free(p)
                    implies #[trigger] frame_unchanged(m0.mem, m2.mem, p) by {
                assert(p != root);
                assert(frame_unchanged(m0.mem, m1.mem, p));
                if has_dir1(m0.mem, root, i0) {
                    assert(p != dir1(m0.mem, root, i0));
                }
                assert(p != ppn1.0);
                assert(!m1.frame_allocator.is_free(p));
                assert(frame_unchanged(m1.mem, m2.mem, p));
            }
        }
        proof {
            let o2 = self.owned_frames();
            assert forall|p: u64|
                m0.frame_allocator.is_free(p) && !m.frame_allocator.is_free(p)
                    implies #[trigger] o2.contains(PhysPageNum(p)) by {
                if !m1.frame_allocator.is_free(p) {
                    assert(p == ppn1.0);
                    assert(o1[o0.len() as int] == ppn1);
                    assert(o2[o0.len() as int] == ppn1);
                } else {
                    assert(p == ppn2.0);
                    assert(o2[o1.len() as int] == ppn2);
                }
            }
        }
        // Level 2: the leaf entry.
        Some((ppn2, idxs[2]))
    }

    /// The location (directory and index) of the leaf entry of `vpn`; `None` when
    /// the walk meets an entry that is not valid before the last level.
    fn find_pte(&self, mem: &PhysMem, vpn: VirtPageNum) -> (r: Option<(PhysPageNum, usize)>)
        requires
            mem.wf(),
            in_bounds(*mem, self.root()),
        ensures
            r is Some <==> has_dir2(*mem, self.root(), vpn_index(vpn.0, 0) as int, vpn_index(vpn.0, 1) as int),
            r is Some ==> r == Some(
                (
                    PhysPageNum(dir2(*mem, self.root(), vpn_index(vpn.0, 0) as int, vpn_index(vpn.0, 1) as int)),
                    vpn_index(vpn.0, 2),
                ),
            ),
    {
        let idxs = vpn.indexes();
        let pte0 = mem.read_pte(self.root_ppn, idxs[0]);
        if !pte0.is_valid() {
            return None;
        }
        let ppn1 = pte0.ppn();
        proof {
            assert(has_dir1(*mem, self.root(), idxs[0] as int));
        }
        let pte1 = mem.read_pte(ppn1, idxs[1]);
        if !pte1.is_valid() {
            return None;
        }
        proof {
            assert(has_dir2(*mem, self.root(), idxs[0] as int, idxs[1] as int));
        }
        Some((pte1.ppn(), idxs[2]))
    }

    /// Stores in the leaf entry of `vpn`, which must not be valid, the page
    /// `ppn` with `flags` and the valid flag.
    pub fn map(&mut self, m: &mut Machine, vpn: VirtPageNum, ppn: PhysPageNum, flags: PTEFlags)
        requires
            old(self).wf(old(m)),
            lookup(old(m).mem, old(self).root(), vpn.0) is None,
            frames_needed(old(m).mem, old(self).root(), vpn.0) <= old(
                m,
            ).frame_allocator.free_count(),
        ensures
            final(self).wf(final(m)),
            final(self).root() == old(self).root(),
            mappings(final(m).mem, final(self).root()) == mappings(old(m).mem, old(self).root()).insert(
                vpn.0 & VPN_MASK,
                PageTableEntry::spec_new(ppn.0, flags.bits | 1),
            ),
            translate_spec(final(m).mem, final(self).root(), vpn.0) == Some(
                PageTableEntry::spec_new(ppn.0, flags.bits | 1),
            ),
            final(m).frame_allocator.free_count() + frames_needed(old(m).mem, old(self).root(), vpn.0)
                == old(m).frame_allocator.free_count(),
            forall|p: u64| #[trigger]
                final(m).frame_allocator.is_free(p) ==> old(m).frame_allocator.is_free(p),
            final(m).frame_allocator.end == old(m).frame_allocator.end,
            forall|p: u64|
                #![trigger not_table_frame(final(m).mem, final(self).root(), p)]
                not_table_frame(old(m).mem, old(self).root(), p) && !old(m).frame_allocator.is_free(p)
                    ==> not_table_frame(final(m).mem, final(self).root(), p),
            final(m).mem.base_ppn == old(m).mem.base_ppn,
            final(m).mem.n_frames == old(m).mem.n_frames,
            final(self).owned_frames().len() == old(self).owned_frames().len() + frames_needed(
                old(m).mem,
                old(self).root(),
                vpn.0,
            ),
            forall|i: int|
                0 <= i < final(self).owned_frames().len() ==> old(self).owned_frames().contains(
                    #[trigger] final(self).owned_frames()[i],
                ) || old(m).frame_allocator.is_free(final(self).owned_frames()[i].0),
            final(self).owned_frames().subrange(0, old(self).owned_frames().len() as int)
                == old(self).owned_frames(),
            forall|p: u64|
                old(m).frame_allocator.is_free(p) && !final(m).frame_allocator.is_free(p)
                    ==> #[trigger] final(self).owned_frames().contains(PhysPageNum(p)),
            forall|p: u64|
                old(m).mem.has_frame(p) && not_table_frame(old(m).mem, old(self).root(), p)
                    && !old(m).frame_allocator.is_free(p) ==> #[trigger] frame_unchanged(
                    old(m).mem,
                    final(m).mem,
                    p,
                ),
            dirs1(final(m).mem, final(self).root()) == dirs1(old(m).mem, old(self).root()).insert(
                vpn_index(vpn.0, 0) as int,
            ),
            dirs2(final(m).mem, final(self).root()) == dirs2(old(m).mem, old(self).root()).insert(
                (vpn_index(vpn.0, 0) as int, vpn_index(vpn.0, 1) as int),
            ),
    {
        let loc = self.find_pte_create(m, vpn).unwrap();
        let ghost m1 = *m;
        proof {
            lemma_vpn_index_bounds(vpn.0);
            assert(has_dir2(m.mem, self.root(), vpn_index(vpn.0, 0) as int, vpn_index(vpn.0, 1) as int));
        }
        let pte = m.mem.read_pte(loc.0, loc.1);
        proof {
            lemma_bit_consts();
        }
        if pte.is_valid() {
            // Mapping a page that is already mapped is a fault of the caller.
            proof {
                assert(false);
            }
        }
        let e = PageTableEntry::new(ppn, flags.union(PTEFlags::V()));
        m.mem.write_pte(loc.0, loc.1, e);
        proof {
            lemma_new_fields(ppn.0, (flags.bits | 1) as u8);
            lemma_with_valid(flags.bits);
            lemma_write_leaf(m1.mem, m.mem, self.root(), vpn.0, e);
            assert forall|p: u64|
                #![trigger m.frame_allocator.is_free(p)]
                m.frame_allocator.is_free(p) implies not_table_frame(m.mem, self.root(), p) by {
                assert(not_table_frame(m1.mem, self.root(), p));
            }
            assert forall|p: u64|
                #![trigger not_table_frame(m.mem, self.root(), p)]
                not_table_frame(old(m).mem, old(self).root(), p) && !old(m).frame_allocator.is_free(p)
                    implies not_table_frame(m.mem, self.root(), p) by {
                assert(not_table_frame(m1.mem, self.root(), p));
            }
            assert forall|p: u64|
                old(m).mem.has_frame(p) && not_table_frame(old(m).mem, old(self).root(), p)
                    && !old(m).frame_allocator.is_free(p) implies #[trigger] frame_unchanged(
                    old(m).mem,
                    m.mem,
                    p,
                ) by {
                assert(frame_unchanged(old(m).mem, m1.mem, p));
                assert(not_table_frame(m1.mem, self.root(), p));
                assert(p != loc.0.0);
                assert(frame_unchanged(m1.mem, m.mem, p));
            }
        }
    }

    /// Clears the leaf entry of `vpn`, which must be valid.
    pub fn unmap(&mut self, m: &mut Machine, vpn: VirtPageNum)
        requires
            old(self).wf(old(m)),
            lookup(old(m).mem, old(self).root(), vpn.0) is Some,
        ensures
            final(self).wf(final(m)),
            final(self).root() == old(self).root(),
            final(self).owned_frames() == old(self).owned_frames(),
            mappings(final(m).mem, final(self).root()) == mappings(old(m).mem, old(self).root()).remove(
                vpn.0 & VPN_MASK,
            ),
            translate_spec(final(m).mem, final(self).root(), vpn.0) == Some(PageTableEntry { bits: 0 }),
            forall|v: u64| #[trigger] translate_spec(final(m).mem, final(self).root(), v) == if v
                & VPN_MASK == vpn.0 & VPN_MASK {
                Some(PageTableEntry { bits: 0 })
            } else {
                translate_spec(old(m).mem, old(self).root(), v)
            },
            final(m).frame_allocator == old(m).frame_allocator,
            final(m).mem.base_ppn == old(m).mem.base_ppn,
            final(m).mem.n_frames == old(m).mem.n_frames,
            forall|p: u64|
                old(m).mem.has_frame(p) && not_table_frame(old(m).mem, old(self).root(), p)
                    ==> #[trigger] frame_unchanged(old(m).mem, final(m).mem, p),
            forall|p: u64| #[trigger]
                not_table_frame(final(m).mem, final(self).root(), p) == not_table_frame(
                    old(m).mem,
                    old(self).root(),
                    p,
                ),
    {
        proof {
            lemma_vpn_index_bounds(vpn.0);
        }
        let loc = self.find_pte(&m.mem, vpn).unwrap();
        let ghost m1 = *m;
        proof {
            assert(has_dir2(m.mem, self.root(), vpn_index(vpn.0, 0) as int, vpn_index(vpn.0, 1) as int));
        }
        let pte = m.mem.read_pte(loc.0, loc.1);
        if !pte.is_valid() {
            // Unmapping a page that is not mapped is a fault of the caller.
            proof {
                assert(false);
            }
        }
        let e = PageTableEntry::empty();
        m.mem.write_pte(loc.0, loc.1, e);
        proof {
            lemma_write_leaf(m1.mem, m.mem, self.root(), vpn.0, e);
            assert forall|p: u64|
                #![trigger m.frame_allocator.is_free(p)]
                m.frame_allocator.is_free(p) implies not_table_frame(m.mem, self.root(), p) by {
                assert(not_table_frame(m1.mem, self.root(), p));
            }
            assert forall|p: u64|
                old(m).mem.has_frame(p) && not_table_frame(old(m).mem, old(self).root(), p)
                    implies #[trigger] frame_unchanged(old(m).mem, m.mem, p) by {
                assert(p != loc.0.0);
            }
        }
    }

    /// The leaf entry of `vpn`, valid or not; `None` when the walk stops before the last level.
    pub fn translate(&self, mem: &PhysMem, vpn: VirtPageNum) -> (r: Option<PageTableEntry>)
        requires
            mem.wf(),
            in_bounds(*mem, self.root()),
        ensures
            r == translate_spec(*mem, self.root(), vpn.0),
    {
        proof {
            lemma_vpn_index_bounds(vpn.0);
        }
        match self.find_pte(mem, vpn) {
            Some(loc) => {
                proof {
                    assert(has_dir2(*mem, self.root(), vpn_index(vpn.0, 0) as int, vpn_index(vpn.0, 1) as int));
                }
                Some(mem.read_pte(loc.0, loc.1))
            },
            None => None,
        }
    }

    /// Makes the table the owner of frame `f`, a frame that the allocator has
    /// handed out, so that releasing the table gives it back too.
    pub fn add_frame(&mut self, m: &Machine, f: PhysPageNum)
        requires
            old(self).wf(m),
            owned_frame_ok(m, f.0),
            !old(self).owned_frames().contains(f),
        ensures
            final(self).wf(m),
            final(self).root() == old(self).root(),
            final(self).owned_frames() == old(self).owned_frames().push(f),
    {
        self.frames.push(f);
        proof {
            assert forall|i: int| 0 <= i < self.frames@.len() implies owned_frame_ok(m, #[trigger] self.frames@[i].0) by {
                if i < old(self).frames@.len() {
                    assert(self.frames@[i] == old(self).frames@[i]);
                }
            }
            assert forall|i: int, j: int| 0 <= i < j < self.frames@.len() implies self.frames@[i] != self.frames@[j] by {
                if j == old(self).frames@.len() {
                    assert(old(self).frames@[i] == self.frames@[i]);
                }
            }
        }
    }

    /// Gives every frame that this table owns back to the allocator of `m`, in
    /// the order the table took them; this is what dropping the table means.
    pub fn release(self, m: &mut Machine)
        requires
            self.wf(old(m)),
        ensures
            final(m).wf(),
            final(m).mem == old(m).mem,
            final(m).frame_allocator.current == old(m).frame_allocator.current,
            final(m).frame_allocator.end == old(m).frame_allocator.end,
            final(m).frame_allocator.recycled@ == old(m).frame_allocator.recycled@ + self.owned_frames().map_values(
                |f: PhysPageNum| f.0,
            ),
            final(m).frame_allocator.free_count() == old(m).frame_allocator.free_count()
                + self.owned_frames().len(),
            forall|p: u64| #[trigger]
                final(m).frame_allocator.is_free(p) <==> old(m).frame_allocator.is_free(p)
                    || self.owned_frames().contains(PhysPageNum(p)),
    {
        let ghost owned = self.frames@;
        let mut i: usize = 0;
        while i < self.frames.len()
            invariant
                m.wf(),
                m.mem == old(m).mem,
                m.frame_allocator.current == old(m).frame_allocator.current,
                m.frame_allocator.end == old(m).frame_allocator.end,
                owned == self.frames@,
                owned.no_duplicates(),
                forall|j: int| 0 <= j < owned.len() ==> owned_frame_ok(old(m), #[trigger] owned[j].0),
                i <= owned.len(),
                m.frame_allocator.recycled@ == old(m).frame_allocator.recycled@ + owned.subrange(
                    0,
                    i as int,
                ).map_values(|f: PhysPageNum| f.0),
                m.frame_allocator.free_count() == old(m).frame_allocator.free_count() + i,
                forall|p: u64| #[trigger]
                    m.frame_allocator.is_free(p) <==> old(m).frame_allocator.is_free(p)
                        || owned.subrange(0, i as int).contains(PhysPageNum(p)),
            decreases owned.len() - i,
        {
            let f = self.frames[i];
            proof {
                assert(owned_frame_ok(old(m), f.0));
                if owned.subrange(0, i as int).contains(f) {
                    let j = choose|j: int| 0 <= j < i && owned.subrange(0, i as int)[j] == f;
                    assert(owned[j] == owned[i as int]);
                }
                assert(!m.frame_allocator.is_free(f.0));
                if m.frame_allocator.recycled@.contains(f.0) {
                    assert(m.frame_allocator.is_free(f.0));
                }
            }
            m.frame_dealloc(f);
            proof {
                let prev = owned.subrange(0, i as int);
                let next = owned.subrange(0, i + 1);
                assert(next =~= prev.push(f));
                assert(next.map_values(|g: PhysPageNum| g.0) =~= prev.map_values(|g: PhysPageNum| g.0).push(f.0));
                assert forall|p: u64| #[trigger]
                    m.frame_allocator.is_free(p) <==> old(m).frame_allocator.is_free(p)
                        || next.contains(PhysPageNum(p)) by {
                    if next.contains(PhysPageNum(p)) && PhysPageNum(p) != f {
                        let j = choose|j: int| 0 <= j < i + 1 && next[j] == PhysPageNum(p);
                        assert(prev[j] == PhysPageNum(p));
                    }
                    if prev.contains(PhysPageNum(p)) {
                        let j = choose|j: int| 0 <= j < i && prev[j] == PhysPageNum(p);
                        assert(next[j] == PhysPageNum(p));
                    }
                    if p == f.0 {
                        assert(next[i as int] == f);
                    }
                }
            }
            i = i + 1;
        }
        proof {
            assert(owned.subrange(0, owned.len() as int) =~= owned);
        }
    }

    /// The `satp` value that selects this table under Sv39.
    pub fn token(&self) -> (r: u64)
        ensures
            r == (8u64 << 60u64) | self.root(),
    {
        8u64 << 60 | self.root_ppn.0
    }

    /// The page number of the root directory.
    pub fn root_ppn(&self) -> (r: PhysPageNum)
        ensures
            r.0 == self.root(),
    {
        self.root_ppn
    }
}

/// Unmapping a page right after mapping it, when it was not mapped before,
/// gives back the mappings from before the two calls.
pub proof fn lemma_map_then_unmap(
    mem0: PhysMem,
    mem1: PhysMem,
    mem2: PhysMem,
    root: u64,
    vpn: u64,
    e: PageTableEntry,
)
    requires
        lookup(mem0, root, vpn) is None,
        mappings(mem1, root) == mappings(mem0, root).insert(vpn & VPN_MASK, e),
        mappings(mem2, root) == mappings(mem1, root).remove(vpn & VPN_MASK),
    ensures
        mappings(mem2, root) == mappings(mem0, root),
{
    crate::mm::pt_spec::lemma_mappings_key(mem0, root, vpn);
    assert(mappings(mem2, root) =~= mappings(mem0, root));
}

/// No frame leaks: when every frame that left the free frames between `m0`
/// and `m1` is owned by `pt`, as the operations of a table made on `m0`
/// ensure, releasing `pt` on `m1` leaves free every frame that was free on
/// `m0`.
pub proof fn lemma_release_returns_free_frames(m0: Machine, m1: Machine, m2: Machine, pt: PageTable)
    requires
        forall|p: u64|
            m0.frame_allocator.is_free(p) && !m1.frame_allocator.is_free(p)
                ==> #[trigger] pt.owned_frames().contains(PhysPageNum(p)),
        forall|p: u64| #[trigger]
            m2.frame_allocator.is_free(p) <==> m1.frame_allocator.is_free(p)
                || pt.owned_frames().contains(PhysPageNum(p)),
    ensures
        forall|p: u64| m0.frame_allocator.is_free(p) ==> #[trigger] m2.frame_allocator.is_free(p),
{
    assert forall|p: u64| m0.frame_allocator.is_free(p) implies #[trigger] m2.frame_allocator.is_free(p) by {
        if !m1.frame_allocator.is_free(p) {
            assert(pt.owned_frames().contains(PhysPageNum(p)));
        }
    }
}

/// The table named by the token of a table is that table.
pub proof fn lemma_from_token_of_token(pt: PageTable, pt2: PageTable, token: u64)
    requires
        pt.root() < 0x1000_0000_0000,
        token == (8u64 << 60u64) | pt.root(),
        pt2.root() == token & PPN_MASK,
    ensures
        pt2.root() == pt.root(),
{
    lemma_token_roundtrip(pt.root());
}

} // verus!
