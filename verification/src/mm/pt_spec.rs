//! The meaning of a three-level Sv39 page table held in physical memory, and
//! how single-entry updates change it.
use vstd::prelude::*;
use crate::mm::address::{vpn_index, lemma_vpn_index_bounds, lemma_vpn_index_eq, lemma_vpn_mask_idempotent, VPN_MASK};
use crate::mm::phys_mem::PhysMem;
use crate::mm::pte::{PageTableEntry, lemma_new_fields};

verus! {

/// Entry `i0` of the root directory.
pub open spec fn entry0(mem: PhysMem, root: u64, i0: int) -> PageTableEntry {
    mem.pte_at(root, i0)
}

/// Whether entry `i0` of the root directory points to a second-level directory.
pub open spec fn has_dir1(mem: PhysMem, root: u64, i0: int) -> bool {
    entry0(mem, root, i0).spec_is_valid()
}

/// The second-level directory that entry `i0` of the root points to.
pub open spec fn dir1(mem: PhysMem, root: u64, i0: int) -> u64 {
    entry0(mem, root, i0).spec_ppn()
}

/// Entry `i1` of the second-level directory under root entry `i0`.
pub open spec fn entry1(mem: PhysMem, root: u64, i0: int, i1: int) -> PageTableEntry {
    mem.pte_at(dir1(mem, root, i0), i1)
}

/// Whether the path `i0`, `i1` leads to a third-level directory.
pub open spec fn has_dir2(mem: PhysMem, root: u64, i0: int, i1: int) -> bool {
    has_dir1(mem, root, i0) && entry1(mem, root, i0, i1).spec_is_valid()
}

/// The third-level directory at the end of the path `i0`, `i1`.
pub open spec fn dir2(mem: PhysMem, root: u64, i0: int, i1: int) -> u64 {
    entry1(mem, root, i0, i1).spec_ppn()
}

/// The leaf entry at the end of the path `i0`, `i1`, `i2`.
pub open spec fn leaf(mem: PhysMem, root: u64, i0: int, i1: int, i2: int) -> PageTableEntry {
    mem.pte_at(dir2(mem, root, i0, i1), i2)
}

/// The leaf entry for `vpn`, when the walk reaches the last level.
pub open spec fn translate_spec(mem: PhysMem, root: u64, vpn: u64) -> Option<PageTableEntry> {
    let i0 = vpn_index(vpn, 0) as int;
    let i1 = vpn_index(vpn, 1) as int;
    let i2 = vpn_index(vpn, 2) as int;
    if has_dir2(mem, root, i0, i1) {
        Some(leaf(mem, root, i0, i1, i2))
    } else {
        None
    }
}

/// The valid leaf entry for `vpn`, if there is one.
pub open spec fn lookup(mem: PhysMem, root: u64, vpn: u64) -> Option<PageTableEntry> {
    match translate_spec(mem, root, vpn) {
        Some(e) => if e.spec_is_valid() {
            Some(e)
        } else {
            None
        },
        None => None,
    }
}

/// The pages that the table maps, by their 27-bit page number, with their leaf entries.
pub open spec fn mappings(mem: PhysMem, root: u64) -> Map<u64, PageTableEntry> {
    Map::new(
        |v: u64| v < 0x800_0000 && lookup(mem, root, v) is Some,
        |v: u64| lookup(mem, root, v)->Some_0,
    )
}

/// Every directory that the table reaches is a frame of the memory.
pub open spec fn in_bounds(mem: PhysMem, root: u64) -> bool {
    &&& mem.has_frame(root)
    &&& forall|i0: int|
        0 <= i0 < 512 && #[trigger] has_dir1(mem, root, i0) ==> mem.has_frame(dir1(mem, root, i0))
    &&& forall|i0: int, i1: int|
        0 <= i0 < 512 && 0 <= i1 < 512 && #[trigger] has_dir2(mem, root, i0, i1) ==> mem.has_frame(
            dir2(mem, root, i0, i1),
        )
}

/// The table is a tree: its directories are frames of the memory, and no two
/// paths reach the same directory.
pub open spec fn tree(mem: PhysMem, root: u64) -> bool {
    &&& in_bounds(mem, root)
    &&& forall|i0: int|
        0 <= i0 < 512 && #[trigger] has_dir1(mem, root, i0) ==> dir1(mem, root, i0) != root
    &&& forall|i0: int, i1: int|
        0 <= i0 < 512 && 0 <= i1 < 512 && #[trigger] has_dir2(mem, root, i0, i1) ==> dir2(
            mem,
            root,
            i0,
            i1,
        ) != root
    &&& forall|i0: int, j0: int|
        0 <= i0 < 512 && 0 <= j0 < 512 && i0 != j0 && #[trigger] has_dir1(mem, root, i0)
            && #[trigger] has_dir1(mem, root, j0) ==> dir1(mem, root, i0) != dir1(mem, root, j0)
    &&& forall|i0: int, i1: int, j0: int|
        0 <= i0 < 512 && 0 <= i1 < 512 && 0 <= j0 < 512 && #[trigger] has_dir2(mem, root, i0, i1)
            && #[trigger] has_dir1(mem, root, j0) ==> dir2(mem, root, i0, i1) != dir1(mem, root, j0)
    &&& forall|i0: int, i1: int, j0: int, j1: int|
        0 <= i0 < 512 && 0 <= i1 < 512 && 0 <= j0 < 512 && 0 <= j1 < 512 && (i0 != j0 || i1
            != j1) && #[trigger] has_dir2(mem, root, i0, i1) && #[trigger] has_dir2(
            mem,
            root,
            j0,
            j1,
        ) ==> dir2(mem, root, i0, i1) != dir2(mem, root, j0, j1)
}

/// Frame `p` is none of the directories of the table.
pub open spec fn not_table_frame(mem: PhysMem, root: u64, p: u64) -> bool {
    &&& p != root
    &&& forall|i0: int|
        0 <= i0 < 512 && #[trigger] has_dir1(mem, root, i0) ==> dir1(mem, root, i0) != p
    &&& forall|i0: int, i1: int|
        0 <= i0 < 512 && 0 <= i1 < 512 && #[trigger] has_dir2(mem, root, i0, i1) ==> dir2(
            mem,
            root,
            i0,
            i1,
        ) != p
}

/// How many directories must be added for the walk of `vpn` to reach the last level.
pub open spec fn frames_needed(mem: PhysMem, root: u64, vpn: u64) -> nat {
    if !has_dir1(mem, root, vpn_index(vpn, 0) as int) {
        2
    } else if !has_dir2(mem, root, vpn_index(vpn, 0) as int, vpn_index(vpn, 1) as int) {
        1
    } else {
        0
    }
}

/// The root entries that point to a second-level directory.
pub open spec fn dirs1(mem: PhysMem, root: u64) -> Set<int> {
    Set::new(|i0: int| 0 <= i0 < 512 && has_dir1(mem, root, i0))
}

/// The paths of two entries that lead to a third-level directory.
pub open spec fn dirs2(mem: PhysMem, root: u64) -> Set<(int, int)> {
    Set::new(|p: (int, int)| 0 <= p.0 < 512 && 0 <= p.1 < 512 && has_dir2(mem, root, p.0, p.1))
}

/// How many directories the walk of `vpn` lacks, when the table has the
/// directories `d1` and `d2`.
pub open spec fn dirs_needed(d1: Set<int>, d2: Set<(int, int)>, vpn: u64) -> nat {
    if !d1.contains(vpn_index(vpn, 0) as int) {
        2
    } else if !d2.contains((vpn_index(vpn, 0) as int, vpn_index(vpn, 1) as int)) {
        1
    } else {
        0
    }
}

/// The directories that a walk lacks are counted from the sets of directories.
pub proof fn lemma_frames_needed_dirs(mem: PhysMem, root: u64, vpn: u64)
    ensures
        frames_needed(mem, root, vpn) == dirs_needed(dirs1(mem, root), dirs2(mem, root), vpn),
{
    lemma_vpn_index_bounds(vpn);
}

/// Two memories agree on every entry of every frame but `f`.
pub open spec fn same_but_frame(mem1: PhysMem, mem2: PhysMem, f: u64) -> bool {
    &&& mem2.base_ppn == mem1.base_ppn
    &&& mem2.n_frames == mem1.n_frames
    &&& forall|p: u64, k: int|
        #![trigger mem2.pte_at(p, k)]
        mem1.has_frame(p) && 0 <= k < 512 && p != f ==> mem2.pte_at(p, k) == mem1.pte_at(p, k)
}

/// Changing a frame that is not a directory of the table changes nothing of the table.
pub proof fn lemma_other_frame(mem1: PhysMem, mem2: PhysMem, root: u64, f: u64)
    requires
        in_bounds(mem1, root),
        not_table_frame(mem1, root, f),
        same_but_frame(mem1, mem2, f),
    ensures
        forall|i0: int|
            0 <= i0 < 512 ==> #[trigger] has_dir1(mem2, root, i0) == has_dir1(mem1, root, i0)
                && dir1(mem2, root, i0) == dir1(mem1, root, i0),
        forall|i0: int, i1: int|
            0 <= i0 < 512 && 0 <= i1 < 512 ==> #[trigger] has_dir2(mem2, root, i0, i1) == has_dir2(
                mem1,
                root,
                i0,
                i1,
            ),
        forall|i0: int, i1: int|
            0 <= i0 < 512 && 0 <= i1 < 512 && has_dir2(mem1, root, i0, i1) ==> #[trigger] dir2(
                mem2,
                root,
                i0,
                i1,
            ) == dir2(mem1, root, i0, i1),
        forall|vpn: u64| #[trigger] translate_spec(mem2, root, vpn) == translate_spec(mem1, root, vpn),
        mappings(mem2, root) == mappings(mem1, root),
        in_bounds(mem2, root),
        tree(mem1, root) ==> tree(mem2, root),
        forall|p: u64| #[trigger] not_table_frame(mem2, root, p) == not_table_frame(mem1, root, p),
        dirs1(mem2, root) == dirs1(mem1, root),
        dirs2(mem2, root) == dirs2(mem1, root),
{
    assert forall|i0: int|
        0 <= i0 < 512 implies #[trigger] has_dir1(mem2, root, i0) == has_dir1(mem1, root, i0)
            && dir1(mem2, root, i0) == dir1(mem1, root, i0) by {
        assert(mem2.pte_at(root, i0) == mem1.pte_at(root, i0));
    }
    assert forall|i0: int, i1: int|
        0 <= i0 < 512 && 0 <= i1 < 512 implies #[trigger] has_dir2(mem2, root, i0, i1) == has_dir2(
            mem1,
            root,
            i0,
            i1,
        ) && (has_dir2(mem1, root, i0, i1) ==> dir2(mem2, root, i0, i1) == dir2(mem1, root, i0, i1))
        by {
        assert(has_dir1(mem2, root, i0) == has_dir1(mem1, root, i0));
        if has_dir1(mem1, root, i0) {
            let d = dir1(mem1, root, i0);
            assert(mem2.pte_at(d, i1) == mem1.pte_at(d, i1));
        }
    }
    assert forall|vpn: u64| #[trigger]
        translate_spec(mem2, root, vpn) == translate_spec(mem1, root, vpn) by {
        lemma_vpn_index_bounds(vpn);
        let i0 = vpn_index(vpn, 0) as int;
        let i1 = vpn_index(vpn, 1) as int;
        let i2 = vpn_index(vpn, 2) as int;
        assert(has_dir2(mem2, root, i0, i1) == has_dir2(mem1, root, i0, i1));
        if has_dir2(mem1, root, i0, i1) {
            let d = dir2(mem1, root, i0, i1);
            assert(dir2(mem2, root, i0, i1) == d);
            assert(mem2.pte_at(d, i2) == mem1.pte_at(d, i2));
        }
    }
    assert(dirs1(mem2, root) =~= dirs1(mem1, root));
    assert(dirs2(mem2, root) =~= dirs2(mem1, root)) by {
        assert forall|q: (int, int)| #[trigger] dirs2(mem2, root).contains(q) == dirs2(mem1, root).contains(q) by {
            if 0 <= q.0 < 512 && 0 <= q.1 < 512 {
                assert(has_dir2(mem2, root, q.0, q.1) == has_dir2(mem1, root, q.0, q.1));
            }
        }
    }
    assert(mappings(mem2, root) =~= mappings(mem1, root)) by {
        assert forall|v: u64| #[trigger] lookup(mem2, root, v) == lookup(mem1, root, v) by {
            assert(translate_spec(mem2, root, v) == translate_spec(mem1, root, v));
        }
    }
    assert forall|p: u64| #[trigger]
        not_table_frame(mem2, root, p) == not_table_frame(mem1, root, p) by {
        if not_table_frame(mem1, root, p) {
            assert forall|i0: int|
                0 <= i0 < 512 && #[trigger] has_dir1(mem2, root, i0) implies dir1(mem2, root, i0)
                    != p by {
                assert(has_dir1(mem1, root, i0));
            }
            assert forall|i0: int, i1: int|
                0 <= i0 < 512 && 0 <= i1 < 512 && #[trigger] has_dir2(
                    mem2,
                    root,
                    i0,
                    i1,
                ) implies dir2(mem2, root, i0, i1) != p by {
                assert(has_dir2(mem1, root, i0, i1));
            }
        }
        if not_table_frame(mem2, root, p) {
            assert forall|i0: int|
                0 <= i0 < 512 && #[trigger] has_dir1(mem1, root, i0) implies dir1(mem1, root, i0)
                    != p by {
                assert(has_dir1(mem2, root, i0));
            }
            assert forall|i0: int, i1: int|
                0 <= i0 < 512 && 0 <= i1 < 512 && #[trigger] has_dir2(
                    mem1,
                    root,
                    i0,
                    i1,
                ) implies dir2(mem1, root, i0, i1) != p by {
                assert(has_dir2(mem2, root, i0, i1));
            }
        }
    }
    assert forall|i0: int, i1: int|
        0 <= i0 < 512 && 0 <= i1 < 512 && #[trigger] has_dir2(mem2, root, i0, i1) implies mem2.has_frame(
            dir2(mem2, root, i0, i1),
        ) by {
        assert(has_dir2(mem1, root, i0, i1));
    }
    if tree(mem1, root) {
        assert forall|i0: int, i1: int, j0: int, j1: int|
            0 <= i0 < 512 && 0 <= i1 < 512 && 0 <= j0 < 512 && 0 <= j1 < 512 && (i0 != j0 || i1
                != j1) && #[trigger] has_dir2(mem2, root, i0, i1) && #[trigger] has_dir2(
                mem2,
                root,
                j0,
                j1,
            ) implies dir2(mem2, root, i0, i1) != dir2(mem2, root, j0, j1) by {
            assert(has_dir2(mem1, root, i0, i1));
            assert(has_dir2(mem1, root, j0, j1));
        }
        assert forall|i0: int, i1: int, j0: int|
            0 <= i0 < 512 && 0 <= i1 < 512 && 0 <= j0 < 512 && #[trigger] has_dir2(
                mem2,
                root,
                i0,
                i1,
            ) && #[trigger] has_dir1(mem2, root, j0) implies dir2(mem2, root, i0, i1) != dir1(
                mem2,
                root,
                j0,
            ) by {
            assert(has_dir2(mem1, root, i0, i1));
        }
        assert forall|i0: int, i1: int|
            0 <= i0 < 512 && 0 <= i1 < 512 && #[trigger] has_dir2(mem2, root, i0, i1) implies dir2(
                mem2,
                root,
                i0,
                i1,
            ) != root by {
            assert(has_dir2(mem1, root, i0, i1));
        }
    }
}

/// Changing only frames that are not directories of the table changes none of
/// its translations.
pub proof fn lemma_table_frames_unchanged(mem1: PhysMem, mem2: PhysMem, root: u64)
    requires
        in_bounds(mem1, root),
        mem2.base_ppn == mem1.base_ppn,
        mem2.n_frames == mem1.n_frames,
        forall|p: u64, k: int|
            #![trigger mem2.pte_at(p, k)]
            mem1.has_frame(p) && 0 <= k < 512 && !not_table_frame(mem1, root, p) ==> mem2.pte_at(p, k)
                == mem1.pte_at(p, k),
    ensures
        forall|vpn: u64| #[trigger] translate_spec(mem2, root, vpn) == translate_spec(mem1, root, vpn),
        in_bounds(mem2, root),
{
    assert forall|i0: int|
        0 <= i0 < 512 implies #[trigger] has_dir1(mem2, root, i0) == has_dir1(mem1, root, i0)
            && dir1(mem2, root, i0) == dir1(mem1, root, i0) by {
        assert(!not_table_frame(mem1, root, root));
        assert(mem2.pte_at(root, i0) == mem1.pte_at(root, i0));
    }
    assert forall|i0: int, i1: int|
        0 <= i0 < 512 && 0 <= i1 < 512 implies #[trigger] has_dir2(mem2, root, i0, i1) == has_dir2(
            mem1,
            root,
            i0,
            i1,
        ) && (has_dir2(mem1, root, i0, i1) ==> dir2(mem2, root, i0, i1) == dir2(mem1, root, i0, i1))
        by {
        assert(has_dir1(mem2, root, i0) == has_dir1(mem1, root, i0));
        if has_dir1(mem1, root, i0) {
            let d = dir1(mem1, root, i0);
            assert(!not_table_frame(mem1, root, d));
            assert(mem2.pte_at(d, i1) == mem1.pte_at(d, i1));
        }
    }
    assert forall|vpn: u64| #[trigger]
        translate_spec(mem2, root, vpn) == translate_spec(mem1, root, vpn) by {
        lemma_vpn_index_bounds(vpn);
        let i0 = vpn_index(vpn, 0) as int;
        let i1 = vpn_index(vpn, 1) as int;
        let i2 = vpn_index(vpn, 2) as int;
        assert(has_dir2(mem2, root, i0, i1) == has_dir2(mem1, root, i0, i1));
        if has_dir2(mem1, root, i0, i1) {
            let d = dir2(mem1, root, i0, i1);
            assert(!not_table_frame(mem1, root, d));
            assert(dir2(mem2, root, i0, i1) == d);
            assert(mem2.pte_at(d, i2) == mem1.pte_at(d, i2));
        }
    }
    assert forall|i0: int, i1: int|
        0 <= i0 < 512 && 0 <= i1 < 512 && #[trigger] has_dir2(mem2, root, i0, i1) implies mem2.has_frame(
            dir2(mem2, root, i0, i1),
        ) by {
        assert(has_dir2(mem1, root, i0, i1));
    }
}

/// A page is in the mappings, by its low 27 bits, exactly when its walk ends
/// in a valid leaf entry.
pub proof fn lemma_mappings_key(mem: PhysMem, root: u64, v: u64)
    ensures
        mappings(mem, root).contains_key(v & VPN_MASK) <==> lookup(mem, root, v) is Some,
        lookup(mem, root, v & VPN_MASK) == lookup(mem, root, v),
{
    lemma_vpn_mask_idempotent(v);
    lemma_vpn_index_eq(v, v & VPN_MASK);
}

/// Facts on the constant bits used by the table.
pub proof fn lemma_bit_consts()
    ensures
        0u64 & 1u64 == 0,
        1u8 & 1u8 != 0,
{
    assert(0u64 & 1u64 == 0 && 1u8 & 1u8 != 0) by (bit_vector);
}

/// Pointing root entry `i0`, which was not valid, to a fresh zero-filled frame
/// `f` keeps the table a tree and changes none of its mappings.
pub proof fn lemma_add_dir1(mem1: PhysMem, mem2: PhysMem, root: u64, i0: int, f: u64)
    requires
        mem1.wf(),
        tree(mem1, root),
        0 <= i0 < 512,
        !has_dir1(mem1, root, i0),
        mem1.has_frame(f),
        not_table_frame(mem1, root, f),
        mem2.base_ppn == mem1.base_ppn,
        mem2.n_frames == mem1.n_frames,
        forall|p: u64, k: int|
            #![trigger mem2.pte_at(p, k)]
            mem1.has_frame(p) && 0 <= k < 512 ==> mem2.pte_at(p, k) == if p == root && k == i0 {
                PageTableEntry::spec_new(f, 1)
            } else if p == f {
                PageTableEntry { bits: 0 }
            } else {
                mem1.pte_at(p, k)
            },
    ensures
        tree(mem2, root),
        has_dir1(mem2, root, i0),
        dir1(mem2, root, i0) == f,
        forall|i1: int| 0 <= i1 < 512 ==> !#[trigger] has_dir2(mem2, root, i0, i1),
        mappings(mem2, root) == mappings(mem1, root),
        forall|p: u64|
            #![trigger not_table_frame(mem2, root, p)]
            not_table_frame(mem1, root, p) && p != f ==> not_table_frame(mem2, root, p),
        dirs1(mem2, root) == dirs1(mem1, root).insert(i0),
        dirs2(mem2, root) == dirs2(mem1, root),
{
    lemma_new_fields(f, 1);
    lemma_bit_consts();
    assert(mem2.pte_at(root, i0) == PageTableEntry::spec_new(f, 1));
    assert(has_dir1(mem2, root, i0) && dir1(mem2, root, i0) == f);
    assert forall|i1: int| 0 <= i1 < 512 implies !#[trigger] has_dir2(mem2, root, i0, i1) by {
        assert(mem2.pte_at(f, i1) == PageTableEntry { bits: 0 });
    }
    // The rest of the table is as it was.
    assert forall|j0: int|
        0 <= j0 < 512 && j0 != i0 implies #[trigger] has_dir1(mem2, root, j0) == has_dir1(
            mem1,
            root,
            j0,
        ) && dir1(mem2, root, j0) == dir1(mem1, root, j0) by {
        assert(mem2.pte_at(root, j0) == mem1.pte_at(root, j0));
    }
    assert forall|j0: int, j1: int|
        0 <= j0 < 512 && 0 <= j1 < 512 && j0 != i0 implies #[trigger] has_dir2(mem2, root, j0, j1)
            == has_dir2(mem1, root, j0, j1) && (has_dir2(mem1, root, j0, j1) ==> dir2(
            mem2,
            root,
            j0,
            j1,
        ) == dir2(mem1, root, j0, j1)) by {
        assert(has_dir1(mem2, root, j0) == has_dir1(mem1, root, j0));
        if has_dir1(mem1, root, j0) {
            let d = dir1(mem1, root, j0);
            assert(d != root && d != f);
            assert(mem2.pte_at(d, j1) == mem1.pte_at(d, j1));
        }
    }
    assert forall|j0: int, j1: int|
        0 <= j0 < 512 && 0 <= j1 < 512 && #[trigger] has_dir2(mem2, root, j0, j1) implies j0 != i0
            && has_dir2(mem1, root, j0, j1) && dir2(mem2, root, j0, j1) == dir2(mem1, root, j0, j1)
        by {
        if j0 == i0 {
            assert(!has_dir2(mem2, root, i0, j1));
        }
    }
    assert(dirs1(mem2, root) =~= dirs1(mem1, root).insert(i0));
    assert(dirs2(mem2, root) =~= dirs2(mem1, root)) by {
        assert forall|q: (int, int)| #[trigger] dirs2(mem2, root).contains(q) == dirs2(mem1, root).contains(q) by {
            if 0 <= q.0 < 512 && 0 <= q.1 < 512 {
                if q.0 == i0 {
                    assert(!has_dir2(mem2, root, i0, q.1));
                } else {
                    assert(has_dir2(mem2, root, q.0, q.1) == has_dir2(mem1, root, q.0, q.1));
                }
            }
        }
    }
    assert forall|v: u64| #[trigger] translate_spec(mem2, root, v) == translate_spec(mem1, root, v) by {
        lemma_vpn_index_bounds(v);
        let j0 = vpn_index(v, 0) as int;
        let j1 = vpn_index(v, 1) as int;
        let j2 = vpn_index(v, 2) as int;
        if j0 == i0 {
            assert(!has_dir2(mem2, root, i0, j1));
        } else if has_dir2(mem1, root, j0, j1) {
            let d = dir2(mem1, root, j0, j1);
            assert(d != root && d != f);
            assert(mem2.pte_at(d, j2) == mem1.pte_at(d, j2));
        }
    }
    assert(mappings(mem2, root) =~= mappings(mem1, root)) by {
        assert forall|v: u64| #[trigger] lookup(mem2, root, v) == lookup(mem1, root, v) by {
            assert(translate_spec(mem2, root, v) == translate_spec(mem1, root, v));
        }
    }
    assert forall|p: u64|
        #![trigger not_table_frame(mem2, root, p)]
        not_table_frame(mem1, root, p) && p != f implies not_table_frame(mem2, root, p) by {
        assert forall|j0: int|
            0 <= j0 < 512 && #[trigger] has_dir1(mem2, root, j0) implies dir1(mem2, root, j0) != p by {
            if j0 != i0 {
                assert(has_dir1(mem1, root, j0));
            }
        }
        assert forall|j0: int, j1: int|
            0 <= j0 < 512 && 0 <= j1 < 512 && #[trigger] has_dir2(mem2, root, j0, j1) implies dir2(
                mem2,
                root,
                j0,
                j1,
            ) != p by {
            assert(has_dir2(mem1, root, j0, j1));
        }
    }
    // The table is still a tree.
    assert forall|j0: int|
        0 <= j0 < 512 && #[trigger] has_dir1(mem2, root, j0) implies mem2.has_frame(
            dir1(mem2, root, j0),
        ) && dir1(mem2, root, j0) != root by {
        if j0 != i0 {
            assert(has_dir1(mem1, root, j0));
        }
    }
    assert forall|j0: int, j1: int|
        0 <= j0 < 512 && 0 <= j1 < 512 && #[trigger] has_dir2(mem2, root, j0, j1) implies mem2.has_frame(
            dir2(mem2, root, j0, j1),
        ) && dir2(mem2, root, j0, j1) != root by {
        assert(has_dir2(mem1, root, j0, j1));
    }
    assert forall|a0: int, b0: int|
        0 <= a0 < 512 && 0 <= b0 < 512 && a0 != b0 && #[trigger] has_dir1(mem2, root, a0)
            && #[trigger] has_dir1(mem2, root, b0) implies dir1(mem2, root, a0) != dir1(
            mem2,
            root,
            b0,
        ) by {
        if a0 != i0 {
            assert(has_dir1(mem1, root, a0));
        }
        if b0 != i0 {
            assert(has_dir1(mem1, root, b0));
        }
    }
    assert forall|a0: int, a1: int, b0: int|
        0 <= a0 < 512 && 0 <= a1 < 512 && 0 <= b0 < 512 && #[trigger] has_dir2(mem2, root, a0, a1)
            && #[trigger] has_dir1(mem2, root, b0) implies dir2(mem2, root, a0, a1) != dir1(
            mem2,
            root,
            b0,
        ) by {
        assert(has_dir2(mem1, root, a0, a1));
        if b0 != i0 {
            assert(has_dir1(mem1, root, b0));
        }
    }
    assert forall|a0: int, a1: int, b0: int, b1: int|
        0 <= a0 < 512 && 0 <= a1 < 512 && 0 <= b0 < 512 && 0 <= b1 < 512 && (a0 != b0 || a1
            != b1) && #[trigger] has_dir2(mem2, root, a0, a1) && #[trigger] has_dir2(
            mem2,
            root,
            b0,
            b1,
        ) implies dir2(mem2, root, a0, a1) != dir2(mem2, root, b0, b1) by {
        assert(has_dir2(mem1, root, a0, a1));
        assert(has_dir2(mem1, root, b0, b1));
    }
}

/// Pointing entry `i1` of the directory under root entry `i0`, which was not
/// valid, to a fresh zero-filled frame `g` keeps the table a tree and changes
/// none of its mappings.
pub proof fn lemma_add_dir2(mem1: PhysMem, mem2: PhysMem, root: u64, i0: int, i1: int, g: u64)
    requires
        mem1.wf(),
        tree(mem1, root),
        0 <= i0 < 512,
        0 <= i1 < 512,
        has_dir1(mem1, root, i0),
        !has_dir2(mem1, root, i0, i1),
        mem1.has_frame(g),
        not_table_frame(mem1, root, g),
        mem2.base_ppn == mem1.base_ppn,
        mem2.n_frames == mem1.n_frames,
        forall|p: u64, k: int|
            #![trigger mem2.pte_at(p, k)]
            mem1.has_frame(p) && 0 <= k < 512 ==> mem2.pte_at(p, k) == if p == dir1(mem1, root, i0)
                && k == i1 {
                PageTableEntry::spec_new(g, 1)
            } else if p == g {
                PageTableEntry { bits: 0 }
            } else {
                mem1.pte_at(p, k)
            },
    ensures
        tree(mem2, root),
        has_dir2(mem2, root, i0, i1),
        dir2(mem2, root, i0, i1) == g,
        forall|i2: int| 0 <= i2 < 512 ==> !(#[trigger] leaf(mem2, root, i0, i1, i2)).spec_is_valid(),
        mappings(mem2, root) == mappings(mem1, root),
        forall|p: u64|
            #![trigger not_table_frame(mem2, root, p)]
            not_table_frame(mem1, root, p) && p != g ==> not_table_frame(mem2, root, p),
        dirs1(mem2, root) == dirs1(mem1, root),
        dirs2(mem2, root) == dirs2(mem1, root).insert((i0, i1)),
{
    lemma_new_fields(g, 1);
    lemma_bit_consts();
    let d1 = dir1(mem1, root, i0);
    assert(d1 != root && d1 != g && mem1.has_frame(d1));
    assert(mem2.pte_at(root, i0) == mem1.pte_at(root, i0));
    assert(mem2.pte_at(d1, i1) == PageTableEntry::spec_new(g, 1));
    assert(has_dir2(mem2, root, i0, i1) && dir2(mem2, root, i0, i1) == g);
    assert forall|i2: int| 0 <= i2 < 512 implies !(#[trigger] leaf(mem2, root, i0, i1, i2)).spec_is_valid() by {
        assert(mem2.pte_at(g, i2) == PageTableEntry { bits: 0 });
    }
    // The directories other than the one at `i0`, `i1` are as they were.
    assert forall|j0: int|
        0 <= j0 < 512 implies #[trigger] has_dir1(mem2, root, j0) == has_dir1(mem1, root, j0)
            && dir1(mem2, root, j0) == dir1(mem1, root, j0) by {
        assert(mem2.pte_at(root, j0) == mem1.pte_at(root, j0));
    }
    assert forall|j0: int, j1: int|
        0 <= j0 < 512 && 0 <= j1 < 512 && (j0 != i0 || j1 != i1) implies #[trigger] has_dir2(
            mem2,
            root,
            j0,
            j1,
        ) == has_dir2(mem1, root, j0, j1) && (has_dir2(mem1, root, j0, j1) ==> dir2(
            mem2,
            root,
            j0,
            j1,
        ) == dir2(mem1, root, j0, j1)) by {
        assert(has_dir1(mem2, root, j0) == has_dir1(mem1, root, j0));
        if has_dir1(mem1, root, j0) {
            let d = dir1(mem1, root, j0);
            assert(d != g);
            if j0 != i0 {
                assert(d != d1);
            }
            assert(mem2.pte_at(d, j1) == mem1.pte_at(d, j1));
        }
    }
    assert(dirs1(mem2, root) =~= dirs1(mem1, root));
    assert(dirs2(mem2, root) =~= dirs2(mem1, root).insert((i0, i1))) by {
        assert forall|q: (int, int)| #[trigger] dirs2(mem2, root).contains(q) == dirs2(mem1, root).insert((i0, i1)).contains(q) by {
            if 0 <= q.0 < 512 && 0 <= q.1 < 512 && (q.0 != i0 || q.1 != i1) {
                assert(has_dir2(mem2, root, q.0, q.1) == has_dir2(mem1, root, q.0, q.1));
            }
        }
    }
    assert forall|v: u64| #[trigger] lookup(mem2, root, v) == lookup(mem1, root, v) by {
        lemma_vpn_index_bounds(v);
        let j0 = vpn_index(v, 0) as int;
        let j1 = vpn_index(v, 1) as int;
        let j2 = vpn_index(v, 2) as int;
        if j0 == i0 && j1 == i1 {
            assert(!leaf(mem2, root, i0, i1, j2).spec_is_valid());
        } else if has_dir2(mem1, root, j0, j1) {
            let d = dir2(mem1, root, j0, j1);
            assert(d != root && d != g && d != d1);
            assert(mem2.pte_at(d, j2) == mem1.pte_at(d, j2));
        }
    }
    assert(mappings(mem2, root) =~= mappings(mem1, root));
    assert forall|p: u64|
        #![trigger not_table_frame(mem2, root, p)]
        not_table_frame(mem1, root, p) && p != g implies not_table_frame(mem2, root, p) by {
        assert forall|j0: int|
            0 <= j0 < 512 && #[trigger] has_dir1(mem2, root, j0) implies dir1(mem2, root, j0) != p by {
            assert(has_dir1(mem1, root, j0));
        }
        assert forall|j0: int, j1: int|
            0 <= j0 < 512 && 0 <= j1 < 512 && #[trigger] has_dir2(mem2, root, j0, j1) implies dir2(
                mem2,
                root,
                j0,
                j1,
            ) != p by {
            if j0 != i0 || j1 != i1 {
                assert(has_dir2(mem1, root, j0, j1));
            }
        }
    }
    // The table is still a tree.
    assert forall|j0: int|
        0 <= j0 < 512 && #[trigger] has_dir1(mem2, root, j0) implies mem2.has_frame(
            dir1(mem2, root, j0),
        ) && dir1(mem2, root, j0) != root by {
        assert(has_dir1(mem1, root, j0));
    }
    assert forall|j0: int, j1: int|
        0 <= j0 < 512 && 0 <= j1 < 512 && #[trigger] has_dir2(mem2, root, j0, j1) implies mem2.has_frame(
            dir2(mem2, root, j0, j1),
        ) && dir2(mem2, root, j0, j1) != root by {
        if j0 != i0 || j1 != i1 {
            assert(has_dir2(mem1, root, j0, j1));
        }
    }
    assert forall|a0: int, b0: int|
        0 <= a0 < 512 && 0 <= b0 < 512 && a0 != b0 && #[trigger] has_dir1(mem2, root, a0)
            && #[trigger] has_dir1(mem2, root, b0) implies dir1(mem2, root, a0) != dir1(
            mem2,
            root,
            b0,
        ) by {
        assert(has_dir1(mem1, root, a0));
        assert(has_dir1(mem1, root, b0));
    }
    assert forall|a0: int, a1: int, b0: int|
        0 <= a0 < 512 && 0 <= a1 < 512 && 0 <= b0 < 512 && #[trigger] has_dir2(mem2, root, a0, a1)
            && #[trigger] has_dir1(mem2, root, b0) implies dir2(mem2, root, a0, a1) != dir1(
            mem2,
            root,
            b0,
        ) by {
        assert(has_dir1(mem1, root, b0));
        if a0 != i0 || a1 != i1 {
            assert(has_dir2(mem1, root, a0, a1));
        }
    }
    assert forall|a0: int, a1: int, b0: int, b1: int|
        0 <= a0 < 512 && 0 <= a1 < 512 && 0 <= b0 < 512 && 0 <= b1 < 512 && (a0 != b0 || a1
            != b1) && #[trigger] has_dir2(mem2, root, a0, a1) && #[trigger] has_dir2(
            mem2,
            root,
            b0,
            b1,
        ) implies dir2(mem2, root, a0, a1) != dir2(mem2, root, b0, b1) by {
        if a0 != i0 || a1 != i1 {
            assert(has_dir2(mem1, root, a0, a1));
        }
        if b0 != i0 || b1 != i1 {
            assert(has_dir2(mem1, root, b0, b1));
        }
    }
}

/// Storing `e` in the leaf entry of `vpn`, whose walk reaches the last level,
/// keeps the table a tree, makes `e` the leaf of `vpn`, and leaves the leaf of
/// every page that does not share the low 27 bits of `vpn` as it was.
pub proof fn lemma_write_leaf(mem1: PhysMem, mem2: PhysMem, root: u64, vpn: u64, e: PageTableEntry)
    requires
        mem1.wf(),
        tree(mem1, root),
        has_dir2(mem1, root, vpn_index(vpn, 0) as int, vpn_index(vpn, 1) as int),
        mem2.base_ppn == mem1.base_ppn,
        mem2.n_frames == mem1.n_frames,
        forall|p: u64, k: int|
            #![trigger mem2.pte_at(p, k)]
            mem1.has_frame(p) && 0 <= k < 512 ==> mem2.pte_at(p, k) == if p == dir2(
                mem1,
                root,
                vpn_index(vpn, 0) as int,
                vpn_index(vpn, 1) as int,
            ) && k == vpn_index(vpn, 2) as int {
                e
            } else {
                mem1.pte_at(p, k)
            },
    ensures
        tree(mem2, root),
        forall|v: u64| #[trigger]
            translate_spec(mem2, root, v) == if v & VPN_MASK == vpn & VPN_MASK {
                Some(e)
            } else {
                translate_spec(mem1, root, v)
            },
        mappings(mem2, root) == if e.spec_is_valid() {
            mappings(mem1, root).insert(vpn & VPN_MASK, e)
        } else {
            mappings(mem1, root).remove(vpn & VPN_MASK)
        },
        forall|p: u64| #[trigger] not_table_frame(mem2, root, p) == not_table_frame(mem1, root, p),
        frames_needed(mem2, root, vpn) == 0,
        dirs1(mem2, root) == dirs1(mem1, root),
        dirs2(mem2, root) == dirs2(mem1, root),
{
    lemma_vpn_index_bounds(vpn);
    let i0 = vpn_index(vpn, 0) as int;
    let i1 = vpn_index(vpn, 1) as int;
    let i2 = vpn_index(vpn, 2) as int;
    let d2 = dir2(mem1, root, i0, i1);
    assert(mem1.has_frame(d2) && d2 != root);
    // Every directory is as it was: the changed entry lies in a leaf directory.
    assert forall|j0: int|
        0 <= j0 < 512 implies #[trigger] has_dir1(mem2, root, j0) == has_dir1(mem1, root, j0)
            && dir1(mem2, root, j0) == dir1(mem1, root, j0) by {
        assert(mem2.pte_at(root, j0) == mem1.pte_at(root, j0));
    }
    assert forall|j0: int, j1: int|
        0 <= j0 < 512 && 0 <= j1 < 512 implies #[trigger] has_dir2(mem2, root, j0, j1) == has_dir2(
            mem1,
            root,
            j0,
            j1,
        ) && (has_dir2(mem1, root, j0, j1) ==> dir2(mem2, root, j0, j1) == dir2(mem1, root, j0, j1))
        by {
        assert(has_dir1(mem2, root, j0) == has_dir1(mem1, root, j0));
        if has_dir1(mem1, root, j0) {
            let d = dir1(mem1, root, j0);
            assert(d != d2);
            assert(mem2.pte_at(d, j1) == mem1.pte_at(d, j1));
        }
    }
    assert(dirs1(mem2, root) =~= dirs1(mem1, root));
    assert(dirs2(mem2, root) =~= dirs2(mem1, root)) by {
        assert forall|q: (int, int)| #[trigger] dirs2(mem2, root).contains(q) == dirs2(mem1, root).contains(q) by {
            if 0 <= q.0 < 512 && 0 <= q.1 < 512 {
                assert(has_dir2(mem2, root, q.0, q.1) == has_dir2(mem1, root, q.0, q.1));
            }
        }
    }
    assert forall|v: u64| #[trigger]
        translate_spec(mem2, root, v) == if v & VPN_MASK == vpn & VPN_MASK {
            Some(e)
        } else {
            translate_spec(mem1, root, v)
        } by {
        lemma_vpn_index_bounds(v);
        lemma_vpn_index_eq(v, vpn);
        let j0 = vpn_index(v, 0) as int;
        let j1 = vpn_index(v, 1) as int;
        let j2 = vpn_index(v, 2) as int;
        if has_dir2(mem1, root, j0, j1) {
            let d = dir2(mem1, root, j0, j1);
            if j0 != i0 || j1 != i1 {
                assert(d != d2);
            }
            assert(mem2.pte_at(d, j2) == if d == d2 && j2 == i2 {
                e
            } else {
                mem1.pte_at(d, j2)
            });
        }
    }
    lemma_vpn_mask_idempotent(vpn);
    let key = vpn & VPN_MASK;
    let target = if e.spec_is_valid() {
        mappings(mem1, root).insert(key, e)
    } else {
        mappings(mem1, root).remove(key)
    };
    assert(mappings(mem2, root) =~= target) by {
        assert forall|v: u64| #[trigger] mappings(mem2, root).contains_key(v) == target.contains_key(v)
            && (target.contains_key(v) ==> mappings(mem2, root)[v] == target[v]) by {
            lemma_vpn_mask_idempotent(v);
            assert(translate_spec(mem2, root, v) == if v & VPN_MASK == vpn & VPN_MASK {
                Some(e)
            } else {
                translate_spec(mem1, root, v)
            });
            if v < 0x800_0000 {
                assert(v & VPN_MASK == v);
            }
        }
    }
    assert forall|p: u64| #[trigger] not_table_frame(mem2, root, p) == not_table_frame(mem1, root, p) by {
        if not_table_frame(mem1, root, p) {
            assert forall|j0: int|
                0 <= j0 < 512 && #[trigger] has_dir1(mem2, root, j0) implies dir1(mem2, root, j0) != p by {
                assert(has_dir1(mem1, root, j0));
            }
            assert forall|j0: int, j1: int|
                0 <= j0 < 512 && 0 <= j1 < 512 && #[trigger] has_dir2(mem2, root, j0, j1) implies dir2(
                    mem2,
                    root,
                    j0,
                    j1,
                ) != p by {
                assert(has_dir2(mem1, root, j0, j1));
            }
        }
        if not_table_frame(mem2, root, p) {
            assert forall|j0: int|
                0 <= j0 < 512 && #[trigger] has_dir1(mem1, root, j0) implies dir1(mem1, root, j0) != p by {
                assert(has_dir1(mem2, root, j0));
            }
            assert forall|j0: int, j1: int|
                0 <= j0 < 512 && 0 <= j1 < 512 && #[trigger] has_dir2(mem1, root, j0, j1) implies dir2(
                    mem1,
                    root,
                    j0,
                    j1,
                ) != p by {
                assert(has_dir2(mem2, root, j0, j1));
            }
        }
    }
    // The table is still a tree.
    assert forall|j0: int|
        0 <= j0 < 512 && #[trigger] has_dir1(mem2, root, j0) implies mem2.has_frame(
            dir1(mem2, root, j0),
        ) && dir1(mem2, root, j0) != root by {
        assert(has_dir1(mem1, root, j0));
    }
    assert forall|j0: int, j1: int|
        0 <= j0 < 512 && 0 <= j1 < 512 && #[trigger] has_dir2(mem2, root, j0, j1) implies mem2.has_frame(
            dir2(mem2, root, j0, j1),
        ) && dir2(mem2, root, j0, j1) != root by {
        assert(has_dir2(mem1, root, j0, j1));
    }
    assert forall|a0: int, b0: int|
        0 <= a0 < 512 && 0 <= b0 < 512 && a0 != b0 && #[trigger] has_dir1(mem2, root, a0)
            && #[trigger] has_dir1(mem2, root, b0) implies dir1(mem2, root, a0) != dir1(
            mem2,
            root,
            b0,
        ) by {
        assert(has_dir1(mem1, root, a0));
        assert(has_dir1(mem1, root, b0));
    }
    assert forall|a0: int, a1: int, b0: int|
        0 <= a0 < 512 && 0 <= a1 < 512 && 0 <= b0 < 512 && #[trigger] has_dir2(mem2, root, a0, a1)
            && #[trigger] has_dir1(mem2, root, b0) implies dir2(mem2, root, a0, a1) != dir1(
            mem2,
            root,
            b0,
        ) by {
        assert(has_dir1(mem1, root, b0));
        assert(has_dir2(mem1, root, a0, a1));
    }
    assert forall|a0: int, a1: int, b0: int, b1: int|
        0 <= a0 < 512 && 0 <= a1 < 512 && 0 <= b0 < 512 && 0 <= b1 < 512 && (a0 != b0 || a1
            != b1) && #[trigger] has_dir2(mem2, root, a0, a1) && #[trigger] has_dir2(
            mem2,
            root,
            b0,
            b1,
        ) implies dir2(mem2, root, a0, a1) != dir2(mem2, root, b0, b1) by {
        assert(has_dir2(mem1, root, a0, a1));
        assert(has_dir2(mem1, root, b0, b1));
    }
    assert(has_dir2(mem2, root, i0, i1));
}

} // verus!
