use rcore_os::mm::address::{PhysPageNum, VirtAddr, VirtPageNum};
use rcore_os::mm::machine::Machine;
use rcore_os::mm::page_table::PageTable;
use rcore_os::mm::phys_mem::PhysMem;
use rcore_os::mm::pte::{PTEFlags, PageTableEntry};

fn machine(frames: u64) -> Machine {
    Machine::new(PhysMem::new(0x80000, frames), PhysPageNum(0x80000))
}

fn rwu() -> PTEFlags {
    PTEFlags::R().union(PTEFlags::W()).union(PTEFlags::U())
}

#[test]
fn pte_new_gives_back_ppn_and_flags() {
    let e = PageTableEntry::new(PhysPageNum(0x80123), rwu().union(PTEFlags::V()));
    assert_eq!(e.bits, (0x80123 << 10) | 0x17);
    assert_eq!(e.ppn(), PhysPageNum(0x80123));
    assert_eq!(e.flags().bits(), 0x17);
    assert!(e.is_valid());
    assert!(e.readable());
    assert!(e.writable());
    assert!(!e.executable());
}

#[test]
fn pte_empty_is_not_valid() {
    let e = PageTableEntry::empty();
    assert_eq!(e.bits, 0);
    assert!(!e.is_valid());
    assert!(!e.readable());
    assert_eq!(e.ppn(), PhysPageNum(0));
    assert_eq!(e.flags(), PTEFlags::empty());
}

#[test]
fn pte_ppn_keeps_44_bits() {
    let e = PageTableEntry { bits: u64::MAX };
    assert_eq!(e.ppn(), PhysPageNum(0xfff_ffff_ffff));
    assert_eq!(e.flags().bits(), 0xff);
    assert!(e.executable());
}

#[test]
fn pte_flags_set_operations() {
    let f = PTEFlags::R().union(PTEFlags::X());
    assert_eq!(f.bits(), 10);
    assert!(f.contains(PTEFlags::X()));
    assert!(!f.contains(PTEFlags::W()));
    assert_eq!(f.intersection(PTEFlags::X()), PTEFlags::X());
    assert_eq!(PTEFlags::from_bits(0xff).unwrap().bits(), 0xff);
    assert_eq!(PTEFlags::D().bits() | PTEFlags::A().bits() | PTEFlags::G().bits(), 0xe0);
}

#[test]
fn vpn_indexes_split_27_bits() {
    let vpn = VirtPageNum((5 << 18) | (7 << 9) | 9);
    assert_eq!(vpn.indexes(), [5, 7, 9]);
    assert_eq!(VirtPageNum(0x7ff_ffff | (1 << 30)).indexes(), [511, 511, 511]);
}

#[test]
fn virt_addr_helpers() {
    let va = VirtAddr::from_u64(0x1234_5678);
    assert_eq!(va.floor(), VirtPageNum(0x12345));
    assert_eq!(va.page_offset(), 0x678);
    assert_eq!(VirtAddr::from_u64(1 << 40).0, 0);
    assert_eq!(VirtAddr(0x40_0000_0000).to_u64(), 0xffff_ffc0_0000_0000);
    assert_eq!(VirtAddr(0x3f_ffff_f000).to_u64(), 0x3f_ffff_f000);
    assert_eq!(VirtPageNum(3).to_addr(), VirtAddr(0x3000));
    assert_eq!(VirtAddr(5).min(VirtAddr(3)), VirtAddr(3));
    let mut vpn = VirtPageNum(9);
    vpn.step();
    assert_eq!(vpn, VirtPageNum(10));
    assert_eq!(PhysPageNum::from_u64(u64::MAX), PhysPageNum(0xfff_ffff_ffff));
}

#[test]
fn new_table_takes_first_free_frame_and_maps_nothing() {
    let mut m = machine(8);
    let pt = PageTable::new(&mut m);
    assert_eq!(pt.root_ppn(), PhysPageNum(0x80000));
    assert_eq!(m.frame_allocator.current, 0x80001);
    assert_eq!(pt.translate(&m.mem, VirtPageNum(0x10)), None);
}

#[test]
fn map_then_translate_gives_the_entry() {
    let mut m = machine(8);
    let mut pt = PageTable::new(&mut m);
    pt.map(&mut m, VirtPageNum(0x10), PhysPageNum(0x90), rwu());
    let e = pt.translate(&m.mem, VirtPageNum(0x10)).unwrap();
    assert_eq!(e, PageTableEntry::new(PhysPageNum(0x90), rwu().union(PTEFlags::V())));
    assert!(e.is_valid());
    // Two directories were added.
    assert_eq!(m.frame_allocator.current, 0x80003);
    // A page in the same leaf directory reaches the last level but is not valid.
    let other = pt.translate(&m.mem, VirtPageNum(0x11)).unwrap();
    assert!(!other.is_valid());
    // A page under another root entry stops early.
    assert_eq!(pt.translate(&m.mem, VirtPageNum(1 << 18)), None);
}

#[test]
fn map_reuses_existing_directories() {
    let mut m = machine(8);
    let mut pt = PageTable::new(&mut m);
    pt.map(&mut m, VirtPageNum(0x10), PhysPageNum(0x90), rwu());
    pt.map(&mut m, VirtPageNum(0x11), PhysPageNum(0x91), PTEFlags::R());
    assert_eq!(m.frame_allocator.current, 0x80003);
    pt.map(&mut m, VirtPageNum(0x200), PhysPageNum(0x92), PTEFlags::R());
    assert_eq!(m.frame_allocator.current, 0x80004);
    assert_eq!(pt.translate(&m.mem, VirtPageNum(0x11)).unwrap().ppn(), PhysPageNum(0x91));
    assert_eq!(pt.translate(&m.mem, VirtPageNum(0x200)).unwrap().ppn(), PhysPageNum(0x92));
    assert_eq!(pt.translate(&m.mem, VirtPageNum(0x10)).unwrap().ppn(), PhysPageNum(0x90));
}

#[test]
fn unmap_clears_the_entry_and_keeps_others() {
    let mut m = machine(8);
    let mut pt = PageTable::new(&mut m);
    pt.map(&mut m, VirtPageNum(0x10), PhysPageNum(0x90), rwu());
    pt.map(&mut m, VirtPageNum(0x11), PhysPageNum(0x91), rwu());
    pt.unmap(&mut m, VirtPageNum(0x10));
    assert_eq!(pt.translate(&m.mem, VirtPageNum(0x10)), Some(PageTableEntry::empty()));
    assert_eq!(pt.translate(&m.mem, VirtPageNum(0x11)).unwrap().ppn(), PhysPageNum(0x91));
}

#[test]
fn map_then_unmap_then_map_again() {
    let mut m = machine(8);
    let mut pt = PageTable::new(&mut m);
    pt.map(&mut m, VirtPageNum(0x10), PhysPageNum(0x90), rwu());
    pt.unmap(&mut m, VirtPageNum(0x10));
    pt.map(&mut m, VirtPageNum(0x10), PhysPageNum(0x95), PTEFlags::R());
    let e = pt.translate(&m.mem, VirtPageNum(0x10)).unwrap();
    assert_eq!(e.ppn(), PhysPageNum(0x95));
    assert!(!e.writable());
}

#[test]
fn pages_with_the_same_low_bits_share_an_entry() {
    let mut m = machine(8);
    let mut pt = PageTable::new(&mut m);
    pt.map(&mut m, VirtPageNum(0x10), PhysPageNum(0x90), rwu());
    let alias = VirtPageNum(0x10 | (1 << 27));
    assert_eq!(pt.translate(&m.mem, alias).unwrap().ppn(), PhysPageNum(0x90));
}

#[test]
fn find_pte_create_points_at_the_leaf() {
    let mut m = machine(8);
    let mut pt = PageTable::new(&mut m);
    let loc = pt.find_pte_create(&mut m, VirtPageNum(0x10)).unwrap();
    assert_eq!(loc, (PhysPageNum(0x80002), 0x10));
    let again = pt.find_pte_create(&mut m, VirtPageNum(0x10)).unwrap();
    assert_eq!(again, loc);
    assert_eq!(m.frame_allocator.current, 0x80003);
}

#[test]
fn token_names_the_root() {
    let mut m = machine(8);
    let pt = PageTable::new(&mut m);
    let token = pt.token();
    assert_eq!(token, (8u64 << 60) | 0x80000);
    assert_eq!(PageTable::from_token(token).root_ppn(), PhysPageNum(0x80000));
}

#[test]
fn table_from_token_reads_the_same_mappings() {
    let mut m = machine(8);
    let mut pt = PageTable::new(&mut m);
    pt.map(&mut m, VirtPageNum(0x42), PhysPageNum(0x77), rwu());
    let view = PageTable::from_token(pt.token());
    assert_eq!(view.translate(&m.mem, VirtPageNum(0x42)), pt.translate(&m.mem, VirtPageNum(0x42)));
}

#[test]
fn release_gives_every_frame_back() {
    let mut m = machine(8);
    let mut pt = PageTable::new(&mut m);
    pt.map(&mut m, VirtPageNum(0x10), PhysPageNum(0x90), rwu());
    pt.map(&mut m, VirtPageNum(0x200), PhysPageNum(0x91), rwu());
    assert_eq!(m.frame_allocator.current, 0x80004);
    pt.release(&mut m);
    // The root, then the directories in the order they were taken.
    assert_eq!(m.frame_allocator.recycled, vec![0x80000, 0x80001, 0x80002, 0x80003]);
    assert_eq!(m.frame_alloc(), Some(PhysPageNum(0x80003)));
}

#[test]
fn release_of_a_table_from_a_token_gives_nothing_back() {
    let mut m = machine(8);
    let pt = PageTable::new(&mut m);
    PageTable::from_token(pt.token()).release(&mut m);
    assert!(m.frame_allocator.recycled.is_empty());
    assert_eq!(pt.translate(&m.mem, VirtPageNum(0x10)), None);
}
