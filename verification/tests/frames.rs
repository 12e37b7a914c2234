use rcore_os::mm::address::PhysPageNum;
use rcore_os::mm::frame_allocator::StackFrameAllocator;
use rcore_os::mm::machine::Machine;
use rcore_os::mm::phys_mem::PhysMem;
use rcore_os::mm::pte::PageTableEntry;

#[test]
fn allocator_hands_out_the_range_in_order() {
    let mut a = StackFrameAllocator::new(PhysPageNum(10), PhysPageNum(12));
    assert_eq!(a.allocate(), Some(PhysPageNum(10)));
    assert_eq!(a.allocate(), Some(PhysPageNum(11)));
    assert_eq!(a.allocate(), None);
}

#[test]
fn allocator_reuses_the_last_frame_given_back() {
    let mut a = StackFrameAllocator::new(PhysPageNum(10), PhysPageNum(20));
    let f0 = a.allocate().unwrap();
    let f1 = a.allocate().unwrap();
    a.deallocate(f0);
    a.deallocate(f1);
    assert!(a.is_recycled(f0));
    assert_eq!(a.allocate(), Some(f1));
    assert_eq!(a.allocate(), Some(f0));
    assert_eq!(a.allocate(), Some(PhysPageNum(12)));
    assert!(!a.is_recycled(f0));
}

#[test]
fn memory_reads_back_entries_and_bytes() {
    let mut mem = PhysMem::new(0x100, 2);
    mem.write_pte(PhysPageNum(0x101), 3, PageTableEntry { bits: 0x0123_4567_89ab_cdef });
    assert_eq!(mem.read_pte(PhysPageNum(0x101), 3).bits, 0x0123_4567_89ab_cdef);
    assert_eq!(mem.read_byte(PhysPageNum(0x101), 24), 0xef);
    assert_eq!(mem.read_byte(PhysPageNum(0x101), 31), 0x01);
    assert_eq!(mem.read_pte(PhysPageNum(0x101), 2).bits, 0);
    mem.write_byte(PhysPageNum(0x100), 4095, 7);
    assert_eq!(mem.read_byte(PhysPageNum(0x100), 4095), 7);
    mem.zero_frame(PhysPageNum(0x101));
    assert_eq!(mem.read_pte(PhysPageNum(0x101), 3).bits, 0);
    assert_eq!(mem.read_byte(PhysPageNum(0x100), 4095), 7);
}

#[test]
fn frame_alloc_zeroes_the_frame() {
    let mut mem = PhysMem::new(0x100, 2);
    mem.write_byte(PhysPageNum(0x101), 9, 0xaa);
    let mut m = Machine::new(mem, PhysPageNum(0x101));
    assert_eq!(m.frame_alloc(), Some(PhysPageNum(0x101)));
    assert_eq!(m.mem.read_byte(PhysPageNum(0x101), 9), 0);
    assert_eq!(m.frame_alloc(), None);
    m.frame_dealloc(PhysPageNum(0x101));
    assert_eq!(m.frame_alloc(), Some(PhysPageNum(0x101)));
}
