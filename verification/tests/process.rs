use rcore_os::mm::address::{PhysPageNum, VirtPageNum};
use rcore_os::mm::machine::Machine;
use rcore_os::mm::page_table::PageTable;
use rcore_os::mm::phys_mem::PhysMem;
use rcore_os::mm::pte::PTEFlags;
use rcore_os::mm::user_mem::read_user;
use rcore_os::syscall::process::{
    count_mmap_frames, sys_get_time, sys_mmap, sys_munmap, sys_sbrk, sys_trace, TimeVal,
};

fn setup() -> (Machine, PageTable) {
    let mut m = Machine::new(PhysMem::new(0x80000, 16), PhysPageNum(0x80000));
    let pt = PageTable::new(&mut m);
    (m, pt)
}

#[test]
fn trace_is_not_provided() {
    assert_eq!(sys_trace(0, 0, 0), -1);
    let t = TimeVal { sec: 1, usec: 2 };
    assert_eq!(t.sec + t.usec, 3);
}

fn rwu() -> PTEFlags {
    PTEFlags::R().union(PTEFlags::W()).union(PTEFlags::U())
}

#[test]
fn get_time_writes_seconds_and_microseconds_across_two_pages() {
    let (mut m, mut pt) = setup();
    pt.map(&mut m, VirtPageNum(0x10), PhysPageNum(0x8000e), rwu());
    pt.map(&mut m, VirtPageNum(0x11), PhysPageNum(0x8000f), rwu());
    let us: u64 = 3_000_000_123_456;
    assert_eq!(sys_get_time(&mut m.mem, pt.token(), 0x10ff8, us, 0), 0);
    let back = read_user(&m.mem, pt.token(), 0x10ff8, 16).unwrap();
    let sec = u64::from_le_bytes(back[..8].try_into().unwrap());
    let usec = u64::from_le_bytes(back[8..].try_into().unwrap());
    assert_eq!((sec, usec), (3_000_000, 123_456));
    // The seconds sit at the end of the first page, the microseconds at the start of the next.
    assert_eq!(m.mem.read_byte(PhysPageNum(0x8000e), 0xff8), (3_000_000u64 & 0xff) as u8);
    assert_eq!(m.mem.read_byte(PhysPageNum(0x8000f), 0), (123_456u64 & 0xff) as u8);
}

#[test]
fn get_time_fails_on_an_unmapped_or_read_only_page() {
    let (mut m, mut pt) = setup();
    assert_eq!(sys_get_time(&mut m.mem, pt.token(), 0x10000, 5, 0), -1);
    pt.map(&mut m, VirtPageNum(0x10), PhysPageNum(0x8000e), PTEFlags::R().union(PTEFlags::U()));
    assert_eq!(sys_get_time(&mut m.mem, pt.token(), 0x10000, 5, 0), -1);
    assert_eq!(m.mem.read_byte(PhysPageNum(0x8000e), 0), 0);
}

#[test]
fn sbrk_returns_the_old_break() {
    assert_eq!(sys_sbrk(Some(0x1000)), 0x1000);
    assert_eq!(sys_sbrk(None), -1);
}

#[test]
fn mmap_maps_every_page_of_the_range() {
    let (mut m, mut pt) = setup();
    assert_eq!(sys_mmap(&mut pt, &mut m, 0x10000, 4097, 3), 0);
    let flags = PTEFlags::R().union(PTEFlags::W()).union(PTEFlags::U()).union(PTEFlags::V());
    let e0 = pt.translate(&m.mem, VirtPageNum(0x10)).unwrap();
    let e1 = pt.translate(&m.mem, VirtPageNum(0x11)).unwrap();
    assert_eq!(e0.flags(), flags);
    assert_eq!(e1.flags(), flags);
    // Each page has a frame of its own, taken before the directories of its walk.
    assert_eq!(e0.ppn(), PhysPageNum(0x80001));
    assert_eq!(e1.ppn(), PhysPageNum(0x80004));
    assert_eq!(m.frame_allocator.current, 0x80005);
    assert!(m.frame_allocator.recycled.is_empty());
    assert!(!pt.translate(&m.mem, VirtPageNum(0x12)).unwrap().is_valid());
}

#[test]
fn mmap_refuses_bad_arguments() {
    let (mut m, mut pt) = setup();
    assert_eq!(sys_mmap(&mut pt, &mut m, 0x10000, 0, 3), -1);
    assert_eq!(sys_mmap(&mut pt, &mut m, 0x10000, 10, 0), -1);
    assert_eq!(sys_mmap(&mut pt, &mut m, 0x10000, 10, 8), -1);
    assert_eq!(sys_mmap(&mut pt, &mut m, 0x10010, 10, 1), -1);
    assert_eq!(pt.translate(&m.mem, VirtPageNum(0x10)), None);
}

#[test]
fn mmap_over_a_mapped_page_fails_and_keeps_earlier_pages() {
    let (mut m, mut pt) = setup();
    assert_eq!(sys_mmap(&mut pt, &mut m, 0x11000, 4096, 1), 0);
    assert_eq!(sys_mmap(&mut pt, &mut m, 0x10000, 3 * 4096, 1), -1);
    assert!(pt.translate(&m.mem, VirtPageNum(0x10)).unwrap().is_valid());
    assert!(!pt.translate(&m.mem, VirtPageNum(0x12)).unwrap().is_valid());
}

#[test]
fn munmap_undoes_mmap() {
    let (mut m, mut pt) = setup();
    assert_eq!(sys_mmap(&mut pt, &mut m, 0x10000, 8192, 7), 0);
    assert_eq!(sys_munmap(&mut pt, &mut m, 0x10000, 8192), 0);
    assert!(!pt.translate(&m.mem, VirtPageNum(0x10)).unwrap().is_valid());
    assert!(!pt.translate(&m.mem, VirtPageNum(0x11)).unwrap().is_valid());
    assert_eq!(sys_mmap(&mut pt, &mut m, 0x10000, 8192, 7), 0);
}

#[test]
fn munmap_fails_on_a_page_not_mapped() {
    let (mut m, mut pt) = setup();
    assert_eq!(sys_mmap(&mut pt, &mut m, 0x10000, 4096, 1), 0);
    assert_eq!(sys_munmap(&mut pt, &mut m, 0x10000, 8192), -1);
    assert!(!pt.translate(&m.mem, VirtPageNum(0x10)).unwrap().is_valid());
    assert_eq!(sys_munmap(&mut pt, &mut m, 0x10000, 0), -1);
    assert_eq!(sys_munmap(&mut pt, &mut m, 0x10001, 10), -1);
}

#[test]
fn mmap_frames_are_counted_until_the_first_mapped_page() {
    let (mut m, mut pt) = setup();
    // The first page needs its frame and both directories, the next ones their frame.
    assert_eq!(count_mmap_frames(&pt, &m.mem, 0x10000, 3 * 4096), 5);
    // Page 512 starts a new leaf directory under the same root entry.
    assert_eq!(count_mmap_frames(&pt, &m.mem, 511 * 4096, 2 * 4096), 5);
    // Page 1 << 18 starts a new root entry.
    assert_eq!(count_mmap_frames(&pt, &m.mem, ((1 << 18) - 1) * 4096, 2 * 4096), 6);
    assert_eq!(sys_mmap(&mut pt, &mut m, 0x10000, 4096, 1), 0);
    // A page already mapped takes one frame, given back at once.
    assert_eq!(count_mmap_frames(&pt, &m.mem, 0x10000, 3 * 4096), 1);
    assert_eq!(count_mmap_frames(&pt, &m.mem, 0x11000, 3 * 4096), 3);
    assert_eq!(count_mmap_frames(&pt, &m.mem, 512 * 4096, 4096), 2);
}

#[test]
fn mmap_with_just_enough_frames() {
    // The root takes one frame; one page then needs its frame and two directories.
    let mut m = Machine::new(PhysMem::new(0x80000, 4), PhysPageNum(0x80000));
    let mut pt = PageTable::new(&mut m);
    assert_eq!(count_mmap_frames(&pt, &m.mem, 0x10000, 4096), 3);
    assert_eq!(sys_mmap(&mut pt, &mut m, 0x10000, 4096, 1), 0);
    assert!(pt.translate(&m.mem, VirtPageNum(0x10)).unwrap().is_valid());
    assert_eq!(m.frame_allocator.end - m.frame_allocator.current + m.frame_allocator.recycled.len() as u64, 0);
}

#[test]
fn failed_mmap_gives_the_frame_of_the_mapped_page_back() {
    let (mut m, mut pt) = setup();
    assert_eq!(sys_mmap(&mut pt, &mut m, 0x10000, 4096, 1), 0);
    let current = m.frame_allocator.current;
    assert_eq!(sys_mmap(&mut pt, &mut m, 0x10000, 4096, 1), -1);
    assert_eq!(m.frame_allocator.current, current + 1);
    assert_eq!(m.frame_allocator.recycled, vec![current]);
}

#[test]
fn mmap_keeps_the_bytes_of_frames_in_use() {
    let (mut m, mut pt) = setup();
    let f = m.frame_alloc().unwrap();
    pt.map(&mut m, VirtPageNum(0x20), f, PTEFlags::R().union(PTEFlags::U()));
    m.mem.write_byte(f, 5, 0xab);
    assert_eq!(sys_mmap(&mut pt, &mut m, 0x10000, 2 * 4096, 3), 0);
    assert_eq!(sys_munmap(&mut pt, &mut m, 0x10000, 4096), 0);
    assert_eq!(m.mem.read_byte(f, 5), 0xab);
    assert_eq!(pt.translate(&m.mem, VirtPageNum(0x20)).unwrap().ppn(), f);
}

#[test]
fn mmap_then_release_leaves_no_frame_behind() {
    let mut m = Machine::new(PhysMem::new(0x80000, 16), PhysPageNum(0x80000));
    let free = |m: &Machine| m.frame_allocator.end - m.frame_allocator.current + m.frame_allocator.recycled.len() as u64;
    assert_eq!(free(&m), 16);
    let mut pt = PageTable::new(&mut m);
    assert_eq!(sys_mmap(&mut pt, &mut m, 0x10000, 3 * 4096, 3), 0);
    // The root, two directories and three pages.
    assert_eq!(free(&m), 10);
    pt.release(&mut m);
    assert_eq!(free(&m), 16);
}

#[test]
fn mmapped_pages_hold_their_own_bytes() {
    let (mut m, mut pt) = setup();
    assert_eq!(sys_mmap(&mut pt, &mut m, 0x10000, 2 * 4096, 3), 0);
    let token = pt.token();
    assert_eq!(rcore_os::mm::user_mem::copy_to_user(&mut m.mem, token, 0x10000, &vec![1u8]), 0);
    assert_eq!(rcore_os::mm::user_mem::copy_to_user(&mut m.mem, token, 0x11000, &vec![2u8]), 0);
    assert_eq!(read_user(&m.mem, token, 0x10000, 1), Ok(vec![1u8]));
    assert_eq!(read_user(&m.mem, token, 0x11000, 1), Ok(vec![2u8]));
    // A later mapping takes other frames and leaves these bytes alone.
    assert_eq!(sys_mmap(&mut pt, &mut m, 0x20000, 4096, 3), 0);
    assert_eq!(read_user(&m.mem, token, 0x10000, 1), Ok(vec![1u8]));
}

#[test]
fn mmapped_pages_start_zero_filled() {
    let (mut m, mut pt) = setup();
    // Leave bytes in a frame that the allocator will hand out for a page.
    let f = m.frame_alloc().unwrap();
    m.mem.write_byte(f, 7, 0x5a);
    m.frame_dealloc(f);
    assert_eq!(sys_mmap(&mut pt, &mut m, 0x10000, 4096, 1), 0);
    assert_eq!(pt.translate(&m.mem, VirtPageNum(0x10)).unwrap().ppn(), f);
    assert_eq!(read_user(&m.mem, pt.token(), 0x10000, 16), Ok(vec![0u8; 16]));
}

#[test]
fn get_time_refuses_a_kernel_address() {
    let mut m = Machine::new(PhysMem::new(0x80000, 2), PhysPageNum(0x80000));
    assert_eq!(sys_get_time(&mut m.mem, (8u64 << 60) | 0x1234, 0xffff_8000_0000_0000, 1, 0), -1);
}
