use rcore_os::mm::address::{PhysPageNum, VirtPageNum};
use rcore_os::mm::machine::Machine;
use rcore_os::mm::page_table::PageTable;
use rcore_os::mm::phys_mem::PhysMem;
use rcore_os::mm::pte::PTEFlags;
use rcore_os::mm::user_mem::{check_user_range, copy_to_user, read_user, translated_byte_buffer, UserSegment};

fn rwu() -> PTEFlags {
    PTEFlags::R().union(PTEFlags::W()).union(PTEFlags::U())
}

/// A machine whose page table maps user pages 0x10 and 0x11 to frames 0x80006
/// and 0x80005, writable, and page 0x12 to frame 0x80007, read-only.
fn setup() -> (Machine, PageTable) {
    let mut m = Machine::new(PhysMem::new(0x80000, 8), PhysPageNum(0x80000));
    let mut pt = PageTable::new(&mut m);
    pt.map(&mut m, VirtPageNum(0x10), PhysPageNum(0x80006), rwu());
    pt.map(&mut m, VirtPageNum(0x11), PhysPageNum(0x80005), rwu());
    pt.map(&mut m, VirtPageNum(0x12), PhysPageNum(0x80007), PTEFlags::R().union(PTEFlags::U()));
    (m, pt)
}

#[test]
fn buffer_is_split_at_page_boundaries() {
    let (m, pt) = setup();
    let segs = translated_byte_buffer(&m.mem, pt.token(), 0x10ff8, 16);
    assert_eq!(
        segs,
        vec![
            UserSegment { ppn: PhysPageNum(0x80006), start: 0xff8, end: 4096 },
            UserSegment { ppn: PhysPageNum(0x80005), start: 0, end: 8 },
        ]
    );
}

#[test]
fn buffer_within_one_page() {
    let (m, pt) = setup();
    let segs = translated_byte_buffer(&m.mem, pt.token(), 0x11010, 32);
    assert_eq!(segs, vec![UserSegment { ppn: PhysPageNum(0x80005), start: 0x10, end: 0x30 }]);
    assert_eq!(translated_byte_buffer(&m.mem, pt.token(), 0x11010, 0), vec![]);
}

#[test]
fn buffer_of_whole_pages() {
    let (m, pt) = setup();
    let segs = translated_byte_buffer(&m.mem, pt.token(), 0x10000, 8192);
    assert_eq!(
        segs,
        vec![
            UserSegment { ppn: PhysPageNum(0x80006), start: 0, end: 4096 },
            UserSegment { ppn: PhysPageNum(0x80005), start: 0, end: 4096 },
        ]
    );
}

#[test]
fn range_check_reads_the_flags_of_every_page() {
    let (m, pt) = setup();
    let token = pt.token();
    assert!(check_user_range(&m.mem, token, 0x10000, 8192, rwu()));
    assert!(!check_user_range(&m.mem, token, 0x10000, 8193, rwu()));
    assert!(check_user_range(&m.mem, token, 0x10000, 3 * 4096, PTEFlags::R().union(PTEFlags::U())));
    assert!(!check_user_range(&m.mem, token, 0x13000, 1, PTEFlags::R()));
    assert!(!check_user_range(&m.mem, token, 0x400000, 1, PTEFlags::R()));
    // An empty range at a page boundary checks no page.
    assert!(check_user_range(&m.mem, token, 0x40_0000, 0, PTEFlags::R()));
}

#[test]
fn copy_then_read_gives_the_data_back() {
    let (mut m, pt) = setup();
    let token = pt.token();
    let data: Vec<u8> = (0u8..16).collect();
    assert_eq!(copy_to_user(&mut m.mem, token, 0x10ff8, &data), 0);
    assert_eq!(read_user(&m.mem, token, 0x10ff8, 16), Ok(data.clone()));
    assert_eq!(m.mem.read_byte(PhysPageNum(0x80006), 0xff8), 0);
    assert_eq!(m.mem.read_byte(PhysPageNum(0x80006), 0xfff), 7);
    assert_eq!(m.mem.read_byte(PhysPageNum(0x80005), 0), 8);
    assert_eq!(m.mem.read_byte(PhysPageNum(0x80005), 7), 15);
}

#[test]
fn copy_to_read_only_page_fails() {
    let (mut m, pt) = setup();
    let token = pt.token();
    assert_eq!(copy_to_user(&mut m.mem, token, 0x12000, &vec![1u8, 2, 3]), -1);
    assert_eq!(m.mem.read_byte(PhysPageNum(0x80007), 0), 0);
    // Reading it is allowed.
    assert_eq!(read_user(&m.mem, token, 0x12000, 3), Ok(vec![0u8, 0, 0]));
}

#[test]
fn copy_to_unmapped_page_fails() {
    let (mut m, pt) = setup();
    assert_eq!(copy_to_user(&mut m.mem, pt.token(), 0x11ffc, &vec![1u8; 8]), -1);
    assert_eq!(read_user(&m.mem, pt.token(), 0x20000, 4), Err(-1));
}

#[test]
fn kernel_addresses_are_refused() {
    let (mut m, pt) = setup();
    assert_eq!(copy_to_user(&mut m.mem, pt.token(), 0xffff_8000_0001_0000, &vec![1u8]), -1);
    assert_eq!(read_user(&m.mem, pt.token(), 0x8000_0001_0000, 1), Err(-1));
}

#[test]
fn read_needs_user_access() {
    let mut m = Machine::new(PhysMem::new(0x80000, 8), PhysPageNum(0x80000));
    let mut pt = PageTable::new(&mut m);
    pt.map(&mut m, VirtPageNum(0x10), PhysPageNum(0x80006), PTEFlags::R());
    assert_eq!(read_user(&m.mem, pt.token(), 0x10000, 4), Err(-1));
}

/// A machine whose page table maps the last user page of the lower half
/// (0x3ff_ffff) and the first page past it (0x400_0000), both writable.
fn setup_top() -> (Machine, PageTable) {
    let mut m = Machine::new(PhysMem::new(0x80000, 16), PhysPageNum(0x80000));
    let mut pt = PageTable::new(&mut m);
    pt.map(&mut m, VirtPageNum(0x3ff_ffff), PhysPageNum(0x8000a), rwu());
    pt.map(&mut m, VirtPageNum(0x400_0000), PhysPageNum(0x8000b), rwu());
    (m, pt)
}

#[test]
fn buffer_walk_stops_at_the_top_of_the_lower_half() {
    let (m, pt) = setup_top();
    let top: u64 = 1 << 38;
    assert_eq!(
        translated_byte_buffer(&m.mem, pt.token(), top - 8, 16),
        vec![UserSegment { ppn: PhysPageNum(0x8000a), start: 4088, end: 4096 }]
    );
    assert_eq!(
        translated_byte_buffer(&m.mem, pt.token(), top + 8, 8),
        vec![UserSegment { ppn: PhysPageNum(0x8000b), start: 8, end: 16 }]
    );
    assert_eq!(
        translated_byte_buffer(&m.mem, pt.token(), top + 4090, 16),
        vec![UserSegment { ppn: PhysPageNum(0x8000b), start: 4090, end: 4096 }]
    );
}

#[test]
fn copy_across_the_top_of_the_lower_half_writes_a_part_and_fails() {
    let (mut m, pt) = setup_top();
    let token = pt.token();
    let top: u64 = 1 << 38;
    let data: Vec<u8> = (1..=16).collect();
    assert!(check_user_range(&m.mem, token, top - 8, 16, rwu()));
    assert_eq!(copy_to_user(&mut m.mem, token, top - 8, &data), -1);
    assert_eq!(read_user(&m.mem, token, top - 8, 8), Ok(data[..8].to_vec()));
    assert_eq!(m.mem.read_byte(PhysPageNum(0x8000b), 0), 0);
}

#[test]
fn read_within_one_page_past_the_top_of_the_lower_half() {
    let (mut m, pt) = setup_top();
    let token = pt.token();
    let top: u64 = 1 << 38;
    let data: Vec<u8> = (10..26).collect();
    assert_eq!(copy_to_user(&mut m.mem, token, top + 8, &data), 0);
    assert_eq!(read_user(&m.mem, token, top + 8, 16), Ok(data));
}

#[test]
fn kernel_addresses_are_refused_without_reading_the_table() {
    let mut m = Machine::new(PhysMem::new(0x80000, 2), PhysPageNum(0x80000));
    // This token names no frame of the memory.
    let token = (8u64 << 60) | 0x1234;
    assert_eq!(copy_to_user(&mut m.mem, token, 0xffff_8000_0000_1000, &vec![1u8, 2]), -1);
    assert_eq!(read_user(&m.mem, token, 0x8000_0000_1000, 2), Err(-1));
}
