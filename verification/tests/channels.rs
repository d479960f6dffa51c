use cxl_os::channel::cross::{cross_create, CROSS_BASE, CROSS_PAGES, RING_CAPACITY, RING_SIZE};
use cxl_os::channel::layout::{RingHeader, HEADER_BYTES};
use cxl_os::channel::syscall::{sys_ring_destroy, sys_ring_mmap, sys_ring_notify, sys_ring_wait};
use cxl_os::channel::{ring_create, ring_destroy, ring_mmap, ring_notify, ring_page_count, ring_wait, ChannelTable};
use cxl_os::config::{IVSHMEM_BAR_BASE, PAGE_SIZE};

#[test]
fn header_layout() {
    assert_eq!(RingHeader::header_bytes(), 24);
    let mut h = RingHeader { head: 5, tail: 6, flags: 7, capacity: 1 };
    h.init(4000);
    assert_eq!((h.head, h.tail, h.flags), (0, 0, 0));
    assert_eq!(h.capacity(), 4000);
    assert_eq!(h.data_ptr(0x1000), 0x1000 + HEADER_BYTES);
}

#[test]
fn page_count_rounds_up_header_and_data() {
    assert_eq!(ring_page_count(0), 1);
    assert_eq!(ring_page_count(PAGE_SIZE - 24), 1);
    assert_eq!(ring_page_count(PAGE_SIZE - 23), 2);
    assert_eq!(ring_page_count(8192), 3);
}

#[test]
fn create_mmap_destroy() {
    let mut t = ChannelTable::new();
    let mut h = RingHeader { head: 9, tail: 8, flags: 7, capacity: 6 };
    assert_eq!(ring_create(&mut t, 4096, 0x10_0000, &mut h), (0, 0x10_0000));
    assert_eq!((h.head, h.tail, h.flags, h.capacity), (0, 0, 0, 4096));
    assert_eq!(ring_create(&mut t, 100, 0x20_0000, &mut h), (1, 0x20_0000));
    assert_eq!(h.capacity, 100);
    assert_eq!(ring_mmap(&t, 0), 0x10_0000);
    assert_eq!(ring_mmap(&t, 1), 0x20_0000);
    assert_eq!(ring_mmap(&t, 2), -1);
    let ch = ring_destroy(&mut t, 0).unwrap();
    assert_eq!(ch.user_vaddr, 0x10_0000);
    assert_eq!(ch.page_count, 2);
    assert!(ring_destroy(&mut t, 0).is_none());
    assert_eq!(ring_mmap(&t, 0), -1);
    // the freed slot is reused
    assert_eq!(ring_create(&mut t, 10, 0x30_0000, &mut h), (0, 0x30_0000));
}

#[test]
fn waiters_are_woken_in_order() {
    let mut t = ChannelTable::new();
    let mut h = RingHeader { head: 0, tail: 0, flags: 0, capacity: 0 };
    ring_create(&mut t, 64, 0x1000, &mut h);
    assert_eq!(ring_wait(&mut t, 0, 7), 0);
    assert_eq!(ring_wait(&mut t, 0, 3), 0);
    assert_eq!(ring_wait(&mut t, 5, 3), -1);
    assert_eq!(ring_notify(&mut t, 0), Some(vec![7, 3]));
    assert_eq!(ring_notify(&mut t, 0), Some(vec![]));
    assert_eq!(ring_notify(&mut t, 9), None);
}

#[test]
fn syscalls_report_errors_as_minus_one() {
    let mut t = ChannelTable::new();
    assert_eq!(sys_ring_mmap(&t, 0), -1);
    assert_eq!(sys_ring_destroy(&mut t, 0), -1);
    assert_eq!(sys_ring_wait(&mut t, 0, 100, 1), -1);
    assert_eq!(sys_ring_notify(&mut t, 0).0, -1);
    let mut h = RingHeader { head: 0, tail: 0, flags: 0, capacity: 0 };
    ring_create(&mut t, 64, 0x4000, &mut h);
    assert_eq!(sys_ring_mmap(&t, 0), 0x4000);
    assert_eq!(sys_ring_wait(&mut t, 0, 100, 11), 0);
    assert_eq!(sys_ring_notify(&mut t, 0), (0, vec![11]));
    assert_eq!(sys_ring_destroy(&mut t, 0), 0);
    assert_eq!(sys_ring_destroy(&mut t, 0), -1);
}

#[test]
fn cross_rings_are_laid_out_and_initialised() {
    let mut r0 = RingHeader { head: 1, tail: 2, flags: 3, capacity: 4 };
    let mut r1 = RingHeader { head: 1, tail: 2, flags: 3, capacity: 4 };
    let m = cross_create(0x100_0000, &mut r0, &mut r1);
    assert_eq!(CROSS_PAGES, 4);
    assert_eq!(m.page_count, 4);
    assert_eq!(m.start_va, 0x100_0000);
    assert_eq!(m.end_va, 0x100_0000 + 4 * PAGE_SIZE);
    assert_eq!(m.pa_base, IVSHMEM_BAR_BASE + CROSS_BASE);
    assert_eq!(m.pn_offset, ((IVSHMEM_BAR_BASE + CROSS_BASE) / PAGE_SIZE) as isize - 0x1000);
    assert_eq!(RING_CAPACITY, RING_SIZE - 24);
    assert_eq!((r0.head, r0.tail, r0.flags, r0.capacity), (0, 0, 0, RING_CAPACITY as u32));
    assert_eq!((r1.head, r1.tail, r1.flags, r1.capacity), (0, 0, 0, RING_CAPACITY as u32));
}

#[test]
fn ring_create_truncates_capacity_in_header() {
    let mut t = ChannelTable::new();
    let mut h = RingHeader { head: 3, tail: 3, flags: 1, capacity: 0 };
    let big = (1usize << 32) + 5;
    assert_eq!(ring_create(&mut t, big, 0x5000, &mut h), (0, 0x5000));
    assert_eq!(h.capacity, 5);
    assert_eq!((h.head, h.tail, h.flags), (0, 0, 0));
}
