use cxl_os::cxl::allocator::{
    is_shm_page, ppn_to_shm_idx, reserve_cross_ring_pages, shm_alloc_page, shm_free_page,
    shm_init_freelist, shm_page_to_ppn, CROSS_RING_PAGE_COUNT, CROSS_RING_PAGE_START,
};
use cxl_os::cxl::gc::shm_gc_collect;
use cxl_os::cxl::layout::{DATA_PAGE_COUNT, SHM_DATA_PPN_BASE};
use cxl_os::cxl::refcnt::{shm_ref_page, shm_unref_page};
use cxl_os::cxl::shm::{Shm, FREE_END, GC_VALID};
use cxl_os::mm::address::PhysPageNum;

fn fresh(n_instances: u32) -> Shm {
    let mut s = Shm::new_zeroed();
    s.n_instances = n_instances;
    shm_init_freelist(&mut s);
    s
}

#[test]
fn data_page_numbers_round_trip() {
    assert_eq!(shm_page_to_ppn(0), PhysPageNum(SHM_DATA_PPN_BASE));
    assert_eq!(ppn_to_shm_idx(shm_page_to_ppn(17)), Some(17));
    assert_eq!(ppn_to_shm_idx(PhysPageNum(SHM_DATA_PPN_BASE - 1)), None);
    assert_eq!(ppn_to_shm_idx(PhysPageNum(SHM_DATA_PPN_BASE + DATA_PAGE_COUNT)), None);
    assert!(is_shm_page(PhysPageNum(SHM_DATA_PPN_BASE + DATA_PAGE_COUNT - 1)));
    assert!(!is_shm_page(PhysPageNum(SHM_DATA_PPN_BASE + DATA_PAGE_COUNT)));
}

#[test]
fn init_chains_every_page_in_order() {
    let s = fresh(1);
    assert_eq!(s.free_head, 0);
    assert_eq!(s.gc_head, 0);
    assert_eq!(s.freelist[0], 1);
    assert_eq!(s.freelist[DATA_PAGE_COUNT - 2], (DATA_PAGE_COUNT - 1) as u32);
    assert_eq!(s.freelist[DATA_PAGE_COUNT - 1], FREE_END);
}

#[test]
fn alloc_takes_pages_from_the_head() {
    let mut s = fresh(1);
    assert_eq!(shm_alloc_page(&mut s, 2), Some(0));
    assert_eq!(shm_alloc_page(&mut s, 2), Some(1));
    assert_eq!(s.refcount[1], 1);
    assert_eq!(s.owner[1], 2);
    assert_eq!(s.free_head, 2);
}

#[test]
fn alloc_on_empty_freelist_fails() {
    let mut s = fresh(1);
    s.free_head = FREE_END;
    assert_eq!(shm_alloc_page(&mut s, 0), None);
}

#[test]
fn single_instance_free_returns_page_at_once() {
    let mut s = fresh(1);
    let a = shm_alloc_page(&mut s, 1).unwrap();
    let _b = shm_alloc_page(&mut s, 1).unwrap();
    shm_free_page(&mut s, a, 1);
    assert_eq!(s.free_head, a as u32);
    assert_eq!(s.refcount[a], 0);
    assert_eq!(s.owner[a], 0);
    assert_eq!(s.gc_head, 0);
    assert_eq!(shm_alloc_page(&mut s, 1), Some(a));
}

#[test]
fn extra_reference_keeps_page() {
    let mut s = fresh(1);
    let a = shm_alloc_page(&mut s, 1).unwrap();
    shm_ref_page(&mut s, a);
    assert_eq!(s.refcount[a], 2);
    let head = s.free_head;
    shm_free_page(&mut s, a, 1);
    assert_eq!(s.refcount[a], 1);
    assert_eq!(s.free_head, head);
}

#[test]
fn unowned_page_is_not_queued_by_another_instance() {
    let mut s = fresh(2);
    let a = shm_alloc_page(&mut s, 0).unwrap();
    assert_eq!(s.owner[a], 0);
    shm_unref_page(&mut s, a, 1);
    assert_eq!(s.refcount[a], 0);
    assert_eq!(s.gc_head, 0);
}

#[test]
fn non_owner_last_unref_does_not_queue() {
    let mut s = fresh(2);
    let a = shm_alloc_page(&mut s, 1).unwrap();
    shm_unref_page(&mut s, a, 2);
    assert_eq!(s.refcount[a], 0);
    assert_eq!(s.gc_head, 0);
}

#[test]
fn owner_last_unref_queues_with_its_clock() {
    let mut s = fresh(2);
    s.global_vc[1] = 7;
    let a = shm_alloc_page(&mut s, 1).unwrap();
    shm_unref_page(&mut s, a, 1);
    assert_eq!(s.gc_head, 1);
    assert_eq!(s.gc_pending[0].page_idx, a as u32);
    assert_eq!(s.gc_pending[0].timestamp, 7);
    assert_eq!(s.gc_pending[0].flags, 1 | GC_VALID);
}

#[test]
fn page_waits_until_every_peer_clock_passes() {
    let mut s = fresh(2);
    s.global_vc[0] = 5;
    s.global_vc[1] = 2;
    let a = shm_alloc_page(&mut s, 0).unwrap();
    let head = s.free_head;
    shm_free_page(&mut s, a, 0);
    assert_eq!(s.global_vc[0], 6);
    assert_eq!(s.gc_head, 1);
    assert_eq!(s.free_head, head);
    // the peer runs collections until its clock passes the timestamp
    assert_eq!(shm_gc_collect(&mut s, 1), 0);
    assert_eq!(shm_gc_collect(&mut s, 1), 0);
    assert_eq!(s.global_vc[1], 4);
    // a clock equal to the timestamp is not past it yet
    assert_eq!(shm_gc_collect(&mut s, 1), 0);
    assert_eq!(s.global_vc[1], 5);
    assert_eq!(shm_gc_collect(&mut s, 1), 1);
    assert_eq!(s.gc_head, 0);
    assert_eq!(s.free_head, a as u32);
}

#[test]
fn collect_compacts_surviving_entries() {
    let mut s = fresh(2);
    s.global_vc[0] = 10;
    s.global_vc[1] = 3;
    let a = shm_alloc_page(&mut s, 0).unwrap();
    let b = shm_alloc_page(&mut s, 0).unwrap();
    shm_unref_page(&mut s, a, 0);
    s.global_vc[0] = 2;
    shm_unref_page(&mut s, b, 0);
    assert_eq!(s.gc_head, 2);
    // a was queued at 10, b at 2: the peer's clock 3 passes only b
    assert_eq!(shm_gc_collect(&mut s, 0), 1);
    assert_eq!(s.gc_head, 1);
    assert_eq!(s.gc_pending[0].page_idx, a as u32);
    assert_eq!(s.free_head, b as u32);
}

#[test]
fn cross_ring_pages_are_cut_out() {
    let mut s = fresh(1);
    reserve_cross_ring_pages(&mut s);
    assert_eq!(s.free_head, 0);
    assert_eq!(
        s.freelist[CROSS_RING_PAGE_START - 1],
        (CROSS_RING_PAGE_START + CROSS_RING_PAGE_COUNT) as u32
    );
}

#[test]
fn freed_pages_stack_in_front_of_the_list() {
    let mut s = fresh(1);
    let a = shm_alloc_page(&mut s, 1).unwrap();
    let b = shm_alloc_page(&mut s, 1).unwrap();
    let c = shm_alloc_page(&mut s, 1).unwrap();
    assert_eq!((a, b, c), (0, 1, 2));
    shm_free_page(&mut s, a, 1);
    shm_free_page(&mut s, b, 1);
    shm_free_page(&mut s, c, 1);
    let mut walk = Vec::new();
    let mut p = s.free_head;
    for _ in 0..5 {
        walk.push(p);
        p = s.freelist[p as usize];
    }
    assert_eq!(walk, vec![2, 1, 0, 3, 4]);
}

#[test]
fn allocated_page_leaves_the_list() {
    let mut s = fresh(1);
    let a = shm_alloc_page(&mut s, 1).unwrap();
    let mut p = s.free_head;
    let mut steps = 0usize;
    while p != FREE_END {
        assert_ne!(p as usize, a);
        p = s.freelist[p as usize];
        steps += 1;
    }
    assert_eq!(steps, DATA_PAGE_COUNT - 1);
}
