use cxl_os::cxl::allocator::{shm_page_to_ppn, CROSS_RING_PAGE_COUNT, CROSS_RING_PAGE_START};
use cxl_os::mm::frame_allocator::TieredFrameAllocator;
use cxl_os::cxl::bootstrap::{boot_path, shm_init, shm_join_after_wait, BootPath};
use cxl_os::cxl::layout::{DATA_PAGE_COUNT, DATA_START, MSG_SIZE, SHM_MAGIC};
use cxl_os::cxl::lock::{
    bakery_peer_choosing, bakery_reset_peer, bakery_step, bakery_take_ticket, bakery_unlock, BakeryStep, SPIN_LIMIT,
};
use cxl_os::cxl::mbox::{mbox_recv, mbox_reset_all, mbox_send, mbox_send_and_unlock};
use cxl_os::cxl::ring::{
    reset_cross_area, ring_new, ring_try_pop, ring_try_push, rx_pop, rx_push, tx_pop, tx_push,
    RX_SANE_LIMIT,
};
use cxl_os::cxl::shm::Shm;

fn msg(tag: u8) -> [u8; MSG_SIZE] {
    let mut m = [0u8; MSG_SIZE];
    m[0] = tag;
    m[MSG_SIZE - 1] = tag.wrapping_mul(3);
    m
}

#[test]
fn ring_delivers_in_order() {
    let mut r = ring_new();
    assert!(ring_try_push(&mut r, &msg(1)));
    assert!(ring_try_push(&mut r, &msg(2)));
    assert!(ring_try_push(&mut r, &msg(3)));
    assert_eq!(ring_try_pop(&mut r), Some(msg(1)));
    assert_eq!(ring_try_pop(&mut r), Some(msg(2)));
    assert_eq!(ring_try_pop(&mut r), Some(msg(3)));
    assert_eq!(ring_try_pop(&mut r), None);
}

#[test]
fn ring_holds_at_most_64() {
    let mut r = ring_new();
    for i in 0..64u8 {
        assert!(ring_try_push(&mut r, &msg(i)));
    }
    assert!(!ring_try_push(&mut r, &msg(99)));
    assert_eq!(ring_try_pop(&mut r), Some(msg(0)));
    assert!(ring_try_push(&mut r, &msg(64)));
}

#[test]
fn ring_counters_wrap() {
    let mut r = ring_new();
    r.head = u32::MAX;
    r.tail = u32::MAX;
    assert!(ring_try_push(&mut r, &msg(7)));
    assert_eq!(r.head, 0);
    assert_eq!(ring_try_pop(&mut r), Some(msg(7)));
    assert_eq!(r.tail, 0);
}

#[test]
fn unpublished_slot_is_not_taken() {
    let mut r = ring_new();
    r.head = 1;
    assert_eq!(ring_try_pop(&mut r), None);
    assert_eq!(r.tail, 0);
}

#[test]
fn tx_round_trip_and_stale_full_recovery() {
    let mut s = Shm::new_zeroed();
    assert!(tx_push(&mut s, &msg(5)));
    assert_eq!(tx_pop(&mut s), Some(msg(5)));
    // counters that read as full with no published slot are leftovers
    s.tx.head = 200;
    s.tx.tail = 100;
    assert!(tx_push(&mut s, &msg(6)));
    assert_eq!(s.tx.head, 1);
    assert_eq!(s.tx.tail, 0);
    assert_eq!(tx_pop(&mut s), Some(msg(6)));
}

#[test]
fn rx_garbage_counters_are_cleared() {
    let mut s = Shm::new_zeroed();
    s.rx.head = RX_SANE_LIMIT + 5;
    s.rx.tail = 3;
    assert_eq!(rx_pop(&mut s), None);
    assert_eq!(s.rx.head, 0);
    assert_eq!(s.rx.tail, 0);
    assert!(rx_push(&mut s, &msg(9)));
    assert_eq!(rx_pop(&mut s), Some(msg(9)));
}

#[test]
fn mailboxes_are_separate_and_fifo() {
    let mut s = Shm::new_zeroed();
    assert!(mbox_send(&mut s, 1, &msg(10)));
    assert!(mbox_send(&mut s, 2, &msg(20)));
    assert!(mbox_send(&mut s, 1, &msg(11)));
    assert_eq!(mbox_recv(&mut s, 2), Some(msg(20)));
    assert_eq!(mbox_recv(&mut s, 2), None);
    assert_eq!(mbox_recv(&mut s, 1), Some(msg(10)));
    assert_eq!(mbox_recv(&mut s, 1), Some(msg(11)));
    assert_eq!(mbox_recv(&mut s, 0), None);
}

#[test]
fn mailbox_send_to_unknown_node_fails() {
    let mut s = Shm::new_zeroed();
    assert!(!mbox_send(&mut s, 4, &msg(1)));
}

#[test]
fn mailbox_reset_empties_all() {
    let mut s = Shm::new_zeroed();
    mbox_send(&mut s, 3, &msg(1));
    mbox_reset_all(&mut s);
    assert_eq!(mbox_recv(&mut s, 3), None);
}

#[test]
fn cross_area_is_zeroed() {
    let mut s = Shm::new_zeroed();
    s.cross_area[17] = 0xAB;
    reset_cross_area(&mut s);
    assert!(s.cross_area.iter().all(|b| *b == 0));
}

#[test]
fn tickets_exceed_every_held_ticket() {
    let mut s = Shm::new_zeroed();
    s.number[2] = 41;
    let t = bakery_take_ticket(&mut s, 0);
    assert_eq!(t, 42);
    assert_eq!(s.number[0], 42);
    assert_eq!(s.choosing[0], 0);
    let u = bakery_take_ticket(&mut s, 1);
    assert_eq!(u, 43);
}

#[test]
fn lower_ticket_goes_first_and_ties_go_to_lower_id() {
    let mut s = Shm::new_zeroed();
    s.number[0] = 5;
    s.number[1] = 5;
    s.number[2] = 3;
    assert_eq!(bakery_step(&s, 0, 5, 1, 0), BakeryStep::Proceed);
    assert_eq!(bakery_step(&s, 1, 5, 0, 0), BakeryStep::WaitTicket);
    assert_eq!(bakery_step(&s, 0, 5, 2, 0), BakeryStep::WaitTicket);
    assert_eq!(bakery_step(&s, 0, 5, 3, 0), BakeryStep::Proceed);
    assert_eq!(bakery_step(&s, 0, 5, 0, 0), BakeryStep::Proceed);
    assert!(!bakery_peer_choosing(&s, 3));
    s.choosing[3] = 1;
    assert!(bakery_peer_choosing(&s, 3));
}

#[test]
fn peer_holding_a_ticket_too_long_is_taken_for_dead() {
    let mut s = Shm::new_zeroed();
    s.number[1] = 2;
    assert_eq!(bakery_step(&s, 0, 5, 1, SPIN_LIMIT - 2), BakeryStep::WaitTicket);
    assert_eq!(bakery_step(&s, 0, 5, 1, SPIN_LIMIT - 1), BakeryStep::PeerDead);
    assert_eq!(bakery_step(&s, 0, 9, 1, SPIN_LIMIT), BakeryStep::PeerDead);
    assert_eq!(bakery_step(&s, 0, 1, 1, SPIN_LIMIT), BakeryStep::Proceed);
}

#[test]
fn unlock_and_dead_peer_reset() {
    let mut s = Shm::new_zeroed();
    let t = bakery_take_ticket(&mut s, 2);
    assert_eq!(t, 1);
    bakery_unlock(&mut s, 2);
    assert_eq!(s.number[2], 0);
    s.number[1] = 9;
    s.choosing[1] = 1;
    bakery_reset_peer(&mut s, 1);
    assert_eq!(s.number[1], 0);
    assert_eq!(s.choosing[1], 0);
}

#[test]
fn boot_paths() {
    assert_eq!(boot_path(0, 0), BootPath::FirstBoot);
    assert_eq!(boot_path(0, 2), BootPath::WaitForPeer);
    assert_eq!(boot_path(SHM_MAGIC, 0), BootPath::Rejoin);
    assert_eq!(boot_path(SHM_MAGIC, 3), BootPath::Rejoin);
}

#[test]
fn first_boot_initialises_region() {
    let mut s = Shm::new_zeroed();
    s.number[0] = 7;
    assert!(tx_push(&mut s, &msg(1)));
    let mut a = TieredFrameAllocator::new();
    let r = shm_init(&mut s, &mut a, 0);
    assert_eq!(r, (0, true));
    assert_eq!(s.magic, SHM_MAGIC);
    assert_eq!(s.n_instances, 0);
    assert_eq!(s.data_start, DATA_START as u32);
    assert_eq!(s.total_pages, DATA_PAGE_COUNT as u32);
    assert_eq!(s.bootstrap_lock, 0);
    assert_eq!(s.free_head, 0);
    assert_eq!(s.number[0], 0);
    assert_eq!(tx_pop(&mut s), None);
    for i in 0..CROSS_RING_PAGE_COUNT {
        assert!(a.is_pinned(shm_page_to_ppn(CROSS_RING_PAGE_START + i)));
    }
    assert!(!a.is_pinned(shm_page_to_ppn(CROSS_RING_PAGE_START + CROSS_RING_PAGE_COUNT)));
}

#[test]
fn later_instances_register_and_rejoin_cleans_up() {
    let mut s = Shm::new_zeroed();
    let mut a = TieredFrameAllocator::new();
    shm_init(&mut s, &mut a, 0);
    assert_eq!(shm_join_after_wait(&mut s, 2), (2, false));
    assert_eq!(s.n_instances, 3);
    assert_eq!(shm_join_after_wait(&mut s, 1), (1, false));
    assert_eq!(s.n_instances, 3);
    s.global_vc[1] = 9;
    s.number[3] = 4;
    mbox_send(&mut s, 0, &msg(3));
    let r = shm_init(&mut s, &mut a, 1);
    assert_eq!(r, (1, false));
    assert_eq!(s.global_vc[1], 0);
    assert_eq!(s.number[3], 0);
    assert_eq!(mbox_recv(&mut s, 0), None);
    assert_eq!(s.n_instances, 3);
}

#[test]
fn locked_send_releases_the_lock_even_when_full() {
    let mut s = Shm::new_zeroed();
    let t = bakery_take_ticket(&mut s, 0);
    assert_eq!(s.number[0], t);
    assert!(mbox_send_and_unlock(&mut s, 0, 2, &msg(5)));
    assert_eq!(s.number[0], 0);
    for k in 1..64u8 {
        assert!(mbox_send(&mut s, 2, &msg(k)));
    }
    bakery_take_ticket(&mut s, 0);
    assert!(!mbox_send_and_unlock(&mut s, 0, 2, &msg(99)));
    assert_eq!(s.number[0], 0);
    assert_eq!(mbox_recv(&mut s, 2), Some(msg(5)));
}
