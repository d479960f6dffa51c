use cxl_os::cxl::allocator::shm_page_to_ppn;
use cxl_os::cxl::shm::Shm;
use cxl_os::cxl::allocator::{shm_alloc_page, shm_init_freelist};
use cxl_os::cxl::CxlCardId;
use cxl_os::mm::address::PhysPageNum;
use cxl_os::mm::frame_allocator::{MemoryTier, TieredFrameAllocator};
use cxl_os::mm::page_migrator::{PageMigrator, PteAction};
use cxl_os::mm::{copy_page, frame_dealloc};

const FAST: Option<MemoryTier> = Some(MemoryTier::Fast);
const SLOW: Option<MemoryTier> = Some(MemoryTier::Slow(CxlCardId(0)));

#[test]
fn scans_are_spaced_by_the_interval() {
    let mut m = PageMigrator::new();
    assert!(!m.tick_due(499));
    assert!(m.tick_due(500));
    assert!(!m.tick_due(900));
    assert!(m.tick_due(1000));
}

#[test]
fn pinned_and_kernel_pages_are_left_alone() {
    let mut m = PageMigrator::new();
    assert_eq!(m.scan_pte(PhysPageNum(1), false, false, true, FAST), PteAction::Nothing);
    assert_eq!(m.scan_pte(PhysPageNum(1), true, true, false, None), PteAction::Nothing);
}

#[test]
fn cold_dram_page_is_demoted_on_third_scan() {
    let mut m = PageMigrator::new();
    let p = PhysPageNum(7);
    assert_eq!(m.scan_pte(p, false, false, false, FAST), PteAction::Nothing);
    assert_eq!(m.scan_pte(p, false, false, false, FAST), PteAction::Nothing);
    assert_eq!(m.scan_pte(p, false, false, false, FAST), PteAction::Demote);
}

#[test]
fn touching_a_dram_page_resets_its_count() {
    let mut m = PageMigrator::new();
    let p = PhysPageNum(7);
    m.scan_pte(p, false, false, false, FAST);
    m.scan_pte(p, false, false, false, FAST);
    assert_eq!(m.scan_pte(p, true, false, false, FAST), PteAction::ClearAccessed);
    assert_eq!(m.scan_pte(p, false, true, false, FAST), PteAction::ClearAccessedDirty);
    assert_eq!(m.scan_pte(p, false, false, false, FAST), PteAction::Nothing);
    assert_eq!(m.scan_pte(p, false, false, false, FAST), PteAction::Nothing);
    assert_eq!(m.scan_pte(p, false, false, false, FAST), PteAction::Demote);
}

#[test]
fn written_cxl_page_is_promoted_at_once() {
    let mut m = PageMigrator::new();
    assert_eq!(m.scan_pte(PhysPageNum(9), true, true, false, SLOW), PteAction::PromoteClearDirty);
}

#[test]
fn read_cxl_page_is_promoted_on_third_scan() {
    let mut m = PageMigrator::new();
    let p = PhysPageNum(9);
    assert_eq!(m.scan_pte(p, true, false, false, SLOW), PteAction::ClearAccessed);
    assert_eq!(m.scan_pte(p, true, false, false, SLOW), PteAction::ClearAccessed);
    assert_eq!(m.scan_pte(p, true, false, false, SLOW), PteAction::ClearAccessedPromote);
}

#[test]
fn idle_cxl_page_stays() {
    let mut m = PageMigrator::new();
    let p = PhysPageNum(9);
    for _ in 0..10 {
        assert_eq!(m.scan_pte(p, false, false, false, SLOW), PteAction::Nothing);
    }
}

#[test]
fn counts_follow_a_moved_page() {
    let mut m = PageMigrator::new();
    let old = PhysPageNum(20);
    let new = PhysPageNum(30);
    m.scan_pte(old, false, false, false, FAST);
    m.scan_pte(old, false, false, false, FAST);
    m.migration_done(old, new);
    assert_eq!(m.scan_pte(new, false, false, false, FAST), PteAction::Demote);
    assert_eq!(m.scan_pte(old, false, false, false, FAST), PteAction::Nothing);
}

#[test]
fn forgetting_a_page_drops_its_counts() {
    let mut m = PageMigrator::new();
    let p = PhysPageNum(20);
    m.scan_pte(p, false, false, false, FAST);
    m.scan_pte(p, false, false, false, FAST);
    m.forget_page(p);
    assert_eq!(m.scan_pte(p, false, false, false, FAST), PteAction::Nothing);
}

#[test]
fn promotion_and_demotion_take_frames_and_count() {
    let mut a = TieredFrameAllocator::new();
    a.init(PhysPageNum(100), PhysPageNum(101));
    a.add_slow(CxlCardId(1), PhysPageNum(200), PhysPageNum(201));
    let mut m = PageMigrator::new();
    assert_eq!(m.demote_page(&mut a, CxlCardId(1)), Some(PhysPageNum(200)));
    assert_eq!(m.demote_page(&mut a, CxlCardId(1)), None);
    assert_eq!(m.demote_page(&mut a, CxlCardId(2)), None);
    assert_eq!(m.promote_page(&mut a), Some(PhysPageNum(100)));
    assert_eq!(m.promote_page(&mut a), None);
    assert_eq!(m.migration_counts(), (1, 1));
}

#[test]
fn copy_page_copies_and_reports_cxl() {
    let mut a = TieredFrameAllocator::new();
    a.init(PhysPageNum(100), PhysPageNum(110));
    a.add_slow(CxlCardId(0), PhysPageNum(200), PhysPageNum(210));
    let src: Vec<u8> = (0..64u8).collect();
    let mut dst = vec![0u8; 64];
    assert!(!copy_page(&a, PhysPageNum(100), PhysPageNum(101), &src, &mut dst));
    assert_eq!(dst, src);
    let mut dst2 = vec![1u8; 64];
    assert!(copy_page(&a, PhysPageNum(100), PhysPageNum(205), &src, &mut dst2));
    assert!(copy_page(&a, PhysPageNum(205), PhysPageNum(3), &src, &mut dst2));
}

#[test]
fn frame_dealloc_routes_shared_and_private_frames() {
    let mut a = TieredFrameAllocator::new();
    a.init(PhysPageNum(100), PhysPageNum(110));
    let mut s = Shm::new_zeroed();
    s.n_instances = 1;
    shm_init_freelist(&mut s);
    let idx = shm_alloc_page(&mut s, 1).unwrap();
    let p = a.alloc_frame().unwrap();
    frame_dealloc(&mut a, &mut s, 1, shm_page_to_ppn(idx));
    assert_eq!(s.free_head, idx as u32);
    assert_eq!(s.refcount[idx], 0);
    frame_dealloc(&mut a, &mut s, 1, p);
    assert_eq!(a.alloc_frame(), Some(p));
    let (_, _, fd, _) = a.counters();
    assert_eq!(fd, 1);
}
