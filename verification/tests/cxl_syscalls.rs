use cxl_os::config::{CXL_CARD_COUNT, PAGE_SIZE};
use cxl_os::cxl::card_manager::{CxlCardManager, TrackedPage};
use cxl_os::cxl::CxlCardId;
use cxl_os::mm::address::PhysPageNum;
use cxl_os::mm::frame_allocator::{MemoryTier, TieredFrameAllocator};
use cxl_os::mm::page_migrator::PageMigrator;
use cxl_os::syscall::cxl::{
    rehome_page, route_card, sys_cxl_add_card, sys_cxl_munmap, sys_cxl_meminfo, sys_cxl_mmap, sys_cxl_remove_card, sys_cxl_route,
    CxlMapping, CxlMemInfo, NewHome, CXL_MEMINFO_SIZE, CXL_MEMINFO_VERSION,
};

fn setup() -> (CxlCardManager, TieredFrameAllocator) {
    let mut a = TieredFrameAllocator::new();
    a.init(PhysPageNum(0x80), PhysPageNum(0x100));
    (CxlCardManager::new(), a)
}

#[test]
fn route_on_empty_ring_is_minus_one() {
    let (m, _) = setup();
    assert_eq!(sys_cxl_route(&m, 42), -1);
}

#[test]
fn add_card_then_route_and_tier() {
    let (mut m, mut a) = setup();
    assert_eq!(sys_cxl_add_card(&mut m, &mut a, 0, 0x1000_0000, 0x1010_0000), 0);
    assert_eq!(sys_cxl_route(&m, 42), 0);
    assert_eq!(a.page_tier(PhysPageNum(0x1_0000)), Some(MemoryTier::Slow(CxlCardId(0))));
    assert_eq!(a.page_tier(PhysPageNum(0x1_0100)), None);
}

#[test]
fn add_card_rounds_range_inwards() {
    let (mut m, mut a) = setup();
    assert_eq!(sys_cxl_add_card(&mut m, &mut a, 1, 0x1000_0001, 0x1000_3fff), 1);
    assert_eq!(a.page_tier(PhysPageNum(0x1_0000)), None);
    assert_eq!(a.page_tier(PhysPageNum(0x1_0001)), Some(MemoryTier::Slow(CxlCardId(1))));
    assert_eq!(a.page_tier(PhysPageNum(0x1_0002)), Some(MemoryTier::Slow(CxlCardId(1))));
    assert_eq!(a.page_tier(PhysPageNum(0x1_0003)), None);
}

#[test]
fn out_of_range_card_is_refused() {
    let (mut m, mut a) = setup();
    assert_eq!(sys_cxl_add_card(&mut m, &mut a, 9999, 0, 0), -1);
    assert_eq!(sys_cxl_add_card(&mut m, &mut a, CXL_CARD_COUNT, 0, 0), -1);
    assert_eq!(sys_cxl_route(&m, 1), -1);
}

#[test]
fn remove_card_edge_cases() {
    let (mut m, mut a) = setup();
    assert_eq!(sys_cxl_remove_card(&mut m, 99), -1);
    sys_cxl_add_card(&mut m, &mut a, 0, 0x1000_0000, 0x1001_0000);
    sys_cxl_add_card(&mut m, &mut a, 0, 0x1000_0000, 0x1001_0000);
    assert_eq!(sys_cxl_remove_card(&mut m, 0), 0);
    assert_eq!(sys_cxl_remove_card(&mut m, 0), -1);
    assert_eq!(sys_cxl_route(&m, 42), -1);
}

#[test]
fn mmap_rounds_to_pages_and_routes_by_start() {
    let (mut m, mut a) = setup();
    let mut areas: Vec<CxlMapping> = Vec::new();
    assert_eq!(sys_cxl_mmap(&m, &mut areas, 100, Some(0x4000_0000)).unwrap_err(), -2);
    assert_eq!(sys_cxl_mmap(&m, &mut areas, 100, None).unwrap_err(), -1);
    assert!(areas.is_empty());
    sys_cxl_add_card(&mut m, &mut a, 3, 0x1000_0000, 0x1001_0000);
    let r = sys_cxl_mmap(&m, &mut areas, PAGE_SIZE + 1, Some(0x4000_0000)).unwrap();
    assert_eq!(r, CxlMapping { start_va: 0x4000_0000, end_va: 0x4000_0000 + 2 * PAGE_SIZE, card: CxlCardId(3) });
    assert_eq!(areas, vec![r]);
    let r2 = sys_cxl_mmap(&m, &mut areas, 0, Some(0x5000_0000)).unwrap();
    assert_eq!(r2.end_va, r2.start_va);
    assert_eq!(areas.len(), 2);
}

#[test]
fn mmap_refuses_a_range_that_meets_a_mapped_region() {
    let (mut m, mut a) = setup();
    let mut areas: Vec<CxlMapping> = Vec::new();
    sys_cxl_add_card(&mut m, &mut a, 1, 0x1000_0000, 0x1001_0000);
    sys_cxl_mmap(&m, &mut areas, 2 * PAGE_SIZE, Some(0x4000_0000)).unwrap();
    assert_eq!(sys_cxl_mmap(&m, &mut areas, PAGE_SIZE, Some(0x4000_0000 + PAGE_SIZE)).unwrap_err(), -1);
    assert_eq!(areas.len(), 1);
    assert!(sys_cxl_mmap(&m, &mut areas, PAGE_SIZE, Some(0x4000_0000 + 2 * PAGE_SIZE)).is_ok());
    assert_eq!(areas.len(), 2);
}

#[test]
fn meminfo_reports_counters() {
    let (_, mut a) = setup();
    a.add_slow(CxlCardId(4), PhysPageNum(0x200), PhysPageNum(0x210));
    let p = a.alloc_fast().unwrap();
    a.alloc_slow(CxlCardId(4));
    a.dealloc(p);
    let mig = PageMigrator::new();
    let mut info = CxlMemInfo {
        version: 0,
        size: 0,
        promote_count: 9,
        demote_count: 9,
        fast_alloc_count: 9,
        slow_alloc_count: [9; CXL_CARD_COUNT],
        fast_dealloc_count: 9,
        slow_dealloc_count: [9; CXL_CARD_COUNT],
    };
    assert_eq!(sys_cxl_meminfo(&mut info, &a, &mig), 0);
    assert_eq!(info.version, CXL_MEMINFO_VERSION);
    assert_eq!(info.size, CXL_MEMINFO_SIZE);
    assert_eq!(info.fast_alloc_count, 1);
    assert_eq!(info.slow_alloc_count[4], 1);
    assert_eq!(info.slow_alloc_count[0], 0);
    assert_eq!(info.fast_dealloc_count, 1);
    assert_eq!(info.slow_dealloc_count, [0; CXL_CARD_COUNT]);
    assert_eq!((info.promote_count, info.demote_count), (0, 0));
}

#[test]
fn meminfo_size_matches_its_c_layout() {
    // two u32 words, four u64 counters and two arrays of eight u64
    assert_eq!(CXL_MEMINFO_SIZE as usize, 4 + 4 + 8 * 4 + 2 * 8 * CXL_CARD_COUNT);
    assert_eq!(std::mem::size_of::<CxlMemInfo>(), CXL_MEMINFO_SIZE as usize);
}

#[test]
fn card_manager_tracks_pages_per_card() {
    let mut m = CxlCardManager::new();
    m.add_card(CxlCardId(0));
    m.track_page_vpn(0x500, CxlCardId(0), 0x10, 1);
    m.track_page_vpn(0x501, CxlCardId(2), 0x11, 1);
    m.track_page_vpn(0x502, CxlCardId(0), 0x12, 2);
    m.track_page_vpn(0x500, CxlCardId(2), 0x13, 1);
    let on0 = m.get_card_pages(CxlCardId(0));
    assert_eq!(on0, vec![TrackedPage { ppn: 0x502, card: CxlCardId(0), vpn: 0x12, pid: 2 }]);
    assert_eq!(m.get_card_pages(CxlCardId(2)).len(), 2);
    assert!(m.has_card(CxlCardId(0)));
    assert!(!m.has_card(CxlCardId(2)));
}

#[test]
fn rehash_candidates_are_pages_now_routed_to_new_card() {
    let mut m = CxlCardManager::new();
    m.add_card(CxlCardId(0));
    for i in 0..50usize {
        m.track_page_vpn(0x1000 + i, CxlCardId(0), i * 7919, 1);
    }
    m.add_card(CxlCardId(1));
    let moved = m.rehash_candidates(CxlCardId(1));
    assert!(!moved.is_empty());
    for p in &moved {
        assert_eq!(m.hash_ring.route(p.vpn as u64), Some(&CxlCardId(1)));
        assert_eq!(p.card, CxlCardId(0));
    }
}

#[test]
fn rehomed_pages_go_to_the_routed_card_or_dram() {
    let (mut m, mut a) = setup();
    // no card: DRAM
    assert_eq!(rehome_page(&m, &mut a, 5), Some(NewHome::Dram(PhysPageNum(0x80))));
    sys_cxl_add_card(&mut m, &mut a, 2, 0x1000_0000, 0x1000_2000);
    assert_eq!(rehome_page(&m, &mut a, 5), Some(NewHome::Card(CxlCardId(2), PhysPageNum(0x1_0000))));
    assert_eq!(rehome_page(&m, &mut a, 6), Some(NewHome::Card(CxlCardId(2), PhysPageNum(0x1_0001))));
    // the card is full: DRAM again
    assert_eq!(rehome_page(&m, &mut a, 7), Some(NewHome::Dram(PhysPageNum(0x81))));
    let (fa, sa, _, _) = a.counters();
    assert_eq!(fa, 2);
    assert_eq!(sa[2], 3);
}

#[test]
fn rehome_fails_when_everything_is_used_up() {
    let mut a = TieredFrameAllocator::new();
    a.init(PhysPageNum(0x80), PhysPageNum(0x80));
    let m = CxlCardManager::new();
    assert_eq!(rehome_page(&m, &mut a, 1), None);
}

#[test]
fn route_card_names_the_routed_slot() {
    let (mut m, mut a) = setup();
    assert_eq!(route_card(&m, 3), None);
    sys_cxl_add_card(&mut m, &mut a, 6, 0x1000_0000, 0x1000_2000);
    assert_eq!(route_card(&m, 3), Some(CxlCardId(6)));
    // a ring entry that is not a card slot is never a target
    let mut m2 = CxlCardManager::new();
    m2.add_card(CxlCardId(40));
    assert_eq!(route_card(&m2, 3), None);
}

#[test]
fn munmap_releases_the_region_starting_on_that_page() {
    let a = CxlMapping { start_va: 0x4000_0000, end_va: 0x4000_2000, card: CxlCardId(0) };
    let b = CxlMapping { start_va: 0x5000_0000, end_va: 0x5000_1000, card: CxlCardId(1) };
    let mut areas = vec![a, b];
    assert_eq!(sys_cxl_munmap(&mut areas, 0x1234, 0), 0);
    assert_eq!(areas, vec![a, b]);
    assert_eq!(sys_cxl_munmap(&mut areas, 0x5000_0010, 4096), 0);
    assert_eq!(areas, vec![a]);
    assert_eq!(sys_cxl_munmap(&mut areas, 0x4000_0000, 8192), 0);
    assert!(areas.is_empty());
}
