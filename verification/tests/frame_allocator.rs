use cxl_os::cxl::CxlCardId;
use cxl_os::mm::address::PhysPageNum;
use cxl_os::mm::frame_allocator::{MemoryTier, StackFrameAllocator, TieredFrameAllocator};

#[test]
fn stack_hands_out_frames_in_order_then_runs_dry() {
    let mut a = StackFrameAllocator::new();
    a.init(PhysPageNum(10), PhysPageNum(13));
    assert_eq!(a.stack_range(), (PhysPageNum(10), PhysPageNum(13)));
    assert_eq!(a.alloc_frame(), Some(PhysPageNum(10)));
    assert_eq!(a.alloc_frame(), Some(PhysPageNum(11)));
    assert_eq!(a.alloc_frame(), Some(PhysPageNum(12)));
    assert_eq!(a.alloc_frame(), None);
}

#[test]
fn stack_reuses_the_last_freed_frame_first() {
    let mut a = StackFrameAllocator::new();
    a.init(PhysPageNum(0), PhysPageNum(8));
    for _ in 0..5 {
        a.alloc_frame().unwrap();
    }
    a.dealloc(PhysPageNum(1));
    a.dealloc(PhysPageNum(3));
    assert_eq!(a.alloc_frame(), Some(PhysPageNum(3)));
    assert_eq!(a.alloc_frame(), Some(PhysPageNum(1)));
    assert_eq!(a.alloc_frame(), Some(PhysPageNum(5)));
}

#[test]
fn stack_alloc_more_returns_decreasing_frames() {
    let mut a = StackFrameAllocator::new();
    a.init(PhysPageNum(100), PhysPageNum(110));
    let v = a.alloc_more(3).unwrap();
    assert_eq!(v, vec![PhysPageNum(102), PhysPageNum(101), PhysPageNum(100)]);
    assert_eq!(a.alloc_frame(), Some(PhysPageNum(103)));
}

#[test]
fn stack_alloc_more_never_reaches_the_end() {
    let mut a = StackFrameAllocator::new();
    a.init(PhysPageNum(0), PhysPageNum(10));
    assert_eq!(a.alloc_more(10), None);
    let v = a.alloc_more(9).unwrap();
    assert_eq!(v.len(), 9);
    assert_eq!(v[0], PhysPageNum(8));
    assert_eq!(a.alloc_frame(), Some(PhysPageNum(9)));
}

#[test]
fn stack_contains_is_half_open() {
    let mut a = StackFrameAllocator::new();
    a.init(PhysPageNum(4), PhysPageNum(6));
    assert!(!a.contains(PhysPageNum(3)));
    assert!(a.contains(PhysPageNum(4)));
    assert!(a.contains(PhysPageNum(5)));
    assert!(!a.contains(PhysPageNum(6)));
}

fn tiered() -> TieredFrameAllocator {
    let mut t = TieredFrameAllocator::new();
    t.init(PhysPageNum(100), PhysPageNum(102));
    t.add_slow(CxlCardId(2), PhysPageNum(200), PhysPageNum(202));
    t
}

#[test]
fn tiered_uses_dram_first_then_cxl() {
    let mut t = tiered();
    assert_eq!(t.alloc_frame(), Some(PhysPageNum(100)));
    assert_eq!(t.alloc_frame(), Some(PhysPageNum(101)));
    assert_eq!(t.alloc_frame(), Some(PhysPageNum(200)));
    assert_eq!(t.alloc_frame(), Some(PhysPageNum(201)));
    assert_eq!(t.alloc_frame(), None);
}

#[test]
fn tiered_page_tier() {
    let t = tiered();
    assert_eq!(t.page_tier(PhysPageNum(100)), Some(MemoryTier::Fast));
    assert_eq!(t.page_tier(PhysPageNum(201)), Some(MemoryTier::Slow(CxlCardId(2))));
    assert_eq!(t.page_tier(PhysPageNum(102)), None);
    assert_eq!(t.page_tier(PhysPageNum(5)), None);
}

#[test]
fn tiered_counts_attempts_and_frees() {
    let mut t = tiered();
    t.alloc_fast();
    t.alloc_fast();
    assert_eq!(t.alloc_fast(), None);
    let s = t.alloc_slow(CxlCardId(2)).unwrap();
    assert_eq!(t.alloc_slow(CxlCardId(5)), None);
    t.dealloc(PhysPageNum(100));
    t.dealloc(s);
    let (fa, sa, fd, sd) = t.counters();
    assert_eq!(fa, 3);
    assert_eq!(sa[2], 1);
    assert_eq!(sa[5], 1);
    assert_eq!(fd, 1);
    assert_eq!(sd[2], 1);
    assert_eq!(sd[0], 0);
}

#[test]
fn tiered_alloc_more_rolls_back_when_short() {
    let mut t = tiered();
    assert_eq!(t.alloc_more(5), None);
    // everything handed out was given back
    let mut got = Vec::new();
    while let Some(p) = t.alloc_frame() {
        got.push(p);
    }
    assert_eq!(got.len(), 4);
}

#[test]
fn tiered_alloc_more_reverses_allocation_order() {
    let mut t = tiered();
    let v = t.alloc_more(3).unwrap();
    assert_eq!(v, vec![PhysPageNum(200), PhysPageNum(101), PhysPageNum(100)]);
}

#[test]
fn pinning_is_cleared_by_dealloc() {
    let mut t = tiered();
    let p = t.alloc_frame().unwrap();
    assert!(!t.is_pinned(p));
    t.mark_pinned(p);
    assert!(t.is_pinned(p));
    t.dealloc(p);
    assert!(!t.is_pinned(p));
}

#[test]
fn ejecting_a_card_detaches_its_frames() {
    let mut t = tiered();
    assert!(t.try_eject_slow(CxlCardId(2)));
    assert!(!t.try_eject_slow(CxlCardId(2)));
    assert_eq!(t.page_tier(PhysPageNum(200)), None);
}

#[test]
fn frame_allocator_test() {
    let mut t = TieredFrameAllocator::new();
    t.init(PhysPageNum(0x100), PhysPageNum(0x200));
    let first: Vec<PhysPageNum> = (0..5).map(|_| t.alloc_frame().unwrap()).collect();
    for p in &first {
        t.dealloc(*p);
    }
    let second: Vec<PhysPageNum> = (0..5).map(|_| t.alloc_frame().unwrap()).collect();
    // freed frames come back, last freed first
    let mut expect = first.clone();
    expect.reverse();
    assert_eq!(second, expect);
}

#[test]
fn frame_allocator_alloc_more_test() {
    let mut t = TieredFrameAllocator::new();
    t.init(PhysPageNum(0x100), PhysPageNum(0x200));
    let a = t.alloc_more(5).unwrap();
    for p in &a {
        t.dealloc(*p);
    }
    let b = t.alloc_more(5).unwrap();
    assert_eq!(a.len(), 5);
    assert_eq!(b.len(), 5);
    let mut sa = a.clone();
    let mut sb = b.clone();
    sa.sort();
    sb.sort();
    assert_eq!(sa, sb);
}

#[test]
fn tier_alloc_test() {
    let mut t = TieredFrameAllocator::new();
    t.init(PhysPageNum(0x100), PhysPageNum(0x200));
    t.add_slow(CxlCardId(0), PhysPageNum(0x1000), PhysPageNum(0x1100));
    let slow = t.alloc_slow(CxlCardId(0)).unwrap();
    assert_eq!(t.page_tier(slow), Some(MemoryTier::Slow(CxlCardId(0))));
    let fast = t.alloc_fast().unwrap();
    assert_eq!(t.page_tier(fast), Some(MemoryTier::Fast));
}
