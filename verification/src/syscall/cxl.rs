//! System calls on CXL memory: mapping CXL-backed regions, attaching and
//! detaching cards, routing keys and reporting memory statistics. Page
//! copying and page-table updates of the migrations they trigger are the
//! caller's part.

use vstd::prelude::*;
use crate::config::{CXL_CARD_COUNT, PAGE_SIZE};
use crate::cxl::card_manager::CxlCardManager;
use crate::cxl::hash_ring::{card_points, route_spec, without_card, VNODES};
use crate::cxl::CxlCardId;
use crate::mm::address::PhysPageNum;
use crate::mm::frame_allocator::{alloc_step, StackView, TieredFrameAllocator};
use crate::mm::page_migrator::PageMigrator;

verus! {

/// Layout version of `CxlMemInfo`.
pub const CXL_MEMINFO_VERSION: u32 = 2;
/// Size of `CxlMemInfo` in bytes.
pub const CXL_MEMINFO_SIZE: u32 = 168;

/// Memory statistics handed to user space.
#[derive(Debug, Clone, Copy)]
pub struct CxlMemInfo {
    pub version: u32,
    pub size: u32,
    pub promote_count: u64,
    pub demote_count: u64,
    pub fast_alloc_count: u64,
    pub slow_alloc_count: [u64; CXL_CARD_COUNT],
    pub fast_dealloc_count: u64,
    pub slow_dealloc_count: [u64; CXL_CARD_COUNT],
}

/// Where a CXL-backed region goes.
#[derive(Debug, Clone, Copy, PartialEq, Eq, Structural)]
pub struct CxlMapping {
    pub start_va: usize,
    pub end_va: usize,
    pub card: CxlCardId,
}

/// Pages needed for `size` bytes.
pub open spec fn spec_page_count(size: usize) -> int {
    (size + PAGE_SIZE - 1) / (PAGE_SIZE as int)
}

/// Whether the region `m` shares an address with `[start, end)`.
pub open spec fn overlaps(m: CxlMapping, start: int, end: int) -> bool {
    m.start_va < end && start < m.end_va
}

/// Maps `size` bytes of CXL memory at the page-aligned free user address
/// `mmap_base` (`None` when the address space has no room) and records the
/// region in `areas`: the whole region goes to the card that the ring
/// routes its start address to. `Err(-1)` without room (no address, or a
/// range that meets a region already in `areas`), `Err(-2)` when no card is
/// attached; `areas` changes only on success.
pub fn sys_cxl_mmap(
    mgr: &CxlCardManager,
    areas: &mut Vec<CxlMapping>,
    size: usize,
    mmap_base: Option<usize>,
) -> (r: Result<CxlMapping, isize>)
    requires
        mgr.wf(),
        size <= usize::MAX - PAGE_SIZE + 1,
        mmap_base matches Some(b) ==> b + spec_page_count(size) * PAGE_SIZE <= usize::MAX && b % PAGE_SIZE == 0,
    ensures
        r is Err ==> final(areas)@ == old(areas)@,
        mmap_base is None ==> r == Err::<CxlMapping, isize>(-1isize),
        mmap_base matches Some(b) ==> (exists|i: int|
            0 <= i < old(areas)@.len() && overlaps(
                #[trigger] old(areas)@[i],
                b as int,
                b + spec_page_count(size) * PAGE_SIZE,
            )) ==> r == Err::<CxlMapping, isize>(-1isize),
        mmap_base matches Some(b) ==> (forall|i: int|
            0 <= i < old(areas)@.len() ==> !overlaps(
                #[trigger] old(areas)@[i],
                b as int,
                b + spec_page_count(size) * PAGE_SIZE,
            )) ==> (match route_spec(mgr.hash_ring.points(), b as u64) {
            None => r == Err::<CxlMapping, isize>(-2isize),
            Some(c) => r matches Ok(m) && m.start_va == b && m.end_va == b + spec_page_count(size) * PAGE_SIZE
                && m.card == c && m.start_va % PAGE_SIZE == 0 && final(areas)@ == old(areas)@.push(m),
        }),
        r matches Ok(m) ==> forall|i: int| 0 <= i < old(areas)@.len() ==> !overlaps(
            #[trigger] old(areas)@[i],
            m.start_va as int,
            m.end_va as int,
        ),
{
    let page_count = (size + (PAGE_SIZE - 1)) / PAGE_SIZE;
    let start_va = match mmap_base {
        Some(va) => va,
        None => {
            return Err(-1);
        },
    };
    let end_va = start_va + page_count * PAGE_SIZE;
    assert(end_va == start_va + spec_page_count(size) * PAGE_SIZE);
    let mut i: usize = 0;
    while i < areas.len()
        invariant
            i <= areas@.len(),
            areas@ == old(areas)@,
            mmap_base == Some(start_va),
            end_va == start_va + spec_page_count(size) * PAGE_SIZE,
            forall|k: int| 0 <= k < i ==> !overlaps(#[trigger] areas@[k], start_va as int, end_va as int),
        decreases areas@.len() - i,
    {
        if areas[i].start_va < end_va && start_va < areas[i].end_va {
            assert(overlaps(old(areas)@[i as int], start_va as int, end_va as int));
            return Err(-1);
        }
        i += 1;
    }
    let card = match mgr.hash_ring.route(start_va as u64) {
        Some(c) => *c,
        None => {
            return Err(-2);
        },
    };
    let m = CxlMapping { start_va, end_va, card };
    areas.push(m);
    Ok(m)
}

/// Whether `m` is the region that starts on the page of address `ptr`.
pub open spec fn starts_on_page(m: CxlMapping, ptr: usize) -> bool {
    m.start_va as int / (PAGE_SIZE as int) == ptr as int / (PAGE_SIZE as int)
}

/// Releases the whole CXL-backed region of `areas` that starts on the
/// page of `ptr` (the first such one; the size is not looked at). Returns
/// 0 whether or not there was one.
pub fn sys_cxl_munmap(areas: &mut Vec<CxlMapping>, ptr: usize, _size: usize) -> (r: isize)
    ensures
        r == 0,
        (exists|i: int| 0 <= i < old(areas)@.len() && starts_on_page(#[trigger] old(areas)@[i], ptr))
            ==> (exists|i: int|
            0 <= i < old(areas)@.len() && starts_on_page(#[trigger] old(areas)@[i], ptr) && (forall|j: int|
                0 <= j < i ==> !starts_on_page(#[trigger] old(areas)@[j], ptr)) && final(areas)@ == old(areas)@.remove(i)),
        (forall|i: int| 0 <= i < old(areas)@.len() ==> !starts_on_page(#[trigger] old(areas)@[i], ptr))
            ==> final(areas)@ == old(areas)@,
{
    let page = ptr / PAGE_SIZE;
    let mut i: usize = 0;
    while i < areas.len()
        invariant
            i <= areas@.len(),
            areas@ == old(areas)@,
            page == ptr / PAGE_SIZE,
            forall|j: int| 0 <= j < i ==> !starts_on_page(#[trigger] areas@[j], ptr),
        decreases areas@.len() - i,
    {
        if areas[i].start_va / PAGE_SIZE == page {
            areas.remove(i);
            return 0;
        }
        i += 1;
    }
    0
}

/// The card that `key` is routed to, or -1 when no card is attached.
pub fn sys_cxl_route(mgr: &CxlCardManager, key: u64) -> (r: isize)
    requires
        mgr.wf(),
    ensures
        r == (match route_spec(mgr.hash_ring.points(), key) {
            Some(c) => c.0 as isize,
            None => -1isize,
        }),
        route_spec(mgr.hash_ring.points(), key) matches Some(c) ==> mgr.hash_ring.node_seq().contains(c),
        route_spec(mgr.hash_ring.points(), key) is None <==> mgr.hash_ring.node_seq().len() == 0,
        (forall|i: int| 0 <= i < mgr.hash_ring.node_seq().len() ==> (#[trigger] mgr.hash_ring.node_seq()[i]).0
            <= isize::MAX) ==> r >= -1,
{
    proof {
        crate::cxl::hash_ring::lemma_route_registered(mgr.hash_ring, key);
        crate::cxl::hash_ring::lemma_route_none_iff_empty(mgr.hash_ring, key);
    }
    match mgr.hash_ring.route(key) {
        Some(c) => c.0 as isize,
        None => -1,
    }
}

/// The first frame whose whole page lies at or after physical address `a`.
pub open spec fn ppn_ceil(a: usize) -> int {
    (a + PAGE_SIZE - 1) / (PAGE_SIZE as int)
}

/// The frame that holds physical address `a`.
pub open spec fn ppn_floor(a: usize) -> int {
    (a as int) / (PAGE_SIZE as int)
}

/// Attaches card `card_id`, whose memory is the physical range
/// `[start, end)`: its frames become a slow tier of the allocator and the
/// card joins the ring (pages that the ring now routes to it are moved by
/// the caller, see `CxlCardManager::rehash_candidates`). Returns the card
/// id, or -1 when it is not a card slot.
pub fn sys_cxl_add_card(
    mgr: &mut CxlCardManager,
    alloc: &mut TieredFrameAllocator,
    card_id: usize,
    start: usize,
    end: usize,
) -> (r: isize)
    requires
        old(mgr).wf(),
        old(alloc).wf(),
        start <= usize::MAX - PAGE_SIZE + 1,
        ppn_ceil(start) <= ppn_floor(end),
    ensures
        final(mgr).wf(),
        final(alloc).wf(),
        card_id >= CXL_CARD_COUNT ==> r == -1 && final(mgr).hash_ring == old(mgr).hash_ring && final(mgr).pages@ == old(mgr).pages@ && *final(alloc) == *old(alloc),
        card_id < CXL_CARD_COUNT ==> {
            &&& r == card_id as isize
            &&& final(alloc).slow_view(card_id as int) == Some(
                StackView {
                    start: ppn_ceil(start) as usize,
                    current: ppn_ceil(start) as usize,
                    end: ppn_floor(end) as usize,
                    recycled: Seq::empty(),
                },
            )
            &&& final(alloc).fast_view() == old(alloc).fast_view()
            &&& final(alloc).same_cards_except(&*old(alloc), card_id as int)
            &&& final(alloc).pinned() == old(alloc).pinned()
            &&& final(alloc).fast_allocs() == old(alloc).fast_allocs()
            &&& final(alloc).slow_allocs() == old(alloc).slow_allocs()
            &&& final(alloc).fast_deallocs() == old(alloc).fast_deallocs()
            &&& final(alloc).slow_deallocs() == old(alloc).slow_deallocs()
            &&& final(mgr).pages@ == old(mgr).pages@
            &&& old(mgr).hash_ring.node_seq().contains(CxlCardId(card_id)) ==> final(mgr).hash_ring.points()
                == old(mgr).hash_ring.points()
            &&& !old(mgr).hash_ring.node_seq().contains(CxlCardId(card_id)) ==> final(mgr).hash_ring.points()
                == old(mgr).hash_ring.points().union_prefer_right(card_points(CxlCardId(card_id), VNODES))
            &&& old(mgr).hash_ring.node_seq().contains(CxlCardId(card_id)) ==> final(mgr).hash_ring.node_seq()
                == old(mgr).hash_ring.node_seq()
            &&& !old(mgr).hash_ring.node_seq().contains(CxlCardId(card_id)) ==> final(mgr).hash_ring.node_seq()
                == old(mgr).hash_ring.node_seq().push(CxlCardId(card_id))
            &&& final(mgr).hash_ring.node_seq().contains(CxlCardId(card_id))
        },
{
    if card_id >= CXL_CARD_COUNT {
        return -1;
    }
    let card = CxlCardId(card_id);
    let l = PhysPageNum((start + (PAGE_SIZE - 1)) / PAGE_SIZE);
    let r = PhysPageNum(end / PAGE_SIZE);
    alloc.add_slow(card, l, r);
    mgr.add_card(card);
    proof {
        if !old(mgr).hash_ring.node_seq().contains(card) {
            assert(mgr.hash_ring.node_seq()[mgr.hash_ring.node_seq().len() - 1] == card);
        }
    }
    card_id as isize
}

/// Detaches card `card_id` from the ring so that nothing is routed to it
/// any more. Returns 0, or -1 when the card is not attached. The caller
/// then moves the card's pages (`CxlCardManager::get_card_pages`) and
/// takes the card out of the allocator.
pub fn sys_cxl_remove_card(mgr: &mut CxlCardManager, card_id: usize) -> (r: isize)
    requires
        old(mgr).wf(),
    ensures
        final(mgr).wf(),
        final(mgr).pages@ == old(mgr).pages@,
        r == (if old(mgr).hash_ring.node_seq().contains(CxlCardId(card_id)) {
            0isize
        } else {
            -1isize
        }),
        r == 0 ==> final(mgr).hash_ring.points() == without_card(old(mgr).hash_ring.points(), CxlCardId(card_id))
            && !final(mgr).hash_ring.node_seq().contains(CxlCardId(card_id)),
        r == -1 ==> final(mgr).hash_ring.points() == old(mgr).hash_ring.points() && final(mgr).hash_ring.node_seq() == old(mgr).hash_ring.node_seq(),
{
    let card = CxlCardId(card_id);
    if !mgr.has_card(card) {
        return -1;
    }
    let _ = mgr.hash_ring.remove_node(card);
    0
}

/// Where a page of a detached card moves.
#[derive(Debug, Clone, Copy, PartialEq, Eq, Structural)]
pub enum NewHome {
    /// A frame of the card that the ring now routes the page to.
    Card(CxlCardId, PhysPageNum),
    /// A DRAM frame: no card could take the page.
    Dram(PhysPageNum),
}

/// The card slot that the ring routes virtual page `vpn` to.
pub open spec fn routed_card(mgr: &CxlCardManager, vpn: usize) -> Option<CxlCardId> {
    match route_spec(mgr.hash_ring.points(), vpn as u64) {
        Some(c) => if c.0 < CXL_CARD_COUNT {
            Some(c)
        } else {
            None
        },
        None => None,
    }
}

/// The card slot that the ring routes virtual page `vpn` to: where a
/// page at `vpn` belongs in CXL memory.
pub fn route_card(mgr: &CxlCardManager, vpn: usize) -> (r: Option<CxlCardId>)
    requires
        mgr.wf(),
    ensures
        r == routed_card(mgr, vpn),
{
    match mgr.hash_ring.route(vpn as u64) {
        Some(c) => if c.0 < CXL_CARD_COUNT {
            Some(*c)
        } else {
            None
        },
        None => None,
    }
}

/// Whether card `c` is attached and has a frame to hand out.
pub open spec fn card_has_frame(a: &TieredFrameAllocator, c: CxlCardId) -> bool {
    a.slow_view(c.0 as int) matches Some(v) && (v.recycled.len() > 0 || v.current != v.end)
}

/// Picks the new frame of a page (at virtual page `vpn`) of a card that
/// has just left the ring: a frame of the card that the ring now routes
/// the page to, else a DRAM frame; `None` when DRAM is used up too. Each
/// tier tried counts an allocation attempt.
pub fn rehome_page(mgr: &CxlCardManager, alloc: &mut TieredFrameAllocator, vpn: usize) -> (r: Option<NewHome>)
    requires
        mgr.wf(),
        old(alloc).wf(),
    ensures
        final(alloc).wf(),
        final(alloc).pinned() == old(alloc).pinned(),
        final(alloc).fast_deallocs() == old(alloc).fast_deallocs(),
        final(alloc).slow_deallocs() == old(alloc).slow_deallocs(),
        final(alloc).slow_allocs() == match routed_card(mgr, vpn) {
            Some(c) => old(alloc).slow_allocs().update(
                c.0 as int,
                vstd::wrapping::u64_specs::wrapping_add(old(alloc).slow_allocs()[c.0 as int], 1),
            ),
            None => old(alloc).slow_allocs(),
        },
        (routed_card(mgr, vpn) matches Some(c) && card_has_frame(&*old(alloc), c)) ==> r matches Some(
            NewHome::Card(_, _),
        ),
        r matches Some(NewHome::Card(c, f)) ==> {
            &&& routed_card(mgr, vpn) == Some(c)
            &&& card_has_frame(&*old(alloc), c)
            &&& final(alloc).slow_view(c.0 as int) matches Some(w) && alloc_step(
                old(alloc).slow_view(c.0 as int).unwrap(),
                w,
                Some(f),
            )
            &&& final(alloc).fast_view() == old(alloc).fast_view()
            &&& final(alloc).same_cards_except(&*old(alloc), c.0 as int)
            &&& final(alloc).fast_allocs() == old(alloc).fast_allocs()
        },
        !(r matches Some(NewHome::Card(_, _))) ==> {
            &&& alloc_step(
                old(alloc).fast_view(),
                final(alloc).fast_view(),
                match r {
                    Some(NewHome::Dram(f)) => Some(f),
                    _ => None,
                },
            )
            &&& final(alloc).same_cards_except(&*old(alloc), -1)
            &&& final(alloc).fast_allocs() == vstd::wrapping::u64_specs::wrapping_add(old(alloc).fast_allocs(), 1)
        },
{
    let routed = route_card(mgr, vpn);
    if let Some(c) = routed {
        let got = alloc.alloc_slow(c);
        if let Some(f) = got {
            return Some(NewHome::Card(c, f));
        }
    }
    let fast = alloc.alloc_fast();
    match fast {
        Some(f) => Some(NewHome::Dram(f)),
        None => None,
    }
}

/// Fills `info` with the allocator's and the migrator's counters (layout
/// version 2). Returns 0.
pub fn sys_cxl_meminfo(info: &mut CxlMemInfo, alloc: &TieredFrameAllocator, mig: &PageMigrator) -> (r: isize)
    ensures
        r == 0,
        final(info).version == CXL_MEMINFO_VERSION,
        final(info).size == CXL_MEMINFO_SIZE,
        final(info).fast_alloc_count == alloc.fast_allocs(),
        final(info).slow_alloc_count@ == alloc.slow_allocs(),
        final(info).fast_dealloc_count == alloc.fast_deallocs(),
        final(info).slow_dealloc_count@ == alloc.slow_deallocs(),
        final(info).promote_count == mig.promotions(),
        final(info).demote_count == mig.demotions(),
{
    info.version = CXL_MEMINFO_VERSION;
    info.size = CXL_MEMINFO_SIZE;
    let (fa, sa, fd, sd) = alloc.counters();
    let (promoted, demoted) = mig.migration_counts();
    info.fast_alloc_count = fa;
    info.slow_alloc_count = sa;
    info.fast_dealloc_count = fd;
    info.slow_dealloc_count = sd;
    info.promote_count = promoted;
    info.demote_count = demoted;
    0
}


/// After `sys_cxl_add_card(card_id)` succeeds, every key is routed by
/// `sys_cxl_route` either where it was routed before or to the new card.
/// (`a` is the manager before the call, `b` after it, related as the
/// call's contract states.)
pub proof fn lemma_add_card_reroutes_only_to_it(a: CxlCardManager, b: CxlCardManager, card_id: usize, key: u64)
    requires
        a.wf(),
        b.wf(),
        a.hash_ring.node_seq().contains(CxlCardId(card_id)) ==> b.hash_ring.points() == a.hash_ring.points(),
        !a.hash_ring.node_seq().contains(CxlCardId(card_id)) ==> b.hash_ring.points()
            == a.hash_ring.points().union_prefer_right(card_points(CxlCardId(card_id), VNODES)),
    ensures
        route_spec(b.hash_ring.points(), key) == route_spec(a.hash_ring.points(), key) || route_spec(
            b.hash_ring.points(),
            key,
        ) == Some(CxlCardId(card_id)),
{
    if !a.hash_ring.node_seq().contains(CxlCardId(card_id)) {
        crate::cxl::hash_ring::lemma_add_moves_keys_only_to_new_card(a.hash_ring, b.hash_ring, CxlCardId(card_id), key);
    }
}

/// After `sys_cxl_remove_card(card_id)` returns 0, no key is routed to the
/// card, and every key that was not routed to it is routed where it was.
/// (`a` is the manager before the call, `b` after it, related as the
/// call's contract states.)
pub proof fn lemma_remove_card_moves_only_its_keys(a: CxlCardManager, b: CxlCardManager, card_id: usize, key: u64)
    requires
        a.wf(),
        b.wf(),
        b.hash_ring.points() == without_card(a.hash_ring.points(), CxlCardId(card_id)),
    ensures
        route_spec(b.hash_ring.points(), key) != Some(CxlCardId(card_id)),
        route_spec(a.hash_ring.points(), key) != Some(CxlCardId(card_id)) ==> route_spec(b.hash_ring.points(), key)
            == route_spec(a.hash_ring.points(), key),
{
    let c = CxlCardId(card_id);
    crate::cxl::hash_ring::lemma_removed_card_not_routed(b.hash_ring, a.hash_ring.points(), c, key);
    crate::cxl::hash_ring::lemma_route_none_iff_empty(a.hash_ring, key);
    crate::cxl::hash_ring::lemma_route_none_iff_empty(b.hash_ring, key);
    match route_spec(a.hash_ring.points(), key) {
        Some(x) => {
            if x != c {
                crate::cxl::hash_ring::lemma_remove_keeps_other_routes(a.hash_ring, b.hash_ring, c, key, x);
            }
        },
        None => {
            assert(b.hash_ring.points().dom() =~= Set::<u64>::empty()) by {
                assert forall|q: u64| !b.hash_ring.points().dom().contains(q) by {
                    if b.hash_ring.points().dom().contains(q) {
                        assert(a.hash_ring.points().dom().contains(q));
                    }
                }
            }
        },
    }
}

} // verus!
