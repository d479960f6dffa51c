//! Joining the shared region.
//!
//! Instance 0 initialises the region on first boot; an instance that
//! starts before instance 0 has finished waits for the magic word and the
//! bootstrap flag; an instance that finds an existing region clears every
//! piece of state an earlier session may have left behind. The waiting
//! (polling the region with a timeout) is the caller's; these are the
//! region updates of each path.

use vstd::prelude::*;
use crate::cxl::allocator::{
    chain_advance, chain_walk, initial_chain_next, reserve_cross_ring_pages, shm_init_freelist,
    shm_page_to_ppn, CROSS_RING_PAGE_COUNT, CROSS_RING_PAGE_START,
};
use crate::cxl::gc::{gc_drain_on_join, gc_layout, gc_released, page_lists, release_pages, reset_vc, scan_len};
use crate::cxl::layout::{
    CROSS_RING_TOTAL, DATA_PAGE_COUNT, DATA_START, MAX_INSTANCES, SHM_DATA_PPN_BASE, SHM_MAGIC,
};
use crate::mm::frame_allocator::TieredFrameAllocator;
use crate::cxl::mbox::mbox_reset_all;
use crate::cxl::ring::{reset_cross_area, reset_rx, reset_tx};
use crate::cxl::shm::{Shm, FREE_END};

verus! {

/// How an instance joins the region.
#[derive(PartialEq, Eq, Structural, Debug, Clone, Copy)]
pub enum BootPath {
    /// No region yet and this is instance 0: initialise it.
    FirstBoot,
    /// No region yet and this is another instance: wait for instance 0.
    WaitForPeer,
    /// The region exists: clear the previous session's state and join.
    Rejoin,
}

pub open spec fn spec_boot_path(magic: u64, my_id: usize) -> BootPath {
    if magic != SHM_MAGIC && my_id == 0 {
        BootPath::FirstBoot
    } else if magic != SHM_MAGIC {
        BootPath::WaitForPeer
    } else {
        BootPath::Rejoin
    }
}

/// Chooses the boot path from the region's magic word and the instance id.
pub fn boot_path(magic: u64, my_id: usize) -> (p: BootPath)
    ensures
        p == spec_boot_path(magic, my_id),
{
    if magic != SHM_MAGIC && my_id == 0 {
        BootPath::FirstBoot
    } else if magic != SHM_MAGIC {
        BootPath::WaitForPeer
    } else {
        BootPath::Rejoin
    }
}

/// Clears instance `me`'s bakery slot (ticket and choosing flag).
pub fn reset_bakery_id(shm: &mut Shm, me: usize)
    requires
        old(shm).inv(),
        me < MAX_INSTANCES,
    ensures
        final(shm).inv(),
        final(shm).number@ == old(shm).number@.update(me as int, 0),
        final(shm).choosing@ == old(shm).choosing@.update(me as int, 0),
        final(shm).same_header(&*old(shm)),
        final(shm).same_vc(&*old(shm)),
        final(shm).same_pages(&*old(shm)),
        final(shm).same_gc(&*old(shm)),
        final(shm).same_rings(&*old(shm)),
{
    shm.number.set(me, 0);
    shm.choosing.set(me, 0);
}

/// Clears every bakery slot (stale lock state of crashed peers).
pub fn reset_all_bakery(shm: &mut Shm)
    requires
        old(shm).inv(),
    ensures
        final(shm).inv(),
        forall|i: int| 0 <= i < MAX_INSTANCES ==> #[trigger] final(shm).number@[i] == 0,
        forall|i: int| 0 <= i < MAX_INSTANCES ==> #[trigger] final(shm).choosing@[i] == 0,
        final(shm).same_header(&*old(shm)),
        final(shm).same_vc(&*old(shm)),
        final(shm).same_pages(&*old(shm)),
        final(shm).same_gc(&*old(shm)),
        final(shm).same_rings(&*old(shm)),
{
    let mut i: usize = 0;
    while i < MAX_INSTANCES
        invariant
            i <= MAX_INSTANCES,
            shm.inv(),
            forall|k: int| 0 <= k < i ==> #[trigger] shm.number@[k] == 0,
            forall|k: int| 0 <= k < i ==> #[trigger] shm.choosing@[k] == 0,
            shm.same_header(&*old(shm)),
            shm.same_vc(&*old(shm)),
            shm.same_pages(&*old(shm)),
            shm.same_gc(&*old(shm)),
            shm.same_rings(&*old(shm)),
        decreases MAX_INSTANCES - i,
    {
        shm.number.set(i, 0);
        shm.choosing.set(i, 0);
        i = i + 1;
    }
}

/// The instance count after instance `my_id` registered.
pub open spec fn registered_count(n: u32, my_id: usize) -> u32 {
    if my_id as u32 >= n {
        (my_id + 1) as u32
    } else {
        n
    }
}

/// Registering instance `my_id` makes the count cover it and never
/// lowers it: the new count is the larger of the old count and
/// `my_id + 1`.
pub proof fn lemma_registration_covers_instance(n: u32, my_id: usize)
    requires
        my_id < MAX_INSTANCES,
    ensures
        registered_count(n, my_id) > my_id,
        registered_count(n, my_id) >= n,
        registered_count(n, my_id) == n || registered_count(n, my_id) == my_id + 1,
{
}

/// Raises the instance count so that it covers `my_id`.
fn register_instance(shm: &mut Shm, my_id: usize)
    requires
        old(shm).inv(),
        my_id < MAX_INSTANCES,
    ensures
        final(shm).inv(),
        final(shm).n_instances == registered_count(old(shm).n_instances, my_id),
        final(shm).n_instances > my_id,
        final(shm).n_instances >= old(shm).n_instances,
        final(shm).magic == old(shm).magic,
        final(shm).data_start == old(shm).data_start,
        final(shm).total_pages == old(shm).total_pages,
        final(shm).bootstrap_lock == old(shm).bootstrap_lock,
        final(shm).same_bakery(&*old(shm)),
        final(shm).same_vc(&*old(shm)),
        final(shm).same_pages(&*old(shm)),
        final(shm).same_gc(&*old(shm)),
        final(shm).same_rings(&*old(shm)),
{
    let n_inst = shm.n_instances;
    if my_id as u32 >= n_inst {
        shm.n_instances = (my_id + 1) as u32;
    }
}

/// The freelist that first boot leaves: every data page chained in order,
/// except that the cross-VM ring pages are cut out of the chain.
pub open spec fn first_boot_next(i: int) -> u32 {
    if i == CROSS_RING_PAGE_START - 1 {
        (CROSS_RING_PAGE_START + CROSS_RING_PAGE_COUNT) as u32
    } else {
        initial_chain_next(i)
    }
}

/// The state that instance `my_id`'s first boot gives the region `a`.
pub open spec fn first_boot_post(a: &Shm, b: &Shm, my_id: usize) -> bool {
    &&& b.magic == SHM_MAGIC
    &&& b.n_instances == 0
    &&& b.data_start == DATA_START
    &&& b.total_pages == DATA_PAGE_COUNT
    &&& b.bootstrap_lock == 0
    &&& b.free_head == 0
    &&& forall|i: int| 0 <= i < DATA_PAGE_COUNT ==> #[trigger] b.freelist@[i] == first_boot_next(i)
    &&& forall|i: int| 0 <= i < DATA_PAGE_COUNT ==> #[trigger] b.refcount@[i] == 0
    &&& forall|i: int| 0 <= i < DATA_PAGE_COUNT ==> #[trigger] b.owner@[i] == 0
    &&& b.gc_head == 0
    &&& b.gc_pending@ == a.gc_pending@
    &&& b.tx@ == a.tx@.cleared()
    &&& b.rx@ == a.rx@.cleared()
    &&& forall|i: int| 0 <= i < MAX_INSTANCES ==> (#[trigger] b.mbox@[i])@ == a.mbox@[i]@.cleared()
    &&& b.cross_area@ == a.cross_area@
    &&& b.number@ == a.number@.update(my_id as int, 0)
    &&& b.choosing@ == a.choosing@.update(my_id as int, 0)
    &&& b.same_vc(a)
}

/// The state that instance `my_id` joining an existing region gives `a`.
pub open spec fn rejoin_post(a: &Shm, b: &Shm, my_id: usize) -> bool {
    &&& b.magic == a.magic
    &&& b.n_instances == registered_count(a.n_instances, my_id)
    &&& b.data_start == a.data_start
    &&& b.total_pages == a.total_pages
    &&& b.bootstrap_lock == a.bootstrap_lock
    &&& b.gc_head == 0
    &&& b.gc_pending@ == gc_layout(a.gc_pending@, scan_len(a), a.global_vc@, 0)
    &&& page_lists(b) == release_pages(
        page_lists(a),
        gc_released(a.gc_pending@.take(scan_len(a)), a.global_vc@, 0),
    )
    &&& b.tx@ == a.tx@.cleared()
    &&& b.rx@ == a.rx@.cleared()
    &&& forall|i: int| 0 <= i < MAX_INSTANCES ==> (#[trigger] b.mbox@[i])@ == a.mbox@[i]@.cleared()
    &&& forall|i: int| 0 <= i < CROSS_RING_TOTAL ==> #[trigger] b.cross_area@[i] == 0
    &&& forall|i: int| 0 <= i < MAX_INSTANCES ==> #[trigger] b.global_vc@[i] == 0
    &&& forall|i: int| 0 <= i < MAX_INSTANCES ==> #[trigger] b.number@[i] == 0
    &&& forall|i: int| 0 <= i < MAX_INSTANCES ==> #[trigger] b.choosing@[i] == 0
}

proof fn lemma_initial_walk(fl: Seq<u32>, k: nat)
    requires
        fl.len() == DATA_PAGE_COUNT,
        forall|i: int| 0 <= i < DATA_PAGE_COUNT ==> #[trigger] fl[i] == initial_chain_next(i),
        1 <= k < DATA_PAGE_COUNT,
    ensures
        chain_walk(fl, 0, k) == ((k - 1) as u32, k as u32),
    decreases k,
{
    if k > 1 {
        lemma_initial_walk(fl, (k - 1) as nat);
        assert(fl[k - 1] == initial_chain_next(k - 1));
    } else {
        assert(chain_walk(fl, 0, 0) == (FREE_END, 0u32));
        assert(fl[0] == initial_chain_next(0));
    }
}

proof fn lemma_initial_advance(fl: Seq<u32>, start: nat, m: nat)
    requires
        fl.len() == DATA_PAGE_COUNT,
        forall|i: int| 0 <= i < DATA_PAGE_COUNT ==> #[trigger] fl[i] == initial_chain_next(i),
        start + m < DATA_PAGE_COUNT,
    ensures
        chain_advance(fl, start as u32, m) == (start + m) as u32,
    decreases m,
{
    if m > 0 {
        lemma_initial_advance(fl, start, (m - 1) as nat);
    }
}

/// First boot of instance `my_id` on a fresh region: marks the bootstrap
/// as running, writes the magic word, resets the instance count, the
/// rings and the mailboxes, records the data geometry, chains every data
/// page into the freelist with the cross-VM ring pages cut out, registers
/// `my_id`'s bakery slot and marks the bootstrap as done.
pub fn shm_first_boot(shm: &mut Shm, my_id: usize)
    requires
        old(shm).inv(),
        my_id < MAX_INSTANCES,
    ensures
        final(shm).inv(),
        first_boot_post(&*old(shm), &*final(shm), my_id),
{
    shm.bootstrap_lock = 1;
    shm.magic = SHM_MAGIC;
    shm.n_instances = 0;
    shm.gc_head = 0;
    reset_tx(shm);
    reset_rx(shm);
    mbox_reset_all(shm);
    shm.data_start = DATA_START as u32;
    shm.total_pages = DATA_PAGE_COUNT as u32;
    shm_init_freelist(shm);
    let ghost fl = shm.freelist@;
    proof {
        lemma_initial_walk(fl, CROSS_RING_PAGE_START as nat);
        lemma_initial_advance(fl, CROSS_RING_PAGE_START as nat, CROSS_RING_PAGE_COUNT as nat);
        assert(chain_walk(fl, 0, CROSS_RING_PAGE_START as nat).0 != FREE_END);
    }
    reserve_cross_ring_pages(shm);
    reset_bakery_id(shm, my_id);
    shm.bootstrap_lock = 0;
    assert(forall|i: int| 0 <= i < DATA_PAGE_COUNT ==> #[trigger] shm.freelist@[i] == first_boot_next(i));
}

/// Instance `my_id` joins a region that already exists: frees every
/// pending page of the previous session, resets the vector clocks, both
/// rings, the cross-VM ring area, the mailboxes and every bakery slot,
/// and raises the instance count to cover `my_id`.
pub fn shm_rejoin(shm: &mut Shm, my_id: usize)
    requires
        old(shm).inv(),
        my_id < MAX_INSTANCES,
    ensures
        final(shm).inv(),
        rejoin_post(&*old(shm), &*final(shm), my_id),
{
    gc_drain_on_join(shm);
    reset_vc(shm);
    reset_tx(shm);
    reset_rx(shm);
    reset_cross_area(shm);
    mbox_reset_all(shm);
    reset_all_bakery(shm);
    reset_bakery_id(shm, my_id);
    register_instance(shm, my_id);
    assert(forall|i: int| 0 <= i < MAX_INSTANCES ==> #[trigger] shm.number@[i] == 0);
}

/// After waiting for instance 0 to finish the bootstrap, instance `my_id`
/// registers its bakery slot and raises the instance count. Returns
/// `(my_id, false)`.
pub fn shm_join_after_wait(shm: &mut Shm, my_id: usize) -> (r: (usize, bool))
    requires
        old(shm).inv(),
        my_id < MAX_INSTANCES,
    ensures
        final(shm).inv(),
        r == (my_id, false),
        final(shm).n_instances == registered_count(old(shm).n_instances, my_id),
        final(shm).n_instances > my_id,
        final(shm).n_instances >= old(shm).n_instances,
        final(shm).number@ == old(shm).number@.update(my_id as int, 0),
        final(shm).choosing@ == old(shm).choosing@.update(my_id as int, 0),
        final(shm).magic == old(shm).magic,
        final(shm).bootstrap_lock == old(shm).bootstrap_lock,
        final(shm).same_vc(&*old(shm)),
        final(shm).same_pages(&*old(shm)),
        final(shm).same_gc(&*old(shm)),
        final(shm).same_rings(&*old(shm)),
{
    reset_bakery_id(shm, my_id);
    register_instance(shm, my_id);
    (my_id, false)
}

/// Initialises the region (instance 0, no region yet) or joins the
/// existing one, and pins the cross-VM ring pages in `alloc`. Returns
/// `(my_id, is_first_boot)`. An instance other than 0 that finds no region
/// must wait for it first (see `boot_path`).
pub fn shm_init(shm: &mut Shm, alloc: &mut TieredFrameAllocator, my_id: usize) -> (r: (usize, bool))
    requires
        old(shm).inv(),
        old(alloc).wf(),
        my_id < MAX_INSTANCES,
        spec_boot_path(old(shm).magic, my_id) != BootPath::WaitForPeer,
    ensures
        final(shm).inv(),
        final(alloc).wf(),
        final(alloc).pinned() == old(alloc).pinned().union(cross_ring_ppns()),
        final(alloc).fast_view() == old(alloc).fast_view(),
        final(alloc).same_cards_except(&*old(alloc), -1),
        final(alloc).fast_allocs() == old(alloc).fast_allocs(),
        final(alloc).slow_allocs() == old(alloc).slow_allocs(),
        final(alloc).fast_deallocs() == old(alloc).fast_deallocs(),
        final(alloc).slow_deallocs() == old(alloc).slow_deallocs(),
        spec_boot_path(old(shm).magic, my_id) == BootPath::FirstBoot ==> r == (my_id, true)
            && first_boot_post(&*old(shm), &*final(shm), my_id),
        spec_boot_path(old(shm).magic, my_id) == BootPath::Rejoin ==> r == (my_id, false)
            && rejoin_post(&*old(shm), &*final(shm), my_id),
        spec_boot_path(old(shm).magic, my_id) == BootPath::Rejoin ==> final(shm).n_instances > my_id
            && final(shm).n_instances >= old(shm).n_instances,
{
    let r = match boot_path(shm.magic, my_id) {
        BootPath::FirstBoot => {
            shm_first_boot(shm, my_id);
            (my_id, true)
        },
        _ => {
            shm_rejoin(shm, my_id);
            (my_id, false)
        },
    };
    pin_cross_ring_pages(alloc);
    r
}

} // verus!

verus! {

/// The physical pages of the cross-VM rings.
pub open spec fn cross_ring_ppns() -> Set<usize> {
    Set::new(
        |p: usize|
            SHM_DATA_PPN_BASE + CROSS_RING_PAGE_START <= p < SHM_DATA_PPN_BASE + CROSS_RING_PAGE_START
                + CROSS_RING_PAGE_COUNT,
    )
}

/// Pins every cross-VM ring page so the migrator never moves it (the
/// host reaches these pages at fixed offsets).
pub fn pin_cross_ring_pages(alloc: &mut TieredFrameAllocator)
    requires
        old(alloc).wf(),
    ensures
        final(alloc).wf(),
        final(alloc).pinned() == old(alloc).pinned().union(cross_ring_ppns()),
        final(alloc).fast_view() == old(alloc).fast_view(),
        final(alloc).same_cards_except(&*old(alloc), -1),
        final(alloc).fast_allocs() == old(alloc).fast_allocs(),
        final(alloc).slow_allocs() == old(alloc).slow_allocs(),
        final(alloc).fast_deallocs() == old(alloc).fast_deallocs(),
        final(alloc).slow_deallocs() == old(alloc).slow_deallocs(),
{
    let mut i: usize = 0;
    while i < CROSS_RING_PAGE_COUNT
        invariant
            i <= CROSS_RING_PAGE_COUNT,
            alloc.wf(),
            alloc.pinned() == old(alloc).pinned().union(
                Set::new(
                    |p: usize|
                        SHM_DATA_PPN_BASE + CROSS_RING_PAGE_START <= p < SHM_DATA_PPN_BASE + CROSS_RING_PAGE_START + i,
                ),
            ),
            alloc.fast_view() == old(alloc).fast_view(),
            alloc.same_cards_except(&*old(alloc), -1),
            alloc.fast_allocs() == old(alloc).fast_allocs(),
            alloc.slow_allocs() == old(alloc).slow_allocs(),
            alloc.fast_deallocs() == old(alloc).fast_deallocs(),
            alloc.slow_deallocs() == old(alloc).slow_deallocs(),
        decreases CROSS_RING_PAGE_COUNT - i,
    {
        let idx = CROSS_RING_PAGE_START + i;
        let ppn = shm_page_to_ppn(idx);
        alloc.mark_pinned(ppn);
        proof {
            assert(alloc.pinned() =~= old(alloc).pinned().union(
                Set::new(
                    |p: usize|
                        SHM_DATA_PPN_BASE + CROSS_RING_PAGE_START <= p < SHM_DATA_PPN_BASE + CROSS_RING_PAGE_START
                            + i + 1,
                ),
            ));
        }
        i = i + 1;
    }
}

} // verus!
