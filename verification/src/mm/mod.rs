pub mod address;
pub mod frame_allocator;
pub mod page_migrator;

use vstd::prelude::*;
use crate::cxl::allocator::{is_shm_page, ppn_to_shm_idx, shm_free_page, spec_is_shm_ppn};
use crate::cxl::gc::gc_post;
use crate::cxl::layout::{MAX_INSTANCES, SHM_DATA_PPN_BASE};
use crate::cxl::refcnt::unref_post;
use crate::cxl::shm::Shm;
use crate::mm::address::PhysPageNum;
use crate::mm::frame_allocator::{MemoryTier, TieredFrameAllocator};

verus! {

/// Copies the bytes of page `src` into page `dst` and tells whether
/// either page lies in CXL memory, in which case the caller waits for the
/// slow memory afterwards.
pub fn copy_page(
    alloc: &TieredFrameAllocator,
    src: PhysPageNum,
    dst: PhysPageNum,
    src_page: &Vec<u8>,
    dst_page: &mut Vec<u8>,
) -> (slow: bool)
    requires
        alloc.wf(),
        src_page@.len() == old(dst_page)@.len(),
    ensures
        final(dst_page)@ == src_page@,
        slow == ((alloc.tier_of(src.0) matches Some(MemoryTier::Slow(_))) || (alloc.tier_of(
            dst.0,
        ) matches Some(MemoryTier::Slow(_)))),
{
    let mut i: usize = 0;
    while i < src_page.len()
        invariant
            i <= src_page@.len(),
            dst_page@.len() == src_page@.len(),
            forall|k: int| 0 <= k < i ==> #[trigger] dst_page@[k] == src_page@[k],
        decreases src_page@.len() - i,
    {
        dst_page.set(i, src_page[i]);
        i = i + 1;
    }
    assert(dst_page@ =~= src_page@);
    let src_slow = match alloc.page_tier(src) {
        Some(MemoryTier::Slow(_)) => true,
        _ => false,
    };
    let dst_slow = match alloc.page_tier(dst) {
        Some(MemoryTier::Slow(_)) => true,
        _ => false,
    };
    src_slow || dst_slow
}

/// Returns a frame: a page of the shared data region loses one reference
/// (and may be freed by the collector, see `shm_free_page`); any other
/// frame goes back to the tier that handed it out. The caller holds the
/// bakery lock for a shared page.
pub fn frame_dealloc(alloc: &mut TieredFrameAllocator, shm: &mut Shm, me: usize, ppn: PhysPageNum)
    requires
        old(alloc).wf(),
        old(shm).inv(),
        me < MAX_INSTANCES,
        !spec_is_shm_ppn(ppn.0) ==> old(alloc).frame_out(ppn.0),
    ensures
        final(alloc).wf(),
        final(shm).inv(),
        spec_is_shm_ppn(ppn.0) ==> *final(alloc) == *old(alloc) && exists|mid: Shm, freed: int|
            mid.inv() && unref_post(&*old(shm), &mid, (ppn.0 - SHM_DATA_PPN_BASE) as usize, me) && gc_post(
                &mid,
                &*final(shm),
                me,
                freed,
            ),
        !spec_is_shm_ppn(ppn.0) ==> *final(shm) == *old(shm) && TieredFrameAllocator::returned(
            &*old(alloc),
            &*final(alloc),
            ppn.0,
        ),
{
    if is_shm_page(ppn) {
        if let Some(idx) = ppn_to_shm_idx(ppn) {
            shm_free_page(shm, idx, me);
            return;
        }
    }
    alloc.dealloc(ppn);
}

} // verus!
