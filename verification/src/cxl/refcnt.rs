//! Reference counts of shared data pages and the GC-pending list.
//!
//! Each data page has a reference count and an owner. When the count
//! drops to 0 the owner records the page in the GC-pending list; the
//! collector (`gc`) frees it once every instance has seen the release.

use vstd::prelude::*;
use crate::cxl::layout::{DATA_PAGE_COUNT, GC_PENDING_ENTRIES, MAX_INSTANCES};
use crate::cxl::shm::{gc_valid, GcEntry, Shm, GC_VALID};

verus! {

/// The GC-pending entry that records page `idx` of `owner` at clock `ts`.
pub open spec fn pending_entry(idx: usize, owner: u8, ts: u64) -> GcEntry {
    GcEntry { page_idx: idx as u32, timestamp: ts, flags: owner | GC_VALID }
}

/// The GC-pending list after recording page `idx` of `owner` with
/// timestamp `ts`: appended at `gc_head` unless the list is full, in
/// which case nothing changes (the page leaks).
pub open spec fn gc_after_push(s: &Shm, idx: usize, owner: u8, ts: u64) -> (u32, Seq<GcEntry>) {
    if s.gc_head >= GC_PENDING_ENTRIES {
        (s.gc_head, s.gc_pending@)
    } else {
        ((s.gc_head + 1) as u32, s.gc_pending@.update(s.gc_head as int, pending_entry(idx, owner, ts)))
    }
}

/// An owner's flags with the valid bit set mark a live entry.
pub(crate) proof fn lemma_owner_flags_valid(owner: u8)
    ensures
        gc_valid(owner | GC_VALID),
{
    assert((owner | 0x80u8) & 0x80u8 != 0) by (bit_vector);
}

/// Records page `idx` (reference count 0, owner `owner`) as pending, with
/// the current clock of instance `me` as its timestamp.
fn gc_pending_push(shm: &mut Shm, idx: usize, owner: u8, me: usize)
    requires
        old(shm).inv(),
        idx < DATA_PAGE_COUNT,
        me < MAX_INSTANCES,
    ensures
        final(shm).inv(),
        (final(shm).gc_head, final(shm).gc_pending@) == gc_after_push(
            &*old(shm),
            idx,
            owner,
            old(shm).global_vc@[me as int],
        ),
        final(shm).same_header(&*old(shm)),
        final(shm).same_bakery(&*old(shm)),
        final(shm).same_vc(&*old(shm)),
        final(shm).same_pages(&*old(shm)),
        final(shm).same_rings(&*old(shm)),
{
    let head = shm.gc_head as usize;
    if head >= GC_PENDING_ENTRIES {
        return;
    }
    let my_vc = shm.global_vc[me];
    let flags = owner | GC_VALID;
    proof {
        lemma_owner_flags_valid(owner);
    }
    shm.gc_pending.set(head, GcEntry { page_idx: idx as u32, timestamp: my_vc, flags });
    shm.gc_head = (head + 1) as u32;
}

/// Adds a reference to page `idx` (the count wraps around at 2^32). The
/// caller holds the bakery lock.
pub fn shm_ref_page(shm: &mut Shm, idx: usize)
    requires
        old(shm).inv(),
        idx < DATA_PAGE_COUNT,
    ensures
        final(shm).inv(),
        final(shm).refcount@ == old(shm).refcount@.update(
            idx as int,
            vstd::wrapping::u32_specs::wrapping_add(old(shm).refcount@[idx as int], 1),
        ),
        final(shm).free_head == old(shm).free_head,
        final(shm).freelist@ == old(shm).freelist@,
        final(shm).owner@ == old(shm).owner@,
        final(shm).same_header(&*old(shm)),
        final(shm).same_bakery(&*old(shm)),
        final(shm).same_vc(&*old(shm)),
        final(shm).same_gc(&*old(shm)),
        final(shm).same_rings(&*old(shm)),
{
    let rc = shm.refcount[idx];
    shm.refcount.set(idx, rc.wrapping_add(1));
}

/// What `shm_unref_page(idx, me)` does to the region `a`, giving `b`.
pub open spec fn unref_post(a: &Shm, b: &Shm, idx: usize, me: usize) -> bool {
    &&& ({
        let rc = a.refcount@[idx as int];
        let owner = a.owner@[idx as int];
        if rc <= 1 {
            &&& b.refcount@ == a.refcount@.update(idx as int, 0)
            &&& if owner == me as u8 {
                (b.gc_head, b.gc_pending@) == gc_after_push(a, idx, owner, a.global_vc@[me as int])
            } else {
                b.same_gc(a)
            }
        } else {
            &&& b.refcount@ == a.refcount@.update(idx as int, (rc - 1) as u32)
            &&& b.same_gc(a)
        }
    })
    &&& b.free_head == a.free_head
    &&& b.freelist@ == a.freelist@
    &&& b.owner@ == a.owner@
    &&& b.same_header(a)
    &&& b.same_bakery(a)
    &&& b.same_vc(a)
    &&& b.same_rings(a)
}

/// Drops a reference to page `idx`. When the last reference goes, the
/// count becomes 0 and, if `me` owns the page, the page is recorded as
/// GC-pending; otherwise the owner's collector takes it later. The caller
/// holds the bakery lock.
pub fn shm_unref_page(shm: &mut Shm, idx: usize, me: usize)
    requires
        old(shm).inv(),
        idx < DATA_PAGE_COUNT,
        me < MAX_INSTANCES,
    ensures
        final(shm).inv(),
        unref_post(&*old(shm), &*final(shm), idx, me),
        old(shm).owner@[idx as int] != me ==> final(shm).gc_head == old(shm).gc_head && final(shm).gc_pending@
            == old(shm).gc_pending@,
        old(shm).refcount@[idx as int] > 1 ==> final(shm).refcount@[idx as int] == old(shm).refcount@[idx as int] - 1
            && final(shm).gc_head == old(shm).gc_head && final(shm).gc_pending@ == old(shm).gc_pending@,
        old(shm).refcount@[idx as int] <= 1 ==> final(shm).refcount@[idx as int] == 0,
        old(shm).refcount@[idx as int] <= 1 && old(shm).owner@[idx as int] == me && old(shm).gc_head
            < GC_PENDING_ENTRIES ==> final(shm).gc_head == old(shm).gc_head + 1 && final(shm).gc_pending@[old(
            shm,
        ).gc_head as int].page_idx == idx && final(shm).gc_pending@[old(shm).gc_head as int].timestamp == old(
            shm,
        ).global_vc@[me as int] && gc_valid(final(shm).gc_pending@[old(shm).gc_head as int].flags),
{
    proof {
        lemma_owner_flags_valid(me as u8);
    }
    let rc = shm.refcount[idx];
    if rc <= 1 {
        shm.refcount.set(idx, 0);
        let owner = shm.owner[idx];
        if owner == me as u8 {
            gc_pending_push(shm, idx, owner, me);
        }
    } else {
        shm.refcount.set(idx, rc - 1);
    }
}

} // verus!
