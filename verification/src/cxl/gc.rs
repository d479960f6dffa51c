//! Garbage collection of shared pages, validated by vector clocks.
//!
//! A pending page is freed only once every active instance's clock has
//! advanced past the entry's timestamp, i.e. every peer has seen the
//! release. With at most one active instance the check is skipped.

use vstd::prelude::*;
use crate::cxl::layout::{DATA_PAGE_COUNT, GC_PENDING_ENTRIES, MAX_INSTANCES};
use crate::cxl::shm::{fl_ptr_ok, gc_valid, GcEntry, Shm, FREE_END, GC_VALID};

verus! {

/// Whether the clocks of the first `n` instances have all advanced past
/// `ts` (always true with at most one active instance).
pub open spec fn clocks_past(vc: Seq<u64>, n: int, ts: u64) -> bool {
    n <= 1 || forall|j: int| 0 <= j < n ==> #[trigger] vc[j] > ts
}

/// A live entry whose release every active instance has seen.
pub open spec fn gc_ready(e: GcEntry, vc: Seq<u64>, n: int) -> bool {
    gc_valid(e.flags) && clocks_past(vc, n, e.timestamp)
}

/// A live entry that must wait for some instance.
pub open spec fn gc_waiting(e: GcEntry, vc: Seq<u64>, n: int) -> bool {
    gc_valid(e.flags) && !clocks_past(vc, n, e.timestamp)
}

/// The entries of `es` that stay pending, in order.
pub open spec fn gc_survivors(es: Seq<GcEntry>, vc: Seq<u64>, n: int) -> Seq<GcEntry>
    decreases es.len(),
{
    if es.len() == 0 {
        Seq::empty()
    } else {
        let s = gc_survivors(es.drop_last(), vc, n);
        if gc_waiting(es.last(), vc, n) {
            s.push(es.last())
        } else {
            s
        }
    }
}

/// The pages of the entries of `es` that are freed, in scan order.
pub open spec fn gc_released(es: Seq<GcEntry>, vc: Seq<u64>, n: int) -> Seq<u32>
    decreases es.len(),
{
    if es.len() == 0 {
        Seq::empty()
    } else {
        let s = gc_released(es.drop_last(), vc, n);
        if gc_ready(es.last(), vc, n) {
            s.push(es.last().page_idx)
        } else {
            s
        }
    }
}

/// An entry after the scan: a freed entry has its flags cleared.
pub open spec fn gc_scanned(e: GcEntry, vc: Seq<u64>, n: int) -> GcEntry {
    if gc_ready(e, vc, n) {
        GcEntry { page_idx: e.page_idx, timestamp: e.timestamp, flags: 0 }
    } else {
        e
    }
}

/// The page bookkeeping of the region.
pub struct PageLists {
    pub head: u32,
    pub freelist: Seq<u32>,
    pub refcount: Seq<u32>,
    pub owner: Seq<u8>,
}

pub open spec fn page_lists(s: &Shm) -> PageLists {
    PageLists {
        head: s.free_head,
        freelist: s.freelist@,
        refcount: s.refcount@,
        owner: s.owner@,
    }
}

/// The bookkeeping after freeing `pages` in order: each page gets count 0
/// and no owner, and is pushed onto the front of the freelist.
pub open spec fn release_pages(st: PageLists, pages: Seq<u32>) -> PageLists
    decreases pages.len(),
{
    if pages.len() == 0 {
        st
    } else {
        let s = release_pages(st, pages.drop_last());
        let p = pages.last();
        PageLists {
            head: p,
            freelist: s.freelist.update(p as int, s.head),
            refcount: s.refcount.update(p as int, 0),
            owner: s.owner.update(p as int, 0),
        }
    }
}

/// Freeing pages keeps the sizes of the page arrays.
pub(crate) proof fn lemma_release_lengths(st: PageLists, pages: Seq<u32>)
    requires
        forall|k: int| 0 <= k < pages.len() ==> #[trigger] pages[k] < st.freelist.len() && pages[k]
            < st.refcount.len() && pages[k] < st.owner.len(),
    ensures
        release_pages(st, pages).freelist.len() == st.freelist.len(),
        release_pages(st, pages).refcount.len() == st.refcount.len(),
        release_pages(st, pages).owner.len() == st.owner.len(),
    decreases pages.len(),
{
    if pages.len() > 0 {
        lemma_release_lengths(st, pages.drop_last());
    }
}

/// Every page that a collection frees comes from a live entry.
pub(crate) proof fn lemma_released_pages_bounded(es: Seq<GcEntry>, vc: Seq<u64>, n: int, bound: int)
    requires
        forall|j: int| 0 <= j < es.len() && gc_valid(#[trigger] es[j].flags) ==> es[j].page_idx < bound,
    ensures
        forall|k: int| 0 <= k < gc_released(es, vc, n).len() ==> #[trigger] gc_released(es, vc, n)[k] < bound,
    decreases es.len(),
{
    if es.len() > 0 {
        let d = es.drop_last();
        assert forall|j: int| 0 <= j < d.len() && gc_valid(#[trigger] d[j].flags) implies d[j].page_idx < bound by {
            assert(d[j] == es[j]);
        }
        lemma_released_pages_bounded(d, vc, n, bound);
        assert(es.last() == es[es.len() - 1]);
        let r = gc_released(es, vc, n);
        let rd = gc_released(d, vc, n);
        assert forall|k: int| 0 <= k < r.len() implies #[trigger] r[k] < bound by {
            if k < rd.len() {
                assert(r[k] == rd[k]);
            }
        }
    }
}

/// Some live entry of `es` whose release every active instance has seen
/// records page `p`.
pub open spec fn ready_entry_for(es: Seq<GcEntry>, vc: Seq<u64>, n: int, p: u32) -> bool {
    exists|j: int| 0 <= j < es.len() && gc_ready(#[trigger] es[j], vc, n) && es[j].page_idx == p
}

/// A collection frees a page only for a live pending entry whose release
/// every active instance's clock has advanced past, and keeps every live entry
/// that some instance has not seen yet.
pub proof fn lemma_collector_frees_only_seen_releases(es: Seq<GcEntry>, vc: Seq<u64>, n: int)
    ensures
        forall|k: int|
            0 <= k < gc_released(es, vc, n).len() ==> ready_entry_for(es, vc, n, #[trigger] gc_released(es, vc, n)[k]),
        forall|j: int|
            0 <= j < es.len() && gc_waiting(#[trigger] es[j], vc, n) ==> gc_survivors(es, vc, n).contains(es[j]),
    decreases es.len(),
{
    if es.len() > 0 {
        let d = es.drop_last();
        lemma_collector_frees_only_seen_releases(d, vc, n);
        let r = gc_released(es, vc, n);
        let rd = gc_released(d, vc, n);
        assert forall|k: int| 0 <= k < r.len() implies ready_entry_for(es, vc, n, #[trigger] r[k]) by {
            if k < rd.len() {
                assert(ready_entry_for(d, vc, n, rd[k]));
                let j = choose|j: int| 0 <= j < d.len() && gc_ready(#[trigger] d[j], vc, n) && d[j].page_idx == rd[k];
                assert(es[j] == d[j]);
                assert(r[k] == rd[k]);
            } else {
                assert(es[es.len() - 1] == es.last());
            }
        }
        assert forall|j: int| 0 <= j < es.len() && gc_waiting(#[trigger] es[j], vc, n) implies gc_survivors(
            es,
            vc,
            n,
        ).contains(es[j]) by {
            let sd = gc_survivors(d, vc, n);
            if j < d.len() {
                assert(d[j] == es[j]);
                assert(sd.contains(d[j]));
                if gc_waiting(es.last(), vc, n) {
                    let q = choose|q: int| 0 <= q < sd.len() && sd[q] == d[j];
                    assert(sd.push(es.last())[q] == d[j]);
                }
            } else {
                assert(gc_survivors(es, vc, n)[sd.len() as int] == es.last());
            }
        }
    }
}

/// With more than one active instance, a live entry that some instance
/// `i` (instance 0 included) has not seen yet (its clock is at or below
/// the entry's timestamp) stays pending, and one that every active
/// instance has seen has its page freed.
pub proof fn lemma_release_waits_for_every_instance(es: Seq<GcEntry>, vc: Seq<u64>, n: int, k: int)
    requires
        0 <= k < es.len(),
        gc_valid(es[k].flags),
        n > 1,
    ensures
        (exists|i: int| 0 <= i < n && #[trigger] vc[i] <= es[k].timestamp) ==> gc_survivors(es, vc, n).contains(
            es[k],
        ),
        (forall|i: int| 0 <= i < n ==> #[trigger] vc[i] > es[k].timestamp) ==> gc_released(es, vc, n).contains(
            es[k].page_idx,
        ),
    decreases es.len(),
{
    lemma_collector_frees_only_seen_releases(es, vc, n);
    if exists|i: int| 0 <= i < n && #[trigger] vc[i] <= es[k].timestamp {
        let i = choose|i: int| 0 <= i < n && #[trigger] vc[i] <= es[k].timestamp;
        assert(!(vc[i] > es[k].timestamp));
        assert(!clocks_past(vc, n, es[k].timestamp));
        assert(gc_waiting(es[k], vc, n));
    }
    if forall|i: int| 0 <= i < n ==> #[trigger] vc[i] > es[k].timestamp {
        let d = es.drop_last();
        let r = gc_released(es, vc, n);
        if k == es.len() - 1 {
            assert(es.last() == es[k]);
            assert(gc_ready(es[k], vc, n));
            assert(r[r.len() - 1] == es[k].page_idx);
        } else {
            assert(d[k] == es[k]);
            lemma_release_waits_for_every_instance(d, vc, n, k);
            let rd = gc_released(d, vc, n);
            let q = choose|q: int| 0 <= q < rd.len() && rd[q] == es[k].page_idx;
            if gc_ready(es.last(), vc, n) {
                assert(r[q] == rd[q]);
            }
        }
    }
}

/// A collection by instance `me` (taking `a` to `b`) keeps pending every
/// live scanned entry that some active instance, instance 0 included, has
/// not seen after `me`'s clock advanced, as long as more than one instance
/// is active.
pub proof fn lemma_collect_keeps_unseen_entries(a: Shm, b: Shm, me: usize, freed: int, k: int, i: int)
    requires
        a.inv(),
        me < MAX_INSTANCES,
        gc_post(&a, &b, me, freed),
        0 <= k < scan_len(&a),
        gc_valid(a.gc_pending@[k].flags),
        a.n_instances > 1,
        0 <= i < a.n_instances,
        b.global_vc@[i] <= a.gc_pending@[k].timestamp,
    ensures
        b.gc_pending@.take(b.gc_head as int).contains(a.gc_pending@[k]),
{
    let h = scan_len(&a);
    let es = a.gc_pending@.take(h);
    let vc = advanced_clock(a.global_vc@, me as int);
    let n = a.n_instances as int;
    assert(es[k] == a.gc_pending@[k]);
    assert(vc[i] <= es[k].timestamp);
    lemma_release_waits_for_every_instance(es, vc, n, k);
    let kept = gc_survivors(es, vc, n);
    assert(b.gc_pending@.take(b.gc_head as int) =~= kept) by {
        lemma_survivors_valid(es, vc, n);
    }
}

/// The clocks after instance `me` advanced its own (wrapping at 2^64).
pub open spec fn advanced_clock(vc: Seq<u64>, me: int) -> Seq<u64> {
    vc.update(me, vstd::wrapping::u64_specs::wrapping_add(vc[me], 1))
}

/// Number of GC-pending entries a collection scans.
pub open spec fn scan_len(s: &Shm) -> int {
    if s.gc_head < GC_PENDING_ENTRIES {
        s.gc_head as int
    } else {
        GC_PENDING_ENTRIES as int
    }
}

/// The GC-pending array after a collection: the surviving entries moved
/// to the front in order, the rest of the scanned entries in place (freed
/// ones with cleared flags), the unscanned entries untouched.
pub open spec fn gc_layout(old_pending: Seq<GcEntry>, h: int, vc: Seq<u64>, n: int) -> Seq<GcEntry> {
    let es = old_pending.take(h);
    let kept = gc_survivors(es, vc, n);
    Seq::new(
        old_pending.len(),
        |k: int|
            if k < kept.len() {
                kept[k]
            } else if k < h {
                gc_scanned(es[k], vc, n)
            } else {
                old_pending[k]
            },
    )
}

proof fn lemma_survivors_step(es: Seq<GcEntry>, i: int, vc: Seq<u64>, n: int)
    requires
        0 <= i < es.len(),
    ensures
        gc_survivors(es.take(i + 1), vc, n) == (if gc_waiting(es[i], vc, n) {
            gc_survivors(es.take(i), vc, n).push(es[i])
        } else {
            gc_survivors(es.take(i), vc, n)
        }),
        gc_released(es.take(i + 1), vc, n) == (if gc_ready(es[i], vc, n) {
            gc_released(es.take(i), vc, n).push(es[i].page_idx)
        } else {
            gc_released(es.take(i), vc, n)
        }),
{
    assert(es.take(i + 1).drop_last() =~= es.take(i));
    assert(es.take(i + 1).last() == es[i]);
}

proof fn lemma_survivors_valid(es: Seq<GcEntry>, vc: Seq<u64>, n: int)
    ensures
        forall|k: int| 0 <= k < gc_survivors(es, vc, n).len() ==> exists|j: int|
            0 <= j < es.len() && #[trigger] gc_survivors(es, vc, n)[k] == es[j] && gc_waiting(es[j], vc, n),
        gc_survivors(es, vc, n).len() + gc_released(es, vc, n).len() <= es.len(),
    decreases es.len(),
{
    if es.len() > 0 {
        lemma_survivors_valid(es.drop_last(), vc, n);
        let s = gc_survivors(es.drop_last(), vc, n);
        assert forall|k: int| 0 <= k < gc_survivors(es, vc, n).len() implies exists|j: int|
            0 <= j < es.len() && #[trigger] gc_survivors(es, vc, n)[k] == es[j] && gc_waiting(es[j], vc, n) by {
            if k < s.len() {
                let j = choose|j: int| 0 <= j < es.drop_last().len() && s[k] == es.drop_last()[j] && gc_waiting(es.drop_last()[j], vc, n);
                assert(es[j] == es.drop_last()[j]);
            } else {
                assert(es[es.len() - 1] == es.last());
            }
        }
    }
}

/// Clear flags mean a dead entry.
proof fn lemma_zero_flags_invalid()
    ensures
        !gc_valid(0u8),
{
    assert(0u8 & 0x80u8 == 0) by (bit_vector);
}

/// Whether the first `n` clocks in `vcs` have all advanced past `ts`.
fn all_clocks_past(vcs: &Vec<u64>, n: usize, ts: u64) -> (r: bool)
    requires
        n <= vcs@.len(),
    ensures
        r == clocks_past(vcs@, n as int, ts),
{
    if n <= 1 {
        return true;
    }
    let mut j: usize = 0;
    while j < n
        invariant
            n <= vcs@.len(),
            n > 1,
            j <= n,
            forall|k: int| 0 <= k < j ==> #[trigger] vcs@[k] > ts,
        decreases n - j,
    {
        if vcs[j] <= ts {
            assert(!(vcs@[j as int] > ts));
            assert(0 <= (j as int) < (n as int));
            assert(!clocks_past(vcs@, n as int, ts));
            return false;
        }
        j = j + 1;
    }
    true
}

/// What `shm_gc_collect(me)` does to the region `a`, giving `b`, when it
/// frees `freed` pages.
pub open spec fn gc_post(a: &Shm, b: &Shm, me: usize, freed: int) -> bool {
    let vc = advanced_clock(a.global_vc@, me as int);
    let n = a.n_instances as int;
    let h = scan_len(a);
    let es = a.gc_pending@.take(h);
    &&& b.global_vc@ == vc
    &&& freed == gc_released(es, vc, n).len()
    &&& b.gc_head == gc_survivors(es, vc, n).len()
    &&& b.gc_pending@ == gc_layout(a.gc_pending@, h, vc, n)
    &&& page_lists(b) == release_pages(page_lists(a), gc_released(es, vc, n))
    &&& b.same_header(a)
    &&& b.same_bakery(a)
    &&& b.same_rings(a)
}

/// Advances instance `me`'s clock, then walks the GC-pending list: every
/// live entry whose timestamp all active instances' clocks have advanced past
/// is freed (page count and owner cleared, page pushed onto the
/// freelist, entry flags cleared); the other live entries are compacted
/// to the front in order; dead entries are dropped. Returns the number
/// of pages freed. The caller holds the bakery lock.
pub fn shm_gc_collect(shm: &mut Shm, me: usize) -> (freed: usize)
    requires
        old(shm).inv(),
        me < MAX_INSTANCES,
    ensures
        final(shm).inv(),
        gc_post(&*old(shm), &*final(shm), me, freed as int),
        forall|k: int, i: int|
            0 <= k < scan_len(&*old(shm)) && gc_valid(old(shm).gc_pending@[k].flags) && old(shm).n_instances > 1 && 0
                <= i < old(shm).n_instances && #[trigger] final(shm).global_vc@[i]
                <= #[trigger] old(shm).gc_pending@[k].timestamp ==> final(shm).gc_pending@.take(
                final(shm).gc_head as int,
            ).contains(old(shm).gc_pending@[k]),
{
    let cur_vc = shm.global_vc[me];
    shm.global_vc.set(me, cur_vc.wrapping_add(1));

    let n_inst = shm.n_instances as usize;
    let mut vcs: Vec<u64> = Vec::new();
    let mut i: usize = 0;
    while i < MAX_INSTANCES
        invariant
            i <= MAX_INSTANCES,
            shm.wf(),
            vcs@.len() == i,
            n_inst <= MAX_INSTANCES,
            forall|k: int| 0 <= k < i ==> #[trigger] vcs@[k] == (if k < n_inst {
                shm.global_vc@[k]
            } else {
                0
            }),
        decreases MAX_INSTANCES - i,
    {
        if i < n_inst {
            vcs.push(shm.global_vc[i]);
        } else {
            vcs.push(0);
        }
        i = i + 1;
    }

    let ghost vc = shm.global_vc@;
    let ghost n = n_inst as int;
    let ghost old_pending = shm.gc_pending@;
    let ghost old_pages = page_lists(&*shm);
    let head = shm.gc_head as usize;
    let h = if head < GC_PENDING_ENTRIES { head } else { GC_PENDING_ENTRIES };
    let ghost es = old_pending.take(h as int);
    assert(vc == advanced_clock(old(shm).global_vc@, me as int));
    let mut freed: usize = 0;
    let mut new_head: usize = 0;
    let mut i: usize = 0;
    proof {
        assert(es.take(0) =~= Seq::<GcEntry>::empty());
        lemma_zero_flags_invalid();
    }
    while i < h
        invariant
            h <= GC_PENDING_ENTRIES,
            h as int == scan_len(&*old(shm)),
            es == old_pending.take(h as int),
            old_pending == old(shm).gc_pending@,
            old_pages == page_lists(&*old(shm)),
            vc == advanced_clock(old(shm).global_vc@, me as int),
            n == old(shm).n_instances as int,
            old(shm).inv(),
            i <= h,
            shm.wf(),
            shm.global_vc@ == vc,
            shm.n_instances == old(shm).n_instances,
            n <= MAX_INSTANCES,
            n_inst == n,
            vcs@.len() == MAX_INSTANCES,
            forall|k: int| 0 <= k < n ==> #[trigger] vcs@[k] == vc[k],
            fl_ptr_ok(shm.free_head),
            forall|k: int| 0 <= k < DATA_PAGE_COUNT ==> fl_ptr_ok(#[trigger] shm.freelist@[k]),
            forall|k: int|
                0 <= k < GC_PENDING_ENTRIES && gc_valid(#[trigger] shm.gc_pending@[k].flags)
                    ==> shm.gc_pending@[k].page_idx < DATA_PAGE_COUNT,
            new_head == gc_survivors(es.take(i as int), vc, n).len(),
            freed == gc_released(es.take(i as int), vc, n).len(),
            new_head + freed <= i,
            page_lists(&*shm) == release_pages(old_pages, gc_released(es.take(i as int), vc, n)),
            forall|k: int| 0 <= k < new_head ==> #[trigger] shm.gc_pending@[k]
                == gc_survivors(es.take(i as int), vc, n)[k],
            forall|k: int| new_head <= k < i ==> #[trigger] shm.gc_pending@[k] == gc_scanned(es[k], vc, n),
            forall|k: int| i <= k < GC_PENDING_ENTRIES ==> #[trigger] shm.gc_pending@[k] == old_pending[k],
            shm.same_header(&*old(shm)),
            shm.same_bakery(&*old(shm)),
            shm.same_rings(&*old(shm)),
        decreases h - i,
    {
        proof {
            lemma_survivors_step(es, i as int, vc, n);
            lemma_survivors_valid(es.take(i as int), vc, n);
        }
        let e = shm.gc_pending[i];
        assert(e == es[i as int]);
        if e.flags & GC_VALID == 0 {
            assert(!gc_valid(e.flags));
            i = i + 1;
            continue;
        }
        let page_idx = e.page_idx as usize;
        let timestamp = e.timestamp;
        let all_past = all_clocks_past(&vcs, n_inst, timestamp);
        assert(all_past == clocks_past(vc, n, timestamp)) by {
            assert(forall|k: int| 0 <= k < n ==> vcs@[k] == vc[k]);
        }
        if all_past {
            let ghost before = page_lists(&*shm);
            shm.owner.set(page_idx, 0);
            shm.refcount.set(page_idx, 0);
            let old_head = shm.free_head;
            shm.freelist.set(page_idx, old_head);
            shm.free_head = page_idx as u32;
            freed = freed + 1;
            shm.gc_pending.set(i, GcEntry { page_idx: e.page_idx, timestamp: e.timestamp, flags: 0 });
            proof {
                let rel = gc_released(es.take(i as int + 1), vc, n);
                assert(rel.drop_last() == gc_released(es.take(i as int), vc, n));
                assert(page_lists(&*shm) == release_pages(old_pages, rel));
            }
        } else {
            if new_head != i {
                shm.gc_pending.set(new_head, e);
            }
            new_head = new_head + 1;
        }
        i = i + 1;
    }
    shm.gc_head = new_head as u32;
    proof {
        assert(es.take(h as int) =~= es);
        assert(shm.gc_pending@ =~= gc_layout(old_pending, h as int, vc, n));
        assert(gc_post(&*old(shm), &*shm, me, freed as int));
        assert forall|k: int, i: int|
            0 <= k < scan_len(&*old(shm)) && gc_valid(old(shm).gc_pending@[k].flags) && old(shm).n_instances > 1
                && 0 <= i < old(shm).n_instances && #[trigger] shm.global_vc@[i]
                <= #[trigger] old(shm).gc_pending@[k].timestamp implies shm.gc_pending@.take(shm.gc_head as int).contains(
            old(shm).gc_pending@[k],
        ) by {
            lemma_collect_keeps_unseen_entries(*old(shm), *shm, me, freed as int, k, i);
        }
    }
    freed
}

} // verus!

verus! {

/// Frees the page of every live GC-pending entry regardless of the
/// clocks and empties the list: on re-join, pending entries of an
/// earlier session would otherwise leak their pages.
pub fn gc_drain_on_join(shm: &mut Shm)
    requires
        old(shm).inv(),
    ensures
        final(shm).inv(),
        ({
            let vc = old(shm).global_vc@;
            let h = scan_len(&*old(shm));
            let es = old(shm).gc_pending@.take(h);
            &&& final(shm).gc_head == 0
            &&& final(shm).gc_pending@ == gc_layout(old(shm).gc_pending@, h, vc, 0)
            &&& page_lists(&*final(shm)) == release_pages(page_lists(&*old(shm)), gc_released(es, vc, 0))
        }),
        final(shm).same_header(&*old(shm)),
        final(shm).same_bakery(&*old(shm)),
        final(shm).same_vc(&*old(shm)),
        final(shm).same_rings(&*old(shm)),
{
    let ghost vc = shm.global_vc@;
    let ghost old_pending = shm.gc_pending@;
    let ghost old_pages = page_lists(&*shm);
    let head = shm.gc_head as usize;
    let h = if head < GC_PENDING_ENTRIES { head } else { GC_PENDING_ENTRIES };
    let ghost es = old_pending.take(h as int);
    let mut i: usize = 0;
    proof {
        assert(es.take(0) =~= Seq::<GcEntry>::empty());
        lemma_zero_flags_invalid();
    }
    while i < h
        invariant
            h <= GC_PENDING_ENTRIES,
            h as int == scan_len(&*old(shm)),
            es == old_pending.take(h as int),
            old_pending == old(shm).gc_pending@,
            old_pages == page_lists(&*old(shm)),
            vc == old(shm).global_vc@,
            old(shm).inv(),
            i <= h,
            shm.wf(),
            shm.n_instances == old(shm).n_instances,
            fl_ptr_ok(shm.free_head),
            forall|k: int| 0 <= k < DATA_PAGE_COUNT ==> fl_ptr_ok(#[trigger] shm.freelist@[k]),
            forall|k: int|
                0 <= k < GC_PENDING_ENTRIES && gc_valid(#[trigger] shm.gc_pending@[k].flags)
                    ==> shm.gc_pending@[k].page_idx < DATA_PAGE_COUNT,
            gc_survivors(es.take(i as int), vc, 0).len() == 0,
            page_lists(&*shm) == release_pages(old_pages, gc_released(es.take(i as int), vc, 0)),
            forall|k: int| 0 <= k < i ==> #[trigger] shm.gc_pending@[k] == gc_scanned(es[k], vc, 0),
            forall|k: int| i <= k < GC_PENDING_ENTRIES ==> #[trigger] shm.gc_pending@[k] == old_pending[k],
            shm.gc_head == old(shm).gc_head,
            shm.same_header(&*old(shm)),
            shm.same_bakery(&*old(shm)),
            shm.same_vc(&*old(shm)),
            shm.same_rings(&*old(shm)),
        decreases h - i,
    {
        proof {
            lemma_survivors_step(es, i as int, vc, 0);
        }
        let e = shm.gc_pending[i];
        assert(e == es[i as int]);
        if e.flags & GC_VALID != 0 {
            let page_idx = e.page_idx as usize;
            shm.owner.set(page_idx, 0);
            shm.refcount.set(page_idx, 0);
            let old_head = shm.free_head;
            shm.freelist.set(page_idx, old_head);
            shm.free_head = page_idx as u32;
            shm.gc_pending.set(i, GcEntry { page_idx: e.page_idx, timestamp: e.timestamp, flags: 0 });
            proof {
                let rel = gc_released(es.take(i as int + 1), vc, 0);
                assert(rel.drop_last() == gc_released(es.take(i as int), vc, 0));
            }
        }
        i = i + 1;
    }
    shm.gc_head = 0;
    proof {
        assert(es.take(h as int) =~= es);
        assert(shm.gc_pending@ =~= gc_layout(old_pending, h as int, vc, 0));
    }
}

/// Sets every instance's vector clock back to 0.
pub fn reset_vc(shm: &mut Shm)
    requires
        old(shm).inv(),
    ensures
        final(shm).inv(),
        forall|i: int| 0 <= i < MAX_INSTANCES ==> #[trigger] final(shm).global_vc@[i] == 0,
        final(shm).same_header(&*old(shm)),
        final(shm).same_bakery(&*old(shm)),
        final(shm).same_pages(&*old(shm)),
        final(shm).same_gc(&*old(shm)),
        final(shm).same_rings(&*old(shm)),
{
    let mut i: usize = 0;
    while i < MAX_INSTANCES
        invariant
            i <= MAX_INSTANCES,
            shm.inv(),
            forall|k: int| 0 <= k < i ==> #[trigger] shm.global_vc@[k] == 0,
            shm.same_header(&*old(shm)),
            shm.same_bakery(&*old(shm)),
            shm.same_pages(&*old(shm)),
            shm.same_gc(&*old(shm)),
            shm.same_rings(&*old(shm)),
        decreases MAX_INSTANCES - i,
    {
        shm.global_vc.set(i, 0);
        i = i + 1;
    }
}

} // verus!
