//! Page-number conversions for the shared data region.

use vstd::prelude::*;
use crate::cxl::layout::{DATA_PAGE_COUNT, GC_PENDING_ENTRIES, MAX_INSTANCES, SHM_DATA_PPN_BASE};
use crate::cxl::gc::{
    advanced_clock, gc_post, lemma_release_lengths, lemma_released_pages_bounded, page_lists, release_pages, gc_ready, gc_released, gc_survivors, scan_len, shm_gc_collect, PageLists,
};
use crate::cxl::refcnt::{lemma_owner_flags_valid, pending_entry, shm_unref_page, unref_post};
use crate::cxl::shm::{fl_ptr_ok, gc_valid, GcEntry, Shm, FREE_END};
use crate::mm::address::PhysPageNum;

verus! {

/// First data page reserved for the cross-VM rings.
pub const CROSS_RING_PAGE_START: usize = 0x3EE0;
/// Number of data pages reserved for the cross-VM rings
/// (16 KB of rings and 4 KB of RX ring entries).
pub const CROSS_RING_PAGE_COUNT: usize = 5;

/// Whether `ppn` is a page of the shared data region.
pub open spec fn spec_is_shm_ppn(ppn: usize) -> bool {
    SHM_DATA_PPN_BASE <= ppn < SHM_DATA_PPN_BASE + DATA_PAGE_COUNT
}

/// The physical page that holds data page `idx`.
pub fn shm_page_to_ppn(idx: usize) -> (ppn: PhysPageNum)
    requires
        idx <= usize::MAX - SHM_DATA_PPN_BASE,
    ensures
        ppn.0 == SHM_DATA_PPN_BASE + idx,
{
    PhysPageNum(SHM_DATA_PPN_BASE + idx)
}

/// The data-page index of `ppn`, or `None` when it is not a data page.
pub fn ppn_to_shm_idx(ppn: PhysPageNum) -> (r: Option<usize>)
    ensures
        r is Some <==> spec_is_shm_ppn(ppn.0),
        r matches Some(idx) ==> idx == ppn.0 - SHM_DATA_PPN_BASE && idx < DATA_PAGE_COUNT,
{
    let base = SHM_DATA_PPN_BASE;
    if ppn.0 >= base && ppn.0 < base + DATA_PAGE_COUNT {
        Some(ppn.0 - base)
    } else {
        None
    }
}

/// Whether `ppn` lies in the shared data region.
pub fn is_shm_page(ppn: PhysPageNum) -> (r: bool)
    ensures
        r == spec_is_shm_ppn(ppn.0),
{
    ppn.0 >= SHM_DATA_PPN_BASE && ppn.0 < SHM_DATA_PPN_BASE + DATA_PAGE_COUNT
}

/// Converting a data page to its physical page and back gives the same
/// index, and the physical page is recognised as a shared page.
pub proof fn lemma_shm_ppn_round_trip(idx: usize)
    requires
        idx < DATA_PAGE_COUNT,
    ensures
        spec_is_shm_ppn((SHM_DATA_PPN_BASE + idx) as usize),
        ((SHM_DATA_PPN_BASE + idx) as usize) - SHM_DATA_PPN_BASE == idx,
{
}

} // verus!

verus! {

/// The freelist chain after `k` steps of the walk that
/// `reserve_cross_ring_pages` makes from `head`: the last page visited and
/// the page reached. The walk stops at the end of the list.
pub open spec fn chain_walk(fl: Seq<u32>, head: u32, k: nat) -> (u32, u32)
    decreases k,
{
    if k == 0 {
        (FREE_END, head)
    } else {
        let (p, c) = chain_walk(fl, head, (k - 1) as nat);
        if c == FREE_END {
            (p, c)
        } else {
            (c, fl[c as int])
        }
    }
}

/// The page reached from `start` after following `k` freelist links
/// (stopping at the end of the list).
pub open spec fn chain_advance(fl: Seq<u32>, start: u32, k: nat) -> u32
    decreases k,
{
    if k == 0 {
        start
    } else {
        let c = chain_advance(fl, start, (k - 1) as nat);
        if c == FREE_END {
            c
        } else {
            fl[c as int]
        }
    }
}

/// The freelist that links every data page to the next one.
pub open spec fn initial_chain_next(i: int) -> u32 {
    if i + 1 < DATA_PAGE_COUNT {
        (i + 1) as u32
    } else {
        FREE_END
    }
}

/// Rewrites the freelist as one chain of all data pages in order (first
/// boot), empties the GC-pending list and clears every reference count
/// and owner.
pub fn shm_init_freelist(shm: &mut Shm)
    requires
        old(shm).inv(),
    ensures
        final(shm).inv(),
        final(shm).free_head == 0,
        final(shm).gc_head == 0,
        forall|i: int| 0 <= i < DATA_PAGE_COUNT ==> #[trigger] final(shm).freelist@[i] == initial_chain_next(i),
        forall|i: int| 0 <= i < DATA_PAGE_COUNT ==> #[trigger] final(shm).refcount@[i] == 0,
        forall|i: int| 0 <= i < DATA_PAGE_COUNT ==> #[trigger] final(shm).owner@[i] == 0,
        final(shm).gc_pending@ == old(shm).gc_pending@,
        final(shm).same_header(&*old(shm)),
        final(shm).same_bakery(&*old(shm)),
        final(shm).same_vc(&*old(shm)),
        final(shm).same_rings(&*old(shm)),
{
    shm.free_head = 0;
    shm.gc_head = 0;
    let n = DATA_PAGE_COUNT;
    let mut i: usize = 0;
    while i < n
        invariant
            n == DATA_PAGE_COUNT,
            i <= n,
            shm.inv(),
            shm.free_head == 0,
            shm.gc_head == 0,
            forall|k: int| 0 <= k < i ==> #[trigger] shm.freelist@[k] == initial_chain_next(k),
            shm.refcount@ == old(shm).refcount@,
            shm.owner@ == old(shm).owner@,
            shm.gc_pending@ == old(shm).gc_pending@,
            shm.same_header(&*old(shm)),
            shm.same_bakery(&*old(shm)),
            shm.same_vc(&*old(shm)),
            shm.same_rings(&*old(shm)),
        decreases n - i,
    {
        let next = if i + 1 < n { (i + 1) as u32 } else { FREE_END };
        shm.freelist.set(i, next);
        i = i + 1;
    }
    let mut i: usize = 0;
    while i < n
        invariant
            n == DATA_PAGE_COUNT,
            i <= n,
            shm.inv(),
            shm.free_head == 0,
            shm.gc_head == 0,
            forall|k: int| 0 <= k < n ==> #[trigger] shm.freelist@[k] == initial_chain_next(k),
            forall|k: int| 0 <= k < i ==> #[trigger] shm.refcount@[k] == 0,
            forall|k: int| 0 <= k < i ==> #[trigger] shm.owner@[k] == 0,
            shm.gc_pending@ == old(shm).gc_pending@,
            shm.same_header(&*old(shm)),
            shm.same_bakery(&*old(shm)),
            shm.same_vc(&*old(shm)),
            shm.same_rings(&*old(shm)),
        decreases n - i,
    {
        shm.refcount.set(i, 0);
        shm.owner.set(i, 0);
        i = i + 1;
    }
}

/// Takes the first page off the freelist, giving it reference count 1
/// and owner `me`; `None` when the freelist is empty. The caller holds the
/// bakery lock.
pub fn shm_alloc_page(shm: &mut Shm, me: usize) -> (r: Option<usize>)
    requires
        old(shm).inv(),
        me < MAX_INSTANCES,
    ensures
        final(shm).inv(),
        r is None <==> old(shm).free_head == FREE_END,
        r is None ==> *final(shm) == *old(shm),
        r matches Some(p) ==> {
            &&& p == old(shm).free_head
            &&& p < DATA_PAGE_COUNT
            &&& final(shm).free_head == old(shm).freelist@[p as int]
            &&& final(shm).freelist@ == old(shm).freelist@
            &&& final(shm).refcount@ == old(shm).refcount@.update(p as int, 1)
            &&& final(shm).owner@ == old(shm).owner@.update(p as int, me as u8)
            &&& final(shm).same_header(&*old(shm))
            &&& final(shm).same_bakery(&*old(shm))
            &&& final(shm).same_vc(&*old(shm))
            &&& final(shm).same_gc(&*old(shm))
            &&& final(shm).same_rings(&*old(shm))
        },
{
    let head = shm.free_head;
    if head == FREE_END {
        return None;
    }
    let next = shm.freelist[head as usize];
    shm.free_head = next;
    shm.refcount.set(head as usize, 1);
    shm.owner.set(head as usize, me as u8);
    Some(head as usize)
}

/// Cuts the pages of the cross-VM rings out of the freelist: walks
/// `CROSS_RING_PAGE_START` links from the head, skips the next
/// `CROSS_RING_PAGE_COUNT` pages and links the page before them to the
/// page after them (or moves the head when the cut starts at the head).
pub fn reserve_cross_ring_pages(shm: &mut Shm)
    requires
        old(shm).inv(),
    ensures
        final(shm).inv(),
        ({
            let fl = old(shm).freelist@;
            let (prev, cur) = chain_walk(fl, old(shm).free_head, CROSS_RING_PAGE_START as nat);
            let after = chain_advance(fl, cur, CROSS_RING_PAGE_COUNT as nat);
            if prev == FREE_END {
                final(shm).free_head == after && final(shm).freelist@ == fl
            } else {
                final(shm).free_head == old(shm).free_head
                    && final(shm).freelist@ == fl.update(prev as int, after)
            }
        }),
        final(shm).refcount@ == old(shm).refcount@,
        final(shm).owner@ == old(shm).owner@,
        final(shm).same_header(&*old(shm)),
        final(shm).same_bakery(&*old(shm)),
        final(shm).same_vc(&*old(shm)),
        final(shm).same_gc(&*old(shm)),
        final(shm).same_rings(&*old(shm)),
{
    let ghost fl = shm.freelist@;
    let mut prev = FREE_END;
    let mut cur = shm.free_head;
    let mut i: usize = 0;
    while i < CROSS_RING_PAGE_START
        invariant
            i <= CROSS_RING_PAGE_START,
            shm.inv(),
            shm.freelist@ == fl,
            fl_ptr_ok(prev),
            fl_ptr_ok(cur),
            (prev, cur) == chain_walk(fl, shm.free_head, i as nat),
        ensures
            shm.inv(),
            shm.freelist@ == fl,
            fl_ptr_ok(prev),
            fl_ptr_ok(cur),
            (prev, cur) == chain_walk(fl, shm.free_head, CROSS_RING_PAGE_START as nat),
        decreases CROSS_RING_PAGE_START - i,
    {
        if cur == FREE_END {
            let ghost k = i;
            assert forall|j: nat| k <= j <= CROSS_RING_PAGE_START implies chain_walk(fl, shm.free_head, j)
                == (prev, cur) by {
                lemma_walk_stays(fl, shm.free_head, k as nat, j);
            }
            i = CROSS_RING_PAGE_START;
            break;
        }
        prev = cur;
        cur = shm.freelist[cur as usize];
        i = i + 1;
    }
    let ghost start = cur;
    let mut j: usize = 0;
    while j < CROSS_RING_PAGE_COUNT
        invariant
            j <= CROSS_RING_PAGE_COUNT,
            shm.inv(),
            shm.freelist@ == fl,
            fl_ptr_ok(cur),
            cur == chain_advance(fl, start, j as nat),
        ensures
            shm.inv(),
            shm.freelist@ == fl,
            fl_ptr_ok(cur),
            cur == chain_advance(fl, start, CROSS_RING_PAGE_COUNT as nat),
        decreases CROSS_RING_PAGE_COUNT - j,
    {
        if cur == FREE_END {
            let ghost k = j;
            assert forall|m: nat| k <= m <= CROSS_RING_PAGE_COUNT implies chain_advance(fl, start, m)
                == cur by {
                lemma_advance_stays(fl, start, k as nat, m);
            }
            j = CROSS_RING_PAGE_COUNT;
            break;
        }
        cur = shm.freelist[cur as usize];
        j = j + 1;
    }
    if prev == FREE_END {
        shm.free_head = cur;
    } else {
        shm.freelist.set(prev as usize, cur);
    }
}

proof fn lemma_walk_stays(fl: Seq<u32>, head: u32, k: nat, j: nat)
    requires
        k <= j,
        chain_walk(fl, head, k).1 == FREE_END,
    ensures
        chain_walk(fl, head, j) == chain_walk(fl, head, k),
    decreases j - k,
{
    if j > k {
        lemma_walk_stays(fl, head, k, (j - 1) as nat);
    }
}

proof fn lemma_advance_stays(fl: Seq<u32>, start: u32, k: nat, j: nat)
    requires
        k <= j,
        chain_advance(fl, start, k) == FREE_END,
    ensures
        chain_advance(fl, start, j) == FREE_END,
    decreases j - k,
{
    if j > k {
        lemma_advance_stays(fl, start, k, (j - 1) as nat);
    }
}

} // verus!

verus! {

/// Drops a reference to page `idx`: when the count reaches 0 the page
/// becomes GC-pending, then a collection runs at once (with one instance
/// it frees the page right away; with several the page waits until every
/// peer's clock has advanced). The caller holds the bakery lock.
pub fn shm_free_page(shm: &mut Shm, idx: usize, me: usize)
    requires
        old(shm).inv(),
        idx < DATA_PAGE_COUNT,
        me < MAX_INSTANCES,
    ensures
        final(shm).inv(),
        exists|mid: Shm, freed: int|
            mid.inv() && unref_post(&*old(shm), &mid, idx, me) && gc_post(&mid, &*final(shm), me, freed),
{
    let ghost before = *shm;
    shm_unref_page(shm, idx, me);
    let ghost mid = *shm;
    let freed = shm_gc_collect(shm, me);
    assert(mid.inv() && unref_post(&before, &mid, idx, me) && gc_post(&mid, &*shm, me, freed as int));
}

proof fn lemma_no_survivors_single(es: Seq<GcEntry>, vc: Seq<u64>, n: int)
    requires
        n <= 1,
    ensures
        gc_survivors(es, vc, n) == Seq::<GcEntry>::empty(),
    decreases es.len(),
{
    if es.len() > 0 {
        lemma_no_survivors_single(es.drop_last(), vc, n);
    }
}

/// With a single active instance, releasing the last reference to a page
/// that this instance owns frees it at once: it
/// heads the freelist, its count and owner are cleared, and the
/// GC-pending list is left empty (if the list had room for it).
pub proof fn lemma_free_reclaims_single_instance(
    a: Shm,
    mid: Shm,
    b: Shm,
    idx: usize,
    me: usize,
    freed: int,
)
    requires
        a.inv(),
        mid.inv(),
        idx < DATA_PAGE_COUNT,
        me < MAX_INSTANCES,
        a.n_instances <= 1,
        a.refcount@[idx as int] <= 1,
        a.owner@[idx as int] == me as u8,
        a.gc_head < GC_PENDING_ENTRIES,
        unref_post(&a, &mid, idx, me),
        gc_post(&mid, &b, me, freed),
    ensures
        b.free_head == idx,
        b.refcount@[idx as int] == 0,
        b.owner@[idx as int] == 0,
        b.gc_head == 0,
        freed >= 1,
{
    let vc = advanced_clock(mid.global_vc@, me as int);
    let n = mid.n_instances as int;
    let h = scan_len(&mid);
    let es = mid.gc_pending@.take(h);
    assert(h == a.gc_head + 1);
    let e = es.last();
    assert(e == pending_entry(idx, a.owner@[idx as int], a.global_vc@[me as int]));
    lemma_owner_flags_valid(a.owner@[idx as int]);
    assert(gc_ready(e, vc, n));
    lemma_no_survivors_single(es, vc, n);
    let rel = gc_released(es, vc, n);
    assert(rel == gc_released(es.drop_last(), vc, n).push(idx as u32));
    assert forall|j: int| 0 <= j < es.len() && gc_valid(#[trigger] es[j].flags) implies es[j].page_idx
        < DATA_PAGE_COUNT by {
        assert(es[j] == mid.gc_pending@[j]);
    }
    lemma_released_pages_bounded(es, vc, n, DATA_PAGE_COUNT as int);
    assert forall|k: int| 0 <= k < rel.drop_last().len() implies #[trigger] rel.drop_last()[k] < DATA_PAGE_COUNT by {
        assert(rel.drop_last()[k] == rel[k]);
    }
    lemma_release_lengths(page_lists(&mid), rel.drop_last());
    assert(rel.drop_last() == gc_released(es.drop_last(), vc, n));
}

} // verus!

verus! {

/// The freelist that starts at `head` and follows the links of `fl` is
/// exactly the distinct data pages `pages`, in order, ending at the end
/// marker.
pub open spec fn is_free_chain(head: u32, fl: Seq<u32>, pages: Seq<u32>) -> bool {
    &&& pages.no_duplicates()
    &&& forall|i: int| 0 <= i < pages.len() ==> #[trigger] pages[i] < DATA_PAGE_COUNT
    &&& pages.len() == 0 ==> head == FREE_END
    &&& pages.len() > 0 ==> head == pages[0] && fl[pages.last() as int] == FREE_END
    &&& forall|i: int| 0 <= i < pages.len() - 1 ==> fl[#[trigger] pages[i] as int] == pages[i + 1]
}

/// The data pages in order.
pub open spec fn all_data_pages() -> Seq<u32> {
    Seq::new(DATA_PAGE_COUNT as nat, |i: int| i as u32)
}

/// The freelist written at first boot chains every data page in order.
pub proof fn lemma_initial_chain_holds_every_page(fl: Seq<u32>)
    requires
        fl.len() == DATA_PAGE_COUNT,
        forall|i: int| 0 <= i < DATA_PAGE_COUNT ==> #[trigger] fl[i] == initial_chain_next(i),
    ensures
        is_free_chain(0, fl, all_data_pages()),
{
    let pages = all_data_pages();
    assert(pages.no_duplicates());
    assert(fl[pages.last() as int] == initial_chain_next(DATA_PAGE_COUNT - 1));
    assert forall|i: int| 0 <= i < pages.len() - 1 implies fl[#[trigger] pages[i] as int] == pages[i + 1] by {
        assert(fl[i] == initial_chain_next(i));
    }
}

/// Taking the head of a well-formed freelist leaves the rest of the list
/// intact, and the page taken is no longer on it.
pub proof fn lemma_alloc_takes_head_off_chain(head: u32, fl: Seq<u32>, pages: Seq<u32>)
    requires
        is_free_chain(head, fl, pages),
        head != FREE_END,
    ensures
        pages.len() > 0,
        head == pages[0],
        is_free_chain(fl[head as int], fl, pages.drop_first()),
        !pages.drop_first().contains(head),
{
    let rest = pages.drop_first();
    if pages.len() > 1 {
        assert(fl[pages[0] as int] == pages[1]);
        assert(rest.last() == pages.last());
        assert forall|i: int| 0 <= i < rest.len() - 1 implies fl[#[trigger] rest[i] as int] == rest[i + 1] by {
            assert(rest[i] == pages[i + 1]);
            assert(rest[i + 1] == pages[i + 2]);
        }
    }
    if rest.contains(head) {
        let k = choose|k: int| 0 <= k < rest.len() && rest[k] == head;
        assert(pages[k + 1] == pages[0]);
    }
}

/// Freeing the pages `rel` in order pushes each onto the front of a
/// well-formed freelist: the list becomes `rel` reversed, then the pages
/// that were free before.
pub proof fn lemma_release_extends_chain(st: PageLists, rel: Seq<u32>, pages: Seq<u32>)
    requires
        is_free_chain(st.head, st.freelist, pages),
        st.freelist.len() == DATA_PAGE_COUNT,
        st.refcount.len() == DATA_PAGE_COUNT,
        st.owner.len() == DATA_PAGE_COUNT,
        rel.no_duplicates(),
        forall|i: int| 0 <= i < rel.len() ==> #[trigger] rel[i] < DATA_PAGE_COUNT && !pages.contains(rel[i]),
    ensures
        is_free_chain(release_pages(st, rel).head, release_pages(st, rel).freelist, rel.reverse() + pages),
    decreases rel.len(),
{
    if rel.len() > 0 {
        let d = rel.drop_last();
        let p = rel.last();
        assert forall|i: int| 0 <= i < d.len() implies #[trigger] d[i] < DATA_PAGE_COUNT && !pages.contains(d[i]) by {
            assert(d[i] == rel[i]);
        }
        assert(d.no_duplicates()) by {
            assert forall|a: int, b: int| 0 <= a < d.len() && 0 <= b < d.len() && a != b implies d[a] != d[b] by {
                assert(d[a] == rel[a] && d[b] == rel[b]);
            }
        }
        lemma_release_extends_chain(st, d, pages);
        let prev = release_pages(st, d);
        let tail = d.reverse() + pages;
        lemma_release_lengths(st, d);
        let now = release_pages(st, rel);
        assert(rel.drop_last() == d);
        assert(now.head == p);
        assert(now.freelist == prev.freelist.update(p as int, prev.head));
        let full = rel.reverse() + pages;
        assert(full =~= seq![p] + tail) by {
            assert forall|i: int| 0 <= i < full.len() implies full[i] == (seq![p] + tail)[i] by {
                if i == 0 {
                } else if i < rel.len() {
                    assert(rel.reverse()[i] == rel[rel.len() - 1 - i]);
                    assert(d.reverse()[i - 1] == d[d.len() - 1 - (i - 1)]);
                } else {
                }
            }
        }
        assert(!tail.contains(p)) by {
            if tail.contains(p) {
                let k = choose|k: int| 0 <= k < tail.len() && tail[k] == p;
                if k < d.len() {
                    assert(tail[k] == d[d.len() - 1 - k]);
                    assert(d[d.len() - 1 - k] == rel[d.len() - 1 - k]);
                } else {
                    assert(tail[k] == pages[k - d.len()]);
                }
            }
        }
        assert(full.no_duplicates()) by {
            assert forall|a: int, b: int| 0 <= a < full.len() && 0 <= b < full.len() && a != b implies full[a]
                != full[b] by {
                if a == 0 {
                    assert(full[b] == tail[b - 1]);
                } else if b == 0 {
                    assert(full[a] == tail[a - 1]);
                } else {
                    assert(full[a] == tail[a - 1] && full[b] == tail[b - 1]);
                }
            }
        }
        assert forall|i: int| 0 <= i < full.len() implies #[trigger] full[i] < DATA_PAGE_COUNT by {
            if i > 0 {
                assert(full[i] == tail[i - 1]);
            }
        }
        if tail.len() > 0 {
            assert(full.last() == tail.last());
            assert(now.freelist[tail.last() as int] == FREE_END) by {
                assert(tail.last() != p);
            }
        } else {
            assert(prev.head == FREE_END);
        }
        assert forall|i: int| 0 <= i < full.len() - 1 implies now.freelist[#[trigger] full[i] as int] == full[i + 1] by {
            if i == 0 {
                assert(full[1] == tail[0]);
            } else {
                assert(full[i] == tail[i - 1]);
                assert(full[i + 1] == tail[i]);
                assert(tail[i - 1] != p);
            }
        }
    }
}

} // verus!
