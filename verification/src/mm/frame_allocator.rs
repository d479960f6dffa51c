//! Physical frame allocators: a bump allocator with a recycle stack for
//! one contiguous range, and the tiered allocator that serves frames from
//! DRAM (the fast tier) and from each CXL card (the slow tiers).

use vstd::prelude::*;
use crate::config::CXL_CARD_COUNT;
use crate::cxl::CxlCardId;
use crate::mm::address::PhysPageNum;

verus! {

/// The state of a `StackFrameAllocator`.
pub struct StackView {
    pub start: usize,
    pub current: usize,
    pub end: usize,
    pub recycled: Seq<usize>,
}

impl StackView {
    /// `start <= current <= end`, the recycled frames are distinct and
    /// were handed out before (they lie below `current`).
    pub open spec fn wf(self) -> bool {
        &&& self.start <= self.current <= self.end
        &&& self.recycled.no_duplicates()
        &&& forall|i: int| 0 <= i < self.recycled.len() ==> #[trigger] self.recycled[i] < self.current
    }

    /// Additionally every recycled frame lies in `[start, end)`.
    pub open spec fn wf_in_range(self) -> bool {
        &&& self.wf()
        &&& forall|i: int| 0 <= i < self.recycled.len() ==> self.start <= #[trigger] self.recycled[i]
    }

    /// The frames that can still be handed out.
    pub open spec fn free_set(self) -> Set<usize> {
        Set::new(|p: usize| self.recycled.contains(p) || (self.current <= p < self.end))
    }

    /// How many frames can still be handed out.
    pub open spec fn free_count(self) -> int {
        self.recycled.len() + (self.end - self.current)
    }

    /// Whether `p` lies in the allocator's range.
    pub open spec fn in_range(self, p: usize) -> bool {
        self.start <= p < self.end
    }

    /// Whether `p` is a frame that is out and may be returned.
    pub open spec fn can_dealloc(self, p: usize) -> bool {
        p < self.current && !self.recycled.contains(p)
    }
}

/// One step of `StackFrameAllocator::alloc_frame` from `a` to `b`
/// returning `r`.
pub open spec fn alloc_step(a: StackView, b: StackView, r: Option<PhysPageNum>) -> bool {
    &&& b.start == a.start
    &&& b.end == a.end
    &&& if a.recycled.len() > 0 {
        r == Some(PhysPageNum(a.recycled.last())) && b.recycled == a.recycled.drop_last() && b.current
            == a.current
    } else if a.current == a.end {
        r is None && b == a
    } else {
        r == Some(PhysPageNum(a.current)) && b.current == a.current + 1 && b.recycled == a.recycled
    }
}

/// One step of `StackFrameAllocator::dealloc` of frame `p`.
pub open spec fn dealloc_step(a: StackView, b: StackView, p: usize) -> bool {
    b == (StackView { recycled: a.recycled.push(p), ..a })
}

/// Hands out the frames of `[start, end)`: recycled frames first (last
/// returned, first handed out), then fresh frames in increasing order.
pub struct StackFrameAllocator {
    start: usize,
    current: usize,
    end: usize,
    recycled: Vec<usize>,
}

impl View for StackFrameAllocator {
    type V = StackView;

    closed spec fn view(&self) -> StackView {
        StackView {
            start: self.start,
            current: self.current,
            end: self.end,
            recycled: self.recycled@,
        }
    }
}

impl StackFrameAllocator {
    /// An allocator with an empty range.
    pub fn new() -> (a: Self)
        ensures
            a@ == (StackView { start: 0, current: 0, end: 0, recycled: Seq::empty() }),
            a@.wf_in_range(),
    {
        StackFrameAllocator { start: 0, current: 0, end: 0, recycled: Vec::new() }
    }

    /// Sets the range to `[l, r)` with no frame handed out yet. Frames
    /// recycled earlier stay on the recycle stack.
    pub fn init(&mut self, l: PhysPageNum, r: PhysPageNum)
        requires
            l.0 <= r.0,
            old(self)@.recycled.no_duplicates(),
            forall|i: int| 0 <= i < old(self)@.recycled.len() ==> #[trigger] old(self)@.recycled[i] < l.0,
        ensures
            final(self)@ == (StackView { start: l.0, current: l.0, end: r.0, recycled: old(self)@.recycled }),
            final(self)@.wf(),
    {
        self.start = l.0;
        self.current = l.0;
        self.end = r.0;
    }

    /// The range `[start, end)` as its two ends.
    pub fn stack_range(&self) -> (r: (PhysPageNum, PhysPageNum))
        ensures
            r.0.0 == self@.start,
            r.1.0 == self@.end,
    {
        (PhysPageNum(self.start), PhysPageNum(self.end))
    }

    /// Whether `ppn` lies in `[start, end)`.
    pub fn contains(&self, ppn: PhysPageNum) -> (b: bool)
        ensures
            b == self@.in_range(ppn.0),
    {
        self.start <= ppn.0 && ppn.0 < self.end
    }

    /// Hands out a frame: the most recently recycled one, else the next
    /// fresh one; `None` when the range is used up.
    pub fn alloc_frame(&mut self) -> (r: Option<PhysPageNum>)
        requires
            old(self)@.wf(),
        ensures
            final(self)@.wf(),
            alloc_step(old(self)@, final(self)@, r),
    {
        if let Some(ppn) = self.recycled.pop() {
            proof {
                assert forall|i: int| 0 <= i < self.recycled@.len() implies #[trigger] self.recycled@[i]
                    < self.current by {
                    assert(self.recycled@[i] == old(self).recycled@[i]);
                }
                assert(self.recycled@.no_duplicates()) by {
                    assert forall|a: int, b: int|
                        0 <= a < self.recycled@.len() && 0 <= b < self.recycled@.len() && a != b implies self.recycled@[a]
                        != self.recycled@[b] by {
                        assert(self.recycled@[a] == old(self).recycled@[a]);
                        assert(self.recycled@[b] == old(self).recycled@[b]);
                    }
                }
            }
            Some(PhysPageNum(ppn))
        } else if self.current == self.end {
            None
        } else {
            self.current = self.current + 1;
            Some(PhysPageNum(self.current - 1))
        }
    }

    /// Hands out `pages` fresh frames at once (recycled frames are not
    /// used), highest first; `None` unless more than `pages` fresh frames
    /// remain.
    pub fn alloc_more(&mut self, pages: usize) -> (r: Option<Vec<PhysPageNum>>)
        requires
            old(self)@.wf(),
            pages <= usize::MAX - old(self)@.end,
        ensures
            final(self)@.wf(),
            old(self)@.current + pages >= old(self)@.end ==> r is None && final(self)@ == old(self)@,
            old(self)@.current + pages < old(self)@.end ==> r is Some && final(self)@ == (StackView {
                current: (old(self)@.current + pages) as usize,
                ..old(self)@
            }) && r->0@ == Seq::new(
                pages as nat,
                |i: int| PhysPageNum((old(self)@.current + pages - 1 - i) as usize),
            ),
    {
        if self.current + pages >= self.end {
            None
        } else {
            self.current = self.current + pages;
            let mut v: Vec<PhysPageNum> = Vec::new();
            let mut x: usize = 1;
            while x < pages + 1
                invariant
                    pages < usize::MAX,
                    1 <= x <= pages + 1,
                    self.current >= pages,
                    v@ == Seq::new((x - 1) as nat, |i: int| PhysPageNum((self.current - 1 - i) as usize)),
                decreases pages + 1 - x,
            {
                v.push(PhysPageNum(self.current - x));
                proof {
                    assert(v@ =~= Seq::new(x as nat, |i: int| PhysPageNum((self.current - 1 - i) as usize)));
                }
                x = x + 1;
            }
            assert(v@ =~= Seq::new(
                pages as nat,
                |i: int| PhysPageNum((old(self)@.current + pages - 1 - i) as usize),
            ));
            Some(v)
        }
    }

    /// Takes back a frame that was handed out and is not recycled yet; it
    /// goes on top of the recycle stack.
    pub fn dealloc(&mut self, ppn: PhysPageNum)
        requires
            old(self)@.wf(),
            old(self)@.can_dealloc(ppn.0),
        ensures
            final(self)@.wf(),
            dealloc_step(old(self)@, final(self)@, ppn.0),
    {
        self.recycled.push(ppn.0);
        proof {
            assert(self.recycled@.no_duplicates()) by {
                assert forall|a: int, b: int|
                    0 <= a < self.recycled@.len() && 0 <= b < self.recycled@.len() && a != b implies self.recycled@[a]
                    != self.recycled@[b] by {
                    if a < old(self).recycled@.len() && b < old(self).recycled@.len() {
                        assert(self.recycled@[a] == old(self).recycled@[a]);
                        assert(self.recycled@[b] == old(self).recycled@[b]);
                    } else if a < old(self).recycled@.len() {
                        assert(self.recycled@[a] == old(self).recycled@[a]);
                        assert(old(self).recycled@.contains(self.recycled@[a]));
                    } else {
                        assert(self.recycled@[b] == old(self).recycled@[b]);
                        assert(old(self).recycled@.contains(self.recycled@[b]));
                    }
                }
            }
            assert forall|i: int| 0 <= i < self.recycled@.len() implies #[trigger] self.recycled@[i] < self.current by {
                if i < old(self).recycled@.len() {
                    assert(self.recycled@[i] == old(self).recycled@[i]);
                }
            }
        }
    }
}

/// A frame handed out was free and no longer is; every other frame keeps
/// its status; the allocator fails only when nothing is free. A frame
/// handed out may be returned.
pub proof fn lemma_alloc_step(a: StackView, b: StackView, r: Option<PhysPageNum>)
    requires
        a.wf(),
        alloc_step(a, b, r),
    ensures
        r is None <==> a.free_count() == 0,
        r is None ==> b == a,
        r matches Some(p) ==> {
            &&& a.free_set().contains(p.0)
            &&& b.free_set() == a.free_set().remove(p.0)
            &&& b.free_count() == a.free_count() - 1
            &&& b.can_dealloc(p.0)
            &&& (a.wf_in_range() ==> a.in_range(p.0))
        },
{
    if a.recycled.len() > 0 {
        let p = a.recycled.last();
        assert(a.recycled[a.recycled.len() - 1] == p);
        assert(a.recycled.contains(p));
        assert forall|q: usize| #[trigger] b.free_set().contains(q) <==> a.free_set().remove(p).contains(q) by {
            if b.recycled.contains(q) {
                let i = choose|i: int| 0 <= i < b.recycled.len() && b.recycled[i] == q;
                assert(a.recycled[i] == q);
                assert(i != a.recycled.len() - 1);
            }
            if a.recycled.contains(q) && q != p {
                let i = choose|i: int| 0 <= i < a.recycled.len() && a.recycled[i] == q;
                assert(i != a.recycled.len() - 1);
                assert(b.recycled[i] == q);
            }
        }
        assert(b.free_set() =~= a.free_set().remove(p));
        assert(!b.recycled.contains(p)) by {
            if b.recycled.contains(p) {
                let i = choose|i: int| 0 <= i < b.recycled.len() && b.recycled[i] == p;
                assert(a.recycled[i] == p);
            }
        }
    } else if a.current < a.end {
        let p = a.current;
        assert forall|q: usize| #[trigger] b.free_set().contains(q) <==> a.free_set().remove(p).contains(q) by {}
        assert(b.free_set() =~= a.free_set().remove(p));
        assert(!b.recycled.contains(p)) by {
            if b.recycled.contains(p) {
                let i = choose|i: int| 0 <= i < b.recycled.len() && b.recycled[i] == p;
            }
        }
    }
}

/// Returning a frame and then asking for one gives that frame back and
/// leaves the allocator as it was before the return.
pub proof fn lemma_dealloc_then_alloc_round_trip(a: StackView, b: StackView, c: StackView, p: usize, r: Option<PhysPageNum>)
    requires
        dealloc_step(a, b, p),
        alloc_step(b, c, r),
    ensures
        r == Some(PhysPageNum(p)),
        c == a,
{
    assert(b.recycled.len() > 0);
    assert(b.recycled.drop_last() =~= a.recycled);
}

/// A frame that is out stays out when another frame is handed out.
pub proof fn lemma_alloc_step_keeps_out(a: StackView, b: StackView, r: Option<PhysPageNum>, q: usize)
    requires
        a.wf(),
        alloc_step(a, b, r),
        a.can_dealloc(q),
    ensures
        b.can_dealloc(q),
{
    if b.recycled.contains(q) {
        let i = choose|i: int| 0 <= i < b.recycled.len() && b.recycled[i] == q;
        assert(a.recycled[i] == q);
    }
}

/// Handing out a frame makes no frame out other than the one handed out.
pub proof fn lemma_alloc_step_only_new_out(a: StackView, b: StackView, r: Option<PhysPageNum>, q: usize)
    requires
        a.wf(),
        alloc_step(a, b, r),
        b.can_dealloc(q),
    ensures
        a.can_dealloc(q) || r == Some(PhysPageNum(q)),
{
    if a.recycled.len() > 0 {
        if a.recycled.contains(q) && q != a.recycled.last() {
            let i = choose|i: int| 0 <= i < a.recycled.len() && a.recycled[i] == q;
            assert(i != a.recycled.len() - 1);
            assert(b.recycled[i] == q);
        }
    }
}

/// Returning a frame makes it free again (and the next request hands it
/// out at once); every other frame keeps its status.
pub proof fn lemma_dealloc_step(a: StackView, b: StackView, p: usize)
    requires
        a.wf(),
        a.can_dealloc(p),
        dealloc_step(a, b, p),
    ensures
        !a.free_set().contains(p) ==> b.free_set() == a.free_set().insert(p),
        b.free_count() == a.free_count() + 1,
        b.recycled.last() == p,
        b.recycled.drop_last() == a.recycled,
{
    assert(b.recycled.drop_last() =~= a.recycled);
    assert forall|q: usize| #[trigger] b.free_set().contains(q) <==> a.free_set().insert(p).contains(q) by {
        if b.recycled.contains(q) && q != p {
            let i = choose|i: int| 0 <= i < b.recycled.len() && b.recycled[i] == q;
            assert(i < a.recycled.len());
            assert(a.recycled[i] == q);
        }
        if a.recycled.contains(q) {
            let i = choose|i: int| 0 <= i < a.recycled.len() && a.recycled[i] == q;
            assert(b.recycled[i] == q);
        }
        if q == p {
            assert(b.recycled[b.recycled.len() - 1] == p);
        }
    }
    assert(b.free_set() =~= a.free_set().insert(p));
}

} // verus!

verus! {

/// The tier a frame belongs to.
#[derive(Debug, PartialEq, Eq, Structural, Clone, Copy)]
pub enum MemoryTier {
    /// DRAM.
    Fast,
    /// Memory of a CXL card.
    Slow(CxlCardId),
}

/// The view of an optional allocator.
pub open spec fn opt_view(o: Option<StackFrameAllocator>) -> Option<StackView> {
    match o {
        Some(s) => Some(s@),
        None => None,
    }
}

/// Frames a tier can still hand out (0 for a missing tier).
pub open spec fn opt_free_count(o: Option<StackView>) -> int {
    match o {
        Some(v) => v.free_count(),
        None => 0,
    }
}

/// Serves frames from DRAM first and falls back to the CXL cards; keeps
/// the set of pinned frames (never migrated) and per-tier counters.
pub struct TieredFrameAllocator {
    fast: StackFrameAllocator,
    slow: Vec<Option<StackFrameAllocator>>,
    pinned_pages: std::collections::BTreeSet<usize>,
    /// Allocation attempts on the fast tier.
    pub fast_alloc_count: u64,
    /// Allocation attempts on each card.
    pub slow_alloc_count: [u64; CXL_CARD_COUNT],
    /// Frames returned to the fast tier.
    pub fast_dealloc_count: u64,
    /// Frames returned to each card.
    pub slow_dealloc_count: [u64; CXL_CARD_COUNT],
}

impl TieredFrameAllocator {
    pub closed spec fn fast_view(&self) -> StackView {
        self.fast@
    }

    /// Card `c`'s allocator, if the card is attached.
    pub closed spec fn slow_view(&self, c: int) -> Option<StackView> {
        opt_view(self.slow@[c])
    }

    pub closed spec fn pinned(&self) -> Set<usize> {
        self.pinned_pages@
    }

    pub closed spec fn fast_allocs(&self) -> u64 {
        self.fast_alloc_count
    }

    pub closed spec fn slow_allocs(&self) -> Seq<u64> {
        self.slow_alloc_count@
    }

    pub closed spec fn fast_deallocs(&self) -> u64 {
        self.fast_dealloc_count
    }

    pub closed spec fn slow_deallocs(&self) -> Seq<u64> {
        self.slow_dealloc_count@
    }

    /// The four counters: fast allocations, slow allocations per card, fast
    /// frees, slow frees per card.
    pub fn counters(&self) -> (r: (u64, [u64; CXL_CARD_COUNT], u64, [u64; CXL_CARD_COUNT]))
        ensures
            r.0 == self.fast_allocs(),
            r.1@ == self.slow_allocs(),
            r.2 == self.fast_deallocs(),
            r.3@ == self.slow_deallocs(),
    {
        (self.fast_alloc_count, self.slow_alloc_count, self.fast_dealloc_count, self.slow_dealloc_count)
    }

    pub closed spec fn wf(&self) -> bool {
        &&& self.fast@.wf_in_range()
        &&& self.slow@.len() == CXL_CARD_COUNT
        &&& forall|c: int| 0 <= c < CXL_CARD_COUNT ==> (#[trigger] opt_view(self.slow@[c]) matches Some(
            v,
        ) ==> v.wf_in_range())
    }

    /// The first attached card at or after `c` whose range holds `p`.
    pub open spec fn slow_tier_from(&self, p: usize, c: int) -> Option<int>
        decreases CXL_CARD_COUNT - c,
    {
        if c >= CXL_CARD_COUNT {
            None
        } else if self.slow_view(c) matches Some(v) && v.in_range(p) {
            Some(c)
        } else {
            self.slow_tier_from(p, c + 1)
        }
    }

    /// The tier whose range holds `p`: the fast tier when its range does,
    /// else the first attached card whose range does.
    pub open spec fn tier_of(&self, p: usize) -> Option<MemoryTier> {
        if self.fast_view().in_range(p) {
            Some(MemoryTier::Fast)
        } else {
            match self.slow_tier_from(p, 0) {
                Some(c) => Some(MemoryTier::Slow(CxlCardId(c as usize))),
                None => None,
            }
        }
    }

    /// Frames the attached cards at or after `c` can still hand out.
    pub open spec fn slow_free_from(&self, c: int) -> int
        decreases CXL_CARD_COUNT - c,
    {
        if c >= CXL_CARD_COUNT {
            0
        } else {
            opt_free_count(self.slow_view(c)) + self.slow_free_from(c + 1)
        }
    }

    /// Frames that every tier together can still hand out.
    pub open spec fn free_total(&self) -> int {
        self.fast_view().free_count() + self.slow_free_from(0)
    }

    /// An allocator with an empty fast tier and no cards.
    pub fn new() -> (a: Self)
        ensures
            a.wf(),
            a.fast_view() == (StackView { start: 0, current: 0, end: 0, recycled: Seq::empty() }),
            forall|c: int| 0 <= c < CXL_CARD_COUNT ==> #[trigger] a.slow_view(c) is None,
            a.pinned() == Set::<usize>::empty(),
            a.fast_allocs() == 0,
            a.fast_deallocs() == 0,
            a.slow_allocs() == Seq::new(CXL_CARD_COUNT as nat, |c: int| 0u64),
            a.slow_deallocs() == Seq::new(CXL_CARD_COUNT as nat, |c: int| 0u64),
    {
        let mut slow: Vec<Option<StackFrameAllocator>> = Vec::new();
        let mut i: usize = 0;
        while i < CXL_CARD_COUNT
            invariant
                i <= CXL_CARD_COUNT,
                slow@.len() == i,
                forall|c: int| 0 <= c < i ==> #[trigger] slow@[c] is None,
            decreases CXL_CARD_COUNT - i,
        {
            slow.push(None);
            i = i + 1;
        }
        let a = TieredFrameAllocator {
            fast: StackFrameAllocator::new(),
            slow,
            pinned_pages: std::collections::BTreeSet::new(),
            fast_alloc_count: 0,
            slow_alloc_count: [0u64; CXL_CARD_COUNT],
            fast_dealloc_count: 0,
            slow_dealloc_count: [0u64; CXL_CARD_COUNT],
        };
        assert(a.slow_allocs() =~= Seq::new(CXL_CARD_COUNT as nat, |c: int| 0u64));
        assert(a.slow_deallocs() =~= Seq::new(CXL_CARD_COUNT as nat, |c: int| 0u64));
        a
    }
}

} // verus!

verus! {

impl TieredFrameAllocator {
    /// The first attached card at or after `c` that can still hand out a
    /// frame.
    pub open spec fn first_nonempty_card(&self, c: int) -> Option<int>
        decreases CXL_CARD_COUNT - c,
    {
        if c >= CXL_CARD_COUNT {
            None
        } else if opt_free_count(self.slow_view(c)) > 0 {
            Some(c)
        } else {
            self.first_nonempty_card(c + 1)
        }
    }

    /// Every card's allocator other than card `k`'s is the same in `self`
    /// and `other`.
    pub open spec fn same_cards_except(&self, other: &Self, k: int) -> bool {
        forall|c: int| 0 <= c < CXL_CARD_COUNT && c != k ==> #[trigger] self.slow_view(c) == other.slow_view(c)
    }

    /// Sets the fast tier's range to `[l, r)`.
    pub fn init(&mut self, l: PhysPageNum, r: PhysPageNum)
        requires
            old(self).wf(),
            l.0 <= r.0,
            old(self).fast_view().recycled.len() == 0,
        ensures
            final(self).wf(),
            final(self).fast_view() == (StackView { start: l.0, current: l.0, end: r.0, recycled: Seq::empty() }),
            final(self).same_cards_except(&*old(self), -1),
            final(self).pinned() == old(self).pinned(),
            final(self).fast_allocs() == old(self).fast_allocs(),
            final(self).slow_allocs() == old(self).slow_allocs(),
            final(self).fast_deallocs() == old(self).fast_deallocs(),
            final(self).slow_deallocs() == old(self).slow_deallocs(),
    {
        assert(self.fast@.recycled =~= Seq::<usize>::empty());
        self.fast.init(l, r);
    }

    /// Attaches card `card` with the frame range `[l, r)` (replacing the
    /// card's previous allocator, if any).
    pub fn add_slow(&mut self, card: CxlCardId, l: PhysPageNum, r: PhysPageNum)
        requires
            old(self).wf(),
            card.0 < CXL_CARD_COUNT,
            l.0 <= r.0,
        ensures
            final(self).wf(),
            final(self).slow_view(card.0 as int) == Some(
                StackView { start: l.0, current: l.0, end: r.0, recycled: Seq::empty() },
            ),
            final(self).fast_view() == old(self).fast_view(),
            final(self).same_cards_except(&*old(self), card.0 as int),
            final(self).pinned() == old(self).pinned(),
            final(self).fast_allocs() == old(self).fast_allocs(),
            final(self).slow_allocs() == old(self).slow_allocs(),
            final(self).fast_deallocs() == old(self).fast_deallocs(),
            final(self).slow_deallocs() == old(self).slow_deallocs(),
    {
        let mut slow = StackFrameAllocator::new();
        slow.init(l, r);
        self.slow.set(card.0, Some(slow));
    }

    /// Detaches card `card`. Returns whether it was attached.
    pub fn try_eject_slow(&mut self, card: CxlCardId) -> (was: bool)
        requires
            old(self).wf(),
            card.0 < CXL_CARD_COUNT,
        ensures
            final(self).wf(),
            was == old(self).slow_view(card.0 as int) is Some,
            final(self).slow_view(card.0 as int) is None,
            final(self).fast_view() == old(self).fast_view(),
            final(self).same_cards_except(&*old(self), card.0 as int),
            final(self).pinned() == old(self).pinned(),
            final(self).fast_allocs() == old(self).fast_allocs(),
            final(self).slow_allocs() == old(self).slow_allocs(),
            final(self).fast_deallocs() == old(self).fast_deallocs(),
            final(self).slow_deallocs() == old(self).slow_deallocs(),
    {
        let was = self.slow[card.0].is_some();
        self.slow.set(card.0, None);
        was
    }

    /// Marks `ppn` as pinned: the migrator never moves it.
    pub fn mark_pinned(&mut self, ppn: PhysPageNum)
        requires
            old(self).wf(),
        ensures
            final(self).wf(),
            final(self).pinned() == old(self).pinned().insert(ppn.0),
            final(self).fast_view() == old(self).fast_view(),
            final(self).same_cards_except(&*old(self), -1),
            final(self).fast_allocs() == old(self).fast_allocs(),
            final(self).slow_allocs() == old(self).slow_allocs(),
            final(self).fast_deallocs() == old(self).fast_deallocs(),
            final(self).slow_deallocs() == old(self).slow_deallocs(),
    {
        self.pinned_pages.insert(ppn.0);
    }

    /// Whether `ppn` is pinned.
    pub fn is_pinned(&self, ppn: PhysPageNum) -> (b: bool)
        ensures
            b == self.pinned().contains(ppn.0),
    {
        self.pinned_pages.contains(&ppn.0)
    }

    /// The tier whose range holds `ppn`; `None` for a kernel page.
    pub fn page_tier(&self, ppn: PhysPageNum) -> (t: Option<MemoryTier>)
        requires
            self.wf(),
        ensures
            t == self.tier_of(ppn.0),
    {
        if self.fast.contains(ppn) {
            return Some(MemoryTier::Fast);
        }
        let mut c: usize = 0;
        while c < CXL_CARD_COUNT
            invariant
                c <= CXL_CARD_COUNT,
                self.wf(),
                !self.fast_view().in_range(ppn.0),
                self.slow_tier_from(ppn.0, 0) == self.slow_tier_from(ppn.0, c as int),
            decreases CXL_CARD_COUNT - c,
        {
            match &self.slow[c] {
                Some(s) => {
                    if s.contains(ppn) {
                        return Some(MemoryTier::Slow(CxlCardId(c)));
                    }
                },
                None => {},
            }
            c = c + 1;
        }
        None
    }

    /// Requests a frame from the fast tier (counted as an attempt).
    pub fn alloc_fast(&mut self) -> (r: Option<PhysPageNum>)
        requires
            old(self).wf(),
        ensures
            final(self).wf(),
            alloc_step(old(self).fast_view(), final(self).fast_view(), r),
            final(self).same_cards_except(&*old(self), -1),
            final(self).pinned() == old(self).pinned(),
            final(self).fast_allocs() == vstd::wrapping::u64_specs::wrapping_add(old(self).fast_allocs(), 1),
            final(self).slow_allocs() == old(self).slow_allocs(),
            final(self).fast_deallocs() == old(self).fast_deallocs(),
            final(self).slow_deallocs() == old(self).slow_deallocs(),
    {
        self.fast_alloc_count = self.fast_alloc_count.wrapping_add(1);
        let r = self.fast.alloc_frame();
        proof {
            lemma_alloc_step(old(self).fast@, self.fast@, r);
            assert forall|i: int| 0 <= i < self.fast@.recycled.len() implies self.fast@.start
                <= #[trigger] self.fast@.recycled[i] by {
                assert(self.fast@.recycled[i] == old(self).fast@.recycled[i]);
            }
        }
        r
    }

    /// Requests a frame from card `card` (counted as an attempt on the
    /// card); `None` when the card is not attached or is used up.
    pub fn alloc_slow(&mut self, card: CxlCardId) -> (r: Option<PhysPageNum>)
        requires
            old(self).wf(),
            card.0 < CXL_CARD_COUNT,
        ensures
            final(self).wf(),
            match old(self).slow_view(card.0 as int) {
                Some(v) => final(self).slow_view(card.0 as int) matches Some(w) && alloc_step(v, w, r),
                None => r is None && final(self).slow_view(card.0 as int) is None,
            },
            final(self).fast_view() == old(self).fast_view(),
            final(self).same_cards_except(&*old(self), card.0 as int),
            final(self).pinned() == old(self).pinned(),
            final(self).fast_allocs() == old(self).fast_allocs(),
            final(self).slow_allocs() == old(self).slow_allocs().update(
                card.0 as int,
                vstd::wrapping::u64_specs::wrapping_add(old(self).slow_allocs()[card.0 as int], 1),
            ),
            final(self).fast_deallocs() == old(self).fast_deallocs(),
            final(self).slow_deallocs() == old(self).slow_deallocs(),
    {
        let c = card.0;
        self.slow_alloc_count[c] = self.slow_alloc_count[c].wrapping_add(1);
        let r = match &mut self.slow[c] {
            Some(s) => {
                let r = s.alloc_frame();
                proof {
                    lemma_alloc_step(opt_view(old(self).slow@[c as int]).unwrap(), s@, r);
                }
                r
            },
            None => None,
        };
        proof {
            assert(self.slow_allocs() =~= old(self).slow_allocs().update(
                card.0 as int,
                vstd::wrapping::u64_specs::wrapping_add(old(self).slow_allocs()[card.0 as int], 1),
            ));
            if let Some(w) = self.slow_view(c as int) {
                let v = old(self).slow_view(c as int).unwrap();
                assert forall|i: int| 0 <= i < w.recycled.len() implies w.start <= #[trigger] w.recycled[i] by {
                    assert(w.recycled[i] == v.recycled[i]);
                }
            }
        }
        r
    }
}

} // verus!

verus! {

proof fn lemma_slow_free_nonneg(a: &TieredFrameAllocator, c: int)
    requires
        a.wf(),
        0 <= c,
    ensures
        a.slow_free_from(c) >= 0,
        a.first_nonempty_card(c) is None <==> a.slow_free_from(c) == 0,
        a.first_nonempty_card(c) matches Some(k) ==> c <= k < CXL_CARD_COUNT && opt_free_count(a.slow_view(k)) > 0,
    decreases CXL_CARD_COUNT - c,
{
    if c < CXL_CARD_COUNT {
        lemma_slow_free_nonneg(a, c + 1);
        assert(opt_view(a.slow@[c]) == a.slow_view(c));
    }
}

proof fn lemma_slow_free_change(a: &TieredFrameAllocator, b: &TieredFrameAllocator, k: int, c: int)
    requires
        b.same_cards_except(a, k),
        0 <= c,
    ensures
        c <= k < CXL_CARD_COUNT ==> b.slow_free_from(c) - a.slow_free_from(c) == opt_free_count(b.slow_view(k))
            - opt_free_count(a.slow_view(k)),
        !(c <= k < CXL_CARD_COUNT) ==> b.slow_free_from(c) == a.slow_free_from(c),
    decreases CXL_CARD_COUNT - c,
{
    if c < CXL_CARD_COUNT {
        lemma_slow_free_change(a, b, k, c + 1);
    }
}

proof fn lemma_first_nonempty_same(a: &TieredFrameAllocator, b: &TieredFrameAllocator, c: int)
    requires
        b.same_cards_except(a, -1),
        0 <= c,
    ensures
        b.first_nonempty_card(c) == a.first_nonempty_card(c),
        b.slow_free_from(c) == a.slow_free_from(c),
    decreases CXL_CARD_COUNT - c,
{
    if c < CXL_CARD_COUNT {
        lemma_first_nonempty_same(a, b, c + 1);
    }
}

impl TieredFrameAllocator {
    /// Whether allocating starting from the fast tier makes an attempt on
    /// card `c`: the fast tier is used up, the card is attached, and no
    /// earlier card could serve the request.
    pub open spec fn card_tried(&self, c: int) -> bool {
        &&& self.fast_view().free_count() == 0
        &&& self.slow_view(c) is Some
        &&& match self.first_nonempty_card(0) {
            Some(k) => c <= k,
            None => true,
        }
    }

    /// What handing out a frame does to `a`, giving `b` and the frame
    /// `r`: the frame comes from the fast tier while it has one, else from
    /// the first attached card that has one (each attached card tried on
    /// the way counts an attempt); `None` when every tier is used up.
    pub open spec fn took(a: &Self, b: &Self, r: Option<PhysPageNum>) -> bool {
        &&& r is None <==> a.free_total() == 0
        &&& r is Some ==> b.free_total() == a.free_total() - 1
        &&& r is None ==> b.free_total() == a.free_total()
        &&& a.fast_view().free_count() > 0 ==> alloc_step(a.fast_view(), b.fast_view(), r) && b.same_cards_except(a, -1)
        &&& a.fast_view().free_count() == 0 ==> b.fast_view() == a.fast_view() && match a.first_nonempty_card(0) {
            Some(k) => b.slow_view(k) matches Some(w) && alloc_step(a.slow_view(k).unwrap(), w, r)
                && b.same_cards_except(a, k),
            None => b.same_cards_except(a, -1),
        }
        &&& b.pinned() == a.pinned()
        &&& b.fast_allocs() == vstd::wrapping::u64_specs::wrapping_add(a.fast_allocs(), 1)
        &&& forall|c: int| 0 <= c < CXL_CARD_COUNT ==> #[trigger] b.slow_allocs()[c] == (if a.card_tried(c) {
            vstd::wrapping::u64_specs::wrapping_add(a.slow_allocs()[c], 1)
        } else {
            a.slow_allocs()[c]
        })
        &&& b.slow_allocs().len() == CXL_CARD_COUNT
        &&& b.fast_deallocs() == a.fast_deallocs()
        &&& b.slow_deallocs() == a.slow_deallocs()
        &&& b.same_layout(a)
        &&& forall|q: usize| #[trigger] a.frame_out(q) ==> b.frame_out(q)
        &&& a.ranges_disjoint() ==> (r matches Some(p) ==> b.frame_out(p.0) && !a.frame_out(p.0))
        &&& forall|q: usize| #[trigger] b.frame_out(q) ==> a.frame_out(q) || r == Some(PhysPageNum(q))
    }

    /// Hands out a frame (see `took`).
    pub fn alloc_frame(&mut self) -> (r: Option<PhysPageNum>)
        requires
            old(self).wf(),
        ensures
            final(self).wf(),
            Self::took(&*old(self), &*final(self), r),
    {
        let ghost o = *old(self);
        proof {
            lemma_slow_free_nonneg(&o, 0);
        }
        let f = self.alloc_fast();
        proof {
            lemma_alloc_step(o.fast_view(), self.fast_view(), f);
            lemma_first_nonempty_same(&o, &*self, 0);
        }
        if f.is_some() {
            assert(self.slow_allocs() =~= o.slow_allocs());
            proof {
                assert(self.same_layout(&o));
                assert forall|q: usize| #[trigger] o.frame_out(q) implies self.frame_out(q) by {
                    lemma_slow_tier_same_layout(&o, &*self, q, 0);
                    lemma_slow_tier_bounds(&o, q, 0);
                    if o.tier_of(q) == Some(MemoryTier::Fast) {
                        lemma_alloc_step_keeps_out(o.fast_view(), self.fast_view(), f, q);
                    }
                }
                let p = f.unwrap().0;
                assert(o.fast@.wf_in_range());
                assert(self.tier_of(p) == Some(MemoryTier::Fast));
                assert forall|q: usize| #[trigger] self.frame_out(q) implies o.frame_out(q) || f == Some(PhysPageNum(q)) by {
                    lemma_slow_tier_same_layout(&o, &*self, q, 0);
                    lemma_slow_tier_bounds(&o, q, 0);
                    if o.tier_of(q) == Some(MemoryTier::Fast) {
                        lemma_alloc_step_only_new_out(o.fast_view(), self.fast_view(), f, q);
                    }
                }
            }
            return f;
        }
        let ghost after_fast = *self;
        let mut c: usize = 0;
        while c < CXL_CARD_COUNT
            invariant
                c <= CXL_CARD_COUNT,
                o == *old(self),
                self.wf(),
                o.wf(),
                o.fast_view().free_count() == 0,
                self.fast_view() == o.fast_view(),
                self.same_cards_except(&o, -1),
                self.pinned() == o.pinned(),
                self.fast_allocs() == vstd::wrapping::u64_specs::wrapping_add(o.fast_allocs(), 1),
                self.fast_deallocs() == o.fast_deallocs(),
                self.slow_deallocs() == o.slow_deallocs(),
                self.slow_allocs().len() == CXL_CARD_COUNT,
                o.first_nonempty_card(0) == o.first_nonempty_card(c as int),
                forall|k: int| 0 <= k < CXL_CARD_COUNT ==> #[trigger] self.slow_allocs()[k] == (if k < c && o.slow_view(
                    k,
                ) is Some {
                    vstd::wrapping::u64_specs::wrapping_add(o.slow_allocs()[k], 1)
                } else {
                    o.slow_allocs()[k]
                }),
            decreases CXL_CARD_COUNT - c,
        {
            if self.slow[c].is_some() {
                let ghost before = *self;
                let r = self.alloc_slow(CxlCardId(c));
                proof {
                    let v = before.slow_view(c as int).unwrap();
                    let w = self.slow_view(c as int).unwrap();
                    lemma_alloc_step(v, w, r);
                    lemma_slow_free_nonneg(&o, c as int);
                }
                if r.is_some() {
                    proof {
                        assert(before.slow_view(c as int) == o.slow_view(c as int));
                        assert(self.same_cards_except(&o, c as int));
                        assert(opt_free_count(o.slow_view(c as int)) > 0);
                        assert(o.first_nonempty_card(c as int) == Some(c as int));
                        lemma_slow_free_change(&o, &*self, c as int, 0);
                        lemma_slow_free_nonneg(&o, 0);
                        assert(o.slow_free_from(0) != 0);
                        assert(o.free_total() != 0);
                        assert(opt_free_count(self.slow_view(c as int)) == opt_free_count(o.slow_view(c as int)) - 1);
                        assert(self.slow_free_from(0) == o.slow_free_from(0) - 1);
                        assert(self.free_total() == o.free_total() - 1);
                        let v = before.slow_view(c as int).unwrap();
                        let w = self.slow_view(c as int).unwrap();
                        assert(self.same_layout(&o));
                        assert forall|q: usize| #[trigger] o.frame_out(q) implies self.frame_out(q) by {
                            lemma_slow_tier_same_layout(&o, &*self, q, 0);
                            lemma_slow_tier_bounds(&o, q, 0);
                            if o.tier_of(q) == Some(MemoryTier::Slow(CxlCardId(c))) {
                                lemma_alloc_step_keeps_out(v, w, r, q);
                            }
                        }
                        assert forall|q: usize| #[trigger] self.frame_out(q) implies o.frame_out(q) || r == Some(PhysPageNum(q)) by {
                            lemma_slow_tier_same_layout(&o, &*self, q, 0);
                            lemma_slow_tier_bounds(&o, q, 0);
                            if o.tier_of(q) == Some(MemoryTier::Slow(CxlCardId(c))) {
                                lemma_alloc_step_only_new_out(v, w, r, q);
                            }
                        }
                        if o.ranges_disjoint() {
                            let p = r.unwrap().0;
                            assert(v.wf_in_range());
                            assert(o.card_holds(c as int, p));
                            lemma_slow_tier_unique(&o, p, c as int, 0);
                            assert(!o.fast_view().in_range(p));
                            lemma_slow_tier_same_layout(&o, &*self, p, 0);
                        }
                        assert forall|k: int| 0 <= k < CXL_CARD_COUNT implies #[trigger] self.slow_allocs()[k] == (if o.card_tried(k) {
                            vstd::wrapping::u64_specs::wrapping_add(o.slow_allocs()[k], 1)
                        } else {
                            o.slow_allocs()[k]
                        }) by {
                            lemma_slow_free_nonneg(&o, k);
                        }
                    }
                    return r;
                }
                proof {
                    assert(self.same_cards_except(&o, -1));
                }
            }
            c = c + 1;
        }
        proof {
            lemma_slow_free_nonneg(&o, 0);
            lemma_slow_free_nonneg(&o, CXL_CARD_COUNT as int);
            lemma_first_nonempty_same(&o, &*self, 0);
            assert(self.same_layout(&o));
            assert forall|q: usize| #[trigger] o.frame_out(q) implies self.frame_out(q) by {
                lemma_slow_tier_same_layout(&o, &*self, q, 0);
                lemma_slow_tier_bounds(&o, q, 0);
            }
            assert forall|q: usize| #[trigger] self.frame_out(q) implies o.frame_out(q) by {
                lemma_slow_tier_same_layout(&o, &*self, q, 0);
                lemma_slow_tier_bounds(&o, q, 0);
            }
        }
        None
    }
}

} // verus!

verus! {

impl TieredFrameAllocator {
    /// Card `c` is attached and its range holds `p`.
    pub open spec fn card_holds(&self, c: int, p: usize) -> bool {
        self.slow_view(c) matches Some(v) && v.in_range(p)
    }

    /// No frame lies in the ranges of two tiers.
    pub open spec fn ranges_disjoint(&self) -> bool {
        &&& forall|p: usize, c: int|
            0 <= c < CXL_CARD_COUNT && #[trigger] self.fast_view().in_range(p) ==> !#[trigger] self.card_holds(c, p)
        &&& forall|p: usize, c1: int, c2: int|
            0 <= c1 < CXL_CARD_COUNT && 0 <= c2 < CXL_CARD_COUNT && c1 != c2 && #[trigger] self.card_holds(c1, p)
                ==> !#[trigger] self.card_holds(c2, p)
    }

    /// Every tier has the same range (and every card is attached or not)
    /// in `self` and `other`.
    pub open spec fn same_layout(&self, other: &Self) -> bool {
        &&& self.fast_view().start == other.fast_view().start
        &&& self.fast_view().end == other.fast_view().end
        &&& forall|c: int| 0 <= c < CXL_CARD_COUNT ==> (#[trigger] self.slow_view(c) is Some <==> other.slow_view(
            c,
        ) is Some)
        &&& forall|c: int| 0 <= c < CXL_CARD_COUNT && #[trigger] self.slow_view(c) is Some ==> self.slow_view(
            c,
        ).unwrap().start == other.slow_view(c).unwrap().start && self.slow_view(c).unwrap().end == other.slow_view(
            c,
        ).unwrap().end
    }

    /// `p` is a frame that its tier has handed out and not taken back.
    pub open spec fn frame_out(&self, p: usize) -> bool {
        match self.tier_of(p) {
            Some(MemoryTier::Fast) => self.fast_view().can_dealloc(p),
            Some(MemoryTier::Slow(c)) => self.slow_view(c.0 as int) matches Some(v) && v.can_dealloc(p),
            None => false,
        }
    }
}

proof fn lemma_slow_tier_same_layout(a: &TieredFrameAllocator, b: &TieredFrameAllocator, p: usize, c: int)
    requires
        a.same_layout(b),
        0 <= c,
    ensures
        a.slow_tier_from(p, c) == b.slow_tier_from(p, c),
    decreases CXL_CARD_COUNT - c,
{
    if c < CXL_CARD_COUNT {
        lemma_slow_tier_same_layout(a, b, p, c + 1);
    }
}

proof fn lemma_slow_tier_bounds(a: &TieredFrameAllocator, p: usize, c: int)
    requires
        0 <= c,
    ensures
        a.slow_tier_from(p, c) matches Some(k) ==> c <= k < CXL_CARD_COUNT && a.card_holds(k, p),
    decreases CXL_CARD_COUNT - c,
{
    if c < CXL_CARD_COUNT {
        lemma_slow_tier_bounds(a, p, c + 1);
    }
}

proof fn lemma_slow_tier_unique(a: &TieredFrameAllocator, p: usize, k: int, c: int)
    requires
        a.ranges_disjoint(),
        0 <= c <= k < CXL_CARD_COUNT,
        a.card_holds(k, p),
    ensures
        a.slow_tier_from(p, c) == Some(k),
    decreases k - c,
{
    if c < k {
        assert(!a.card_holds(c, p));
        lemma_slow_tier_unique(a, p, k, c + 1);
    }
}

impl TieredFrameAllocator {
    /// What taking back frame `ppn` does to `a`, giving `b`: the frame is
    /// unpinned and returns to the tier whose range holds it (the fast tier
    /// first), that tier's return counter grows, and nothing else changes.
    pub open spec fn returned(a: &Self, b: &Self, ppn: usize) -> bool {
        &&& b.pinned() == a.pinned().remove(ppn)
        &&& b.free_total() == a.free_total() + 1
        &&& b.same_layout(a)
        &&& b.fast_allocs() == a.fast_allocs()
        &&& b.slow_allocs() == a.slow_allocs()
        &&& a.tier_of(ppn) == Some(MemoryTier::Fast) ==> {
            &&& dealloc_step(a.fast_view(), b.fast_view(), ppn)
            &&& b.same_cards_except(a, -1)
            &&& b.fast_deallocs() == vstd::wrapping::u64_specs::wrapping_add(a.fast_deallocs(), 1)
            &&& b.slow_deallocs() == a.slow_deallocs()
        }
        &&& a.tier_of(ppn) matches Some(MemoryTier::Slow(c)) ==> {
            &&& b.fast_view() == a.fast_view()
            &&& b.same_cards_except(a, c.0 as int)
            &&& b.slow_view(c.0 as int) is Some
            &&& dealloc_step(a.slow_view(c.0 as int).unwrap(), b.slow_view(c.0 as int).unwrap(), ppn)
            &&& b.fast_deallocs() == a.fast_deallocs()
            &&& b.slow_deallocs() == a.slow_deallocs().update(
                c.0 as int,
                vstd::wrapping::u64_specs::wrapping_add(a.slow_deallocs()[c.0 as int], 1),
            )
        }
        &&& forall|q: usize| q != ppn && #[trigger] a.frame_out(q) ==> b.frame_out(q)
        &&& forall|q: usize| #[trigger] b.frame_out(q) ==> a.frame_out(q) && q != ppn
    }

    /// Takes back a frame that a tier handed out (see `returned`).
    pub fn dealloc(&mut self, ppn: PhysPageNum)
        requires
            old(self).wf(),
            old(self).frame_out(ppn.0),
        ensures
            final(self).wf(),
            Self::returned(&*old(self), &*final(self), ppn.0),
    {
        let ghost o = *old(self);
        self.pinned_pages.remove(&ppn.0);
        if self.fast.contains(ppn) {
            self.fast_dealloc_count = self.fast_dealloc_count.wrapping_add(1);
            self.fast.dealloc(ppn);
            proof {
                lemma_dealloc_step(o.fast_view(), self.fast_view(), ppn.0);
                lemma_first_nonempty_same(&o, &*self, 0);
                assert forall|i: int| 0 <= i < self.fast@.recycled.len() implies self.fast@.start
                    <= #[trigger] self.fast@.recycled[i] by {
                    if i < o.fast@.recycled.len() {
                        assert(self.fast@.recycled[i] == o.fast@.recycled[i]);
                    }
                }
                assert forall|q: usize| q != ppn.0 && #[trigger] o.frame_out(q) implies self.frame_out(q) by {
                    lemma_slow_tier_same_layout(&o, &*self, q, 0);
                    if self.fast@.recycled.contains(q) {
                        let i = choose|i: int| 0 <= i < self.fast@.recycled.len() && self.fast@.recycled[i] == q;
                        if i < o.fast@.recycled.len() {
                            assert(o.fast@.recycled[i] == q);
                        }
                    }
                }
                assert forall|q: usize| #[trigger] self.frame_out(q) implies o.frame_out(q) && q != ppn.0 by {
                    lemma_slow_tier_same_layout(&o, &*self, q, 0);
                    lemma_slow_tier_bounds(&o, q, 0);
                    if o.tier_of(q) == Some(MemoryTier::Fast) {
                        assert(self.fast@.recycled[self.fast@.recycled.len() - 1] == ppn.0);
                        if o.fast@.recycled.contains(q) {
                            let i = choose|i: int| 0 <= i < o.fast@.recycled.len() && o.fast@.recycled[i] == q;
                            assert(self.fast@.recycled[i] == q);
                        }
                    }
                }
            }
            return;
        }
        let mut c: usize = 0;
        while c < CXL_CARD_COUNT
            invariant
                c <= CXL_CARD_COUNT,
                o == *old(self),
                o.wf(),
                o.frame_out(ppn.0),
                !o.fast_view().in_range(ppn.0),
                self.fast@ == o.fast@,
                self.slow@ == o.slow@,
                self.fast_alloc_count == o.fast_alloc_count,
                self.slow_alloc_count == o.slow_alloc_count,
                self.fast_dealloc_count == o.fast_dealloc_count,
                self.slow_dealloc_count == o.slow_dealloc_count,
                self.pinned() == o.pinned().remove(ppn.0),
                o.slow_tier_from(ppn.0, 0) == o.slow_tier_from(ppn.0, c as int),
            decreases CXL_CARD_COUNT - c,
        {
            let hit = match &self.slow[c] {
                Some(s) => s.contains(ppn),
                None => false,
            };
            if hit {
                self.slow_dealloc_count[c] = self.slow_dealloc_count[c].wrapping_add(1);
                match &mut self.slow[c] {
                    Some(s) => {
                        s.dealloc(ppn);
                    },
                    None => {},
                }
                proof {
                    let v = o.slow_view(c as int).unwrap();
                    let w = self.slow_view(c as int).unwrap();
                    lemma_dealloc_step(v, w, ppn.0);
                    assert(self.same_cards_except(&o, c as int));
                    lemma_slow_free_change(&o, &*self, c as int, 0);
                    assert forall|i: int| 0 <= i < w.recycled.len() implies w.start <= #[trigger] w.recycled[i] by {
                        if i < v.recycled.len() {
                            assert(w.recycled[i] == v.recycled[i]);
                        }
                    }
                    assert(self.slow_deallocs() =~= o.slow_deallocs().update(
                        c as int,
                        vstd::wrapping::u64_specs::wrapping_add(o.slow_deallocs()[c as int], 1),
                    ));
                    assert(self.same_layout(&o));
                    assert forall|q: usize| q != ppn.0 && #[trigger] o.frame_out(q) implies self.frame_out(q) by {
                        lemma_slow_tier_same_layout(&o, &*self, q, 0);
                        lemma_slow_tier_bounds(&o, q, 0);
                        assert(self.tier_of(q) == o.tier_of(q));
                        if let Some(MemoryTier::Slow(cc)) = o.tier_of(q) {
                            if cc.0 != c {
                                assert(self.slow_view(cc.0 as int) == o.slow_view(cc.0 as int));
                            }
                        }
                        if w.recycled.contains(q) {
                            let i = choose|i: int| 0 <= i < w.recycled.len() && w.recycled[i] == q;
                            if i < v.recycled.len() {
                                assert(v.recycled[i] == q);
                            }
                        }
                    }
                    assert forall|q: usize| #[trigger] self.frame_out(q) implies o.frame_out(q) && q != ppn.0 by {
                        lemma_slow_tier_same_layout(&o, &*self, q, 0);
                        lemma_slow_tier_bounds(&o, q, 0);
                        assert(self.tier_of(q) == o.tier_of(q));
                        if let Some(MemoryTier::Slow(cc)) = o.tier_of(q) {
                            if cc.0 != c {
                                assert(self.slow_view(cc.0 as int) == o.slow_view(cc.0 as int));
                            } else {
                                assert(w.recycled[w.recycled.len() - 1] == ppn.0);
                                if v.recycled.contains(q) {
                                    let i = choose|i: int| 0 <= i < v.recycled.len() && v.recycled[i] == q;
                                    assert(w.recycled[i] == q);
                                }
                            }
                        }
                    }
                }
                return;
            }
            c = c + 1;
        }
        assert(false);
    }
}

} // verus!

verus! {

proof fn lemma_disjoint_same_layout(a: &TieredFrameAllocator, b: &TieredFrameAllocator)
    requires
        a.ranges_disjoint(),
        b.same_layout(a),
    ensures
        b.ranges_disjoint(),
{
    assert forall|p: usize, c: int| 0 <= c < CXL_CARD_COUNT && #[trigger] b.fast_view().in_range(p) implies !#[trigger] b.card_holds(c, p) by {
        assert(a.fast_view().in_range(p));
        assert(b.card_holds(c, p) == a.card_holds(c, p));
    }
    assert forall|p: usize, c1: int, c2: int|
        0 <= c1 < CXL_CARD_COUNT && 0 <= c2 < CXL_CARD_COUNT && c1 != c2 && #[trigger] b.card_holds(c1, p) implies !#[trigger] b.card_holds(c2, p) by {
        assert(b.card_holds(c1, p) == a.card_holds(c1, p));
        assert(b.card_holds(c2, p) == a.card_holds(c2, p));
    }
}

proof fn lemma_free_total_nonneg(a: &TieredFrameAllocator)
    requires
        a.wf(),
    ensures
        a.free_total() >= 0,
{
    lemma_slow_free_nonneg(a, 0);
}

impl TieredFrameAllocator {
    /// Successive `alloc_frame` calls, starting from `states[0]`, go
    /// through `states` and hand out the frames `fs`, in that order.
    pub open spec fn took_chain(states: Seq<Self>, fs: Seq<PhysPageNum>) -> bool {
        &&& states.len() == fs.len() + 1
        &&& forall|i: int|
            0 <= i < fs.len() ==> (#[trigger] states[i]).wf() && Self::took(&states[i], &states[i + 1], Some(fs[i]))
    }

    /// Successive `dealloc` calls of the frames `fs`, in that order,
    /// starting from `states[0]`, go through `states`.
    pub open spec fn gave_back_chain(states: Seq<Self>, fs: Seq<PhysPageNum>) -> bool {
        &&& states.len() == fs.len() + 1
        &&& forall|i: int|
            0 <= i < fs.len() ==> (#[trigger] states[i]).wf() && states[i].frame_out(fs[i].0) && Self::returned(
                &states[i],
                &states[i + 1],
                fs[i].0,
            )
    }
}

impl TieredFrameAllocator {
    /// Hands out `pages` frames, one request at a time (fast tier first),
    /// and returns them in the reverse of the order they were handed out.
    /// When a request fails, every frame taken so far is returned and the
    /// result is `None`.
    pub fn alloc_more(&mut self, pages: usize) -> (r: Option<Vec<PhysPageNum>>)
        requires
            old(self).wf(),
            old(self).ranges_disjoint(),
        ensures
            final(self).wf(),
            final(self).same_layout(&*old(self)),
            final(self).ranges_disjoint(),
            r is Some <==> old(self).free_total() >= pages,
            r matches Some(v) ==> {
                &&& v@.len() == pages
                &&& final(self).free_total() == old(self).free_total() - pages
                &&& forall|i: int| 0 <= i < v@.len() ==> final(self).frame_out((#[trigger] v@[i]).0) && !old(
                    self,
                ).frame_out(v@[i].0)
                &&& forall|i: int, j: int| 0 <= i < j < v@.len() ==> #[trigger] v@[i] != #[trigger] v@[j]
                &&& forall|q: usize| #[trigger] final(self).frame_out(q) ==> old(self).frame_out(q) || v@.contains(
                    PhysPageNum(q),
                )
            },
            r is None ==> final(self).free_total() == old(self).free_total() && forall|q: usize|
                #[trigger] final(self).frame_out(q) == old(self).frame_out(q),
            forall|q: usize| #[trigger] old(self).frame_out(q) ==> final(self).frame_out(q),
            r matches Some(v) ==> exists|st: Seq<Self>|
                #[trigger] Self::took_chain(st, v@.reverse()) && st[0] == *old(self) && st.last() == *final(self),
            r is None ==> exists|st: Seq<Self>, fs: Seq<PhysPageNum>, back: Seq<Self>|
                fs.len() < pages && #[trigger] Self::took_chain(st, fs) && st[0] == *old(self) && st.last().wf()
                    && Self::took(&st.last(), &back[0], None) && #[trigger] Self::gave_back_chain(back, fs)
                    && back.last() == *final(self),
    {
        let ghost o = *old(self);
        let mut result: Vec<PhysPageNum> = Vec::new();
        let ghost mut st: Seq<Self> = seq![*self];
        let mut i: usize = 0;
        while i < pages
            invariant
                o == *old(self),
                o.wf(),
                o.ranges_disjoint(),
                i <= pages,
                self.wf(),
                self.same_layout(&o),
                self.ranges_disjoint(),
                result@.len() == i,
                self.free_total() == o.free_total() - i,
                forall|k: int| 0 <= k < i ==> self.frame_out((#[trigger] result@[k]).0) && !o.frame_out(result@[k].0),
                forall|k: int, l: int| 0 <= k < l < i ==> #[trigger] result@[k] != #[trigger] result@[l],
                forall|q: usize| #[trigger] o.frame_out(q) ==> self.frame_out(q),
                forall|q: usize| #[trigger] self.frame_out(q) ==> o.frame_out(q) || result@.contains(PhysPageNum(q)),
                Self::took_chain(st, result@),
                st[0] == o,
                st.last() == *self,
            decreases pages - i,
        {
            let ghost before = *self;
            let ghost prev = result@;
            match self.alloc_frame() {
                Some(p) => {
                    proof {
                        lemma_disjoint_same_layout(&o, &*self);
                        assert(!before.frame_out(p.0));
                        assert forall|k: int| 0 <= k < i implies result@[k] != p by {
                            assert(before.frame_out(result@[k].0));
                        }
                    }
                    result.push(p);
                    proof {
                        let st0 = st;
                        st = st.push(*self);
                        assert forall|j: int| 0 <= j < result@.len() implies (#[trigger] st[j]).wf() && Self::took(
                            &st[j],
                            &st[j + 1],
                            Some(result@[j]),
                        ) by {
                            if j < i {
                                assert(st[j] == st0[j]);
                                assert(st[j + 1] == st0[j + 1]);
                                assert(result@[j] == prev[j]);
                            } else {
                                assert(st[j] == st0.last());
                            }
                        }
                        assert forall|k: int| 0 <= k < i + 1 implies self.frame_out((#[trigger] result@[k]).0) && !o.frame_out(
                            result@[k].0,
                        ) by {
                            if k < i {
                                assert(result@[k] == result@.drop_last()[k]);
                                assert(before.frame_out(result@[k].0));
                            }
                        }
                        assert forall|k: int, l: int| 0 <= k < l < i + 1 implies #[trigger] result@[k] != #[trigger] result@[l] by {
                            if l < i {
                                assert(result@[k] == result@.drop_last()[k]);
                                assert(result@[l] == result@.drop_last()[l]);
                            }
                        }
                        assert forall|q: usize| #[trigger] self.frame_out(q) implies o.frame_out(q) || result@.contains(
                            PhysPageNum(q),
                        ) by {
                            if !before.frame_out(q) {
                                assert(result@[i as int] == PhysPageNum(q));
                            } else if !o.frame_out(q) {
                                let d = prev;
                                assert(result@.drop_last() =~= prev);
                                assert(d.contains(PhysPageNum(q)));
                                let k = choose|k: int| 0 <= k < d.len() && d[k] == PhysPageNum(q);
                                assert(result@[k] == PhysPageNum(q));
                            }
                        }
                    }
                },
                None => {
                    let ghost failed = *self;
                    let ghost mut back: Seq<Self> = seq![*self];
                    proof {
                        lemma_free_total_nonneg(&*self);
                        lemma_disjoint_same_layout(&o, &*self);
                        assert(result@.take(0) =~= Seq::<PhysPageNum>::empty());
                    }
                    let mut k: usize = 0;
                    while k < result.len()
                        invariant
                            o == *old(self),
                            o.wf(),
                            o.ranges_disjoint(),
                            i < pages,
                            result@.len() == i,
                            k <= i,
                            self.wf(),
                            self.same_layout(&o),
                            self.ranges_disjoint(),
                            o.free_total() == i,
                            self.free_total() == o.free_total() - i + k,
                            forall|m: int| k <= m < i ==> self.frame_out((#[trigger] result@[m]).0) && !o.frame_out(result@[m].0),
                            forall|m: int, l: int| 0 <= m < l < i ==> #[trigger] result@[m] != #[trigger] result@[l],
                            forall|q: usize| #[trigger] o.frame_out(q) ==> self.frame_out(q),
                            forall|q: usize| #[trigger] self.frame_out(q) ==> o.frame_out(q) || exists|m: int|
                                k <= m < i && #[trigger] result@[m] == PhysPageNum(q),
                            Self::took_chain(st, result@),
                            st[0] == o,
                            st.last().wf(),
                            Self::took(&st.last(), &failed, None),
                            Self::gave_back_chain(back, result@.take(k as int)),
                            back[0] == failed,
                            back.last() == *self,
                        decreases i - k,
                    {
                        let ghost before2 = *self;
                        let p = result[k];
                        self.dealloc(p);
                        proof {
                            let b0 = back;
                            back = back.push(*self);
                            assert forall|j: int| 0 <= j < k + 1 implies (#[trigger] back[j]).wf() && back[j].frame_out(
                                result@.take(k + 1)[j].0,
                            ) && Self::returned(&back[j], &back[j + 1], result@.take(k + 1)[j].0) by {
                                if j < k {
                                    assert(back[j] == b0[j]);
                                    assert(back[j + 1] == b0[j + 1]);
                                    assert(result@.take(k + 1)[j] == result@.take(k as int)[j]);
                                } else {
                                    assert(back[j] == b0.last());
                                }
                            }
                            lemma_disjoint_same_layout(&o, &*self);
                            assert forall|m: int| k + 1 <= m < i implies self.frame_out((#[trigger] result@[m]).0) && !o.frame_out(
                                result@[m].0,
                            ) by {
                                assert(result@[m] != result@[k as int]);
                                assert(before2.frame_out(result@[m].0));
                            }
                            assert forall|q: usize| #[trigger] o.frame_out(q) implies self.frame_out(q) by {
                                assert(before2.frame_out(q));
                                assert(q != p.0);
                            }
                            assert forall|q: usize| #[trigger] self.frame_out(q) implies o.frame_out(q) || exists|m: int|
                                k + 1 <= m < i && #[trigger] result@[m] == PhysPageNum(q) by {
                                assert(before2.frame_out(q) && q != p.0);
                                if !o.frame_out(q) {
                                    let m = choose|m: int| k <= m < i && #[trigger] result@[m] == PhysPageNum(q);
                                    assert(m != k);
                                }
                            }
                        }
                        k = k + 1;
                    }
                    proof {
                        assert forall|q: usize| #[trigger] self.frame_out(q) == o.frame_out(q) by {}
                        assert(result@.take(i as int) =~= result@);
                        assert(Self::took_chain(st, result@) && Self::gave_back_chain(back, result@));
                    }
                    return None;
                },
            }
            i = i + 1;
        }
        proof {
            lemma_free_total_nonneg(&*self);
        }
        let mut rev: Vec<PhysPageNum> = Vec::new();
        let mut k: usize = 0;
        while k < result.len()
            invariant
                k <= result@.len(),
                rev@.len() == k,
                forall|m: int| 0 <= m < k ==> #[trigger] rev@[m] == result@[result@.len() - 1 - m],
            decreases result@.len() - k,
        {
            rev.push(result[result.len() - 1 - k]);
            k = k + 1;
        }
        proof {
            let n = result@.len();
            assert(rev@.reverse() =~= result@);
            assert(Self::took_chain(st, rev@.reverse()));
            assert(st[0] == o && st.last() == *self);
            assert(exists|st2: Seq<Self>|
                #[trigger] Self::took_chain(st2, rev@.reverse()) && st2[0] == o && st2.last() == *self);
            assert forall|m: int| 0 <= m < n implies self.frame_out((#[trigger] rev@[m]).0) && !o.frame_out(rev@[m].0) by {
                assert(rev@[m] == result@[n - 1 - m]);
            }
            assert forall|a: int, b: int| 0 <= a < b < n implies #[trigger] rev@[a] != #[trigger] rev@[b] by {
                assert(rev@[a] == result@[n - 1 - a]);
                assert(rev@[b] == result@[n - 1 - b]);
            }
            assert forall|q: usize| #[trigger] self.frame_out(q) implies o.frame_out(q) || rev@.contains(PhysPageNum(q)) by {
                if !o.frame_out(q) {
                    let m = choose|m: int| 0 <= m < n && result@[m] == PhysPageNum(q);
                    assert(rev@[n - 1 - m] == PhysPageNum(q));
                }
            }
        }
        Some(rev)
    }
}

} // verus!
