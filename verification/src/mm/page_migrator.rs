//! Decisions of the page migrator, which moves cold pages from DRAM to
//! CXL memory and hot pages back.
//!
//! At each scan the migrator looks at every mapped page's accessed and
//! dirty bits. A DRAM page that stays untouched for `cold_threshold`
//! scans is demoted; a CXL page that is written is promoted at once, and
//! one that is read in `hot_threshold` scans is promoted too. Copying the
//! page and rewriting the page tables is the caller's part.

use vstd::prelude::*;
use crate::cxl::CxlCardId;
use crate::mm::address::PhysPageNum;
use crate::mm::frame_allocator::{alloc_step, MemoryTier, TieredFrameAllocator};

verus! {

/// What to do with one mapped page after looking at its bits.
#[derive(Debug, PartialEq, Eq, Structural, Clone, Copy)]
pub enum PteAction {
    /// Leave the page and its bits alone.
    Nothing,
    /// Clear the accessed bit.
    ClearAccessed,
    /// Clear the accessed and dirty bits.
    ClearAccessedDirty,
    /// Move the page to a CXL card and stop this scan.
    Demote,
    /// Move the page to DRAM, then clear its dirty bit.
    PromoteClearDirty,
    /// Clear the accessed bit, then move the page to DRAM.
    ClearAccessedPromote,
}

/// The migrator's counters and settings.
pub struct PageMigrator {
    cold_count: std::collections::BTreeMap<usize, u8>,
    hot_count: std::collections::BTreeMap<usize, u8>,
    scan_interval_ms: usize,
    cold_threshold: u8,
    hot_threshold: u8,
    last_scan_ms: usize,
    /// Pages moved to DRAM.
    pub promote_count: u64,
    /// Pages moved to CXL memory.
    pub demote_count: u64,
}

/// The count after one more observation (wrapping at 256).
pub open spec fn bumped(m: Map<usize, u8>, p: usize) -> u8 {
    let c: u8 = if m.contains_key(p) {
        m[p]
    } else {
        0
    };
    vstd::wrapping::u8_specs::wrapping_add(c, 1)
}

impl PageMigrator {
    pub closed spec fn cold(&self) -> Map<usize, u8> {
        self.cold_count@
    }

    pub closed spec fn hot(&self) -> Map<usize, u8> {
        self.hot_count@
    }

    pub closed spec fn cold_threshold_spec(&self) -> u8 {
        self.cold_threshold
    }

    pub closed spec fn hot_threshold_spec(&self) -> u8 {
        self.hot_threshold
    }

    pub closed spec fn interval(&self) -> usize {
        self.scan_interval_ms
    }

    pub closed spec fn last_scan(&self) -> usize {
        self.last_scan_ms
    }

    pub closed spec fn promotions(&self) -> u64 {
        self.promote_count
    }

    pub closed spec fn demotions(&self) -> u64 {
        self.demote_count
    }

    /// Pages promoted and demoted so far.
    pub fn migration_counts(&self) -> (r: (u64, u64))
        ensures
            r.0 == self.promotions(),
            r.1 == self.demotions(),
    {
        (self.promote_count, self.demote_count)
    }

    /// No counts; scans every 500 ms; thresholds of 3 scans.
    pub fn new() -> (m: Self)
        ensures
            m.cold() == Map::<usize, u8>::empty(),
            m.hot() == Map::<usize, u8>::empty(),
            m.interval() == 500,
            m.cold_threshold_spec() == 3,
            m.hot_threshold_spec() == 3,
            m.last_scan() == 0,
            m.promotions() == 0,
            m.demotions() == 0,
    {
        PageMigrator {
            cold_count: std::collections::BTreeMap::new(),
            hot_count: std::collections::BTreeMap::new(),
            scan_interval_ms: 500,
            cold_threshold: 3,
            hot_threshold: 3,
            last_scan_ms: 0,
            promote_count: 0,
            demote_count: 0,
        }
    }

    /// Whether a scan is due at time `now` (milliseconds); when it is, the
    /// scan time is recorded.
    pub fn tick_due(&mut self, now: usize) -> (due: bool)
        requires
            now >= old(self).last_scan(),
        ensures
            due == (now - old(self).last_scan() >= old(self).interval()),
            final(self).last_scan() == (if due {
                now
            } else {
                old(self).last_scan()
            }),
            final(self).cold() == old(self).cold(),
            final(self).hot() == old(self).hot(),
            final(self).interval() == old(self).interval(),
            final(self).cold_threshold_spec() == old(self).cold_threshold_spec(),
            final(self).hot_threshold_spec() == old(self).hot_threshold_spec(),
            final(self).promotions() == old(self).promotions(),
            final(self).demotions() == old(self).demotions(),
    {
        if now - self.last_scan_ms < self.scan_interval_ms {
            return false;
        }
        self.last_scan_ms = now;
        true
    }

    /// Bumps the count of `p` in `m` and returns the new count.
    fn bump(m: &mut std::collections::BTreeMap<usize, u8>, p: usize) -> (c: u8)
        ensures
            c == bumped(old(m)@, p),
            final(m)@ == old(m)@.insert(p, c),
    {
        let cur: u8 = match m.get(&p) {
            Some(v) => *v,
            None => 0,
        };
        let c = cur.wrapping_add(1);
        m.insert(p, c);
        c
    }

    /// Decides what to do with the mapped page `ppn`, given its accessed
    /// and dirty bits, whether it is pinned, and its tier, and updates the
    /// page's cold and hot counts.
    pub fn scan_pte(
        &mut self,
        ppn: PhysPageNum,
        accessed: bool,
        dirty: bool,
        pinned: bool,
        tier: Option<MemoryTier>,
    ) -> (act: PteAction)
        ensures
            final(self).interval() == old(self).interval(),
            final(self).last_scan() == old(self).last_scan(),
            final(self).cold_threshold_spec() == old(self).cold_threshold_spec(),
            final(self).hot_threshold_spec() == old(self).hot_threshold_spec(),
            final(self).promotions() == old(self).promotions(),
            final(self).demotions() == old(self).demotions(),
            pinned || tier is None ==> act == PteAction::Nothing && final(self).cold() == old(self).cold()
                && final(self).hot() == old(self).hot(),
            !pinned && tier == Some(MemoryTier::Fast) ==> if !accessed && !dirty {
                let c = bumped(old(self).cold(), ppn.0);
                &&& final(self).cold() == old(self).cold().insert(ppn.0, c)
                &&& final(self).hot() == old(self).hot()
                &&& act == (if c >= old(self).cold_threshold_spec() {
                    PteAction::Demote
                } else {
                    PteAction::Nothing
                })
            } else {
                &&& final(self).cold() == old(self).cold().remove(ppn.0)
                &&& final(self).hot() == old(self).hot().remove(ppn.0)
                &&& act == (if dirty {
                    PteAction::ClearAccessedDirty
                } else {
                    PteAction::ClearAccessed
                })
            },
            (!pinned && tier matches Some(MemoryTier::Slow(_))) ==> if dirty {
                &&& act == PteAction::PromoteClearDirty
                &&& final(self).cold() == old(self).cold()
                &&& final(self).hot() == old(self).hot()
            } else if accessed {
                let c = bumped(old(self).hot(), ppn.0);
                &&& final(self).hot() == old(self).hot().insert(ppn.0, c)
                &&& final(self).cold() == old(self).cold()
                &&& act == (if c >= old(self).hot_threshold_spec() {
                    PteAction::ClearAccessedPromote
                } else {
                    PteAction::ClearAccessed
                })
            } else {
                let c = bumped(old(self).cold(), ppn.0);
                &&& act == PteAction::Nothing
                &&& final(self).hot() == old(self).hot().remove(ppn.0)
                &&& final(self).cold() == (if c >= old(self).cold_threshold_spec() {
                    old(self).cold().insert(ppn.0, c).remove(ppn.0)
                } else {
                    old(self).cold().insert(ppn.0, c)
                })
            },
    {
        if pinned {
            return PteAction::Nothing;
        }
        match tier {
            Some(MemoryTier::Fast) => {
                if !accessed && !dirty {
                    let c = Self::bump(&mut self.cold_count, ppn.0);
                    if c >= self.cold_threshold {
                        PteAction::Demote
                    } else {
                        PteAction::Nothing
                    }
                } else {
                    self.cold_count.remove(&ppn.0);
                    self.hot_count.remove(&ppn.0);
                    if dirty {
                        PteAction::ClearAccessedDirty
                    } else {
                        PteAction::ClearAccessed
                    }
                }
            },
            Some(MemoryTier::Slow(_)) => {
                if dirty {
                    PteAction::PromoteClearDirty
                } else if accessed {
                    let c = Self::bump(&mut self.hot_count, ppn.0);
                    if c >= self.hot_threshold {
                        PteAction::ClearAccessedPromote
                    } else {
                        PteAction::ClearAccessed
                    }
                } else {
                    self.hot_count.remove(&ppn.0);
                    let c = Self::bump(&mut self.cold_count, ppn.0);
                    if c >= self.cold_threshold {
                        self.cold_count.remove(&ppn.0);
                    }
                    PteAction::Nothing
                }
            },
            None => PteAction::Nothing,
        }
    }

    /// Moves the counts kept for `old_ppn` over to `new_ppn` once the page
    /// has moved there.
    pub fn migration_done(&mut self, old_ppn: PhysPageNum, new_ppn: PhysPageNum)
        ensures
            final(self).cold() == (if old(self).cold().contains_key(old_ppn.0) {
                old(self).cold().remove(old_ppn.0).insert(new_ppn.0, old(self).cold()[old_ppn.0])
            } else {
                old(self).cold()
            }),
            final(self).hot() == (if old(self).hot().contains_key(old_ppn.0) {
                old(self).hot().remove(old_ppn.0).insert(new_ppn.0, old(self).hot()[old_ppn.0])
            } else {
                old(self).hot()
            }),
            final(self).interval() == old(self).interval(),
            final(self).last_scan() == old(self).last_scan(),
            final(self).cold_threshold_spec() == old(self).cold_threshold_spec(),
            final(self).hot_threshold_spec() == old(self).hot_threshold_spec(),
            final(self).promotions() == old(self).promotions(),
            final(self).demotions() == old(self).demotions(),
    {
        if let Some(count) = self.cold_count.remove(&old_ppn.0) {
            self.cold_count.insert(new_ppn.0, count);
        }
        if let Some(count) = self.hot_count.remove(&old_ppn.0) {
            self.hot_count.insert(new_ppn.0, count);
        }
    }

    /// Drops the counts kept for `ppn` (after a written CXL page was
    /// promoted, or could not be).
    pub fn forget_page(&mut self, ppn: PhysPageNum)
        ensures
            final(self).cold() == old(self).cold().remove(ppn.0),
            final(self).hot() == old(self).hot().remove(ppn.0),
            final(self).interval() == old(self).interval(),
            final(self).last_scan() == old(self).last_scan(),
            final(self).cold_threshold_spec() == old(self).cold_threshold_spec(),
            final(self).hot_threshold_spec() == old(self).hot_threshold_spec(),
            final(self).promotions() == old(self).promotions(),
            final(self).demotions() == old(self).demotions(),
    {
        self.cold_count.remove(&ppn.0);
        self.hot_count.remove(&ppn.0);
    }

    /// Starts moving a CXL page to DRAM: takes a DRAM frame for it and
    /// counts the promotion; `None` (nothing counted) when DRAM is used
    /// up. The caller copies the page, rewrites the page tables, returns
    /// the old frame and calls `migration_done`.
    pub fn promote_page(&mut self, alloc: &mut TieredFrameAllocator) -> (r: Option<PhysPageNum>)
        requires
            old(alloc).wf(),
        ensures
            final(alloc).wf(),
            alloc_step(old(alloc).fast_view(), final(alloc).fast_view(), r),
            final(alloc).same_cards_except(&*old(alloc), -1),
            final(alloc).pinned() == old(alloc).pinned(),
            final(alloc).fast_allocs() == vstd::wrapping::u64_specs::wrapping_add(old(alloc).fast_allocs(), 1),
            final(alloc).slow_allocs() == old(alloc).slow_allocs(),
            final(alloc).fast_deallocs() == old(alloc).fast_deallocs(),
            final(alloc).slow_deallocs() == old(alloc).slow_deallocs(),
            final(self).promotions() == (if r is Some {
                vstd::wrapping::u64_specs::wrapping_add(old(self).promotions(), 1)
            } else {
                old(self).promotions()
            }),
            final(self).demotions() == old(self).demotions(),
            final(self).cold() == old(self).cold(),
            final(self).hot() == old(self).hot(),
    {
        let new_ppn = alloc.alloc_fast();
        if new_ppn.is_none() {
            return None;
        }
        self.promote_count = self.promote_count.wrapping_add(1);
        new_ppn
    }

    /// Starts moving a DRAM page to card `card`: takes a frame of the card
    /// and counts the demotion; `None` (nothing counted) when the card is
    /// not attached or used up.
    pub fn demote_page(&mut self, alloc: &mut TieredFrameAllocator, card: CxlCardId) -> (r: Option<PhysPageNum>)
        requires
            old(alloc).wf(),
            card.0 < crate::config::CXL_CARD_COUNT,
        ensures
            final(alloc).wf(),
            match old(alloc).slow_view(card.0 as int) {
                Some(v) => final(alloc).slow_view(card.0 as int) matches Some(w) && alloc_step(v, w, r),
                None => r is None,
            },
            final(alloc).fast_view() == old(alloc).fast_view(),
            final(alloc).same_cards_except(&*old(alloc), card.0 as int),
            final(alloc).pinned() == old(alloc).pinned(),
            final(alloc).fast_allocs() == old(alloc).fast_allocs(),
            final(alloc).slow_allocs() == old(alloc).slow_allocs().update(
                card.0 as int,
                vstd::wrapping::u64_specs::wrapping_add(old(alloc).slow_allocs()[card.0 as int], 1),
            ),
            final(alloc).fast_deallocs() == old(alloc).fast_deallocs(),
            final(alloc).slow_deallocs() == old(alloc).slow_deallocs(),
            final(self).demotions() == (if r is Some {
                vstd::wrapping::u64_specs::wrapping_add(old(self).demotions(), 1)
            } else {
                old(self).demotions()
            }),
            final(self).promotions() == old(self).promotions(),
            final(self).cold() == old(self).cold(),
            final(self).hot() == old(self).hot(),
    {
        let new_ppn = alloc.alloc_slow(card);
        if new_ppn.is_none() {
            return None;
        }
        self.demote_count = self.demote_count.wrapping_add(1);
        new_ppn
    }
}

} // verus!
