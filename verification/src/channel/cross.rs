//! The two cross-VM rings at fixed offsets of the ivshmem BAR: ring 0
//! carries host-to-guest traffic, ring 1 guest-to-host. Host and guest
//! both know the offsets, so no registration is needed.

use vstd::prelude::*;
use crate::channel::layout::RingHeader;
use crate::config::{IVSHMEM_BAR_BASE, PAGE_SIZE};

verus! {

/// Offset of ring 0 inside the BAR.
pub const CROSS_BASE: usize = 0x3F0_0000;
/// Bytes per ring (header and data).
pub const RING_SIZE: usize = 0x2000;
/// Data bytes per ring.
pub const RING_CAPACITY: usize = RING_SIZE - 24;
/// Pages that map both rings.
pub const CROSS_PAGES: usize = (2 * RING_SIZE + PAGE_SIZE - 1) / PAGE_SIZE;

/// Where the two rings are mapped into a process.
pub struct CrossMapping {
    pub start_va: usize,
    pub end_va: usize,
    pub page_count: usize,
    /// Physical address of ring 0 (ring 1 follows at `RING_SIZE`).
    pub pa_base: usize,
    /// Physical page number minus virtual page number of the mapping.
    pub pn_offset: isize,
}

/// Lays out the mapping of both rings at user address `start_va` and
/// initialises both ring headers with the ring capacity.
pub fn cross_create(start_va: usize, r0: &mut RingHeader, r1: &mut RingHeader) -> (m: CrossMapping)
    requires
        start_va <= usize::MAX - CROSS_PAGES * PAGE_SIZE,
    ensures
        m.start_va == start_va,
        m.page_count == CROSS_PAGES,
        m.end_va == start_va + CROSS_PAGES * PAGE_SIZE,
        m.pa_base == IVSHMEM_BAR_BASE + CROSS_BASE,
        m.pn_offset == ((IVSHMEM_BAR_BASE + CROSS_BASE) as int) / (PAGE_SIZE as int) - (start_va as int) / (PAGE_SIZE as int),
        final(r0).head == 0 && final(r0).tail == 0 && final(r0).flags == 0 && final(r0).capacity == RING_CAPACITY,
        final(r1).head == 0 && final(r1).tail == 0 && final(r1).flags == 0 && final(r1).capacity == RING_CAPACITY,
{
    let total = 2 * RING_SIZE;
    let page_count = (total + PAGE_SIZE - 1) / PAGE_SIZE;
    let pa_base = IVSHMEM_BAR_BASE + CROSS_BASE;
    let end_va = start_va + page_count * PAGE_SIZE;
    let vpn_base = start_va / PAGE_SIZE;
    let ppn_base = pa_base >> 12;
    assert(ppn_base == pa_base / PAGE_SIZE) by (bit_vector)
        requires
            pa_base == 0x4000_0000usize + 0x3F0_0000usize,
            ppn_base == pa_base >> 12,
            PAGE_SIZE == 0x1000usize;
    let pn_offset = ppn_base as isize - vpn_base as isize;
    r0.init(RING_CAPACITY as u32);
    r1.init(RING_CAPACITY as u32);
    CrossMapping { start_va, end_va, page_count, pa_base, pn_offset }
}

} // verus!
