//! The shared region as plain data.
//!
//! Every field stands for one area of the ivshmem BAR (see `layout`): the
//! page-0 header words, the bakery arrays, the vector clocks, the freelist,
//! reference-count, owner and GC-pending arrays, the two message rings,
//! the per-node mailboxes and the cross-VM ring area. The operations in
//! the sibling modules are the region's transitions; the code that maps
//! the real BAR moves these words in and out with volatile accesses and
//! fences.

use vstd::prelude::*;
use crate::cxl::layout::{
    CROSS_RING_TOTAL, DATA_PAGE_COUNT, GC_PENDING_ENTRIES, MAX_INSTANCES, RING_CAPACITY,
};
use crate::cxl::ring::{ring_new, Ring};

verus! {

/// End of the freelist.
pub const FREE_END: u32 = 0xFFFF_FFFF;

/// Bit of a GC-pending entry's flags that marks the entry valid.
pub const GC_VALID: u8 = 0x80;

/// One entry of the GC-pending array.
#[derive(Clone, Copy)]
pub struct GcEntry {
    /// The data page waiting to be freed.
    pub page_idx: u32,
    /// The releasing instance's vector clock when the entry was written.
    pub timestamp: u64,
    /// Owner in the low nibble, `GC_VALID` when the entry is live.
    pub flags: u8,
}

/// The shared region.
pub struct Shm {
    pub magic: u64,
    pub n_instances: u32,
    pub data_start: u32,
    pub total_pages: u32,
    /// 1 while instance 0 initialises the region, 0 afterwards.
    pub bootstrap_lock: u32,
    /// Bakery lock: `choosing[i]` is 1 while instance `i` picks a ticket.
    pub choosing: Vec<u8>,
    /// Bakery lock: ticket of each instance, 0 when it does not compete.
    pub number: Vec<u64>,
    /// First free data page, or `FREE_END`.
    pub free_head: u32,
    /// Vector clock: one counter per instance.
    pub global_vc: Vec<u64>,
    /// Number of GC-pending entries in use.
    pub gc_head: u32,
    /// `freelist[i]` is the free page after page `i`, or `FREE_END`.
    pub freelist: Vec<u32>,
    pub refcount: Vec<u32>,
    /// Instance that allocated each page (0 when free).
    pub owner: Vec<u8>,
    pub gc_pending: Vec<GcEntry>,
    /// Ring 0, server to client.
    pub tx: Ring,
    /// Ring 1, client to server.
    pub rx: Ring,
    /// One mailbox per instance.
    pub mbox: Vec<Ring>,
    /// The cross-VM ring area, as bytes.
    pub cross_area: Vec<u8>,
}

/// Whether `p` may stand in the freelist: a data page or the end marker.
pub open spec fn fl_ptr_ok(p: u32) -> bool {
    p == FREE_END || p < DATA_PAGE_COUNT
}

/// Whether a GC-pending entry with these flags is live.
pub open spec fn gc_valid(flags: u8) -> bool {
    flags & GC_VALID != 0
}

impl Shm {
    /// Every array has the size that the layout gives it.
    pub open spec fn wf(&self) -> bool {
        &&& self.choosing@.len() == MAX_INSTANCES
        &&& self.number@.len() == MAX_INSTANCES
        &&& self.global_vc@.len() == MAX_INSTANCES
        &&& self.freelist@.len() == DATA_PAGE_COUNT
        &&& self.refcount@.len() == DATA_PAGE_COUNT
        &&& self.owner@.len() == DATA_PAGE_COUNT
        &&& self.gc_pending@.len() == GC_PENDING_ENTRIES
        &&& self.tx@.sized()
        &&& self.rx@.sized()
        &&& self.mbox@.len() == MAX_INSTANCES
        &&& forall|i: int| 0 <= i < MAX_INSTANCES ==> (#[trigger] self.mbox@[i])@.sized()
        &&& self.cross_area@.len() == CROSS_RING_TOTAL
    }

    /// The region is sized and its page bookkeeping only names data pages.
    pub open spec fn inv(&self) -> bool {
        &&& self.wf()
        &&& fl_ptr_ok(self.free_head)
        &&& forall|i: int| 0 <= i < DATA_PAGE_COUNT ==> fl_ptr_ok(#[trigger] self.freelist@[i])
        &&& forall|k: int|
            0 <= k < GC_PENDING_ENTRIES && gc_valid(#[trigger] self.gc_pending@[k].flags)
                ==> self.gc_pending@[k].page_idx < DATA_PAGE_COUNT
        &&& self.n_instances <= MAX_INSTANCES
    }

    pub open spec fn same_header(&self, other: &Shm) -> bool {
        &&& self.magic == other.magic
        &&& self.n_instances == other.n_instances
        &&& self.data_start == other.data_start
        &&& self.total_pages == other.total_pages
        &&& self.bootstrap_lock == other.bootstrap_lock
    }

    pub open spec fn same_bakery(&self, other: &Shm) -> bool {
        &&& self.choosing@ == other.choosing@
        &&& self.number@ == other.number@
    }

    pub open spec fn same_vc(&self, other: &Shm) -> bool {
        self.global_vc@ == other.global_vc@
    }

    pub open spec fn same_pages(&self, other: &Shm) -> bool {
        &&& self.free_head == other.free_head
        &&& self.freelist@ == other.freelist@
        &&& self.refcount@ == other.refcount@
        &&& self.owner@ == other.owner@
    }

    pub open spec fn same_gc(&self, other: &Shm) -> bool {
        &&& self.gc_head == other.gc_head
        &&& self.gc_pending@ == other.gc_pending@
    }

    pub open spec fn same_rings(&self, other: &Shm) -> bool {
        &&& self.tx@ == other.tx@
        &&& self.rx@ == other.rx@
        &&& self.mbox@.len() == other.mbox@.len()
        &&& forall|i: int| 0 <= i < self.mbox@.len() ==> (#[trigger] self.mbox@[i])@ == other.mbox@[i]@
        &&& self.cross_area@ == other.cross_area@
    }

    /// A region whose every byte is zero, as a fresh ivshmem file reads.
    pub fn new_zeroed() -> (s: Shm)
        ensures
            s.inv(),
            s.magic == 0,
            s.n_instances == 0,
            s.free_head == 0,
            s.gc_head == 0,
            s.bootstrap_lock == 0,
            forall|i: int| 0 <= i < DATA_PAGE_COUNT ==> #[trigger] s.freelist@[i] == 0,
            forall|i: int| 0 <= i < DATA_PAGE_COUNT ==> #[trigger] s.refcount@[i] == 0,
            forall|i: int| 0 <= i < DATA_PAGE_COUNT ==> #[trigger] s.owner@[i] == 0,
            forall|i: int| 0 <= i < MAX_INSTANCES ==> #[trigger] s.global_vc@[i] == 0,
            forall|i: int| 0 <= i < MAX_INSTANCES ==> #[trigger] s.number@[i] == 0,
            forall|i: int| 0 <= i < MAX_INSTANCES ==> #[trigger] s.choosing@[i] == 0,
            forall|k: int| 0 <= k < GC_PENDING_ENTRIES ==> #[trigger] s.gc_pending@[k]
                == (GcEntry { page_idx: 0, timestamp: 0, flags: 0 }),
            s.tx@ == s.tx@.cleared(),
            s.rx@ == s.rx@.cleared(),
    {
        let mut choosing: Vec<u8> = Vec::new();
        let mut number: Vec<u64> = Vec::new();
        let mut global_vc: Vec<u64> = Vec::new();
        let mut mbox: Vec<Ring> = Vec::new();
        let mut i: usize = 0;
        while i < MAX_INSTANCES
            invariant
                i <= MAX_INSTANCES,
                choosing@.len() == i,
                number@.len() == i,
                global_vc@.len() == i,
                mbox@.len() == i,
                forall|k: int| 0 <= k < i ==> #[trigger] choosing@[k] == 0,
                forall|k: int| 0 <= k < i ==> #[trigger] number@[k] == 0,
                forall|k: int| 0 <= k < i ==> #[trigger] global_vc@[k] == 0,
                forall|k: int| 0 <= k < i ==> (#[trigger] mbox@[k])@.sized(),
            decreases MAX_INSTANCES - i,
        {
            choosing.push(0);
            number.push(0);
            global_vc.push(0);
            mbox.push(ring_new());
            i = i + 1;
        }
        let mut freelist: Vec<u32> = Vec::new();
        let mut refcount: Vec<u32> = Vec::new();
        let mut owner: Vec<u8> = Vec::new();
        let mut i: usize = 0;
        while i < DATA_PAGE_COUNT
            invariant
                i <= DATA_PAGE_COUNT,
                freelist@.len() == i,
                refcount@.len() == i,
                owner@.len() == i,
                forall|k: int| 0 <= k < i ==> #[trigger] freelist@[k] == 0,
                forall|k: int| 0 <= k < i ==> #[trigger] refcount@[k] == 0,
                forall|k: int| 0 <= k < i ==> #[trigger] owner@[k] == 0,
            decreases DATA_PAGE_COUNT - i,
        {
            freelist.push(0);
            refcount.push(0);
            owner.push(0);
            i = i + 1;
        }
        let mut gc_pending: Vec<GcEntry> = Vec::new();
        let mut i: usize = 0;
        while i < GC_PENDING_ENTRIES
            invariant
                i <= GC_PENDING_ENTRIES,
                gc_pending@.len() == i,
                forall|k: int| 0 <= k < i ==> #[trigger] gc_pending@[k]
                    == (GcEntry { page_idx: 0, timestamp: 0, flags: 0 }),
            decreases GC_PENDING_ENTRIES - i,
        {
            gc_pending.push(GcEntry { page_idx: 0, timestamp: 0, flags: 0 });
            i = i + 1;
        }
        let mut cross_area: Vec<u8> = Vec::new();
        let mut i: usize = 0;
        while i < CROSS_RING_TOTAL
            invariant
                i <= CROSS_RING_TOTAL,
                cross_area@.len() == i,
            decreases CROSS_RING_TOTAL - i,
        {
            cross_area.push(0);
            i = i + 1;
        }
        let s = Shm {
            magic: 0,
            n_instances: 0,
            data_start: 0,
            total_pages: 0,
            bootstrap_lock: 0,
            choosing,
            number,
            free_head: 0,
            global_vc,
            gc_head: 0,
            freelist,
            refcount,
            owner,
            gc_pending,
            tx: ring_new(),
            rx: ring_new(),
            mbox,
            cross_area,
        };
        assert(gc_valid(0u8) == false) by (bit_vector);
        s
    }
}

} // verus!
