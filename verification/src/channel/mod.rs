//! Table of user-space ring channels: each channel is a header and a
//! data area mapped into the creating process, and a queue of tasks
//! waiting for it.

pub mod cross;
pub mod layout;
pub mod syscall;

use vstd::prelude::*;
use crate::config::PAGE_SIZE;
use crate::channel::layout::{RingHeader, HEADER_BYTES};

verus! {

/// A registered channel.
pub struct Channel {
    pub id: usize,
    /// Capacity of the data area in bytes.
    pub capacity: usize,
    /// User address where the channel is mapped.
    pub user_vaddr: usize,
    pub page_count: usize,
    /// Tasks blocked on the channel, oldest first.
    pub wait_queue: std::collections::VecDeque<usize>,
}

/// The channel table; a slot is free when it holds `None`.
pub struct ChannelTable {
    pub slots: Vec<Option<Channel>>,
}

/// Pages needed for a channel of `capacity` data bytes.
pub open spec fn spec_ring_pages(capacity: usize) -> int {
    (HEADER_BYTES + capacity + PAGE_SIZE - 1) / (PAGE_SIZE as int)
}

/// Largest capacity a channel may ask for (header and rounding fit in
/// a `usize`).
pub open spec fn max_ring_capacity() -> int {
    usize::MAX - HEADER_BYTES - PAGE_SIZE + 1
}

/// The first free slot, or the number of slots when all are taken.
pub open spec fn first_free_slot(s: Seq<Option<Channel>>) -> int
    decreases s.len(),
{
    if s.len() == 0 {
        0
    } else if s[0] is None {
        0
    } else {
        1 + first_free_slot(s.drop_first())
    }
}

impl ChannelTable {
    /// Every channel sits in the slot of its id.
    pub open spec fn wf(&self) -> bool {
        forall|i: int| 0 <= i < self.slots@.len() ==> (#[trigger] self.slots@[i] matches Some(ch) ==> ch.id == i)
    }

    /// The channel registered under `id`, if any.
    pub open spec fn lookup(&self, id: int) -> Option<Channel> {
        if 0 <= id < self.slots@.len() {
            self.slots@[id]
        } else {
            None
        }
    }

    pub fn new() -> (t: Self)
        ensures
            t.wf(),
            t.slots@.len() == 0,
    {
        ChannelTable { slots: Vec::new() }
    }
}

/// Pages needed for a channel of `capacity` data bytes (the header and
/// the data, rounded up to whole pages).
pub fn ring_page_count(capacity: usize) -> (n: usize)
    requires
        capacity <= max_ring_capacity(),
    ensures
        n == spec_ring_pages(capacity),
{
    let total_bytes = HEADER_BYTES + capacity;
    (total_bytes + (PAGE_SIZE - 1)) / PAGE_SIZE
}

proof fn lemma_first_free_slot(s: Seq<Option<Channel>>)
    ensures
        0 <= first_free_slot(s) <= s.len(),
        first_free_slot(s) < s.len() ==> s[first_free_slot(s)] is None,
        forall|i: int| 0 <= i < first_free_slot(s) ==> #[trigger] s[i] is Some,
    decreases s.len(),
{
    if s.len() > 0 && s[0] is Some {
        lemma_first_free_slot(s.drop_first());
        assert forall|i: int| 0 <= i < first_free_slot(s) implies #[trigger] s[i] is Some by {
            if i > 0 {
                assert(s[i] == s.drop_first()[i - 1]);
            }
        }
    }
}

/// Registers a channel of `capacity` data bytes that has been mapped at
/// the page-aligned user address `start_va`, whose header is `header`:
/// the header is reset (counters and flags zero, the capacity recorded,
/// truncated to 32 bits) and the channel takes the first free slot of the
/// table (a new slot when none is free). Returns the id and the address.
pub fn ring_create(
    table: &mut ChannelTable,
    capacity: usize,
    start_va: usize,
    header: &mut RingHeader,
) -> (r: (isize, usize))
    requires
        old(table).wf(),
        capacity <= max_ring_capacity(),
        old(table).slots@.len() < isize::MAX,
        start_va % PAGE_SIZE == 0,
    ensures
        final(table).wf(),
        final(header).head == 0,
        final(header).tail == 0,
        final(header).flags == 0,
        final(header).capacity == capacity as u32,
        r.1 % PAGE_SIZE == 0,
        ({
            let id = first_free_slot(old(table).slots@);
            &&& r == (id as isize, start_va)
            &&& final(table).lookup(id) matches Some(ch) && ch.id == id && ch.capacity == capacity
                && ch.user_vaddr == start_va && ch.page_count == spec_ring_pages(capacity)
                && ch.wait_queue@.len() == 0
            &&& forall|i: int| i != id ==> #[trigger] final(table).lookup(i) == old(table).lookup(i)
        }),
{
    let page_count = ring_page_count(capacity);
    header.init(capacity as u32);
    proof {
        lemma_first_free_slot(table.slots@);
    }
    let mut id: usize = 0;
    while id < table.slots.len()
        invariant
            id <= table.slots@.len(),
            table.slots@ == old(table).slots@,
            forall|i: int| 0 <= i < id ==> #[trigger] table.slots@[i] is Some,
        ensures
            id <= table.slots@.len(),
            table.slots@ == old(table).slots@,
            forall|i: int| 0 <= i < id ==> #[trigger] table.slots@[i] is Some,
            id < table.slots@.len() ==> table.slots@[id as int] is None,
        decreases table.slots@.len() - id,
    {
        if table.slots[id].is_none() {
            break;
        }
        id = id + 1;
    }
    assert(id as int == first_free_slot(old(table).slots@)) by {
        lemma_first_free_slot(old(table).slots@);
        let f = first_free_slot(old(table).slots@);
        if (id as int) < f {
            assert(table.slots@[id as int] is Some);
        }
    }
    if id == table.slots.len() {
        table.slots.push(None);
    }
    let channel = Channel {
        id,
        capacity,
        user_vaddr: start_va,
        page_count,
        wait_queue: std::collections::VecDeque::new(),
    };
    table.slots.set(id, Some(channel));
    (id as isize, start_va)
}

/// The user address of channel `id`, or -1 when there is none.
pub fn ring_mmap(table: &ChannelTable, id: usize) -> (r: isize)
    ensures
        r == (match table.lookup(id as int) {
            Some(ch) => ch.user_vaddr as isize,
            None => -1isize,
        }),
{
    if id < table.slots.len() {
        match &table.slots[id] {
            Some(ch) => ch.user_vaddr as isize,
            None => -1isize,
        }
    } else {
        -1
    }
}

/// Unregisters channel `id` and hands it back (the caller unmaps it);
/// `None` when there is no such channel.
pub fn ring_destroy(table: &mut ChannelTable, id: usize) -> (r: Option<Channel>)
    requires
        old(table).wf(),
    ensures
        final(table).wf(),
        r == old(table).lookup(id as int),
        final(table).lookup(id as int) is None,
        forall|i: int| i != id ==> #[trigger] final(table).lookup(i) == old(table).lookup(i),
        final(table).slots@.len() == old(table).slots@.len(),
{
    if id >= table.slots.len() {
        return None;
    }
    let mut taken: Option<Channel> = None;
    std::mem::swap(&mut taken, &mut table.slots[id]);
    taken
}

/// Queues task `task` on channel `id` (the caller then blocks it).
/// Returns 0, or -1 when there is no such channel.
pub fn ring_wait(table: &mut ChannelTable, id: usize, task: usize) -> (r: isize)
    requires
        old(table).wf(),
    ensures
        final(table).wf(),
        r == (if old(table).lookup(id as int) is Some {
            0isize
        } else {
            -1isize
        }),
        old(table).lookup(id as int) matches Some(ch) ==> final(table).lookup(id as int) matches Some(nc)
            && nc.id == ch.id && nc.capacity == ch.capacity && nc.user_vaddr == ch.user_vaddr
            && nc.page_count == ch.page_count && nc.wait_queue@ == ch.wait_queue@.push(task),
        old(table).lookup(id as int) is None ==> final(table).slots@ == old(table).slots@,
        forall|i: int| i != id ==> #[trigger] final(table).lookup(i) == old(table).lookup(i),
        final(table).slots@.len() == old(table).slots@.len(),
{
    if id >= table.slots.len() {
        return -1;
    }
    match &mut table.slots[id] {
        Some(ch) => {
            ch.wait_queue.push_back(task);
            0
        },
        None => -1,
    }
}

/// Takes every task queued on channel `id`, oldest first (the caller
/// wakes them); `None` when there is no such channel.
pub fn ring_notify(table: &mut ChannelTable, id: usize) -> (r: Option<Vec<usize>>)
    requires
        old(table).wf(),
    ensures
        final(table).wf(),
        match old(table).lookup(id as int) {
            Some(ch) => {
                &&& r matches Some(v) && v@ == ch.wait_queue@
                &&& final(table).lookup(id as int) matches Some(nc) && nc.id == ch.id && nc.capacity == ch.capacity
                    && nc.user_vaddr == ch.user_vaddr && nc.page_count == ch.page_count && nc.wait_queue@.len() == 0
            },
            None => r is None && final(table).slots@ == old(table).slots@,
        },
        forall|i: int| i != id ==> #[trigger] final(table).lookup(i) == old(table).lookup(i),
        final(table).slots@.len() == old(table).slots@.len(),
{
    if id >= table.slots.len() {
        return None;
    }
    match &mut table.slots[id] {
        Some(ch) => {
            let ghost q = ch.wait_queue@;
            let ghost cid = ch.id;
            let ghost ccap = ch.capacity;
            let ghost cva = ch.user_vaddr;
            let ghost cpc = ch.page_count;
            let mut woken: Vec<usize> = Vec::new();
            loop
                invariant
                    q == woken@ + ch.wait_queue@,
                    ch.id == cid,
                    ch.capacity == ccap,
                    ch.user_vaddr == cva,
                    ch.page_count == cpc,
                ensures
                    q == woken@,
                    ch.wait_queue@.len() == 0,
                    ch.id == cid,
                    ch.capacity == ccap,
                    ch.user_vaddr == cva,
                    ch.page_count == cpc,
                decreases ch.wait_queue@.len(),
            {
                match ch.wait_queue.pop_front() {
                    Some(t) => {
                        woken.push(t);
                        assert(q =~= woken@ + ch.wait_queue@);
                    },
                    None => {
                        assert(woken@ + ch.wait_queue@ =~= woken@);
                        break;
                    },
                }
            }
            Some(woken)
        },
        None => None,
    }
}

/// Creating a channel and then asking for its address gives the address
/// it was created at; after destroying it the lookup fails.
pub proof fn lemma_create_mmap_destroy(t0: ChannelTable, t1: ChannelTable, t2: ChannelTable, id: int, va: usize)
    requires
        t1.lookup(id) matches Some(ch) && ch.user_vaddr == va,
        t2.lookup(id) is None,
    ensures
        (match t1.lookup(id) {
            Some(ch) => ch.user_vaddr as isize,
            None => -1isize,
        }) == va as isize,
        (match t2.lookup(id) {
            Some(ch) => ch.user_vaddr as isize,
            None => -1isize,
        }) == -1,
{
}

} // verus!
