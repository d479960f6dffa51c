//! Header of a user-space ring channel, as it lies in shared memory.
//!
//!   [0..8)   head      written by the consumer
//!   [8..16)  tail      written by the producer
//!   [16..20) flags     written by both
//!   [20..24) capacity  written once at init
//!   [24..)   data      the ring's payload

use vstd::prelude::*;

verus! {

pub const RING_F_NEED_WAKE_C: u32 = 1;
pub const RING_F_NEED_WAKE_P: u32 = 2;
pub const RING_F_PEER_READY: u32 = 4;
pub const RING_F_SHUTDOWN: u32 = 8;

/// Bytes of the header before the data area.
pub const HEADER_BYTES: usize = 24;

/// The ring header's words.
pub struct RingHeader {
    pub head: u64,
    pub tail: u64,
    pub flags: u32,
    pub capacity: u32,
}

impl RingHeader {
    /// Size of the header in bytes.
    pub fn header_bytes() -> (n: usize)
        ensures
            n == HEADER_BYTES,
    {
        24
    }

    /// Resets the counters and flags and records the capacity.
    pub fn init(&mut self, capacity: u32)
        ensures
            final(self).head == 0,
            final(self).tail == 0,
            final(self).flags == 0,
            final(self).capacity == capacity,
    {
        self.head = 0;
        self.tail = 0;
        self.flags = 0;
        self.capacity = capacity;
    }

    /// Capacity of the data area in bytes.
    pub fn capacity(&self) -> (c: usize)
        ensures
            c == self.capacity,
    {
        self.capacity as usize
    }

    /// Address of the data area of the header that lies at `header_addr`.
    pub fn data_ptr(&self, header_addr: usize) -> (a: usize)
        requires
            header_addr <= usize::MAX - HEADER_BYTES,
        ensures
            a == header_addr + HEADER_BYTES,
    {
        header_addr + 24
    }
}

} // verus!
