//! Layout of the 64 MB ivshmem shared region.
//!
//!   Page 0         critical header (magic, bootstrap, lock metadata)
//!   Pages 1..31    arrays too large for page 0 (freelist, ref_cnt, owner, GC)
//!   Pages 32..     data pages available for allocation

use vstd::prelude::*;
use crate::config::IVSHMEM_BAR_BASE;

verus! {

pub const SHM_BASE: usize = IVSHMEM_BAR_BASE;
/// 64 MB.
pub const SHM_SIZE: usize = 0x0400_0000;
pub const PAGE_SIZE: usize = 0x1000;
/// 16384 pages.
pub const PAGE_COUNT: usize = SHM_SIZE / PAGE_SIZE;

/// Pages reserved for metadata (128 KB).
pub const HEADER_PAGES: usize = 32;
/// First allocatable page.
pub const DATA_START: usize = HEADER_PAGES;
/// Number of allocatable data pages (16352).
pub const DATA_PAGE_COUNT: usize = PAGE_COUNT - HEADER_PAGES;

pub const OFF_MAGIC: usize = 0x000;
pub const OFF_N_INSTANCES: usize = 0x008;
pub const OFF_DATA_START: usize = 0x00C;
pub const OFF_TOTAL_PAGES: usize = 0x010;
pub const OFF_BOOTSTRAP_LOCK: usize = 0x014;

pub const OFF_CHOOSING: usize = 0x040;
pub const OFF_NUMBER: usize = 0x044;
/// Number of instances that can share the region.
pub const MAX_INSTANCES: usize = 4;

pub const OFF_FREE_HEAD: usize = 0x080;
pub const OFF_GLOBAL_VC: usize = 0x090;
pub const OFF_GC_HEAD: usize = 0x0B0;

/// Size in bytes of one GC-pending entry.
pub const GC_ENTRY_SIZE: usize = 16;
/// Capacity of the GC-pending array.
pub const GC_PENDING_ENTRIES: usize = 4096;

pub const OFF_TX_HEAD: usize = 0x100;
pub const OFF_TX_TAIL: usize = 0x104;
pub const OFF_TX_ENTRIES: usize = 0x200;
/// Slots per ring (64 slots of 64 bytes).
pub const RING_CAPACITY: usize = 64;

pub const OFF_RX_HEAD: usize = 0x0C0;
pub const OFF_RX_TAIL: usize = 0x0C4;
pub const OFF_RX_ENTRIES: usize = 0x3F03000;

pub const OFF_MBOX_SENDER: usize = 0x500;
pub const OFF_MBOX_PAGE: usize = 0x504;
pub const OFF_MBOX_READY: usize = 0x508;

pub const FREELIST_PAGE: usize = 1;
pub const REFCOUNT_PAGE: usize = 8;
pub const OWNER_PAGE: usize = 15;
pub const GC_PENDING_PAGE: usize = 16;

pub const FREELIST_OFF: usize = FREELIST_PAGE * PAGE_SIZE;
pub const REFCOUNT_OFF: usize = REFCOUNT_PAGE * PAGE_SIZE;
pub const OWNER_OFF: usize = OWNER_PAGE * PAGE_SIZE;
pub const GC_PENDING_OFF: usize = GC_PENDING_PAGE * PAGE_SIZE;

/// "SHMEMUNS".
pub const SHM_MAGIC: u64 = 0x5348_4D45_4D55_4E53;

/// First physical page number of the data region.
pub const SHM_DATA_PPN_BASE: usize = SHM_BASE / PAGE_SIZE + HEADER_PAGES;

/// Bytes in one ring / mailbox message.
pub const MSG_SIZE: usize = 60;
/// Slots in one per-node mailbox.
pub const MBOX_CAPACITY: usize = 64;
/// Bytes of one mailbox slot (4-byte flag and the payload).
pub const MBOX_SLOT_SIZE: usize = 64;

/// Offset of the cross-VM ring area inside the region.
pub const CROSS_RING_OFFSET: usize = 0x3F0_0000;
/// Bytes of the cross-VM ring area (two 8 KB rings).
pub const CROSS_RING_TOTAL: usize = 0x4000;

} // verus!
