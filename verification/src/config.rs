use vstd::prelude::*;

verus! {

/// Size of one page (and of one physical frame) in bytes.
pub const PAGE_SIZE: usize = 0x1000;

/// log2 of [`PAGE_SIZE`].
pub const PAGE_SIZE_BITS: usize = 0xc;

/// Physical base address at which the ivshmem BAR is mapped on the
/// QEMU `virt` board (the start of the low PCIe MMIO window).
pub const IVSHMEM_BAR_BASE: usize = 0x4000_0000;

/// Number of CXL card slots the board exposes.
pub const CXL_CARD_COUNT: usize = 8;

} // verus!
