//! Verified core of a RISC-V teaching kernel extended with CXL / ivshmem
//! shared memory: the shared-memory page allocator with reference counts
//! and vector-clock garbage collection, the single-producer rings and
//! per-node mailboxes that live in the shared region, the consistent-hash
//! ring that routes keys to CXL cards, the tiered frame allocator, the page
//! migrator's per-page decisions, the ring-channel table and the decoders
//! for PCI configuration space and ACPI tables, and the arithmetic and
//! bookkeeping of the distributed demo programs that run on top.
//!
//! The shared region itself is modelled as plain data (`cxl::shm::Shm`);
//! whoever maps the real BAR copies words in and out of that model.

pub mod config;
pub mod mm;
pub mod cxl;
pub mod channel;
pub mod syscall;
pub mod drivers;
pub mod acpi;
pub mod workload;
pub mod pipeline;
