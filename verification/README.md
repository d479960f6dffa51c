# cxl_os

The verified core of a small RISC-V kernel that shares memory between
virtual machines through an ivshmem device and spreads memory over CXL
cards.

- `src/` is the library, checked by Verus: the shared region as data
  (`cxl::shm`) with its page allocator, reference counts and vector-clock
  collector, bakery lock steps, message rings and mailboxes; the
  consistent-hash ring that routes pages to CXL cards and the card
  manager; the tiered frame allocator and the page migrator's decisions;
  the user ring-channel table; the CXL system calls' decisions; PCI
  configuration decoding and the bus-scan order; ACPI table decoding;
  and the arithmetic and bookkeeping of the distributed demo programs
  (`workload`: calculator tasks, their messages and the master's reply
  tally, the pipeline's generator, sort and batch check; `pipeline`: the
  sort-merge pipeline's value messages and its worker as a step
  function).
- `tests/` exercises the library on concrete values.
- `app/` is the kernel glue around it: volatile accesses to the ivshmem
  BAR and to ECAM, page-table walks, spinning, timers, globals and the
  system-call entry points.
