//! Device drivers.

pub mod pci;
