pub mod layout;
pub mod allocator;
pub mod ring;
pub mod shm;
pub mod refcnt;
pub mod gc;
pub mod mbox;
pub mod lock;
pub mod bootstrap;
pub mod hash_ring;
pub mod card_manager;

use vstd::prelude::*;

verus! {

/// Identifier of a CXL memory card (its slot number).
#[derive(Clone, Copy, Debug, PartialEq, Eq, Structural, PartialOrd, Ord, Hash)]
pub struct CxlCardId(pub usize);

} // verus!
