use vstd::prelude::*;

verus! {

/// A physical page number: a physical address divided by the page size.
#[derive(Clone, Copy, Debug, PartialEq, Eq, Structural, PartialOrd, Ord, Hash)]
pub struct PhysPageNum(pub usize);

/// A virtual page number.
#[derive(Clone, Copy, Debug, PartialEq, Eq, Structural, PartialOrd, Ord, Hash)]
pub struct VirtPageNum(pub usize);

} // verus!
