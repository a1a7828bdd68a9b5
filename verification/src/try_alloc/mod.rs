pub mod boxed;
pub mod clone;
pub mod fmt;
pub mod hash;
pub mod linked;
pub mod rbtree;
pub mod rc;
pub mod string;
pub mod vec;

use vstd::prelude::*;

verus! {

/// An allocation failed.
#[derive(Debug, Clone, Copy, PartialEq, Eq, Structural)]
pub struct AllocError;

} // verus!
