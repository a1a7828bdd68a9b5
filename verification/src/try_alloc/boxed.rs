use vstd::prelude::*;

use crate::try_alloc::clone::{try_cloned, TryClone};
use crate::try_alloc::AllocError;

verus! {

/// Boxing a value, with an error type for a failed allocation.
pub trait TryBox<T>: Sized {
    /// A box holding `value`.
    fn try_new(value: T) -> (r: Result<Self, AllocError>);
}

impl<T> TryBox<T> for Box<T> {
    /// A box holding `value`; the global allocator aborts on a failed
    /// allocation, so this always succeeds.
    fn try_new(value: T) -> (r: Result<Self, AllocError>)
        ensures
            r matches Ok(b) && *b == value,
    {
        Ok(Box::new(value))
    }
}

impl<T: TryClone> TryClone for Box<T> {
    /// The value cloned by `T`'s `try_clone`, boxed; its failure passed on.
    fn try_clone(&self) -> (r: Result<Self, AllocError>)
        ensures
            match r {
                Ok(b) => try_cloned(**self, Ok(*b)),
                Err(e) => try_cloned(**self, Err(e)),
            },
    {
        match (**self).try_clone() {
            Ok(v) => <Box<T> as TryBox<T>>::try_new(v),
            Err(e) => Err(e),
        }
    }
}

} // verus!
