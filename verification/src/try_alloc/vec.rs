use std::collections::VecDeque;
use vstd::prelude::*;

use crate::try_alloc::AllocError;

verus! {

/// Growing a vector that reports a failed allocation instead of aborting.
pub trait TryVec<T>: Sized {
    /// An empty vector with room for `capacity` elements.
    fn try_with_capacity(capacity: usize) -> (r: Result<Self, AllocError>);

    /// Appends `value`.
    fn try_push(&mut self, value: T) -> (r: Result<(), AllocError>);
}

/// Growing a double-ended queue that reports a failed allocation instead of
/// aborting.
pub trait TryVecDeque<T>: Sized {
    /// An empty queue with room for `capacity` elements.
    fn try_with_capacity(capacity: usize) -> (r: Result<Self, AllocError>);

    /// Puts `value` in front.
    fn try_push_front(&mut self, value: T) -> (r: Result<(), AllocError>);

    /// Puts `value` at the back.
    fn try_push_back(&mut self, value: T) -> (r: Result<(), AllocError>);
}

/// `Vec::try_reserve`: reserves room for `additional` more elements and
/// leaves the elements alone. Asked for no room it does nothing and
/// succeeds, the capacity being already sufficient; whether the allocator
/// can give more is not stated.
#[verifier::external_body]
fn vec_try_reserve<T>(v: &mut Vec<T>, additional: usize) -> (r: Result<(), AllocError>)
    ensures
        final(v)@ == old(v)@,
        additional == 0 ==> r is Ok,
{
    match v.try_reserve(additional) {
        Ok(()) => Ok(()),
        Err(_) => Err(AllocError),
    }
}

impl<T> TryVec<T> for Vec<T> {
    fn try_with_capacity(capacity: usize) -> (r: Result<Self, AllocError>)
        ensures
            r matches Ok(v) ==> v@ == Seq::<T>::empty(),
            capacity == 0 ==> r is Ok,
    {
        let mut s: Vec<T> = Vec::new();
        match vec_try_reserve(&mut s, capacity) {
            Ok(_) => Ok(s),
            Err(e) => Err(e),
        }
    }

    fn try_push(&mut self, value: T) -> (r: Result<(), AllocError>)
        ensures
            r is Ok ==> final(self)@ == old(self)@.push(value),
            r is Err ==> final(self)@ == old(self)@,
    {
        match vec_try_reserve(self, 1) {
            Ok(_) => {
                self.push(value);
                Ok(())
            },
            Err(e) => Err(e),
        }
    }
}

/// `VecDeque::try_reserve`: reserves room for `additional` more elements
/// and leaves the elements alone. Asked for no room it does nothing and
/// succeeds, the capacity being already sufficient; whether the allocator
/// can give more is not stated.
#[verifier::external_body]
fn deque_try_reserve<T>(q: &mut VecDeque<T>, additional: usize) -> (r: Result<(), AllocError>)
    ensures
        final(q)@ == old(q)@,
        additional == 0 ==> r is Ok,
{
    match q.try_reserve(additional) {
        Ok(()) => Ok(()),
        Err(_) => Err(AllocError),
    }
}

impl<T> TryVecDeque<T> for VecDeque<T> {
    fn try_with_capacity(capacity: usize) -> (r: Result<Self, AllocError>)
        ensures
            r matches Ok(q) ==> q@ == Seq::<T>::empty(),
            capacity == 0 ==> r is Ok,
    {
        let mut s: VecDeque<T> = VecDeque::new();
        match deque_try_reserve(&mut s, capacity) {
            Ok(_) => Ok(s),
            Err(e) => Err(e),
        }
    }

    fn try_push_front(&mut self, value: T) -> (r: Result<(), AllocError>)
        ensures
            r is Ok ==> final(self)@ == seq![value] + old(self)@,
            r is Err ==> final(self)@ == old(self)@,
    {
        match deque_try_reserve(self, 1) {
            Ok(_) => {
                self.push_front(value);
                Ok(())
            },
            Err(e) => Err(e),
        }
    }

    fn try_push_back(&mut self, value: T) -> (r: Result<(), AllocError>)
        ensures
            r is Ok ==> final(self)@ == old(self)@.push(value),
            r is Err ==> final(self)@ == old(self)@,
    {
        match deque_try_reserve(self, 1) {
            Ok(_) => {
                self.push_back(value);
                Ok(())
            },
            Err(e) => Err(e),
        }
    }
}

} // verus!
