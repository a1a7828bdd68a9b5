use vstd::prelude::*;

use crate::try_alloc::clone::TryClone;
use crate::try_alloc::AllocError;
use std::rc::Rc;
use std::sync::Arc;

verus! {

/// A shared owner of a value.
pub trait StrongLike<T>: Sized {
    /// The weak reference of this kind.
    type Weak;

    /// The value shared.
    spec fn value(&self) -> T;

    /// Puts `value` in a new shared allocation.
    fn try_new(value: T) -> (r: Result<Self, AllocError>)
        ensures
            r matches Ok(s) ==> s.value() == value,
    ;

    /// A weak reference to the same allocation.
    fn downgrade(this: &Self) -> (w: Self::Weak);
}

/// A reference that does not keep the value alive.
pub trait WeakLike<T>: Sized {
    /// The strong reference of this kind.
    type Strong;

    /// A weak reference to no value.
    fn new() -> (w: Self);

    /// A strong reference, while the value is alive.
    fn upgrade(&self) -> (r: Option<Self::Strong>);
}

/// A single-threaded shared value.
pub struct TryRc<T> {
    inner: Rc<T>,
}

/// The std weak reference behind a [`WeakRc`].
#[verifier::external_body]
#[verifier::reject_recursive_types(T)]
struct RcWeakHandle<T> {
    inner: std::rc::Weak<T>,
}

/// A weak reference to a [`TryRc`]: the std weak reference and the value of
/// the allocation it refers to, if any.
#[verifier::reject_recursive_types(T)]
pub struct WeakRc<T> {
    handle: RcWeakHandle<T>,
    target: Ghost<Option<T>>,
}

/// A thread-safe shared value.
pub struct TryArc<T> {
    inner: Arc<T>,
}

/// The std weak reference behind a [`WeakArc`].
#[verifier::external_body]
#[verifier::reject_recursive_types(T)]
struct ArcWeakHandle<T> {
    inner: std::sync::Weak<T>,
}

/// A weak reference to a [`TryArc`]: the std weak reference and the value of
/// the allocation it refers to, if any.
#[verifier::reject_recursive_types(T)]
pub struct WeakArc<T> {
    handle: ArcWeakHandle<T>,
    target: Ghost<Option<T>>,
}

/// Another owner of the same allocation (`Rc::clone`).
#[verifier::external_body]
fn rc_clone<T>(r: &Rc<T>) -> (c: Rc<T>)
    ensures
        *c == **r,
{
    Rc::clone(r)
}

/// A weak reference to the allocation (`Rc::downgrade`): it refers to the
/// value `r` holds.
#[verifier::external_body]
fn rc_downgrade<T>(r: &Rc<T>) -> (w: WeakRc<T>)
    ensures
        w.spec_target() == Some(**r),
{
    WeakRc { handle: RcWeakHandle { inner: Rc::downgrade(r) }, target: Ghost(Some(**r)) }
}

/// A weak reference to nothing (`rc::Weak::new`).
#[verifier::external_body]
fn rc_weak_new<T>() -> (w: WeakRc<T>)
    ensures
        w.spec_target() is None,
{
    WeakRc { handle: RcWeakHandle { inner: std::rc::Weak::new() }, target: Ghost(None) }
}

/// The allocation, while a strong owner lives (`rc::Weak::upgrade`): an
/// owner of the value the weak reference refers to; never one for a weak
/// reference made by `Weak::new`.
#[verifier::external_body]
fn rc_upgrade<T>(w: &WeakRc<T>) -> (r: Option<Rc<T>>)
    ensures
        r matches Some(s) ==> w.spec_target() == Some(*s),
        w.spec_target() is None ==> r is None,
{
    w.handle.inner.upgrade()
}

/// Another weak reference to the same allocation (`rc::Weak::clone`).
#[verifier::external_body]
fn rc_weak_clone<T>(w: &WeakRc<T>) -> (c: WeakRc<T>)
    ensures
        c.spec_target() == w.spec_target(),
{
    WeakRc { handle: RcWeakHandle { inner: w.handle.inner.clone() }, target: Ghost(w.target@) }
}

/// Another owner of the same allocation (`Arc::clone`).
#[verifier::external_body]
fn arc_clone<T>(r: &Arc<T>) -> (c: Arc<T>)
    ensures
        *c == **r,
{
    Arc::clone(r)
}

/// A weak reference to the allocation (`Arc::downgrade`): it refers to the
/// value `r` holds.
#[verifier::external_body]
fn arc_downgrade<T>(r: &Arc<T>) -> (w: WeakArc<T>)
    ensures
        w.spec_target() == Some(**r),
{
    WeakArc { handle: ArcWeakHandle { inner: Arc::downgrade(r) }, target: Ghost(Some(**r)) }
}

/// A weak reference to nothing (`sync::Weak::new`).
#[verifier::external_body]
fn arc_weak_new<T>() -> (w: WeakArc<T>)
    ensures
        w.spec_target() is None,
{
    WeakArc { handle: ArcWeakHandle { inner: std::sync::Weak::new() }, target: Ghost(None) }
}

/// The allocation, while a strong owner lives (`sync::Weak::upgrade`): an
/// owner of the value the weak reference refers to; never one for a weak
/// reference made by `Weak::new`.
#[verifier::external_body]
fn arc_upgrade<T>(w: &WeakArc<T>) -> (r: Option<Arc<T>>)
    ensures
        r matches Some(s) ==> w.spec_target() == Some(*s),
        w.spec_target() is None ==> r is None,
{
    w.handle.inner.upgrade()
}

/// Another weak reference to the same allocation (`sync::Weak::clone`).
#[verifier::external_body]
fn arc_weak_clone<T>(w: &WeakArc<T>) -> (c: WeakArc<T>)
    ensures
        c.spec_target() == w.spec_target(),
{
    WeakArc { handle: ArcWeakHandle { inner: w.handle.inner.clone() }, target: Ghost(w.target@) }
}

impl<T> WeakRc<T> {
    /// The value of the allocation the weak reference refers to; `None` for
    /// one made by `new`.
    pub closed spec fn spec_target(&self) -> Option<T> {
        self.target@
    }
}

impl<T> WeakArc<T> {
    /// The value of the allocation the weak reference refers to; `None` for
    /// one made by `new`.
    pub closed spec fn spec_target(&self) -> Option<T> {
        self.target@
    }
}

impl<T> TryRc<T> {
    /// The value shared.
    pub fn as_ref(&self) -> (r: &T)
        ensures
            *r == self.value(),
    {
        &*self.inner
    }
}

impl<T> StrongLike<T> for TryRc<T> {
    type Weak = WeakRc<T>;

    closed spec fn value(&self) -> T {
        *self.inner
    }

    fn try_new(value: T) -> (r: Result<Self, AllocError>)
        ensures
            r is Ok,
    {
        Ok(TryRc { inner: Rc::new(value) })
    }

    fn downgrade(this: &Self) -> (w: WeakRc<T>)
        ensures
            w.spec_target() == Some(this.value()),
    {
        rc_downgrade(&this.inner)
    }
}

impl<T> Clone for TryRc<T> {
    fn clone(&self) -> (r: Self)
        ensures
            r.value() == self.value(),
    {
        TryRc { inner: rc_clone(&self.inner) }
    }
}

impl<T> TryClone for TryRc<T> {
    fn try_clone(&self) -> (r: Result<Self, AllocError>)
        ensures
            r matches Ok(c) && c.value() == self.value(),
    {
        Ok(self.clone())
    }
}

impl<T> core::ops::Deref for TryRc<T> {
    type Target = T;

    fn deref(&self) -> (r: &T)
        ensures
            *r == self.value(),
    {
        &*self.inner
    }
}

impl<T> WeakLike<T> for WeakRc<T> {
    type Strong = TryRc<T>;

    fn new() -> (w: WeakRc<T>)
        ensures
            w.spec_target() is None,
    {
        rc_weak_new()
    }

    fn upgrade(&self) -> (r: Option<TryRc<T>>)
        ensures
            r matches Some(s) ==> self.spec_target() == Some(s.value()),
            self.spec_target() is None ==> r is None,
    {
        match rc_upgrade(self) {
            Some(inner) => Some(TryRc { inner }),
            None => None,
        }
    }
}

impl<T> Clone for WeakRc<T> {
    fn clone(&self) -> (r: Self)
        ensures
            r.spec_target() == self.spec_target(),
    {
        rc_weak_clone(self)
    }
}

impl<T> TryClone for WeakRc<T> {
    /// Cloning a weak reference takes no memory, so it always succeeds.
    fn try_clone(&self) -> (r: Result<Self, AllocError>)
        ensures
            r matches Ok(c) && c.spec_target() == self.spec_target(),
    {
        Ok(self.clone())
    }
}

impl<T> TryArc<T> {
    /// The value shared.
    pub fn as_ref(&self) -> (r: &T)
        ensures
            *r == self.value(),
    {
        &*self.inner
    }
}

impl<T> StrongLike<T> for TryArc<T> {
    type Weak = WeakArc<T>;

    closed spec fn value(&self) -> T {
        *self.inner
    }

    fn try_new(value: T) -> (r: Result<Self, AllocError>)
        ensures
            r is Ok,
    {
        Ok(TryArc { inner: Arc::new(value) })
    }

    fn downgrade(this: &Self) -> (w: WeakArc<T>)
        ensures
            w.spec_target() == Some(this.value()),
    {
        arc_downgrade(&this.inner)
    }
}

impl<T> Clone for TryArc<T> {
    fn clone(&self) -> (r: Self)
        ensures
            r.value() == self.value(),
    {
        TryArc { inner: arc_clone(&self.inner) }
    }
}

impl<T> TryClone for TryArc<T> {
    fn try_clone(&self) -> (r: Result<Self, AllocError>)
        ensures
            r matches Ok(c) && c.value() == self.value(),
    {
        Ok(self.clone())
    }
}

impl<T> core::ops::Deref for TryArc<T> {
    type Target = T;

    fn deref(&self) -> (r: &T)
        ensures
            *r == self.value(),
    {
        &*self.inner
    }
}

impl<T> WeakLike<T> for WeakArc<T> {
    type Strong = TryArc<T>;

    fn new() -> (w: WeakArc<T>)
        ensures
            w.spec_target() is None,
    {
        arc_weak_new()
    }

    fn upgrade(&self) -> (r: Option<TryArc<T>>)
        ensures
            r matches Some(s) ==> self.spec_target() == Some(s.value()),
            self.spec_target() is None ==> r is None,
    {
        match arc_upgrade(self) {
            Some(inner) => Some(TryArc { inner }),
            None => None,
        }
    }
}

impl<T> Clone for WeakArc<T> {
    fn clone(&self) -> (r: Self)
        ensures
            r.spec_target() == self.spec_target(),
    {
        arc_weak_clone(self)
    }
}

impl<T> TryClone for WeakArc<T> {
    /// Cloning a weak reference takes no memory, so it always succeeds.
    fn try_clone(&self) -> (r: Result<Self, AllocError>)
        ensures
            r matches Ok(c) && c.spec_target() == self.spec_target(),
    {
        Ok(self.clone())
    }
}

} // verus!
