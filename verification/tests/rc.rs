use std::cell::Cell;
use std::rc::Rc;

use lib::try_alloc::rc::{StrongLike, TryArc, TryRc, WeakArc, WeakLike, WeakRc};

fn weak_expires<S, W>()
where
    S: StrongLike<i32, Weak = W>,
    W: WeakLike<i32, Strong = S>,
{
    let s = S::try_new(7).ok().unwrap();
    let w = S::downgrade(&s);

    drop(s);
    assert!(w.upgrade().is_none());
}

struct Tracker(Rc<Cell<usize>>);

impl Drop for Tracker {
    fn drop(&mut self) {
        self.0.set(self.0.get() + 1);
    }
}

fn drop_timing<S, W>()
where
    S: StrongLike<Tracker, Weak = W> + Clone,
    W: WeakLike<Tracker, Strong = S>,
{
    let drops = Rc::new(Cell::new(0usize));

    let w: W;

    {
        let s1 = S::try_new(Tracker(drops.clone())).ok().unwrap();
        let s2 = s1.clone();
        w = S::downgrade(&s1);

        assert_eq!(drops.get(), 0);

        drop(s1);
        assert_eq!(drops.get(), 0);

        drop(s2);
        assert_eq!(drops.get(), 1);

        assert!(w.upgrade().is_none());
    }

    assert_eq!(drops.get(), 1);
}

#[test]
fn tryrc_weak_expires() {
    weak_expires::<TryRc<i32>, WeakRc<i32>>();
}

#[test]
fn tryrc_drop_timing() {
    drop_timing::<TryRc<Tracker>, WeakRc<Tracker>>();
}

#[test]
fn tryarc_weak_expires() {
    weak_expires::<TryArc<i32>, WeakArc<i32>>();
}

#[test]
fn tryarc_drop_timing() {
    drop_timing::<TryArc<Tracker>, WeakArc<Tracker>>();
}

#[test]
fn strong_reads_value_and_upgrades() {
    let s = TryRc::try_new(123).ok().unwrap();
    assert_eq!(*s, 123);
    assert_eq!(*s.as_ref(), 123);
    let w = TryRc::downgrade(&s);
    let s2 = w.upgrade().unwrap();
    assert_eq!(*s2, 123);
    let s3 = s.clone();
    assert_eq!(*s3, 123);
    let none: WeakRc<i32> = WeakRc::new();
    assert!(none.upgrade().is_none());
}

#[test]
fn tryrc_basic() {
    let s = TryRc::try_new(123).ok().unwrap();
    assert_eq!(*s, 123);
    assert_eq!(*s.as_ref(), 123);
    let w = TryRc::downgrade(&s);
    let s2 = w.upgrade().unwrap();
    assert_eq!(*s2, 123);
    let s3 = s.clone();
    assert_eq!(*s3, 123);
}

#[test]
fn tryarc_basic() {
    let s = TryArc::try_new(123).ok().unwrap();
    assert_eq!(*s, 123);
    assert_eq!(*s.as_ref(), 123);
    let w = TryArc::downgrade(&s);
    let s2 = w.upgrade().unwrap();
    assert_eq!(*s2, 123);
    let s3 = s.clone();
    assert_eq!(*s3, 123);
}

#[test]
fn weak_new_never_upgrades() {
    let w: WeakRc<i32> = WeakRc::new();
    assert!(w.upgrade().is_none());
    let w: WeakArc<i32> = WeakArc::new();
    assert!(w.upgrade().is_none());
    let w2 = w.clone();
    assert!(w2.upgrade().is_none());
}
