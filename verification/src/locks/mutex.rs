use vstd::prelude::*;

use crate::locks::semaphore::{
    cancelled, granted_to, took_grant, released, Semaphore, SemaphoreAcquireFuture, SemaphoreGuard, Waiter,
};

verus! {

/// A mutual exclusion lock built on a [`Semaphore`] with a single permit.
///
/// Locking is fair: waiting tasks get the lock in arrival order. `held` counts
/// the permits out in guards.
pub struct Mutex<T> {
    data: T,
    semaphore: Semaphore,
    held: usize,
}

/// Proof of holding a [`Mutex`]; `Mutex::unlock` gives it back.
pub struct MutexGuard {
    semaphore_guard: SemaphoreGuard,
}

/// One asynchronous lock operation on a [`Mutex`].
pub struct MutexLockFuture {
    semaphore_future: SemaphoreAcquireFuture,
}

impl<T> Mutex<T> {
    /// The semaphore is well formed, and the single permit is either free,
    /// collected for the queue, handed to a waiter, or out in a guard.
    pub closed spec fn wf(&self) -> bool {
        &&& self.semaphore.spec_wf()
        &&& self.semaphore.spec_total() + self.held == 1
    }

    /// The lock is taken: a guard is out.
    pub closed spec fn is_locked(&self) -> bool {
        self.held > 0
    }

    pub closed spec fn spec_data(&self) -> T {
        self.data
    }

    /// The semaphore behind the lock: its free permit, its queue of waiters
    /// and the permits handed to them.
    pub closed spec fn spec_semaphore(&self) -> Semaphore {
        self.semaphore
    }

    /// The permits out in guards.
    pub closed spec fn spec_held(&self) -> usize {
        self.held
    }

    /// A new unlocked mutex around `data`.
    pub fn new(data: T) -> (m: Mutex<T>)
        ensures
            m.wf(),
            !m.is_locked(),
            m.spec_data() == data,
            m.spec_semaphore().spec_permits() == 1,
            m.spec_semaphore().spec_pending() == 0,
            m.spec_semaphore().spec_queue().len() == 0,
            m.spec_semaphore().spec_granted().len() == 0,
            m.spec_held() == 0,
    {
        Mutex { data, semaphore: Semaphore::new(1), held: 0 }
    }

    /// Takes the lock if it is free and nobody waits for it; never waits.
    pub fn try_lock(&mut self) -> (g: Option<MutexGuard>)
        requires
            old(self).wf(),
        ensures
            final(self).wf(),
            g is Some ==> !old(self).is_locked() && final(self).is_locked(),
            old(self).is_locked() ==> g is None,
            g is None ==> final(self).is_locked() == old(self).is_locked(),
            final(self).spec_data() == old(self).spec_data(),
            g is Some <==> old(self).spec_semaphore().spec_permits() >= 1,
            g is None ==> *final(self) == *old(self),
            g matches Some(guard) ==> guard.spec_permits() == 1 && final(self).spec_held() == old(self).spec_held()
                + 1 && final(self).spec_semaphore().spec_permits() == old(self).spec_semaphore().spec_permits() - 1
                && final(self).spec_semaphore().spec_pending() == old(self).spec_semaphore().spec_pending()
                && final(self).spec_semaphore().spec_queue() == old(self).spec_semaphore().spec_queue()
                && final(self).spec_semaphore().spec_granted() == old(self).spec_semaphore().spec_granted(),
    {
        proof {
            self.semaphore.lemma_total_bounds();
        }
        let g = self.semaphore.try_acquire(1);
        match g {
            Some(guard) => {
                self.held = self.held + 1;
                Some(MutexGuard { semaphore_guard: guard })
            },
            None => None,
        }
    }

    /// Starts an asynchronous lock operation.
    pub fn lock(&self) -> (f: MutexLockFuture)
        ensures
            f.wf(),
            f.spec_ticket() is None,
    {
        MutexLockFuture { semaphore_future: self.semaphore.acquire(1) }
    }

    /// Releases the lock held by `guard`, serving the next waiter. Returns the
    /// wakers of the served tasks. A guard holding more permits than are out
    /// is ignored.
    pub fn unlock(&mut self, guard: MutexGuard) -> (woken: Vec<u64>)
        requires
            old(self).wf(),
        ensures
            final(self).wf(),
            final(self).spec_data() == old(self).spec_data(),
            guard.spec_permits() <= old(self).spec_held() ==> released(
                old(self).spec_semaphore(),
                final(self).spec_semaphore(),
                guard.spec_permits() as int,
                woken@,
            ) && final(self).spec_held() == old(self).spec_held() - guard.spec_permits(),
            guard.spec_permits() > old(self).spec_held() ==> woken@.len() == 0 && *final(self) == *old(self),
    {
        let n = guard.semaphore_guard.permits();
        proof {
            self.semaphore.lemma_total_bounds();
        }
        if n <= self.held {
            let woken = guard.semaphore_guard.release(&mut self.semaphore);
            self.held = self.held - n;
            woken
        } else {
            Vec::new()
        }
    }

    /// The protected data, read through a guard.
    pub fn get(&self, guard: &MutexGuard) -> (r: &T)
        ensures
            *r == self.spec_data(),
    {
        &self.data
    }

    /// Replaces the protected data through a guard, returning the old value.
    pub fn replace(&mut self, guard: &MutexGuard, value: T) -> (r: T)
        requires
            old(self).wf(),
        ensures
            final(self).wf(),
            r == old(self).spec_data(),
            final(self).spec_data() == value,
            final(self).is_locked() == old(self).is_locked(),
    {
        let mut v = value;
        std::mem::swap(&mut self.data, &mut v);
        v
    }
}

/// `after` is `before` once the lock operation `f` gave up, `woken` being
/// the wakers of the tasks served as a consequence.
pub open spec fn lock_cancelled<T>(f: MutexLockFuture, before: Mutex<T>, after: Mutex<T>, woken: Seq<u64>) -> bool {
    &&& f.spec_ticket() is None ==> woken.len() == 0 && after == before
    &&& f.spec_ticket() matches Some(t) ==> cancelled(before.spec_semaphore(), after.spec_semaphore(), t, woken)
        && after.spec_held() == before.spec_held() && after.spec_data() == before.spec_data()
}

impl MutexGuard {
    /// The permits the guard holds.
    pub closed spec fn spec_permits(&self) -> usize {
        self.semaphore_guard.spec_permits()
    }
}

impl MutexLockFuture {
    pub closed spec fn wf(&self) -> bool {
        self.semaphore_future.spec_permits() == 1
    }

    /// The ticket of the waiter queued for this operation, once queued.
    pub closed spec fn spec_ticket(&self) -> Option<u64> {
        self.semaphore_future.spec_ticket()
    }

    /// Polls the lock operation of the waiter `waker`: the guard once the lock
    /// is acquired, and the wakers woken meanwhile.
    pub fn poll<T>(&mut self, mutex: &mut Mutex<T>, waker: u64) -> (r: (Option<MutexGuard>, Vec<u64>))
        requires
            old(mutex).wf(),
            old(self).wf(),
        ensures
            final(mutex).wf(),
            final(self).wf(),
            final(mutex).spec_data() == old(mutex).spec_data(),
            r.1@.len() == 0,
            old(self).spec_ticket() is None ==> (r.0 is Some <==> old(mutex).spec_semaphore().spec_permits() >= 1),
            old(self).spec_ticket() matches Some(t) ==> (r.0 is Some <==> granted_to(old(mutex).spec_semaphore(), t)),
            r.0 is Some ==> final(mutex).is_locked(),
            r.0 is None ==> final(mutex).spec_held() == old(mutex).spec_held(),
            r.0 is Some ==> final(self).spec_ticket() is None,
            r.0 matches Some(g) ==> g.spec_permits() == 1 && final(mutex).spec_held() == old(mutex).spec_held() + 1,
            old(self).spec_ticket() is Some && r.0 is None ==> *final(mutex) == *old(mutex) && *final(self)
                == *old(self),
            old(self).spec_ticket() is None && r.0 is None ==> {
                let s0 = old(mutex).spec_semaphore();
                let s1 = final(mutex).spec_semaphore();
                &&& final(self).spec_ticket() == Some(s0.spec_next_ticket())
                &&& s1.spec_queue() == s0.spec_queue().push(
                    Waiter { ticket: s0.spec_next_ticket(), permits: 1, waker },
                )
                &&& s1.spec_granted() == s0.spec_granted()
                &&& s1.spec_next_ticket() == s0.spec_next_ticket().wrapping_add(1)
            },
            old(self).spec_ticket() matches Some(t) ==> (r.0 matches Some(g) ==> took_grant(
                old(mutex).spec_semaphore(),
                final(mutex).spec_semaphore(),
                t,
                g.spec_permits() as int,
            )),
    {
        proof {
            mutex.semaphore.lemma_total_bounds();
        }
        let ghost s0 = mutex.semaphore;
        let ghost t0 = self.semaphore_future.spec_ticket();
        let (g, woken) = self.semaphore_future.poll(&mut mutex.semaphore, waker);
        proof {
            mutex.semaphore.lemma_total_bounds();
        }
        match g {
            Some(guard) => {
                let n = guard.permits();
                mutex.held = mutex.held + n;
                (Some(MutexGuard { semaphore_guard: guard }), woken)
            },
            None => (None, woken),
        }
    }

    /// Abandons the lock operation; a lock already handed to it is passed on.
    pub fn cancel<T>(self, mutex: &mut Mutex<T>) -> (woken: Vec<u64>)
        requires
            old(mutex).wf(),
        ensures
            final(mutex).wf(),
            final(mutex).spec_data() == old(mutex).spec_data(),
            final(mutex).is_locked() == old(mutex).is_locked(),
            final(mutex).spec_held() == old(mutex).spec_held(),
            self.spec_ticket() is None ==> woken@.len() == 0 && *final(mutex) == *old(mutex),
            self.spec_ticket() matches Some(t) ==> cancelled(
                old(mutex).spec_semaphore(),
                final(mutex).spec_semaphore(),
                t,
                woken@,
            ),
    {
        self.semaphore_future.cancel(&mut mutex.semaphore)
    }
}

} // verus!
