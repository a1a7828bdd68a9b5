use vstd::prelude::*;

use crate::locks::semaphore::{
    cancelled, granted_to, took_grant, released, Semaphore, SemaphoreAcquireFuture, SemaphoreGuard, Waiter,
};

verus! {

/// An asynchronous reader-writer lock built on a [`Semaphore`] holding
/// `usize::MAX` permits: a reader takes one permit, a writer all of them.
///
/// The lock is fair: all requests wait in one FIFO queue. `held` counts the
/// permits out in guards.
pub struct RwLock<T> {
    data: T,
    semaphore: Semaphore,
    held: usize,
}

/// Shared access to a [`RwLock`].
pub struct ReadLockGuard {
    semaphore_guard: SemaphoreGuard,
}

/// Exclusive access to a [`RwLock`].
pub struct WriteLockGuard {
    semaphore_guard: SemaphoreGuard,
}

/// One asynchronous read-lock operation.
pub struct ReadLockFuture {
    semaphore_future: SemaphoreAcquireFuture,
}

/// One asynchronous write-lock operation.
pub struct WriteLockFuture {
    semaphore_future: SemaphoreAcquireFuture,
}

impl<T> RwLock<T> {
    /// The semaphore is well formed and every permit is free, collected for
    /// the queue, handed to a waiter, or out in a guard.
    pub closed spec fn wf(&self) -> bool {
        &&& self.semaphore.spec_wf()
        &&& self.semaphore.spec_total() + self.held == usize::MAX
    }

    /// The permits out in guards: `usize::MAX` while a writer holds the lock,
    /// the number of readers otherwise.
    pub closed spec fn spec_held(&self) -> usize {
        self.held
    }

    pub closed spec fn spec_data(&self) -> T {
        self.data
    }

    /// The semaphore behind the lock: its free permits, its queue of waiters
    /// and the permits handed to them.
    pub closed spec fn spec_semaphore(&self) -> Semaphore {
        self.semaphore
    }

    pub fn new(data: T) -> (l: RwLock<T>)
        ensures
            l.wf(),
            l.spec_held() == 0,
            l.spec_data() == data,
            l.spec_semaphore().spec_permits() == usize::MAX,
            l.spec_semaphore().spec_pending() == 0,
            l.spec_semaphore().spec_queue().len() == 0,
            l.spec_semaphore().spec_granted().len() == 0,
    {
        RwLock { data, semaphore: Semaphore::new(usize::MAX), held: 0 }
    }

    /// Takes a read lock if a permit is free; never waits. Fails while a writer
    /// holds the lock.
    pub fn try_read(&mut self) -> (g: Option<ReadLockGuard>)
        requires
            old(self).wf(),
        ensures
            final(self).wf(),
            old(self).spec_held() == usize::MAX ==> g is None,
            g is Some ==> final(self).spec_held() == old(self).spec_held() + 1,
            g is None ==> final(self).spec_held() == old(self).spec_held(),
            final(self).spec_data() == old(self).spec_data(),
            g is Some <==> old(self).spec_semaphore().spec_permits() >= 1,
            g is None ==> *final(self) == *old(self),
            g matches Some(guard) ==> guard.spec_permits() == 1 && final(self).spec_semaphore().spec_permits()
                == old(self).spec_semaphore().spec_permits() - 1
                && final(self).spec_semaphore().spec_pending() == old(self).spec_semaphore().spec_pending()
                && final(self).spec_semaphore().spec_queue() == old(self).spec_semaphore().spec_queue()
                && final(self).spec_semaphore().spec_granted() == old(self).spec_semaphore().spec_granted(),
    {
        proof {
            self.semaphore.lemma_total_bounds();
        }
        match self.semaphore.try_acquire(1) {
            Some(guard) => {
                self.held = self.held + 1;
                Some(ReadLockGuard { semaphore_guard: guard })
            },
            None => None,
        }
    }

    /// Takes the write lock if every permit is free; never waits. Fails while
    /// any reader or writer holds the lock.
    pub fn try_write(&mut self) -> (g: Option<WriteLockGuard>)
        requires
            old(self).wf(),
        ensures
            final(self).wf(),
            old(self).spec_held() > 0 ==> g is None,
            g is Some ==> final(self).spec_held() == usize::MAX,
            g is None ==> final(self).spec_held() == old(self).spec_held(),
            final(self).spec_data() == old(self).spec_data(),
            g is Some <==> old(self).spec_semaphore().spec_permits() == usize::MAX,
            g is None ==> *final(self) == *old(self),
            g matches Some(guard) ==> guard.spec_permits() == usize::MAX && final(self).spec_semaphore().spec_permits()
                == 0
                && final(self).spec_semaphore().spec_pending() == old(self).spec_semaphore().spec_pending()
                && final(self).spec_semaphore().spec_queue() == old(self).spec_semaphore().spec_queue()
                && final(self).spec_semaphore().spec_granted() == old(self).spec_semaphore().spec_granted(),
    {
        proof {
            self.semaphore.lemma_total_bounds();
        }
        match self.semaphore.try_acquire(usize::MAX) {
            Some(guard) => {
                self.held = self.held + usize::MAX;
                Some(WriteLockGuard { semaphore_guard: guard })
            },
            None => None,
        }
    }

    /// Starts an asynchronous read-lock operation.
    pub fn read(&self) -> (f: ReadLockFuture)
        ensures
            f.spec_permits() == 1,
    {
        ReadLockFuture { semaphore_future: self.semaphore.acquire(1) }
    }

    /// Starts an asynchronous write-lock operation.
    pub fn write(&self) -> (f: WriteLockFuture)
        ensures
            f.spec_permits() == usize::MAX,
    {
        WriteLockFuture { semaphore_future: self.semaphore.acquire(usize::MAX) }
    }

    /// Gives back `n` permits of a guard when that many are out.
    fn give_back(&mut self, guard: SemaphoreGuard) -> (woken: Vec<u64>)
        requires
            old(self).wf(),
        ensures
            final(self).wf(),
            final(self).spec_data() == old(self).spec_data(),
            guard.spec_permits() <= old(self).spec_held() ==> released(
                old(self).spec_semaphore(),
                final(self).spec_semaphore(),
                guard.spec_permits() as int,
                woken@,
            ) && final(self).spec_held() == old(self).spec_held() - guard.spec_permits(),
            guard.spec_permits() > old(self).spec_held() ==> woken@.len() == 0 && *final(self) == *old(self),
    {
        let n = guard.permits();
        proof {
            self.semaphore.lemma_total_bounds();
        }
        if n <= self.held {
            let woken = guard.release(&mut self.semaphore);
            self.held = self.held - n;
            woken
        } else {
            Vec::new()
        }
    }

    /// Releases a read lock, serving waiting tasks; returns their wakers.
    pub fn unlock_read(&mut self, guard: ReadLockGuard) -> (woken: Vec<u64>)
        requires
            old(self).wf(),
        ensures
            final(self).wf(),
            final(self).spec_data() == old(self).spec_data(),
            guard.spec_permits() <= old(self).spec_held() ==> released(
                old(self).spec_semaphore(),
                final(self).spec_semaphore(),
                guard.spec_permits() as int,
                woken@,
            ) && final(self).spec_held() == old(self).spec_held() - guard.spec_permits(),
            guard.spec_permits() > old(self).spec_held() ==> woken@.len() == 0 && *final(self) == *old(self),
    {
        self.give_back(guard.semaphore_guard)
    }

    /// Releases the write lock, serving waiting tasks; returns their wakers.
    pub fn unlock_write(&mut self, guard: WriteLockGuard) -> (woken: Vec<u64>)
        requires
            old(self).wf(),
        ensures
            final(self).wf(),
            final(self).spec_data() == old(self).spec_data(),
            guard.spec_permits() <= old(self).spec_held() ==> released(
                old(self).spec_semaphore(),
                final(self).spec_semaphore(),
                guard.spec_permits() as int,
                woken@,
            ) && final(self).spec_held() == old(self).spec_held() - guard.spec_permits(),
            guard.spec_permits() > old(self).spec_held() ==> woken@.len() == 0 && *final(self) == *old(self),
    {
        self.give_back(guard.semaphore_guard)
    }

    /// The protected data.
    pub fn get(&self, guard: &ReadLockGuard) -> (r: &T)
        ensures
            *r == self.spec_data(),
    {
        &self.data
    }

    /// The protected data, seen by the writer.
    pub fn get_write(&self, guard: &WriteLockGuard) -> (r: &T)
        ensures
            *r == self.spec_data(),
    {
        &self.data
    }

    /// Replaces the protected data under the write lock, returning the old value.
    pub fn replace(&mut self, guard: &WriteLockGuard, value: T) -> (r: T)
        requires
            old(self).wf(),
        ensures
            final(self).wf(),
            r == old(self).spec_data(),
            final(self).spec_data() == value,
            final(self).spec_held() == old(self).spec_held(),
            final(self).spec_semaphore() == old(self).spec_semaphore(),
    {
        let mut v = value;
        std::mem::swap(&mut self.data, &mut v);
        v
    }
}

/// Exclusion: while a writer holds the lock no permit is free, so no reader
/// and no other writer gets in; while any guard is out, fewer than all
/// permits are free, so no writer gets in.
pub proof fn lemma_exclusive<T>(l: RwLock<T>)
    requires
        l.wf(),
    ensures
        l.spec_held() == usize::MAX ==> l.spec_semaphore().spec_permits() == 0,
        l.spec_held() > 0 ==> l.spec_semaphore().spec_permits() < usize::MAX,
{
    l.semaphore.lemma_total_bounds();
}

impl ReadLockGuard {
    /// The permits the guard holds.
    pub closed spec fn spec_permits(&self) -> usize {
        self.semaphore_guard.spec_permits()
    }
}

impl WriteLockGuard {
    /// The permits the guard holds.
    pub closed spec fn spec_permits(&self) -> usize {
        self.semaphore_guard.spec_permits()
    }

    /// Turns the write lock into a read lock without letting any writer in
    /// between: all permits but one go back.
    pub fn downgrade<T>(self, lock: &mut RwLock<T>) -> (r: (ReadLockGuard, Vec<u64>))
        requires
            old(lock).wf(),
        ensures
            final(lock).wf(),
            final(lock).spec_data() == old(lock).spec_data(),
            self.spec_permits() == usize::MAX && old(lock).spec_held() == usize::MAX ==> released(
                old(lock).spec_semaphore(),
                final(lock).spec_semaphore(),
                usize::MAX - 1,
                r.1@,
            ) && final(lock).spec_held() == 1 && r.0.spec_permits() == 1,
            !(self.spec_permits() == usize::MAX && old(lock).spec_held() == usize::MAX) ==> r.1@.len() == 0
                && *final(lock) == *old(lock) && r.0.spec_permits() == self.spec_permits(),
    {
        let mut semaphore_guard = self.semaphore_guard;
        proof {
            lock.semaphore.lemma_total_bounds();
        }
        if semaphore_guard.permits() == usize::MAX && lock.held == usize::MAX {
            let woken = semaphore_guard.release_part(&mut lock.semaphore, usize::MAX - 1);
            lock.held = 1;
            (ReadLockGuard { semaphore_guard }, woken)
        } else {
            (ReadLockGuard { semaphore_guard }, Vec::new())
        }
    }
}

impl ReadLockFuture {
    pub closed spec fn spec_permits(&self) -> usize {
        self.semaphore_future.spec_permits()
    }

    /// The ticket of the waiter queued for this operation, once queued.
    pub closed spec fn spec_ticket(&self) -> Option<u64> {
        self.semaphore_future.spec_ticket()
    }

    /// Polls the read-lock operation for task `waker`.
    pub fn poll<T>(&mut self, lock: &mut RwLock<T>, waker: u64) -> (r: (Option<ReadLockGuard>, Vec<u64>))
        requires
            old(lock).wf(),
        ensures
            final(lock).wf(),
            final(lock).spec_data() == old(lock).spec_data(),
            final(self).spec_permits() == old(self).spec_permits(),
            r.1@.len() == 0,
            old(self).spec_ticket() is None ==> (r.0 is Some <==> old(self).spec_permits() <= old(
                lock,
            ).spec_semaphore().spec_permits()),
            old(self).spec_ticket() matches Some(t) ==> (r.0 is Some <==> granted_to(old(lock).spec_semaphore(), t)),
            r.0 matches Some(g) ==> final(lock).spec_held() == old(lock).spec_held() + g.spec_permits(),
            old(self).spec_ticket() is None && r.0 is Some ==> r.0.unwrap().spec_permits() == old(self).spec_permits(),
            r.0 is None ==> final(lock).spec_held() == old(lock).spec_held(),
            r.0 is Some ==> final(self).spec_ticket() is None,
            old(self).spec_ticket() is Some && r.0 is None ==> *final(lock) == *old(lock) && *final(self)
                == *old(self),
            old(self).spec_ticket() is None && r.0 is None ==> {
                let s0 = old(lock).spec_semaphore();
                let s1 = final(lock).spec_semaphore();
                &&& final(self).spec_ticket() == Some(s0.spec_next_ticket())
                &&& s1.spec_queue() == s0.spec_queue().push(
                    Waiter { ticket: s0.spec_next_ticket(), permits: old(self).spec_permits(), waker },
                )
                &&& s1.spec_granted() == s0.spec_granted()
                &&& s1.spec_next_ticket() == s0.spec_next_ticket().wrapping_add(1)
            },
            old(self).spec_ticket() matches Some(t) ==> (r.0 matches Some(g) ==> took_grant(
                old(lock).spec_semaphore(),
                final(lock).spec_semaphore(),
                t,
                g.spec_permits() as int,
            )),
    {
        proof {
            lock.semaphore.lemma_total_bounds();
        }
        let (g, woken) = self.semaphore_future.poll(&mut lock.semaphore, waker);
        proof {
            lock.semaphore.lemma_total_bounds();
        }
        match g {
            Some(guard) => {
                let n = guard.permits();
                lock.held = lock.held + n;
                (Some(ReadLockGuard { semaphore_guard: guard }), woken)
            },
            None => (None, woken),
        }
    }

    /// Abandons the read-lock operation.
    pub fn cancel<T>(self, lock: &mut RwLock<T>) -> (woken: Vec<u64>)
        requires
            old(lock).wf(),
        ensures
            final(lock).wf(),
            final(lock).spec_data() == old(lock).spec_data(),
            final(lock).spec_held() == old(lock).spec_held(),
            self.spec_ticket() is None ==> woken@.len() == 0 && *final(lock) == *old(lock),
            self.spec_ticket() matches Some(t) ==> cancelled(
                old(lock).spec_semaphore(),
                final(lock).spec_semaphore(),
                t,
                woken@,
            ),
    {
        self.semaphore_future.cancel(&mut lock.semaphore)
    }
}

impl WriteLockFuture {
    pub closed spec fn spec_permits(&self) -> usize {
        self.semaphore_future.spec_permits()
    }

    /// The ticket of the waiter queued for this operation, once queued.
    pub closed spec fn spec_ticket(&self) -> Option<u64> {
        self.semaphore_future.spec_ticket()
    }

    /// Polls the write-lock operation for task `waker`.
    pub fn poll<T>(&mut self, lock: &mut RwLock<T>, waker: u64) -> (r: (Option<WriteLockGuard>, Vec<u64>))
        requires
            old(lock).wf(),
        ensures
            final(lock).wf(),
            final(lock).spec_data() == old(lock).spec_data(),
            final(self).spec_permits() == old(self).spec_permits(),
            r.1@.len() == 0,
            old(self).spec_ticket() is None ==> (r.0 is Some <==> old(self).spec_permits() <= old(
                lock,
            ).spec_semaphore().spec_permits()),
            old(self).spec_ticket() matches Some(t) ==> (r.0 is Some <==> granted_to(old(lock).spec_semaphore(), t)),
            r.0 matches Some(g) ==> final(lock).spec_held() == old(lock).spec_held() + g.spec_permits(),
            old(self).spec_ticket() is None && r.0 is Some ==> r.0.unwrap().spec_permits() == old(self).spec_permits(),
            r.0 is None ==> final(lock).spec_held() == old(lock).spec_held(),
            r.0 is Some ==> final(self).spec_ticket() is None,
            old(self).spec_ticket() is Some && r.0 is None ==> *final(lock) == *old(lock) && *final(self)
                == *old(self),
            old(self).spec_ticket() is None && r.0 is None ==> {
                let s0 = old(lock).spec_semaphore();
                let s1 = final(lock).spec_semaphore();
                &&& final(self).spec_ticket() == Some(s0.spec_next_ticket())
                &&& s1.spec_queue() == s0.spec_queue().push(
                    Waiter { ticket: s0.spec_next_ticket(), permits: old(self).spec_permits(), waker },
                )
                &&& s1.spec_granted() == s0.spec_granted()
                &&& s1.spec_next_ticket() == s0.spec_next_ticket().wrapping_add(1)
            },
            old(self).spec_ticket() matches Some(t) ==> (r.0 matches Some(g) ==> took_grant(
                old(lock).spec_semaphore(),
                final(lock).spec_semaphore(),
                t,
                g.spec_permits() as int,
            )),
    {
        proof {
            lock.semaphore.lemma_total_bounds();
        }
        let (g, woken) = self.semaphore_future.poll(&mut lock.semaphore, waker);
        proof {
            lock.semaphore.lemma_total_bounds();
        }
        match g {
            Some(guard) => {
                let n = guard.permits();
                lock.held = lock.held + n;
                (Some(WriteLockGuard { semaphore_guard: guard }), woken)
            },
            None => (None, woken),
        }
    }

    /// Abandons the write-lock operation.
    pub fn cancel<T>(self, lock: &mut RwLock<T>) -> (woken: Vec<u64>)
        requires
            old(lock).wf(),
        ensures
            final(lock).wf(),
            final(lock).spec_data() == old(lock).spec_data(),
            final(lock).spec_held() == old(lock).spec_held(),
            self.spec_ticket() is None ==> woken@.len() == 0 && *final(lock) == *old(lock),
            self.spec_ticket() matches Some(t) ==> cancelled(
                old(lock).spec_semaphore(),
                final(lock).spec_semaphore(),
                t,
                woken@,
            ),
    {
        self.semaphore_future.cancel(&mut lock.semaphore)
    }
}

} // verus!
