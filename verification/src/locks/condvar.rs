use vstd::prelude::*;

use crate::locks::mutex::{lock_cancelled, Mutex, MutexGuard, MutexLockFuture};
use crate::locks::semaphore::{granted_to, released};

verus! {

/// A task waiting on a [`Condvar`]: its ticket and its waker.
#[derive(Debug, Clone, Copy, PartialEq, Eq, Structural)]
pub struct CondvarWaiter {
    pub ticket: u64,
    pub waker: u64,
}

/// A condition variable: tasks wait in arrival order; `wake` hands the
/// signal to the first waiting one, `wake_all` to all of them.
pub struct Condvar {
    queue: Vec<CondvarWaiter>,
    acquired: Vec<u64>,
    next_ticket: u64,
}

/// The tickets of the waiters, in order.
pub open spec fn tickets(ws: Seq<CondvarWaiter>) -> Seq<u64> {
    ws.map_values(|w: CondvarWaiter| w.ticket)
}

/// The wakers of the waiters, in order.
pub open spec fn condvar_wakers(ws: Seq<CondvarWaiter>) -> Seq<u64> {
    ws.map_values(|w: CondvarWaiter| w.waker)
}

/// The waker of the first waiter, if there is one.
pub open spec fn first_waker(ws: Seq<CondvarWaiter>) -> Seq<u64> {
    if ws.len() > 0 {
        seq![ws[0].waker]
    } else {
        Seq::empty()
    }
}

/// Where a [`CondvarWait`] stands.
pub enum CondvarWaitState {
    /// Holding the guard, not yet queued.
    Init { guard: MutexGuard },
    /// Queued with its ticket; the lock released.
    Wait { ticket: u64 },
    /// Signalled; taking the lock again.
    Relock { locking: MutexLockFuture },
    /// Finished.
    Done,
}

/// One wait on a [`Condvar`]: release the lock, wait for the signal, take
/// the lock again.
pub struct CondvarWait {
    state: CondvarWaitState,
}

impl Condvar {
    pub closed spec fn spec_queue(&self) -> Seq<CondvarWaiter> {
        self.queue@
    }

    /// The tickets signalled and not yet seen by their wait.
    pub closed spec fn spec_acquired(&self) -> Seq<u64> {
        self.acquired@
    }

    /// A condition variable nobody waits on.
    pub fn new() -> (c: Condvar)
        ensures
            c.spec_queue() == Seq::<CondvarWaiter>::empty(),
            c.spec_acquired() == Seq::<u64>::empty(),
    {
        Condvar { queue: Vec::new(), acquired: Vec::new(), next_ticket: 0 }
    }

    /// Starts a wait that releases `guard` and takes the lock again once
    /// signalled.
    pub fn wait(&self, guard: MutexGuard) -> (w: CondvarWait)
        ensures
            w.spec_state() matches CondvarWaitState::Init { .. },
    {
        CondvarWait { state: CondvarWaitState::Init { guard } }
    }

    /// Signals the first waiting task; returns its waker, if any task waits.
    pub fn wake(&mut self) -> (woken: Option<u64>)
        ensures
            old(self).spec_queue().len() == 0 ==> woken is None && final(self).spec_queue() == old(
                self,
            ).spec_queue() && final(self).spec_acquired() == old(self).spec_acquired(),
            old(self).spec_queue().len() > 0 ==> woken == Some(old(self).spec_queue()[0].waker)
                && final(self).spec_queue() == old(self).spec_queue().drop_first()
                && final(self).spec_acquired() == old(self).spec_acquired().push(
                old(self).spec_queue()[0].ticket,
            ),
    {
        if self.queue.len() == 0 {
            return None;
        }
        let w = self.queue.remove(0);
        self.acquired.push(w.ticket);
        proof {
            assert(self.queue@ =~= old(self).spec_queue().drop_first());
        }
        Some(w.waker)
    }

    /// Signals every waiting task, in arrival order; returns their wakers.
    pub fn wake_all(&mut self) -> (woken: Vec<u64>)
        ensures
            woken@ == condvar_wakers(old(self).spec_queue()),
            final(self).spec_queue() == Seq::<CondvarWaiter>::empty(),
            final(self).spec_acquired() == old(self).spec_acquired() + tickets(old(self).spec_queue()),
    {
        let ghost q0 = self.queue@;
        let ghost a0 = self.acquired@;
        let mut woken: Vec<u64> = Vec::new();
        let mut i: usize = 0;
        while i < self.queue.len()
            invariant
                i <= self.queue@.len(),
                self.queue@ == q0,
                woken@ == condvar_wakers(q0.take(i as int)),
                self.acquired@ == a0 + tickets(q0.take(i as int)),
            decreases self.queue@.len() - i,
        {
            let w = self.queue[i];
            woken.push(w.waker);
            self.acquired.push(w.ticket);
            i = i + 1;
            proof {
                assert(q0.take(i as int) =~= q0.take(i - 1).push(w));
                assert(woken@ =~= condvar_wakers(q0.take(i as int)));
                assert(self.acquired@ =~= a0 + tickets(q0.take(i as int)));
            }
        }
        self.queue = Vec::new();
        proof {
            assert(q0.take(q0.len() as int) =~= q0);
        }
        woken
    }

    /// Whether the ticket was signalled; takes it off the signalled list.
    fn take_acquired(&mut self, ticket: u64) -> (r: bool)
        ensures
            r == old(self).spec_acquired().contains(ticket),
            final(self).spec_queue() == old(self).spec_queue(),
            !r ==> final(self).spec_acquired() == old(self).spec_acquired(),
            !r ==> *final(self) == *old(self),
    {
        let mut i: usize = 0;
        while i < self.acquired.len()
            invariant
                i <= self.acquired@.len(),
                *self == *old(self),
                forall|k: int| 0 <= k < i ==> self.acquired@[k] != ticket,
            decreases self.acquired@.len() - i,
        {
            if self.acquired[i] == ticket {
                self.acquired.remove(i);
                return true;
            }
            i = i + 1;
        }
        false
    }

    /// Takes the ticket's waiter out of the queue; whether it was there.
    fn leave_queue(&mut self, ticket: u64) -> (r: bool)
        ensures
            r == tickets(old(self).spec_queue()).contains(ticket),
            final(self).spec_acquired() == old(self).spec_acquired(),
            final(self).spec_queue().len() <= old(self).spec_queue().len(),
    {
        let mut i: usize = 0;
        while i < self.queue.len()
            invariant
                i <= self.queue@.len(),
                self.queue@ == old(self).spec_queue(),
                self.acquired@ == old(self).spec_acquired(),
                forall|k: int| 0 <= k < i ==> self.queue@[k].ticket != ticket,
            decreases self.queue@.len() - i,
        {
            if self.queue[i].ticket == ticket {
                proof {
                    assert(tickets(self.queue@)[i as int] == ticket);
                }
                self.queue.remove(i);
                return true;
            }
            i = i + 1;
        }
        proof {
            if tickets(old(self).spec_queue()).contains(ticket) {
                let k = choose|k: int| 0 <= k < tickets(old(self).spec_queue()).len() && #[trigger] tickets(
                    old(self).spec_queue(),
                )[k] == ticket;
                assert(self.queue@[k].ticket == ticket);
            }
        }
        false
    }
}

impl CondvarWait {
    #[verifier::type_invariant]
    spec fn inv(&self) -> bool {
        self.state matches CondvarWaitState::Relock { locking } ==> locking.wf()
    }

    pub closed spec fn spec_state(&self) -> CondvarWaitState {
        self.state
    }

    /// Polls the wait for the task `waker`. The first poll queues the task
    /// and releases the lock; once signalled, the lock is taken again and the
    /// guard returned. Also returns the wakers of tasks served meanwhile.
    pub fn poll<T>(&mut self, condvar: &mut Condvar, mutex: &mut Mutex<T>, waker: u64) -> (r: (
        Option<MutexGuard>,
        Vec<u64>,
    ))
        requires
            old(mutex).wf(),
            !(old(self).spec_state() is Done),
        ensures
            final(mutex).wf(),
            final(mutex).spec_data() == old(mutex).spec_data(),
            r.0 is Some ==> final(self).spec_state() is Done,
            old(self).spec_state() is Init ==> r.0 is None,
            old(self).spec_state() is Init ==> (final(self).spec_state() matches CondvarWaitState::Wait { ticket }
                && final(condvar).spec_queue() == old(condvar).spec_queue().push(CondvarWaiter { ticket, waker })),
            old(self).spec_state() matches CondvarWaitState::Wait { ticket } ==> (!old(condvar).spec_acquired().contains(ticket)
                ==> r.0 is None),
            old(self).spec_state() matches CondvarWaitState::Init { guard } ==> {
                &&& final(condvar).spec_acquired() == old(condvar).spec_acquired()
                &&& guard.spec_permits() <= old(mutex).spec_held() ==> released(
                    old(mutex).spec_semaphore(),
                    final(mutex).spec_semaphore(),
                    guard.spec_permits() as int,
                    r.1@,
                ) && final(mutex).spec_held() == old(mutex).spec_held() - guard.spec_permits()
                &&& guard.spec_permits() > old(mutex).spec_held() ==> r.1@.len() == 0 && *final(mutex) == *old(
                    mutex,
                )
            },
            old(self).spec_state() matches CondvarWaitState::Wait { ticket } ==> (!old(condvar).spec_acquired().contains(ticket)
                ==> *final(self) == *old(self) && *final(condvar) == *old(condvar) && *final(mutex) == *old(mutex)
                && r.1@.len() == 0),
            old(self).spec_state() matches CondvarWaitState::Wait { ticket } ==> (old(condvar).spec_acquired().contains(ticket)
                ==> final(condvar).spec_queue() == old(condvar).spec_queue() && (r.0 is Some <==> old(
                mutex,
            ).spec_semaphore().spec_permits() >= 1) && (r.0 is None ==> final(self).spec_state() is Relock)),
            old(self).spec_state() matches CondvarWaitState::Relock { locking } ==> {
                &&& *final(condvar) == *old(condvar)
                &&& locking.spec_ticket() matches Some(t) ==> (r.0 is Some <==> granted_to(old(mutex).spec_semaphore(), t))
                &&& locking.spec_ticket() is None ==> (r.0 is Some <==> old(mutex).spec_semaphore().spec_permits() >= 1)
                &&& r.0 is None ==> final(self).spec_state() is Relock
            },
            r.0 matches Some(g) ==> g.spec_permits() == 1 && final(mutex).spec_held() == old(mutex).spec_held() + 1,
    {
        {
            proof {
                use_type_invariant(&*self);
            }
            let mut state = CondvarWaitState::Done;
            std::mem::swap(&mut state, &mut self.state);
            match state {
                CondvarWaitState::Init { guard } => {
                    let ticket = condvar.next_ticket;
                    condvar.next_ticket = condvar.next_ticket.wrapping_add(1);
                    condvar.queue.push(CondvarWaiter { ticket, waker });
                    let woken = mutex.unlock(guard);
                    self.state = CondvarWaitState::Wait { ticket };
                    return (None, woken);
                },
                CondvarWaitState::Wait { ticket } => {
                    if !condvar.take_acquired(ticket) {
                        self.state = CondvarWaitState::Wait { ticket };
                        return (None, Vec::new());
                    }
                    let mut locking = mutex.lock();
                    let (g, woken) = locking.poll(mutex, waker);
                    match g {
                        Some(guard) => {
                            self.state = CondvarWaitState::Done;
                            return (Some(guard), woken);
                        },
                        None => {
                            self.state = CondvarWaitState::Relock { locking };
                            return (None, woken);
                        },
                    }
                },
                CondvarWaitState::Relock { locking } => {
                    let mut locking = locking;
                    let (g, woken) = locking.poll(mutex, waker);
                    match g {
                        Some(guard) => {
                            self.state = CondvarWaitState::Done;
                            return (Some(guard), woken);
                        },
                        None => {
                            self.state = CondvarWaitState::Relock { locking };
                            return (None, woken);
                        },
                    }
                },
                CondvarWaitState::Done => {
                    return (None, Vec::new());
                },
            }
        }
    }
}

impl CondvarWait {
    /// Abandons the wait. A signal already received is passed to the next
    /// waiting task; a queued task leaves the queue; a lock being taken again
    /// is given up and the signal passed on. Returns the wakers to wake.
    pub fn cancel<T>(self, condvar: &mut Condvar, mutex: &mut Mutex<T>) -> (woken: Vec<u64>)
        requires
            old(mutex).wf(),
        ensures
            final(mutex).wf(),
            final(mutex).spec_data() == old(mutex).spec_data(),
            self.spec_state() matches CondvarWaitState::Init { guard } ==> (*final(condvar) == *old(condvar) && (
            guard.spec_permits() <= old(mutex).spec_held() ==> released(
                old(mutex).spec_semaphore(),
                final(mutex).spec_semaphore(),
                guard.spec_permits() as int,
                woken@,
            ) && final(mutex).spec_held() == old(mutex).spec_held() - guard.spec_permits()) && (guard.spec_permits()
                > old(mutex).spec_held() ==> woken@.len() == 0 && *final(mutex) == *old(mutex))),
            self.spec_state() matches CondvarWaitState::Wait { ticket } ==> (*final(mutex) == *old(mutex) && (old(
                condvar,
            ).spec_acquired().contains(ticket) ==> woken@ == first_waker(old(condvar).spec_queue())) && (!old(
                condvar,
            ).spec_acquired().contains(ticket) ==> woken@.len() == 0 && final(condvar).spec_acquired() == old(
                condvar,
            ).spec_acquired())),
            self.spec_state() matches CondvarWaitState::Relock { locking } ==> exists|w0: Seq<u64>|
                lock_cancelled(locking, *old(mutex), *final(mutex), w0) && woken@ == w0 + first_waker(
                    old(condvar).spec_queue(),
                ),
            self.spec_state() is Done ==> woken@.len() == 0 && *final(mutex) == *old(mutex) && *final(condvar)
                == *old(condvar),
    {
        proof {
            use_type_invariant(&self);
        }
        let CondvarWait { state } = self;
        match state {
            CondvarWaitState::Init { guard } => mutex.unlock(guard),
            CondvarWaitState::Wait { ticket } => {
                let mut woken: Vec<u64> = Vec::new();
                if condvar.take_acquired(ticket) {
                    match condvar.wake() {
                        Some(w) => woken.push(w),
                        None => {},
                    }
                    proof {
                        assert(woken@ =~= first_waker(old(condvar).spec_queue()));
                    }
                } else {
                    condvar.leave_queue(ticket);
                }
                woken
            },
            CondvarWaitState::Relock { locking } => {
                let ghost m0 = *mutex;
                let mut woken = locking.cancel(mutex);
                let ghost w0 = woken@;
                proof {
                    assert(lock_cancelled(locking, m0, *mutex, w0));
                }
                match condvar.wake() {
                    Some(w) => woken.push(w),
                    None => {},
                }
                proof {
                    assert(woken@ =~= w0 + first_waker(old(condvar).spec_queue()));
                }
                woken
            },
            CondvarWaitState::Done => Vec::new(),
        }
    }
}

} // verus!
