use vstd::prelude::*;

verus! {

/// A task waiting in the queue of a [`Semaphore`].
///
/// `ticket` identifies the waiting acquire operation, `waker` the task to wake.
#[derive(Clone, Copy, PartialEq, Eq, Structural)]
pub struct Waiter {
    pub ticket: u64,
    pub permits: usize,
    pub waker: u64,
}

/// Asynchronous, fair (FIFO) counting semaphore.
///
/// `permits` are the permits free for the immediate path; `pending` are permits
/// collected for the queue while tasks wait, `queue` holds the waiting tasks in
/// arrival order and `granted` the tickets whose permits were handed out but
/// not yet collected by their future.
pub struct Semaphore {
    permits: usize,
    pending: usize,
    queue: Vec<Waiter>,
    granted: Vec<Waiter>,
    next_ticket: u64,
}

/// Permits acquired from a [`Semaphore`]; `release` gives them back.
pub struct SemaphoreGuard {
    permits: usize,
}

/// One asynchronous acquisition of permits.
pub struct SemaphoreAcquireFuture {
    permits: usize,
    ticket: Option<u64>,
}

/// Number of waiters served from the front of `queue` with `avail` permits.
pub open spec fn served(avail: int, queue: Seq<Waiter>) -> nat
    decreases queue.len(),
{
    if queue.len() == 0 {
        0
    } else if avail < queue[0].permits {
        0
    } else {
        1 + served(avail - queue[0].permits, queue.drop_first())
    }
}

/// Permits left over after serving the front of `queue` with `avail` permits.
pub open spec fn leftover(avail: int, queue: Seq<Waiter>) -> int
    decreases queue.len(),
{
    if queue.len() == 0 {
        avail
    } else if avail < queue[0].permits {
        avail
    } else {
        leftover(avail - queue[0].permits, queue.drop_first())
    }
}

/// Total permits of a sequence of waiters.
pub open spec fn sum_permits(ws: Seq<Waiter>) -> int
    decreases ws.len(),
{
    if ws.len() == 0 {
        0
    } else {
        ws[0].permits + sum_permits(ws.drop_first())
    }
}

/// `after` is `before` once `n` permits were given back, and `woken` are the
/// wakers of the waiters served by them, in queue order.
pub open spec fn released(before: Semaphore, after: Semaphore, n: int, woken: Seq<u64>) -> bool {
    let k = served(before.spec_pending() + n, before.spec_queue()) as int;
    &&& after.spec_queue() == before.spec_queue().skip(k)
    &&& after.spec_granted() == before.spec_granted() + before.spec_queue().take(k)
    &&& woken == wakers_of(before.spec_queue().take(k))
    &&& after.spec_total() == before.spec_total() + n
    &&& after.spec_wf()
}

/// `mid` is `before` with the acquisition holding `ticket` withdrawn:
/// permits already handed to it (`n` of them) leave the granted list, or
/// else it leaves the queue if it waits there (`n` is then 0).
pub open spec fn withdrawn(before: Semaphore, mid: Semaphore, ticket: u64, n: int) -> bool {
    &&& mid.spec_permits() == before.spec_permits()
    &&& mid.spec_pending() == before.spec_pending()
    &&& mid.spec_next_ticket() == before.spec_next_ticket()
    &&& {
        ||| exists|i: int|
            0 <= i < before.spec_granted().len() && before.spec_granted()[i].ticket == ticket && mid.spec_granted()
                == before.spec_granted().remove(i) && mid.spec_queue() == before.spec_queue() && n
                == before.spec_granted()[i].permits
        ||| (forall|i: int| 0 <= i < before.spec_granted().len() ==> before.spec_granted()[i].ticket != ticket) && n
            == 0 && mid.spec_granted() == before.spec_granted() && {
            ||| (forall|i: int| 0 <= i < before.spec_queue().len() ==> before.spec_queue()[i].ticket != ticket)
                && mid.spec_queue() == before.spec_queue()
            ||| exists|i: int|
                0 <= i < before.spec_queue().len() && before.spec_queue()[i].ticket == ticket && mid.spec_queue()
                    == before.spec_queue().remove(i)
        }
    }
}

/// `after` is `before` once the acquisition holding `ticket` gave up: it is
/// withdrawn, then the permits it held are given back, serving the waiters
/// whose wakers are `woken`.
pub open spec fn cancelled(before: Semaphore, after: Semaphore, ticket: u64, woken: Seq<u64>) -> bool {
    exists|mid: Semaphore, n: int| withdrawn(before, mid, ticket, n) && released(mid, after, n, woken)
}

/// `after` is `before` once the acquisition holding `ticket` collected the
/// `n` permits handed to it: its entry leaves the granted list, the rest
/// stays as it was.
pub open spec fn took_grant(before: Semaphore, after: Semaphore, ticket: u64, n: int) -> bool {
    &&& exists|i: int|
        0 <= i < before.spec_granted().len() && before.spec_granted()[i].ticket == ticket
            && after.spec_granted() == before.spec_granted().remove(i) && n == before.spec_granted()[i].permits
    &&& after.spec_queue() == before.spec_queue()
    &&& after.spec_permits() == before.spec_permits()
    &&& after.spec_pending() == before.spec_pending()
    &&& after.spec_next_ticket() == before.spec_next_ticket()
}

/// Permits were handed to the acquisition holding `ticket`.
pub open spec fn granted_to(s: Semaphore, ticket: u64) -> bool {
    exists|i: int| 0 <= i < s.spec_granted().len() && s.spec_granted()[i].ticket == ticket
}

/// Every waiter asks for at least one permit.
pub open spec fn all_positive(ws: Seq<Waiter>) -> bool {
    forall|i: int| 0 <= i < ws.len() ==> #[trigger] ws[i].permits > 0
}

/// The wakers of a sequence of waiters.
pub open spec fn wakers_of(ws: Seq<Waiter>) -> Seq<u64> {
    ws.map_values(|w: Waiter| w.waker)
}

proof fn lemma_served_bounds(avail: int, queue: Seq<Waiter>)
    requires
        avail >= 0,
    ensures
        served(avail, queue) <= queue.len(),
        0 <= leftover(avail, queue) <= avail,
        leftover(avail, queue) + sum_permits(queue.take(served(avail, queue) as int)) == avail,
        served(avail, queue) < queue.len() ==> leftover(avail, queue) < queue[
            served(avail, queue) as int
        ].permits,
    decreases queue.len(),
{
    if queue.len() == 0 {
        assert(queue.take(0) =~= Seq::<Waiter>::empty());
    } else if avail < queue[0].permits {
        assert(queue.take(0) =~= Seq::<Waiter>::empty());
    } else {
        let rest = queue.drop_first();
        lemma_served_bounds(avail - queue[0].permits, rest);
        let k = served(avail - queue[0].permits, rest);
        assert(queue.take(k + 1int).drop_first() =~= rest.take(k as int));
        assert(rest.drop_first() == queue.drop_first().drop_first());
        if k < rest.len() {
            assert(queue[k + 1int] == rest[k as int]);
        }
    }
}

proof fn lemma_sum_push(ws: Seq<Waiter>, w: Waiter)
    ensures
        sum_permits(ws.push(w)) == sum_permits(ws) + w.permits,
    decreases ws.len(),
{
    if ws.len() == 0 {
        assert(ws.push(w).drop_first() =~= Seq::<Waiter>::empty());
        assert(ws.push(w)[0] == w);
        assert(sum_permits(ws.push(w).drop_first()) == 0);
        assert(sum_permits(ws) == 0);
    } else {
        lemma_sum_push(ws.drop_first(), w);
        assert(ws.push(w).drop_first() =~= ws.drop_first().push(w));
        assert(ws.push(w)[0] == ws[0]);
        assert(sum_permits(ws.push(w)) == ws[0].permits + sum_permits(ws.drop_first().push(w)));
    }
}

proof fn lemma_sum_nonneg(ws: Seq<Waiter>)
    ensures
        sum_permits(ws) >= 0,
    decreases ws.len(),
{
    if ws.len() > 0 {
        lemma_sum_nonneg(ws.drop_first());
    }
}

proof fn lemma_sum_remove(ws: Seq<Waiter>, i: int)
    requires
        0 <= i < ws.len(),
    ensures
        sum_permits(ws) == sum_permits(ws.remove(i)) + ws[i].permits,
    decreases ws.len(),
{
    if i == 0 {
        assert(ws.remove(0) =~= ws.drop_first());
    } else {
        lemma_sum_remove(ws.drop_first(), i - 1);
        assert(ws.remove(i).drop_first() =~= ws.drop_first().remove(i - 1));
    }
}

impl Semaphore {
    pub closed spec fn spec_permits(&self) -> usize {
        self.permits
    }

    pub closed spec fn spec_pending(&self) -> usize {
        self.pending
    }

    pub closed spec fn spec_queue(&self) -> Seq<Waiter> {
        self.queue@
    }

    pub closed spec fn spec_granted(&self) -> Seq<Waiter> {
        self.granted@
    }

    pub closed spec fn spec_next_ticket(&self) -> u64 {
        self.next_ticket
    }

    /// All permits the semaphore holds or has handed to waiters.
    pub open spec fn spec_total(&self) -> int {
        self.spec_permits() + self.spec_pending() + sum_permits(self.spec_granted())
    }

    /// Well-formedness: while tasks wait, no permits are free for the fast
    /// path and the collected permits do not cover the first waiter.
    pub open spec fn spec_wf(&self) -> bool {
        &&& self.spec_queue().len() == 0 ==> self.spec_pending() == 0
        &&& self.spec_queue().len() > 0 ==> self.spec_permits() == 0 && self.spec_pending()
            < self.spec_queue()[0].permits
        &&& all_positive(self.spec_queue())
        &&& all_positive(self.spec_granted())
    }

    /// The total counts at least the free and the collected permits.
    pub proof fn lemma_total_bounds(&self)
        ensures
            self.spec_total() >= self.spec_permits() + self.spec_pending(),
    {
        lemma_sum_nonneg(self.spec_granted());
    }

    /// A semaphore with `permits` free permits and nobody waiting.
    pub fn new(permits: usize) -> (s: Semaphore)
        ensures
            s.spec_wf(),
            s.spec_permits() == permits,
            s.spec_pending() == 0,
            s.spec_queue().len() == 0,
            s.spec_granted().len() == 0,
            s.spec_next_ticket() == 0,
    {
        Semaphore { permits, pending: 0, queue: Vec::new(), granted: Vec::new(), next_ticket: 0 }
    }

    /// Takes `n` permits at once if that many are free; never waits.
    pub fn try_acquire(&mut self, n: usize) -> (g: Option<SemaphoreGuard>)
        ensures
            g is Some <==> n <= old(self).spec_permits(),
            g matches Some(guard) ==> guard.spec_permits() == n && final(self).spec_permits()
                == old(self).spec_permits() - n,
            g is None ==> *final(self) == *old(self),
            final(self).spec_pending() == old(self).spec_pending(),
            final(self).spec_queue() == old(self).spec_queue(),
            final(self).spec_granted() == old(self).spec_granted(),
            final(self).spec_next_ticket() == old(self).spec_next_ticket(),
            old(self).spec_wf() ==> final(self).spec_wf(),
    {
        if self.permits < n {
            None
        } else {
            self.permits = self.permits - n;
            Some(SemaphoreGuard { permits: n })
        }
    }

    /// Starts an acquisition of `n` permits; nothing happens until it is polled.
    pub fn acquire(&self, n: usize) -> (f: SemaphoreAcquireFuture)
        ensures
            f.spec_permits() == n,
            f.spec_ticket() is None,
    {
        SemaphoreAcquireFuture { permits: n, ticket: None }
    }

    /// Gives `n` permits back and serves the waiters at the front of the queue,
    /// in arrival order, as long as the collected permits cover them.
    /// Returns the wakers of the served waiters, in order.
    pub fn release(&mut self, n: usize) -> (woken: Vec<u64>)
        requires
            old(self).spec_queue().len() > 0 ==> old(self).spec_permits() == 0,
            old(self).spec_permits() + old(self).spec_pending() + n <= usize::MAX,
            all_positive(old(self).spec_queue()),
            all_positive(old(self).spec_granted()),
        ensures
            ({
                let avail = old(self).spec_pending() + n;
                let k = served(avail, old(self).spec_queue()) as int;
                let rest = leftover(avail, old(self).spec_queue());
                &&& final(self).spec_queue() == old(self).spec_queue().skip(k)
                &&& final(self).spec_granted() == old(self).spec_granted() + old(
                    self,
                ).spec_queue().take(k)
                &&& woken@ == wakers_of(old(self).spec_queue().take(k))
                &&& k == old(self).spec_queue().len() ==> final(self).spec_permits() == old(
                    self,
                ).spec_permits() + rest && final(self).spec_pending() == 0
                &&& k < old(self).spec_queue().len() ==> final(self).spec_permits() == old(
                    self,
                ).spec_permits() && final(self).spec_pending() == rest
            }),
            final(self).spec_next_ticket() == old(self).spec_next_ticket(),
            final(self).spec_wf(),
            final(self).spec_total() == old(self).spec_total() + n,
    {
        let ghost q0 = self.queue@;
        let ghost g0 = self.granted@;
        let ghost avail0 = self.pending + n;
        proof {
            lemma_served_bounds(avail0, q0);
            assert(q0.skip(0) =~= q0);
            assert(q0.take(0) =~= Seq::<Waiter>::empty());
            assert(g0 + q0.take(0) =~= g0);
        }
        let mut avail: usize = self.pending + n;
        let mut woken: Vec<u64> = Vec::new();
        let mut i: usize = 0;
        let len = self.queue.len();
        while i < len && self.queue[i].permits <= avail
            invariant
                len == q0.len(),
                self.queue@ == q0,
                0 <= i <= len,
                0 <= avail <= avail0,
                avail0 == old(self).spec_pending() + n,
                self.permits == old(self).permits,
                self.next_ticket == old(self).next_ticket,
                served(avail0, q0) == i + served(avail as int, q0.skip(i as int)),
                leftover(avail0, q0) == leftover(avail as int, q0.skip(i as int)),
                self.granted@ == g0 + q0.take(i as int),
                g0 == old(self).granted@,
                woken@ == wakers_of(q0.take(i as int)),
                sum_permits(q0.take(i as int)) + avail == avail0,
            decreases len - i,
        {
            let w = self.queue[i];
            proof {
                let s = q0.skip(i as int);
                assert(s[0] == w);
                assert(s.drop_first() =~= q0.skip(i + 1));
                assert(q0.take(i + 1) =~= q0.take(i as int).push(w));
                lemma_sum_push(q0.take(i as int), w);
            }
            avail = avail - w.permits;
            self.granted.push(w);
            woken.push(w.waker);
            i = i + 1;
            proof {
                assert(wakers_of(q0.take(i as int)) =~= wakers_of(q0.take(i - 1)).push(w.waker));
            }
        }
        proof {
            let s = q0.skip(i as int);
            if i < len {
                assert(s[0] == q0[i as int]);
            } else {
                assert(s.len() == 0);
            }
            assert(served(avail as int, s) == 0);
            assert(leftover(avail as int, s) == avail);
        }
        // drop the served waiters from the front of the queue
        let mut rest: Vec<Waiter> = Vec::new();
        let mut j: usize = i;
        while j < len
            invariant
                i <= j <= len,
                len == q0.len(),
                self.queue@ == q0,
                rest@ == q0.subrange(i as int, j as int),
            decreases len - j,
        {
            rest.push(self.queue[j]);
            j = j + 1;
            proof {
                assert(rest@ =~= q0.subrange(i as int, j as int));
            }
        }
        self.queue = rest;
        proof {
            assert(self.queue@ =~= q0.skip(i as int));
        }
        if i == len {
            self.permits = self.permits + avail;
            self.pending = 0;
        } else {
            self.pending = avail;
        }
        proof {
            lemma_sum_nonneg(g0);
            assert(sum_permits(self.granted@) == sum_permits(g0) + sum_permits(
                q0.take(i as int),
            )) by {
                lemma_sum_concat(g0, q0.take(i as int));
            }
            if i < len {
                assert(self.queue@[0] == q0[i as int]);
            }
        }
        woken
    }

    /// Puts a waiter at the back of the queue, moving every free permit to the
    /// permits collected for the queue.
    fn queue_waiter(&mut self, w: Waiter)
        requires
            old(self).spec_permits() + old(self).spec_pending() <= usize::MAX,
        ensures
            final(self).spec_permits() == 0,
            final(self).spec_pending() == old(self).spec_permits() + old(self).spec_pending(),
            final(self).spec_queue() == old(self).spec_queue().push(w),
            final(self).spec_granted() == old(self).spec_granted(),
            final(self).spec_next_ticket() == old(self).spec_next_ticket(),
    {
        self.pending = self.pending + self.permits;
        self.permits = 0;
        self.queue.push(w);
    }
}

proof fn lemma_sum_concat(a: Seq<Waiter>, b: Seq<Waiter>)
    ensures
        sum_permits(a + b) == sum_permits(a) + sum_permits(b),
    decreases a.len(),
{
    if a.len() == 0 {
        assert(a + b =~= b);
    } else {
        lemma_sum_concat(a.drop_first(), b);
        assert((a + b).drop_first() =~= a.drop_first() + b);
    }
}

/// Position of the waiter holding `ticket`, if any.
fn find_ticket(ws: &Vec<Waiter>, ticket: u64) -> (r: Option<usize>)
    ensures
        r matches Some(i) ==> i < ws@.len() && ws@[i as int].ticket == ticket,
        r is None ==> forall|i: int| 0 <= i < ws@.len() ==> ws@[i].ticket != ticket,
{
    let mut i: usize = 0;
    while i < ws.len()
        invariant
            0 <= i <= ws@.len(),
            forall|j: int| 0 <= j < i ==> ws@[j].ticket != ticket,
        decreases ws@.len() - i,
    {
        if ws[i].ticket == ticket {
            return Some(i);
        }
        i = i + 1;
    }
    None
}

/// While tasks wait, an immediate acquisition of a positive number of permits fails:
/// the semaphore is fair.
pub proof fn lemma_fair_while_waiting(s: Semaphore, n: usize)
    requires
        s.spec_wf(),
        s.spec_queue().len() > 0,
        n > 0,
    ensures
        n > s.spec_permits(),
{
}

/// With nobody waiting, permits given back by `release(n)` can be taken at once by
/// `try_acquire(n)`.
pub proof fn lemma_release_then_acquire(s: Semaphore, after: Semaphore, n: usize)
    requires
        s.spec_wf(),
        s.spec_queue().len() == 0,
        after.spec_permits() == s.spec_permits() + leftover(s.spec_pending() + n, s.spec_queue()),
    ensures
        n <= after.spec_permits(),
{
}

impl SemaphoreGuard {
    pub closed spec fn spec_permits(&self) -> usize {
        self.permits
    }

    /// The number of permits held.
    pub fn permits(&self) -> (n: usize)
        ensures
            n == self.spec_permits(),
    {
        self.permits
    }

    /// Gives back `n` of the held permits and keeps the rest.
    pub fn release_part(&mut self, semaphore: &mut Semaphore, n: usize) -> (woken: Vec<u64>)
        requires
            old(self).spec_permits() >= n,
            old(semaphore).spec_wf(),
            old(semaphore).spec_permits() + old(semaphore).spec_pending() + n <= usize::MAX,
        ensures
            final(self).spec_permits() == old(self).spec_permits() - n,
            final(semaphore).spec_wf(),
            final(semaphore).spec_total() == old(semaphore).spec_total() + n,
            released(*old(semaphore), *final(semaphore), n as int, woken@),
    {
        let woken = semaphore.release(n);
        self.permits = self.permits - n;
        woken
    }

    /// Gives every held permit back to the semaphore.
    pub fn release(self, semaphore: &mut Semaphore) -> (woken: Vec<u64>)
        requires
            old(semaphore).spec_wf(),
            old(semaphore).spec_permits() + old(semaphore).spec_pending() + self.spec_permits()
                <= usize::MAX,
        ensures
            final(semaphore).spec_wf(),
            final(semaphore).spec_total() == old(semaphore).spec_total() + self.spec_permits(),
            released(*old(semaphore), *final(semaphore), self.spec_permits() as int, woken@),
    {
        semaphore.release(self.permits)
    }
}

impl SemaphoreAcquireFuture {
    /// Polls the acquisition for the task `waker`.
    ///
    /// On the first poll the permits are taken at once if free, otherwise the task
    /// joins the back of the queue. Later polls complete once the permits were
    /// handed to this acquisition. Returns the guard when complete, and the
    /// wakers of the tasks served meanwhile.
    pub fn poll(&mut self, semaphore: &mut Semaphore, waker: u64) -> (r: (
        Option<SemaphoreGuard>,
        Vec<u64>,
    ))
        requires
            old(semaphore).spec_wf(),
            old(semaphore).spec_permits() + old(semaphore).spec_pending() <= usize::MAX,
        ensures
            final(semaphore).spec_wf(),
            final(self).spec_permits() == old(self).spec_permits(),
            r.0 matches Some(g) ==> final(semaphore).spec_total() == old(semaphore).spec_total()
                - g.spec_permits(),
            old(self).spec_ticket() is None && r.0 is Some ==> r.0.unwrap().spec_permits() == old(
                self,
            ).spec_permits(),
            r.0 is None ==> final(semaphore).spec_total() == old(semaphore).spec_total(),
            r.1@.len() == 0,
            old(self).spec_permits() >= 1 && r.0 is Some ==> r.0.unwrap().spec_permits() >= 1,
            old(self).spec_ticket() is None ==> (r.0 is Some <==> old(self).spec_permits()
                <= old(semaphore).spec_permits()),
            old(self).spec_ticket() matches Some(t) ==> (r.0 is Some <==> granted_to(*old(semaphore), t)),
            old(self).spec_ticket() is Some && r.0 is None ==> *final(semaphore) == *old(semaphore) && *final(self)
                == *old(self),
            r.0 is Some ==> final(self).spec_ticket() is None,
            old(self).spec_ticket() matches Some(t) ==> (r.0 matches Some(g) ==> took_grant(
                *old(semaphore),
                *final(semaphore),
                t,
                g.spec_permits() as int,
            )),
            old(self).spec_ticket() is None && r.0 is None ==> {
                &&& final(self).spec_ticket() == Some(old(semaphore).spec_next_ticket())
                &&& final(semaphore).spec_queue() == old(semaphore).spec_queue().push(
                    Waiter { ticket: old(semaphore).spec_next_ticket(), permits: old(self).spec_permits(), waker },
                )
                &&& final(semaphore).spec_granted() == old(semaphore).spec_granted()
                &&& final(semaphore).spec_next_ticket() == old(semaphore).spec_next_ticket().wrapping_add(1)
            },
    {
        match self.ticket {
            Some(t) => {
                match find_ticket(&semaphore.granted, t) {
                    Some(i) => {
                        proof {
                            lemma_sum_remove(semaphore.granted@, i as int);
                            assert(old(semaphore).spec_granted()[i as int].ticket == t);
                        }
                        let w = semaphore.granted.remove(i);
                        self.ticket = None;
                        proof {
                            assert(old(semaphore).spec_granted()[i as int].ticket == t);
                        }
                        (Some(SemaphoreGuard { permits: w.permits }), Vec::new())
                    },
                    None => {
                        proof {
                            assert(!exists|i: int|
                                0 <= i < old(semaphore).spec_granted().len() && old(
                                    semaphore,
                                ).spec_granted()[i].ticket == t);
                        }
                        (None, Vec::new())
                    },
                }
            },
            None => {
                if self.permits <= semaphore.permits {
                    let g = semaphore.try_acquire(self.permits);
                    return (g, Vec::new());
                }
                let ticket = semaphore.next_ticket;
                semaphore.next_ticket = semaphore.next_ticket.wrapping_add(1);
                semaphore.queue_waiter(Waiter { ticket, permits: self.permits, waker });
                self.ticket = Some(ticket);
                let ghost mid = *semaphore;
                proof {
                    let q = semaphore.spec_queue();
                    assert(q[0].permits > semaphore.spec_pending());
                    assert(served(semaphore.spec_pending() + 0, q) == 0);
                }
                let woken = semaphore.release(0);
                proof {
                    assert(semaphore.spec_queue() =~= mid.spec_queue().skip(0));
                    assert(semaphore.spec_granted() =~= mid.spec_granted() + mid.spec_queue().take(0));
                }
                (None, woken)
            },
        }
    }

    /// Gives up the acquisition. Permits already handed to it go back to the
    /// semaphore; a queued waiter leaves the queue. Returns the wakers of the tasks
    /// served as a consequence.
    pub fn cancel(self, semaphore: &mut Semaphore) -> (woken: Vec<u64>)
        requires
            old(semaphore).spec_wf(),
            old(semaphore).spec_total() <= usize::MAX,
        ensures
            final(semaphore).spec_wf(),
            final(semaphore).spec_total() == old(semaphore).spec_total(),
            self.spec_ticket() is None ==> woken@.len() == 0 && *final(semaphore) == *old(semaphore),
            self.spec_ticket() matches Some(t) ==> cancelled(*old(semaphore), *final(semaphore), t, woken@),
    {
        match self.ticket {
            Some(t) => {
                match find_ticket(&semaphore.granted, t) {
                    Some(i) => {
                        proof {
                            lemma_sum_remove(semaphore.granted@, i as int);
                            lemma_sum_nonneg(semaphore.granted@.remove(i as int));
                        }
                        let w = semaphore.granted.remove(i);
                        let ghost mid = *semaphore;
                        let woken = semaphore.release(w.permits);
                        proof {
                            assert(withdrawn(*old(semaphore), mid, t, w.permits as int));
                            assert(released(mid, *semaphore, w.permits as int, woken@));
                        }
                        woken
                    },
                    None => {
                        match find_ticket(&semaphore.queue, t) {
                            Some(i) => {
                                semaphore.queue.remove(i);
                            },
                            None => {},
                        }
                        let ghost mid = *semaphore;
                        let woken = semaphore.release(0);
                        proof {
                            assert(withdrawn(*old(semaphore), mid, t, 0));
                            assert(released(mid, *semaphore, 0, woken@));
                        }
                        woken
                    },
                }
            },
            None => Vec::new(),
        }
    }

    pub closed spec fn spec_permits(&self) -> usize {
        self.permits
    }

    pub closed spec fn spec_ticket(&self) -> Option<u64> {
        self.ticket
    }
}

} // verus!
