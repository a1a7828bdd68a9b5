use vstd::prelude::*;

use crate::locks::semaphore::{granted_to, released, served, Semaphore, SemaphoreAcquireFuture, Waiter};

verus! {

/// Where one side of the channel stands, as the other side sees it.
#[derive(Debug, Clone, Copy, PartialEq, Eq, Structural)]
pub enum EndState {
    Idle,
    Waiting,
    Dropped,
}

/// The state a sender and a receiver share: a ring of `size` slots, the
/// free slots counted by the `producer` semaphore and the filled ones by the
/// `consumer` semaphore, where each side writes or reads next, and each
/// side's waiting state and waker.
pub struct Spsc<T> {
    buffer: Vec<Option<T>>,
    producer: Semaphore,
    consumer: Semaphore,
    tx_index: usize,
    rx_index: usize,
    tx_reserved: usize,
    rx_reserved: usize,
    tx_state: EndState,
    tx_waker: Option<u64>,
    rx_state: EndState,
    rx_waker: Option<u64>,
    items: Ghost<Seq<T>>,
}

/// The sending side.
pub struct Sender<T> {
    size: usize,
    lost_receiver: bool,
    marker: core::marker::PhantomData<T>,
}

/// The receiving side.
pub struct Receiver<T> {
    size: usize,
    lost_sender: bool,
    marker: core::marker::PhantomData<T>,
}

/// The receiver is gone; the value is handed back.
pub struct ReceiverLost<T>(pub T);

/// Why a value was not sent; it is handed back.
pub enum TrySendError<T> {
    BufferFull(T),
    ReceiverLost(T),
}

/// The sender is gone and nothing is left to receive.
#[derive(Debug, Clone, Copy, PartialEq, Eq, Structural)]
pub struct SenderLost;

/// Why nothing was received.
#[derive(Debug, Clone, Copy, PartialEq, Eq, Structural)]
pub enum TryReceiveError {
    BufferEmpty,
    SenderLost,
}

/// Where the wait for a semaphore permit stands.
enum Reserve {
    Init,
    Acquiring { fut: SemaphoreAcquireFuture },
    Done,
}

/// One sending of a value that waits for a free slot.
pub struct SendFuture<T> {
    data: Option<T>,
    reserve: Reserve,
}

/// One receiving of a value that waits for a filled slot.
pub struct RecvFuture {
    reserve: Reserve,
}

/// A wait in progress asks for one permit.
spec fn reserve_ok(r: Reserve) -> bool {
    r matches Reserve::Acquiring { fut } ==> fut.spec_permits() == 1
}

proof fn lemma_mod_distinct(rx: int, j: int, n: int, size: int)
    requires
        size > 0,
        rx >= 0,
        0 <= j < size,
        0 <= n < size,
        j != n,
    ensures
        (rx + j) % size != (rx + n) % size,
{
    assert((rx + j) % size != (rx + n) % size) by (nonlinear_arith)
        requires
            size > 0,
            rx >= 0,
            0 <= j < size,
            0 <= n < size,
            j != n,
    {
        if (rx + j) % size == (rx + n) % size {
            vstd::arithmetic::div_mod::lemma_fundamental_div_mod(rx + j, size);
            vstd::arithmetic::div_mod::lemma_fundamental_div_mod(rx + n, size);
            let qj = (rx + j) / size;
            let qn = (rx + n) / size;
            assert(size * qj - size * qn == j - n);
            assert(size * (qj - qn) == j - n);
            if qj > qn {
                assert(size * (qj - qn) >= size);
            } else if qj < qn {
                assert(size * (qn - qj) >= size);
            }
        }
    }
}

proof fn lemma_mod_step(rx: int, j: int, size: int)
    requires
        size > 0,
        rx >= 0,
        j >= 0,
    ensures
        ((rx + 1) % size + j) % size == (rx + 1 + j) % size,
{
    vstd::arithmetic::div_mod::lemma_add_mod_noop(rx + 1, j, size);
    vstd::arithmetic::div_mod::lemma_mod_twice(rx + 1, size);
    vstd::arithmetic::div_mod::lemma_small_mod(j as nat % size as nat, size as nat);
    vstd::arithmetic::div_mod::lemma_add_mod_noop((rx + 1) % size, j, size);
    vstd::arithmetic::div_mod::lemma_mod_twice(j, size);
}

impl<T> Spsc<T> {
    /// The values sent and not yet received, oldest first.
    pub closed spec fn spec_items(&self) -> Seq<T> {
        self.items@
    }

    pub closed spec fn spec_size(&self) -> nat {
        self.buffer@.len()
    }

    pub closed spec fn spec_tx_state(&self) -> EndState {
        self.tx_state
    }

    pub closed spec fn spec_rx_state(&self) -> EndState {
        self.rx_state
    }

    /// Free slots the sender can take at once.
    pub closed spec fn spec_free_permits(&self) -> usize {
        self.producer.spec_permits()
    }

    /// Filled slots the receiver can take at once.
    pub closed spec fn spec_filled_permits(&self) -> usize {
        self.consumer.spec_permits()
    }

    pub closed spec fn spec_producer(&self) -> Semaphore {
        self.producer
    }

    pub closed spec fn spec_consumer(&self) -> Semaphore {
        self.consumer
    }

    pub closed spec fn spec_tx_waker(&self) -> Option<u64> {
        self.tx_waker
    }

    pub closed spec fn spec_rx_waker(&self) -> Option<u64> {
        self.rx_waker
    }

    /// Slots the sender reserved and has not filled yet.
    pub closed spec fn spec_tx_reserved(&self) -> usize {
        self.tx_reserved
    }

    /// Slots the receiver reserved and has not emptied yet.
    pub closed spec fn spec_rx_reserved(&self) -> usize {
        self.rx_reserved
    }

    /// The ring holds the items in order from `rx_index`, the other slots
    /// empty; each semaphore counts its slots, reservations included.
    pub closed spec fn wf(&self) -> bool {
        &&& self.ring_ok()
        &&& self.producer.spec_total() + self.items@.len() + self.tx_reserved == self.buffer@.len()
        &&& self.consumer.spec_total() + self.rx_reserved == self.items@.len()
    }

    /// The ring holds the items in order from `rx_index`, the other slots empty.
    closed spec fn ring_ok(&self) -> bool {
        let size = self.buffer@.len();
        let n = self.items@.len();
        &&& 0 < size <= usize::MAX
        &&& self.rx_index < size
        &&& n + self.tx_reserved <= size
        &&& self.tx_index == (self.rx_index + n) % (size as int)
        &&& forall|j: int|
            0 <= j < size ==> #[trigger] self.buffer@[(self.rx_index + j) % (size as int)] == if j < n {
                Some(self.items@[j])
            } else {
                None
            }
        &&& self.producer.spec_wf()
        &&& self.consumer.spec_wf()
    }

    /// Fills the next slot with `data`; returns the wakers the consumer
    /// semaphore serves.
    fn write_slot(&mut self, data: T) -> (woken: Vec<u64>)
        requires
            old(self).ring_ok(),
            old(self).consumer.spec_total() + old(self).rx_reserved == old(self).spec_items().len(),
            old(self).spec_items().len() < old(self).spec_size(),
            old(self).producer.spec_total() + old(self).spec_items().len() + old(self).tx_reserved + 1
                == old(self).spec_size(),
        ensures
            final(self).spec_items() == old(self).spec_items().push(data),
            final(self).spec_size() == old(self).spec_size(),
            final(self).tx_reserved == old(self).tx_reserved,
            final(self).rx_reserved == old(self).rx_reserved,
            final(self).producer == old(self).producer,
            released(old(self).consumer, final(self).consumer, 1, woken@),
            final(self).tx_state == old(self).tx_state,
            final(self).rx_state == old(self).rx_state,
            final(self).tx_waker == old(self).tx_waker,
            final(self).rx_waker == old(self).rx_waker,
            final(self).wf(),
    {
        let size = self.buffer.len();
        let ghost n = self.items@.len() as int;
        let ghost b0 = self.buffer@;
        proof {
            assert(self.buffer@[(self.rx_index + n) % (size as int)] is None);
            self.consumer.lemma_total_bounds();
            self.producer.lemma_total_bounds();
        }
        let i = self.tx_index;
        self.buffer.set(i, Some(data));
        self.tx_index = if i + 1 == size {
            0
        } else {
            i + 1
        };
        self.items = Ghost(self.items@.push(data));
        proof {
            let rx = self.rx_index as int;
            assert(self.tx_index == (rx + n + 1) % (size as int)) by {
                vstd::arithmetic::div_mod::lemma_add_mod_noop(rx + n, 1, size as int);
                if size > 1 {
                    vstd::arithmetic::div_mod::lemma_small_mod(1nat, size as nat);
                } else {
                    vstd::arithmetic::div_mod::lemma_mod_self_0(1);
                }
                vstd::arithmetic::div_mod::lemma_mod_twice(rx + n + 1, size as int);
                if i + 1 == size {
                    vstd::arithmetic::div_mod::lemma_mod_self_0(size as int);
                } else {
                    vstd::arithmetic::div_mod::lemma_small_mod((i + 1) as nat, size as nat);
                }
            }
            assert forall|j: int| 0 <= j < size implies #[trigger] self.buffer@[(rx + j) % (size as int)] == if j
                < n + 1 {
                Some(self.items@[j])
            } else {
                None
            } by {
                if j != n {
                    lemma_mod_distinct(rx, j, n, size as int);
                    assert(b0[(rx + j) % (size as int)] == if j < n {
                        Some(old(self).items@[j])
                    } else {
                        None
                    });
                }
            }
        }
        self.consumer.release(1)
    }

    /// Empties the oldest filled slot and returns its value, with the wakers
    /// the producer semaphore serves.
    fn read_slot(&mut self) -> (r: (T, Vec<u64>))
        requires
            old(self).ring_ok(),
            old(self).producer.spec_total() + old(self).spec_items().len() + old(self).tx_reserved
                == old(self).spec_size(),
            old(self).spec_items().len() > 0,
            old(self).consumer.spec_total() + old(self).rx_reserved + 1 == old(self).spec_items().len(),
        ensures
            r.0 == old(self).spec_items()[0],
            final(self).spec_items() == old(self).spec_items().drop_first(),
            final(self).spec_size() == old(self).spec_size(),
            final(self).tx_reserved == old(self).tx_reserved,
            final(self).rx_reserved == old(self).rx_reserved,
            final(self).consumer == old(self).consumer,
            released(old(self).producer, final(self).producer, 1, r.1@),
            final(self).tx_state == old(self).tx_state,
            final(self).rx_state == old(self).rx_state,
            final(self).tx_waker == old(self).tx_waker,
            final(self).rx_waker == old(self).rx_waker,
            final(self).wf(),
    {
        let size = self.buffer.len();
        let ghost n = self.items@.len() as int;
        let ghost b0 = self.buffer@;
        let ghost items0 = self.items@;
        let i = self.rx_index;
        proof {
            assert(self.buffer@[(i + 0) % (size as int)] == Some(items0[0]));
            vstd::arithmetic::div_mod::lemma_small_mod(i as nat, size as nat);
            self.producer.lemma_total_bounds();
        }
        let mut slot: Option<T> = None;
        self.buffer.set_and_swap(i, &mut slot);
        let data = slot.unwrap();
        let ghost rx = i as int;
        self.rx_index = if i + 1 == size {
            0
        } else {
            i + 1
        };
        self.items = Ghost(self.items@.drop_first());
        proof {
            let rx2 = self.rx_index as int;
            assert(rx2 == (rx + 1) % (size as int)) by {
                if i + 1 == size {
                    vstd::arithmetic::div_mod::lemma_mod_self_0(size as int);
                } else {
                    vstd::arithmetic::div_mod::lemma_small_mod((i + 1) as nat, size as nat);
                }
            }
            assert(self.tx_index == (rx2 + (n - 1)) % (size as int)) by {
                lemma_mod_step(rx, n - 1, size as int);
            }
            assert forall|j: int| 0 <= j < size implies #[trigger] self.buffer@[(rx2 + j) % (size as int)] == if j
                < n - 1 {
                Some(self.items@[j])
            } else {
                None
            } by {
                lemma_mod_step(rx, j, size as int);
                if j + 1 < size {
                    lemma_mod_distinct(rx, j + 1, 0, size as int);
                    assert(b0[(rx + (j + 1)) % (size as int)] == if j + 1 < n {
                        Some(items0[j + 1])
                    } else {
                        None
                    });
                } else {
                    assert(rx + 1 + j == rx + size);
                    vstd::arithmetic::div_mod::lemma_mod_add_multiples_vanish(rx, size as int);
                }
            }
        }
        let woken = self.producer.release(1);
        (data, woken)
    }
}

/// A connected sender and receiver over a ring of `size` slots.
pub fn channel<T>(size: usize) -> (r: (Sender<T>, Receiver<T>, Spsc<T>))
    requires
        size >= 1,
    ensures
        r.2.wf(),
        r.2.spec_items() == Seq::<T>::empty(),
        r.2.spec_size() == size,
        r.2.spec_free_permits() == size,
        r.2.spec_filled_permits() == 0,
        r.2.spec_tx_state() == EndState::Idle,
        r.2.spec_rx_state() == EndState::Idle,
        r.2.spec_tx_reserved() == 0,
        r.2.spec_rx_reserved() == 0,
        !r.0.spec_lost_receiver(),
        !r.1.spec_lost_sender(),
        r.2.spec_producer().spec_pending() == 0,
        r.2.spec_producer().spec_queue().len() == 0,
        r.2.spec_producer().spec_granted().len() == 0,
        r.2.spec_consumer().spec_pending() == 0,
        r.2.spec_consumer().spec_queue().len() == 0,
        r.2.spec_consumer().spec_granted().len() == 0,
        r.2.spec_tx_waker() is None,
        r.2.spec_rx_waker() is None,
{
    let mut buffer: Vec<Option<T>> = Vec::new();
    let mut k: usize = 0;
    while k < size
        invariant
            k <= size,
            buffer@.len() == k,
            forall|j: int| 0 <= j < k ==> buffer@[j] is None,
        decreases size - k,
    {
        buffer.push(None);
        k = k + 1;
    }
    let producer = Semaphore::new(size);
    let consumer = Semaphore::new(0);
    let ch = Spsc {
        buffer,
        producer,
        consumer,
        tx_index: 0,
        rx_index: 0,
        tx_reserved: 0,
        rx_reserved: 0,
        tx_state: EndState::Idle,
        tx_waker: None,
        rx_state: EndState::Idle,
        rx_waker: None,
        items: Ghost(Seq::empty()),
    };
    proof {
        assert forall|j: int| 0 <= j < size implies #[trigger] ch.buffer@[(0 + j) % (size as int)] == if j < 0 {
            Some(ch.items@[j])
        } else {
            None
        } by {
            vstd::arithmetic::div_mod::lemma_small_mod(j as nat, size as nat);
        }
        vstd::arithmetic::div_mod::lemma_small_mod(0nat, size as nat);
        assert(ch.producer.spec_total() == size);
        assert(ch.consumer.spec_total() == 0);
    }
    (
        Sender { size, lost_receiver: false, marker: core::marker::PhantomData },
        Receiver { size, lost_sender: false, marker: core::marker::PhantomData },
        ch,
    )
}

/// One poll of the wait for a permit of `sem` by the side whose state is
/// `end` and whose waker is kept in `slot`. Returns whether the wait ended with
/// permits (`Some(true)`) or because the other side is gone (`Some(false)`), or
/// goes on (`None`); the permits taken; and the wakers to wake.
fn reserve_step(
    reserve: &mut Reserve,
    sem: &mut Semaphore,
    end: &mut EndState,
    slot: &mut Option<u64>,
    waker: u64,
) -> (r: (Option<bool>, usize, Vec<u64>))
    requires
        !(*old(reserve) is Done),
        reserve_ok(*old(reserve)),
        old(sem).spec_wf(),
        old(sem).spec_total() <= usize::MAX,
    ensures
        final(sem).spec_wf(),
        reserve_ok(*final(reserve)),
        r.0 is Some <==> *final(reserve) is Done,
        r.0 is None ==> *final(reserve) is Acquiring,
        r.0 == Some(true) ==> r.1 >= 1 && final(sem).spec_total() == old(sem).spec_total() - r.1
            && r.2@.len() == 0,
        r.0 != Some(true) ==> r.1 == 0 && final(sem).spec_total() == old(sem).spec_total(),
        *old(reserve) is Init ==> if *old(end) != EndState::Idle {
            &&& r.0 == Some(false)
            &&& *final(end) == *old(end)
            &&& *final(slot) == None::<u64>
            &&& *final(sem) == *old(sem)
            &&& r.2@.len() == 0
        } else if 1 <= old(sem).spec_permits() {
            &&& r.0 == Some(true)
            &&& r.1 == 1
            &&& *final(end) == EndState::Idle
            &&& *final(slot) == None::<u64>
        } else {
            &&& r.0 is None
            &&& *final(end) == EndState::Waiting
            &&& *final(slot) == Some(waker)
        },
        *old(reserve) is Acquiring ==> if *old(end) == EndState::Dropped {
            &&& r.0 == Some(false)
            &&& *final(end) == *old(end)
            &&& *final(slot) == *old(slot)
        } else {
            &&& r.0 != Some(false)
            &&& r.0 == Some(true) && *old(end) == EndState::Waiting ==> *final(end) == EndState::Idle
                && *final(slot) == None::<u64>
            &&& r.0 == Some(true) && *old(end) != EndState::Waiting ==> *final(end) == *old(end)
                && *final(slot) == *old(slot)
            &&& r.0 is None ==> *final(end) == *old(end) && *final(slot) == *old(slot)
        },
        *old(reserve) matches Reserve::Acquiring { fut } ==> (*old(end) != EndState::Dropped ==> (r.0 == Some(true)
            <==> match fut.spec_ticket() {
            Some(t) => granted_to(*old(sem), t),
            None => 1 <= old(sem).spec_permits(),
        })),
{
    proof {
        sem.lemma_total_bounds();
    }
    let mut woken: Vec<u64> = Vec::new();
    if let Reserve::Init = reserve {
        *slot = Some(waker);
        if *end != EndState::Idle {
            *slot = None;
            *reserve = Reserve::Done;
            return (Some(false), 0, woken);
        }
        *end = EndState::Waiting;
        *reserve = Reserve::Acquiring { fut: sem.acquire(1) };
    } else if *end == EndState::Dropped {
        let mut prev = Reserve::Done;
        core::mem::swap(reserve, &mut prev);
        if let Reserve::Acquiring { fut } = prev {
            woken = fut.cancel(sem);
        }
        return (Some(false), 0, woken);
    }
    let ghost sem0 = *sem;
    let ghost end0 = *end;
    let ghost slot0 = *slot;
    let polled = match reserve {
        Reserve::Acquiring { fut } => fut.poll(sem, waker),
        _ => {
            proof {
                assert(false);
            }
            (None, Vec::new())
        },
    };
    let (got, more) = polled;
    match got {
        Some(guard) => {
            let k = guard.permits();
            if *end == EndState::Waiting {
                *end = EndState::Idle;
                *slot = None;
            }
            *reserve = Reserve::Done;
            (Some(true), k, more)
        },
        None => (None, 0, more),
    }
}

impl<T> Sender<T> {
    pub closed spec fn spec_lost_receiver(&self) -> bool {
        self.lost_receiver
    }

    pub closed spec fn spec_size(&self) -> usize {
        self.size
    }

    /// Whether this sender has seen that the receiver is gone.
    pub fn lost_receiver(&self) -> (r: bool)
        ensures
            r == self.spec_lost_receiver(),
    {
        self.lost_receiver
    }

    /// Sends `data` at once if the receiver is there and a slot is free; never
    /// waits. On success returns the wakers of the receivers to wake.
    pub fn try_send(&mut self, ch: &mut Spsc<T>, data: T) -> (r: Result<Vec<u64>, TrySendError<T>>)
        requires
            old(ch).wf(),
        ensures
            final(ch).wf(),
            final(ch).spec_size() == old(ch).spec_size(),
            final(self).spec_size() == old(self).spec_size(),
            final(self).spec_lost_receiver() == (old(self).spec_lost_receiver() || old(ch).spec_tx_state() == EndState::Dropped),
            final(self).spec_lost_receiver() ==> r == Err::<Vec<u64>, _>(
                TrySendError::ReceiverLost(data),
            ) && *final(ch) == *old(ch),
            !final(self).spec_lost_receiver() && old(ch).spec_free_permits() == 0 ==> r == Err::<
                Vec<u64>,
                _,
            >(TrySendError::BufferFull(data)) && *final(ch) == *old(ch),
            !final(self).spec_lost_receiver() && old(ch).spec_free_permits() > 0 ==> r is Ok
                && final(ch).spec_items() == old(ch).spec_items().push(data)
                && final(ch).spec_free_permits() == old(ch).spec_free_permits() - 1
                && released(old(ch).spec_consumer(), final(ch).spec_consumer(), 1, r->Ok_0@)
                && final(ch).spec_tx_state() == old(ch).spec_tx_state()
                && final(ch).spec_rx_state() == old(ch).spec_rx_state(),
    {
        if !self.lost_receiver {
            if ch.tx_state == EndState::Dropped {
                self.lost_receiver = true;
            }
        }
        if self.lost_receiver {
            return Err(TrySendError::ReceiverLost(data));
        }
        let ghost ch0 = *ch;
        let guard = ch.producer.try_acquire(1);
        if guard.is_none() {
            proof {
                assert(*ch == ch0);
            }
            return Err(TrySendError::BufferFull(data));
        }
        proof {
            ch0.producer.lemma_total_bounds();
            ch0.consumer.lemma_total_bounds();
        }
        Ok(ch.write_slot(data))
    }

    /// Starts sending `data`; nothing happens until the future is polled.
    pub fn send(&self, data: T) -> (f: SendFuture<T>)
        ensures
            f.spec_data() == Some(data),
            !f.spec_waiting(),
    {
        SendFuture { data: Some(data), reserve: Reserve::Init }
    }

    /// Drops the sender: the receiver learns that nothing more comes. Returns
    /// the waker of a receiver waiting for data.
    pub fn close(self, ch: &mut Spsc<T>) -> (woken: Option<u64>)
        requires
            old(ch).wf(),
        ensures
            final(ch).wf(),
            final(ch).spec_rx_state() == EndState::Dropped,
            woken == if old(ch).spec_rx_state() == EndState::Waiting {
                old(ch).spec_rx_waker()
            } else {
                None
            },
            final(ch).spec_items() == old(ch).spec_items(),
            final(ch).spec_producer() == old(ch).spec_producer(),
            final(ch).spec_consumer() == old(ch).spec_consumer(),
            final(ch).spec_tx_state() == old(ch).spec_tx_state(),
            final(ch).spec_tx_waker() == old(ch).spec_tx_waker(),
    {
        let prev = ch.rx_state;
        ch.rx_state = EndState::Dropped;
        if prev == EndState::Waiting {
            ch.rx_waker.take()
        } else {
            None
        }
    }
}

impl<T> Receiver<T> {
    pub closed spec fn spec_lost_sender(&self) -> bool {
        self.lost_sender
    }

    pub closed spec fn spec_size(&self) -> usize {
        self.size
    }

    /// Whether this receiver has seen that the sender is gone.
    pub fn lost_sender(&self) -> (r: bool)
        ensures
            r == self.spec_lost_sender(),
    {
        self.lost_sender
    }

    /// Takes the oldest value at once if one is there; never waits. On success
    /// also returns the wakers of the senders to wake.
    pub fn try_recv(&mut self, ch: &mut Spsc<T>) -> (r: Result<(T, Vec<u64>), TryReceiveError>)
        requires
            old(ch).wf(),
        ensures
            final(ch).wf(),
            final(ch).spec_size() == old(ch).spec_size(),
            final(self).spec_size() == old(self).spec_size(),
            old(ch).spec_filled_permits() > 0 ==> r is Ok && old(ch).spec_items().len() > 0
                && r->Ok_0.0 == old(ch).spec_items()[0]
                && final(ch).spec_items() == old(ch).spec_items().drop_first()
                && final(ch).spec_filled_permits() == old(ch).spec_filled_permits() - 1
                && released(old(ch).spec_producer(), final(ch).spec_producer(), 1, r->Ok_0.1@)
                && final(ch).spec_tx_state() == old(ch).spec_tx_state()
                && final(ch).spec_rx_state() == old(ch).spec_rx_state()
                && final(self).spec_lost_sender() == old(self).spec_lost_sender(),
            old(ch).spec_filled_permits() == 0 ==> *final(ch) == *old(ch)
                && final(self).spec_lost_sender() == (old(self).spec_lost_sender() || old(ch).spec_rx_state() == EndState::Dropped) && r == if final(self).spec_lost_sender() {
                Err::<(T, Vec<u64>), _>(TryReceiveError::SenderLost)
            } else {
                Err::<(T, Vec<u64>), _>(TryReceiveError::BufferEmpty)
            },
    {
        let ghost ch0 = *ch;
        let guard = ch.consumer.try_acquire(1);
        if guard.is_some() {
            proof {
                ch0.consumer.lemma_total_bounds();
            }
            return Ok(ch.read_slot());
        }
        if !self.lost_sender {
            if ch.rx_state == EndState::Dropped {
                self.lost_sender = true;
            }
        }
        if self.lost_sender {
            return Err(TryReceiveError::SenderLost);
        }
        Err(TryReceiveError::BufferEmpty)
    }

    /// Starts receiving a value; nothing happens until the future is polled.
    pub fn recv(&self) -> (f: RecvFuture)
        ensures
            !f.spec_done(),
            !f.spec_waiting(),
    {
        RecvFuture { reserve: Reserve::Init }
    }

    /// Drops the receiver: the sender learns that nobody takes more values.
    /// Returns the waker of a sender waiting for room.
    pub fn close(self, ch: &mut Spsc<T>) -> (woken: Option<u64>)
        requires
            old(ch).wf(),
        ensures
            final(ch).wf(),
            final(ch).spec_tx_state() == EndState::Dropped,
            woken == if old(ch).spec_tx_state() == EndState::Waiting {
                old(ch).spec_tx_waker()
            } else {
                None
            },
            final(ch).spec_items() == old(ch).spec_items(),
            final(ch).spec_producer() == old(ch).spec_producer(),
            final(ch).spec_consumer() == old(ch).spec_consumer(),
            final(ch).spec_rx_state() == old(ch).spec_rx_state(),
            final(ch).spec_rx_waker() == old(ch).spec_rx_waker(),
    {
        let prev = ch.tx_state;
        ch.tx_state = EndState::Dropped;
        if prev == EndState::Waiting {
            ch.tx_waker.take()
        } else {
            None
        }
    }
}

impl Reserve {
    fn is_acquiring(&self) -> (r: bool)
        ensures
            r == (*self is Acquiring),
    {
        match self {
            Reserve::Acquiring { .. } => true,
            _ => false,
        }
    }
}

impl<T> SendFuture<T> {
    #[verifier::type_invariant]
    closed spec fn inv(self) -> bool {
        &&& !(self.reserve is Done) ==> self.data is Some
        &&& reserve_ok(self.reserve)
    }

    /// The value still to send; `None` once the sending completed.
    pub closed spec fn spec_data(&self) -> Option<T> {
        self.data
    }

    /// Whether the sending waits for a free slot.
    pub closed spec fn spec_waiting(&self) -> bool {
        self.reserve is Acquiring
    }

    /// The ticket of the wait for a free slot, once it is queued.
    pub closed spec fn spec_ticket(&self) -> Option<u64> {
        match self.reserve {
            Reserve::Acquiring { fut } => fut.spec_ticket(),
            _ => None,
        }
    }

    /// Whether the sending completed.
    pub closed spec fn spec_done(&self) -> bool {
        self.reserve is Done
    }

    /// Polls the sending for the task `waker`. It completes with `Ok` once the
    /// value is in the ring, and with the value handed back once the receiver is
    /// known to be gone. Returns the wakers of the tasks to wake.
    pub fn poll(&mut self, sender: &mut Sender<T>, ch: &mut Spsc<T>, waker: u64) -> (r: (
        Option<Result<(), ReceiverLost<T>>>,
        Vec<u64>,
    ))
        requires
            !old(self).spec_done(),
            old(ch).wf(),
        ensures
            final(ch).wf(),
            final(ch).spec_size() == old(ch).spec_size(),
            final(ch).spec_rx_state() == old(ch).spec_rx_state(),
            final(sender).spec_size() == old(sender).spec_size(),
            r.0 is Some <==> final(self).spec_done(),
            r.0 is None ==> final(self).spec_waiting() && final(self).spec_data() == old(self).spec_data() && final(ch).spec_items() == old(ch).spec_items() && *final(sender)
                == *old(sender),
            r.0 matches Some(Ok(_)) ==> final(ch).spec_items() == old(ch).spec_items().push(
                old(self).spec_data().unwrap(),
            ) && *final(sender) == *old(sender) && final(ch).spec_tx_state() == EndState::Idle,
            r.0 matches Some(Err(lost)) ==> lost.0 == old(self).spec_data().unwrap() && final(sender).spec_lost_receiver() && final(ch).spec_items() == old(ch).spec_items(),
            !old(self).spec_waiting() ==> if old(sender).spec_lost_receiver() || old(ch).spec_tx_state() != EndState::Idle {
                r.0 matches Some(Err(_))
            } else if old(ch).spec_free_permits() >= 1 {
                r.0 matches Some(Ok(_))
            } else {
                &&& r.0 is None
                &&& final(ch).spec_tx_state() == EndState::Waiting
                &&& final(ch).spec_tx_waker() == Some(waker)
            },
            old(self).spec_waiting() ==> (r.0 matches Some(Err(_)) <==> old(ch).spec_tx_state()
                == EndState::Dropped),
            old(self).spec_waiting() && old(ch).spec_tx_state() != EndState::Dropped ==> (r.0 matches Some(Ok(_))
                <==> match old(self).spec_ticket() {
                Some(t) => granted_to(old(ch).spec_producer(), t),
                None => old(ch).spec_free_permits() >= 1,
            }),
    {
        proof {
            use_type_invariant(&*self);
        }
        let mut me = SendFuture { data: None, reserve: Reserve::Done };
        core::mem::swap(self, &mut me);
        let SendFuture { data, mut reserve } = me;
        if !reserve.is_acquiring() && sender.lost_receiver {
            return (Some(Err(ReceiverLost(data.unwrap()))), Vec::new());
        }
        proof {
            ch.producer.lemma_total_bounds();
            ch.consumer.lemma_total_bounds();
        }
        let (outcome, k, woken) = reserve_step(
            &mut reserve,
            &mut ch.producer,
            &mut ch.tx_state,
            &mut ch.tx_waker,
            waker,
        );
        proof {
            ch.producer.lemma_total_bounds();
        }
        match outcome {
            Some(true) => {
                ch.tx_reserved = ch.tx_reserved + (k - 1);
                let more = ch.write_slot(data.unwrap());
                (Some(Ok(())), more)
            },
            Some(false) => {
                sender.lost_receiver = true;
                (Some(Err(ReceiverLost(data.unwrap()))), woken)
            },
            None => {
                *self = SendFuture { data, reserve };
                (None, woken)
            },
        }
    }

    /// Gives up the sending; the value is dropped. A sender waiting for room
    /// stops waiting. Returns the wakers of the tasks to wake.
    pub fn cancel(self, ch: &mut Spsc<T>) -> (woken: Vec<u64>)
        requires
            old(ch).wf(),
        ensures
            final(ch).wf(),
            final(ch).spec_items() == old(ch).spec_items(),
            final(ch).spec_rx_state() == old(ch).spec_rx_state(),
            self.spec_waiting() && old(ch).spec_tx_state() == EndState::Waiting ==> final(ch).spec_tx_state() == EndState::Idle && final(ch).spec_tx_waker() == None::<u64>,
            !(self.spec_waiting() && old(ch).spec_tx_state() == EndState::Waiting) ==> final(ch).spec_tx_state() == old(ch).spec_tx_state() && final(ch).spec_tx_waker() == old(ch).spec_tx_waker(),
    {
        match self.reserve {
            Reserve::Acquiring { fut } => {
                if ch.tx_state == EndState::Waiting {
                    ch.tx_state = EndState::Idle;
                    ch.tx_waker = None;
                }
                proof {
                    ch.producer.lemma_total_bounds();
                }
                fut.cancel(&mut ch.producer)
            },
            _ => Vec::new(),
        }
    }
}

impl RecvFuture {
    #[verifier::type_invariant]
    closed spec fn inv(self) -> bool {
        reserve_ok(self.reserve)
    }

    /// Whether the receiving completed.
    pub closed spec fn spec_done(&self) -> bool {
        self.reserve is Done
    }

    /// Whether the receiving waits for a filled slot.
    pub closed spec fn spec_waiting(&self) -> bool {
        self.reserve is Acquiring
    }

    /// The ticket of the wait for a filled slot, once it is queued.
    pub closed spec fn spec_ticket(&self) -> Option<u64> {
        match self.reserve {
            Reserve::Acquiring { fut } => fut.spec_ticket(),
            _ => None,
        }
    }

    /// Polls the receiving for the task `waker`. It completes with the oldest
    /// value once one is there; once the sender is known to be gone it takes
    /// what is left, or completes with `SenderLost`. Returns the wakers of the
    /// tasks to wake.
    pub fn poll<T>(&mut self, receiver: &mut Receiver<T>, ch: &mut Spsc<T>, waker: u64) -> (r: (
        Option<Result<T, SenderLost>>,
        Vec<u64>,
    ))
        requires
            !old(self).spec_done(),
            old(ch).wf(),
        ensures
            final(ch).wf(),
            final(ch).spec_size() == old(ch).spec_size(),
            final(ch).spec_tx_state() == old(ch).spec_tx_state(),
            final(receiver).spec_size() == old(receiver).spec_size(),
            r.0 is Some <==> final(self).spec_done(),
            r.0 is None ==> final(self).spec_waiting() && final(ch).spec_items() == old(ch).spec_items() && *final(receiver) == *old(receiver),
            r.0 matches Some(Ok(v)) ==> old(ch).spec_items().len() > 0 && v == old(ch).spec_items()[0] && final(ch).spec_items() == old(ch).spec_items().drop_first(),
            r.0 matches Some(Err(_)) ==> final(receiver).spec_lost_sender() && final(ch).spec_items() == old(ch).spec_items() && final(ch).spec_filled_permits() == 0,
            !old(self).spec_waiting() ==> if old(receiver).spec_lost_sender() || old(ch).spec_rx_state() != EndState::Idle {
                &&& r.0 is Some
                &&& (r.0 matches Some(Ok(_)) <==> old(ch).spec_filled_permits() >= 1)
            } else if old(ch).spec_filled_permits() >= 1 {
                r.0 matches Some(Ok(_))
            } else {
                &&& r.0 is None
                &&& final(ch).spec_rx_state() == EndState::Waiting
                &&& final(ch).spec_rx_waker() == Some(waker)
            },
            old(self).spec_waiting() && old(ch).spec_rx_state() == EndState::Dropped ==> r.0 is Some,
            old(self).spec_waiting() && old(ch).spec_rx_state() != EndState::Dropped ==> (r.0 matches Some(Ok(_))
                <==> match old(self).spec_ticket() {
                Some(t) => granted_to(old(ch).spec_consumer(), t),
                None => old(ch).spec_filled_permits() >= 1,
            }),
    {
        proof {
            use_type_invariant(&*self);
        }
        let mut me = RecvFuture { reserve: Reserve::Done };
        core::mem::swap(self, &mut me);
        let RecvFuture { mut reserve } = me;
        let mut woken: Vec<u64> = Vec::new();
        if reserve.is_acquiring() || !receiver.lost_sender {
            proof {
                ch.producer.lemma_total_bounds();
                ch.consumer.lemma_total_bounds();
            }
            let (outcome, k, w) = reserve_step(
                &mut reserve,
                &mut ch.consumer,
                &mut ch.rx_state,
                &mut ch.rx_waker,
                waker,
            );
            proof {
                ch.consumer.lemma_total_bounds();
            }
            match outcome {
                Some(true) => {
                    ch.rx_reserved = ch.rx_reserved + (k - 1);
                    let (v, more) = ch.read_slot();
                    return (Some(Ok(v)), more);
                },
                Some(false) => {
                    receiver.lost_sender = true;
                    woken = w;
                },
                None => {
                    *self = RecvFuture { reserve };
                    return (None, w);
                },
            }
        }
        // the sender is gone: take what it left
        let ghost ch0 = *ch;
        let guard = ch.consumer.try_acquire(1);
        if guard.is_some() {
            proof {
                ch0.consumer.lemma_total_bounds();
            }
            let (v, mut more) = ch.read_slot();
            woken.append(&mut more);
            return (Some(Ok(v)), woken);
        }
        (Some(Err(SenderLost)), woken)
    }

    /// Gives up the receiving. A receiver waiting for data stops waiting.
    /// Returns the wakers of the tasks to wake.
    pub fn cancel<T>(self, ch: &mut Spsc<T>) -> (woken: Vec<u64>)
        requires
            old(ch).wf(),
        ensures
            final(ch).wf(),
            final(ch).spec_items() == old(ch).spec_items(),
            final(ch).spec_tx_state() == old(ch).spec_tx_state(),
            self.spec_waiting() && old(ch).spec_rx_state() == EndState::Waiting ==> final(ch).spec_rx_state() == EndState::Idle && final(ch).spec_rx_waker() == None::<u64>,
            !(self.spec_waiting() && old(ch).spec_rx_state() == EndState::Waiting) ==> final(ch).spec_rx_state() == old(ch).spec_rx_state() && final(ch).spec_rx_waker() == old(ch).spec_rx_waker(),
    {
        match self.reserve {
            Reserve::Acquiring { fut } => {
                if ch.rx_state == EndState::Waiting {
                    ch.rx_state = EndState::Idle;
                    ch.rx_waker = None;
                }
                proof {
                    ch.consumer.lemma_total_bounds();
                }
                fut.cancel(&mut ch.consumer)
            },
            _ => Vec::new(),
        }
    }
}

/// The ring never holds more values than it has slots, and the free slots a
/// sender can take at once leave room for everything already sent.
pub proof fn lemma_capacity<T>(ch: Spsc<T>)
    requires
        ch.wf(),
    ensures
        ch.spec_items().len() <= ch.spec_size(),
        ch.spec_items().len() + ch.spec_free_permits() + ch.spec_tx_reserved() <= ch.spec_size(),
        ch.spec_filled_permits() + ch.spec_rx_reserved() <= ch.spec_items().len(),
{
    ch.producer.lemma_total_bounds();
    ch.consumer.lemma_total_bounds();
}

/// The permits a side can take at once are the free permits of its
/// semaphore: the producer's for the sender, the consumer's for the receiver.
pub proof fn lemma_permits_of_semaphores<T>(ch: Spsc<T>)
    ensures
        ch.spec_free_permits() == ch.spec_producer().spec_permits(),
        ch.spec_filled_permits() == ch.spec_consumer().spec_permits(),
{
}

/// A value sent while no receive waits can be received at once: the permit
/// the send gives back to the consumer semaphore is free afterwards, so a
/// `try_recv` that follows succeeds.
pub proof fn lemma_send_then_receive<T>(before: Spsc<T>, after: Spsc<T>, woken: Seq<u64>)
    requires
        before.wf(),
        before.spec_consumer().spec_queue().len() == 0,
        released(before.spec_consumer(), after.spec_consumer(), 1, woken),
    ensures
        after.spec_filled_permits() == before.spec_filled_permits() + 1,
        after.spec_filled_permits() >= 1,
        woken.len() == 0,
{
    let c0 = before.spec_consumer();
    let c1 = after.spec_consumer();
    assert(served(c0.spec_pending() + 1, c0.spec_queue()) == 0);
    assert(c0.spec_queue().take(0) =~= Seq::<Waiter>::empty());
    assert(c1.spec_granted() =~= c0.spec_granted());
    assert(c1.spec_queue() =~= c0.spec_queue());
}

/// Values come out in the order they went in: a value sent to an empty
/// channel is the next received, and a value sent to a non-empty one waits
/// behind those already there.
pub proof fn lemma_fifo<T>(before: Spsc<T>, sent: Spsc<T>, received: Spsc<T>, v: T)
    requires
        sent.spec_items() == before.spec_items().push(v),
        received.spec_items() == sent.spec_items().drop_first(),
    ensures
        before.spec_items().len() == 0 ==> sent.spec_items()[0] == v && received.spec_items()
            == before.spec_items(),
        before.spec_items().len() > 0 ==> sent.spec_items()[0] == before.spec_items()[0]
            && received.spec_items() == before.spec_items().drop_first().push(v),
{
    assert(before.spec_items().len() == 0 ==> received.spec_items() =~= before.spec_items());
    assert(before.spec_items().len() > 0 ==> received.spec_items() =~= before.spec_items().drop_first().push(v));
}

} // verus!
