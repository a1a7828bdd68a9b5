use vstd::prelude::*;

verus! {

/// Where a one-shot channel stands.
#[derive(Debug, Clone, Copy, PartialEq, Eq, Structural)]
pub enum OneshotStatus {
    /// The receiver has not polled yet.
    NoRecv,
    /// The receiver waits.
    Receiving,
    /// The receiver got the value.
    Done,
    /// The sender left without sending.
    Lost,
}

/// The state a one-shot sender and receiver share: the value once sent, the
/// status, and the receiver's waker.
pub struct Oneshot<T> {
    data: Option<T>,
    status: OneshotStatus,
    rx_waker: Option<u64>,
}

/// The sending side; sends once.
pub struct Sender<T> {
    done: bool,
    marker: core::marker::PhantomData<T>,
}

/// The receiving side; receives once.
pub struct Receiver<T> {
    marker: core::marker::PhantomData<T>,
}

/// The sender left without sending.
#[derive(Debug, Clone, Copy, PartialEq, Eq, Structural)]
pub struct SenderLost;

/// One receive operation.
pub struct ReceiverFuture {
    started: bool,
}

impl<T> Oneshot<T> {
    pub closed spec fn spec_data(&self) -> Option<T> {
        self.data
    }

    pub closed spec fn spec_status(&self) -> OneshotStatus {
        self.status
    }

    pub closed spec fn spec_rx_waker(&self) -> Option<u64> {
        self.rx_waker
    }
}

/// A connected sender and receiver, nothing sent.
pub fn channel<T>() -> (r: (Sender<T>, Receiver<T>, Oneshot<T>))
    ensures
        r.2.spec_data() is None,
        r.2.spec_status() == OneshotStatus::NoRecv,
        r.2.spec_rx_waker() is None,
        !r.0.spec_done(),
{
    (
        Sender { done: false, marker: core::marker::PhantomData },
        Receiver { marker: core::marker::PhantomData },
        Oneshot { data: None, status: OneshotStatus::NoRecv, rx_waker: None },
    )
}

impl<T> Sender<T> {
    pub closed spec fn spec_done(&self) -> bool {
        self.done
    }

    /// Sends `data`; returns the receiver's waker to wake, if it waits.
    pub fn send(self, ch: &mut Oneshot<T>, data: T) -> (woken: Option<u64>)
        ensures
            final(ch).spec_data() == Some(data),
            final(ch).spec_status() == old(ch).spec_status(),
            woken == (if old(ch).spec_status() == OneshotStatus::Receiving {
                old(ch).spec_rx_waker()
            } else {
                None
            }),
    {
        ch.data = Some(data);
        if ch.status == OneshotStatus::Receiving {
            ch.rx_waker
        } else {
            None
        }
    }

    /// Leaves without sending: the receiver learns it. Returns the receiver's
    /// waker to wake, if it waits.
    pub fn close(self, ch: &mut Oneshot<T>) -> (woken: Option<u64>)
        ensures
            !self.spec_done() ==> final(ch).spec_status() == OneshotStatus::Lost,
            self.spec_done() ==> *final(ch) == *old(ch),
            final(ch).spec_data() == old(ch).spec_data(),
            woken == (if !self.spec_done() && old(ch).spec_status() == OneshotStatus::Receiving {
                old(ch).spec_rx_waker()
            } else {
                None
            }),
    {
        if self.done {
            return None;
        }
        let prev = ch.status;
        ch.status = OneshotStatus::Lost;
        if prev == OneshotStatus::Receiving {
            ch.rx_waker
        } else {
            None
        }
    }
}

impl<T> Receiver<T> {
    /// Starts receiving.
    pub fn recv(self) -> (f: ReceiverFuture)
        ensures
            !f.spec_started(),
    {
        ReceiverFuture { started: false }
    }
}

impl ReceiverFuture {
    pub closed spec fn spec_started(&self) -> bool {
        self.started
    }

    /// Polls the receive for the task `waker`: the value once sent, or
    /// `SenderLost` once the sender left without sending; `None` while
    /// waiting. The first poll registers the waker.
    pub fn poll<T>(&mut self, ch: &mut Oneshot<T>, waker: u64) -> (r: Option<Result<T, SenderLost>>)
        requires
            old(ch).spec_status() != OneshotStatus::Done,
        ensures
            old(ch).spec_status() == OneshotStatus::Lost ==> r == Some(Err::<T, SenderLost>(SenderLost)),
            old(ch).spec_status() != OneshotStatus::Lost ==> match old(ch).spec_data() {
                Some(d) => r == Some(Ok::<T, SenderLost>(d)) && final(ch).spec_status() == OneshotStatus::Done
                    && final(ch).spec_data() is None,
                None => r is None && final(ch).spec_status() == OneshotStatus::Receiving,
            },
            !old(self).spec_started() ==> final(ch).spec_rx_waker() == Some(waker),
            final(self).spec_started(),
    {
        if !self.started {
            ch.rx_waker = Some(waker);
            self.started = true;
            if ch.status == OneshotStatus::NoRecv {
                ch.status = OneshotStatus::Receiving;
            }
        }
        if ch.status == OneshotStatus::Lost {
            return Some(Err(SenderLost));
        }
        let mut data: Option<T> = None;
        std::mem::swap(&mut data, &mut ch.data);
        match data {
            Some(d) => {
                ch.status = OneshotStatus::Done;
                Some(Ok(d))
            },
            None => {
                ch.status = OneshotStatus::Receiving;
                None
            },
        }
    }
}

} // verus!
