use vstd::prelude::*;

verus! {

/// The state a publisher and its subscribers share: the latest value, its
/// version, whether the publisher is gone, and each subscriber's waker slot.
pub struct Watch<T> {
    publisher_lost: bool,
    value: T,
    version: u64,
    slots: Vec<(u64, Option<u64>)>,
    next_slot: u64,
}

/// The sending side: publishes new values.
pub struct Publisher<T> {
    marker: core::marker::PhantomData<T>,
}

/// A receiving side: its own copy of the value and the version it saw.
pub struct Subscriber<T> {
    slot: u64,
    version: u64,
    value: T,
}

/// The publisher is gone.
#[derive(Debug, Clone, Copy, PartialEq, Eq, Structural)]
pub struct PublisherLost;

/// Waiting for a subscriber's next value.
pub struct SubscriberChanged {
    init_waker: bool,
}

/// The ids of the slots.
pub open spec fn slot_ids(s: Seq<(u64, Option<u64>)>) -> Seq<u64> {
    s.map_values(|e: (u64, Option<u64>)| e.0)
}

/// The wakers set in the slots, in order.
pub open spec fn slot_wakers(s: Seq<(u64, Option<u64>)>) -> Seq<u64>
    decreases s.len(),
{
    if s.len() == 0 {
        Seq::empty()
    } else {
        match s.last().1 {
            Some(w) => slot_wakers(s.drop_last()).push(w),
            None => slot_wakers(s.drop_last()),
        }
    }
}

/// `after` is `before` with the waker of the first slot `slot` set to
/// `waker`; unchanged when no slot has that id.
pub open spec fn waker_set(before: Seq<(u64, Option<u64>)>, after: Seq<(u64, Option<u64>)>, slot: u64, waker: Option<u64>) -> bool {
    &&& (forall|i: int| 0 <= i < before.len() ==> before[i].0 != slot) ==> after == before
    &&& forall|i: int|
        0 <= i < before.len() && before[i].0 == slot && (forall|j: int| 0 <= j < i ==> before[j].0 != slot)
            ==> after == before.update(i, (slot, waker))
}

impl<T> Watch<T> {
    pub closed spec fn spec_value(&self) -> T {
        self.value
    }

    pub closed spec fn spec_version(&self) -> u64 {
        self.version
    }

    pub closed spec fn spec_lost(&self) -> bool {
        self.publisher_lost
    }

    pub closed spec fn spec_slots(&self) -> Seq<(u64, Option<u64>)> {
        self.slots@
    }

    /// The id the next subscriber's slot gets.
    pub closed spec fn spec_next_slot(&self) -> u64 {
        self.next_slot
    }

    /// The wakers of all subscribers.
    fn wakers(&self) -> (r: Vec<u64>)
        ensures
            r@ == slot_wakers(self.slots@),
    {
        let mut r: Vec<u64> = Vec::new();
        let mut i: usize = 0;
        while i < self.slots.len()
            invariant
                i <= self.slots@.len(),
                r@ == slot_wakers(self.slots@.take(i as int)),
            decreases self.slots@.len() - i,
        {
            proof {
                assert(self.slots@.take(i + 1).drop_last() =~= self.slots@.take(i as int));
            }
            match self.slots[i].1 {
                Some(w) => r.push(w),
                None => {},
            }
            i = i + 1;
        }
        proof {
            assert(self.slots@.take(self.slots@.len() as int) =~= self.slots@);
        }
        r
    }

    /// Sets the waker of a slot.
    fn set_waker(&mut self, slot: u64, waker: Option<u64>)
        ensures
            final(self).spec_value() == old(self).spec_value(),
            final(self).spec_version() == old(self).spec_version(),
            final(self).spec_lost() == old(self).spec_lost(),
            slot_ids(final(self).spec_slots()) == slot_ids(old(self).spec_slots()),
            waker_set(old(self).spec_slots(), final(self).spec_slots(), slot, waker),
            final(self).spec_next_slot() == old(self).spec_next_slot(),
    {
        let mut i: usize = 0;
        while i < self.slots.len()
            invariant
                i <= self.slots@.len(),
                self.value == old(self).value,
                self.version == old(self).version,
                self.publisher_lost == old(self).publisher_lost,
                self.next_slot == old(self).next_slot,
                self.slots@ == old(self).slots@,
                forall|j: int| 0 <= j < i ==> self.slots@[j].0 != slot,
            decreases self.slots@.len() - i,
        {
            if self.slots[i].0 == slot {
                let ghost s0 = self.slots@;
                self.slots.set(i, (slot, waker));
                proof {
                    assert(slot_ids(self.slots@) =~= slot_ids(s0));
                }
                return;
            }
            i = i + 1;
        }
    }
}

/// A publisher and a subscriber sharing `value` at version 0.
pub fn pair<T: Clone>(value: T) -> (r: (Publisher<T>, Subscriber<T>, Watch<T>))
    ensures
        r.2.spec_version() == 0,
        !r.2.spec_lost(),
        cloned::<T>(value, r.2.spec_value()),
        r.1.spec_version() == 0,
        r.1.spec_value() == value,
        slot_ids(r.2.spec_slots()) == seq![r.1.spec_slot()],
{
    let shared = value.clone();
    let mut slots: Vec<(u64, Option<u64>)> = Vec::new();
    slots.push((0, None));
    let w = Watch { publisher_lost: false, value: shared, version: 0, slots, next_slot: 1 };
    proof {
        assert(slot_ids(w.slots@) =~= seq![0u64]);
    }
    (Publisher { marker: core::marker::PhantomData }, Subscriber { slot: 0, version: 0, value }, w)
}

impl<T> Publisher<T> {
    /// Publishes `value` under the next version; returns the wakers of the
    /// subscribers.
    pub fn send(&mut self, watch: &mut Watch<T>, value: T) -> (woken: Vec<u64>)
        ensures
            final(watch).spec_value() == value,
            final(watch).spec_version() == old(watch).spec_version().wrapping_add(1),
            final(watch).spec_lost() == old(watch).spec_lost(),
            final(watch).spec_slots() == old(watch).spec_slots(),
            woken@ == slot_wakers(old(watch).spec_slots()),
    {
        watch.value = value;
        watch.version = watch.version.wrapping_add(1);
        watch.wakers()
    }

    /// Leaves: subscribers then learn the publisher is gone. Returns their
    /// wakers.
    pub fn close(self, watch: &mut Watch<T>) -> (woken: Vec<u64>)
        ensures
            final(watch).spec_lost(),
            final(watch).spec_value() == old(watch).spec_value(),
            final(watch).spec_version() == old(watch).spec_version(),
            woken@ == slot_wakers(old(watch).spec_slots()),
    {
        watch.publisher_lost = true;
        watch.wakers()
    }
}

impl<T> Subscriber<T> {
    pub closed spec fn spec_slot(&self) -> u64 {
        self.slot
    }
}

impl<T: Clone> Subscriber<T> {

    pub closed spec fn spec_version(&self) -> u64 {
        self.version
    }

    pub closed spec fn spec_value(&self) -> T {
        self.value
    }

    /// Catches up with the shared value when its version differs from the one
    /// seen; whether it did.
    pub fn sync(&mut self, watch: &Watch<T>) -> (changed: bool)
        ensures
            changed == (old(self).spec_version() != watch.spec_version()),
            final(self).spec_version() == watch.spec_version(),
            final(self).spec_slot() == old(self).spec_slot(),
            changed ==> cloned::<T>(watch.spec_value(), final(self).spec_value()),
            !changed ==> final(self).spec_value() == old(self).spec_value(),
    {
        if watch.version != self.version {
            self.version = watch.version;
            self.value = watch.value.clone();
            return true;
        }
        false
    }

    /// The latest value, caught up first.
    pub fn borrow(&mut self, watch: &Watch<T>) -> (r: &T)
        ensures
            final(self).spec_version() == watch.spec_version(),
            *r == final(self).spec_value(),
            old(self).spec_version() != watch.spec_version() ==> cloned::<T>(watch.spec_value(), *r),
            old(self).spec_version() == watch.spec_version() ==> *r == old(self).spec_value(),
    {
        self.sync(watch);
        &self.value
    }

    /// Starts waiting for the next value.
    pub fn wait(&mut self) -> (c: SubscriberChanged)
        ensures
            !c.spec_init_waker(),
            *final(self) == *old(self),
    {
        SubscriberChanged { init_waker: false }
    }

    /// Another subscriber at the same version and value, with a slot of its
    /// own while the publisher lives.
    pub fn clone_in(&self, watch: &mut Watch<T>) -> (s: Subscriber<T>)
        ensures
            s.spec_version() == self.spec_version(),
            cloned::<T>(self.spec_value(), s.spec_value()),
            final(watch).spec_value() == old(watch).spec_value(),
            final(watch).spec_version() == old(watch).spec_version(),
            final(watch).spec_lost() == old(watch).spec_lost(),
    {
        let slot = watch.next_slot;
        watch.next_slot = watch.next_slot.wrapping_add(1);
        if !watch.publisher_lost {
            watch.slots.push((slot, None));
        }
        Subscriber { slot, version: self.version, value: self.value.clone() }
    }

    /// Leaves: its slot is dropped.
    pub fn close(self, watch: &mut Watch<T>)
        ensures
            final(watch).spec_value() == old(watch).spec_value(),
            final(watch).spec_version() == old(watch).spec_version(),
            final(watch).spec_lost() == old(watch).spec_lost(),
            !slot_ids(final(watch).spec_slots()).contains(self.spec_slot()),
    {
        let ghost s0 = watch.slots@;
        let mut kept: Vec<(u64, Option<u64>)> = Vec::new();
        let mut i: usize = 0;
        while i < watch.slots.len()
            invariant
                i <= watch.slots@.len(),
                watch.slots@ == s0,
                forall|k: int| 0 <= k < kept@.len() ==> #[trigger] kept@[k].0 != self.slot,
            decreases watch.slots@.len() - i,
        {
            let e = watch.slots[i];
            if e.0 != self.slot {
                kept.push(e);
            }
            i = i + 1;
        }
        watch.slots = kept;
        proof {
            if slot_ids(watch.slots@).contains(self.slot) {
                let k = choose|k: int| 0 <= k < slot_ids(watch.slots@).len() && #[trigger] slot_ids(watch.slots@)[k]
                    == self.slot;
                assert(watch.slots@[k].0 == self.slot);
            }
        }
    }
}

impl SubscriberChanged {
    pub closed spec fn spec_init_waker(&self) -> bool {
        self.init_waker
    }

    /// Polls for the subscriber's next value for the task `waker`: the
    /// publisher's loss, or the new value once its version changed.
    pub fn poll<T: Clone>(&mut self, sub: &mut Subscriber<T>, watch: &mut Watch<T>, waker: u64) -> (r: Option<
        Result<T, PublisherLost>,
    >)
        ensures
            old(watch).spec_lost() ==> r == Some(Err::<T, PublisherLost>(PublisherLost)),
            !old(watch).spec_lost() && old(sub).spec_version() != old(watch).spec_version() ==> (r matches Some(Ok(v))
                && cloned::<T>(final(sub).spec_value(), v)) && cloned::<T>(old(watch).spec_value(), final(sub).spec_value()),
            !old(watch).spec_lost() && old(sub).spec_version() == old(watch).spec_version() ==> r is None,
            final(watch).spec_value() == old(watch).spec_value(),
            final(watch).spec_version() == old(watch).spec_version(),
            final(watch).spec_lost() == old(watch).spec_lost(),
            final(watch).spec_next_slot() == old(watch).spec_next_slot(),
            slot_ids(final(watch).spec_slots()) == slot_ids(old(watch).spec_slots()),
            final(sub).spec_slot() == old(sub).spec_slot(),
            r is None ==> final(self).spec_init_waker(),
            r is Some ==> !final(self).spec_init_waker(),
            r is None && !old(self).spec_init_waker() ==> waker_set(
                old(watch).spec_slots(),
                final(watch).spec_slots(),
                old(sub).spec_slot(),
                Some(waker),
            ),
            r is None && old(self).spec_init_waker() ==> *final(watch) == *old(watch),
    {
        if !self.init_waker {
            watch.set_waker(sub.slot, Some(waker));
            self.init_waker = true;
        }
        if watch.publisher_lost {
            watch.set_waker(sub.slot, Some(waker));
            self.init_waker = false;
            return Some(Err(PublisherLost));
        }
        if sub.sync(watch) {
            watch.set_waker(sub.slot, Some(waker));
            self.init_waker = false;
            return Some(Ok(sub.value.clone()));
        }
        None
    }

    /// Abandons the wait: the subscriber's waker is cleared.
    pub fn cancel<T>(self, sub: &Subscriber<T>, watch: &mut Watch<T>)
        ensures
            final(watch).spec_value() == old(watch).spec_value(),
            final(watch).spec_version() == old(watch).spec_version(),
            final(watch).spec_lost() == old(watch).spec_lost(),
            !self.spec_init_waker() ==> *final(watch) == *old(watch),
            self.spec_init_waker() ==> waker_set(old(watch).spec_slots(), final(watch).spec_slots(), sub.spec_slot(), None)
                && final(watch).spec_next_slot() == old(watch).spec_next_slot(),
    {
        if self.init_waker {
            watch.set_waker(sub.slot, None);
        }
    }
}

} // verus!
