//! Data envelopes and the bounded channel that carries them.
//!
//! A channel is a FIFO queue with a capacity, a producer side and a consumer
//! side. Every envelope that was ever accepted by the channel is recorded in
//! a ghost history, oldest first; the live queue is always the suffix of that
//! history that has not been received yet. The scheduler owns both ends, so
//! all operations are ordinary `&mut` calls with exact contracts.

use vstd::prelude::*;
use std::marker::PhantomData;
use std::sync::Arc;

verus! {

/// Identifier for data that plays no named role: the default tag.
///
/// The single variant is never constructed; the type exists only to be
/// named in an envelope's type.
#[derive(Debug)]
pub enum Void {
    Phantom,
}

/// A typed data envelope: a payload `T` tagged by a zero-sized identifier `U`.
///
/// Two envelopes with the same payload type but different identifiers are
/// distinct types, which is what routes a producer's value to the right
/// reader on the consumer side.
#[derive(Debug)]
pub struct Data<T, U> {
    payload: T,
    tag: PhantomData<U>,
}

impl<T, U> Data<T, U> {
    /// The payload, for use in specifications.
    pub closed spec fn spec_payload(&self) -> T {
        self.payload
    }

    /// Wraps a payload in an envelope.
    pub fn new(payload: T) -> (r: Self)
        ensures
            r.spec_payload() == payload,
    {
        Data { payload, tag: PhantomData }
    }

    /// Read-only access to the payload.
    pub fn payload(&self) -> (r: &T)
        ensures
            *r == self.spec_payload(),
    {
        &self.payload
    }

    /// Unwraps the envelope.
    pub fn into_payload(self) -> (r: T)
        ensures
            r == self.spec_payload(),
    {
        self.payload
    }
}

/// Relies on `std::sync::Arc::clone`: the result is a new handle to the very
/// same shared value, used to fan one envelope out to several consumers.
#[verifier::external_body]
pub(crate) fn share<T>(v: &Arc<T>) -> (r: Arc<T>)
    ensures
        r == *v,
{
    Arc::clone(v)
}

/// The capacity that marks a channel as unbounded.
pub const UNBOUNDED: usize = usize::MAX;

/// A bounded FIFO channel of envelopes, both ends owned by the scheduler.
pub struct Channel<P> {
    queue: Vec<Arc<P>>,
    capacity: usize,
    tx_closed: bool,
    rx_closed: bool,
    rx_attached: bool,
    history: Ghost<Seq<Arc<P>>>,
    producer: Ghost<Option<(int, int, int)>>,
    consumer: Ghost<Option<(int, int)>>,
}

impl<P> Channel<P> {
    /// Every envelope the channel ever accepted, oldest first.
    pub closed spec fn spec_history(&self) -> Seq<Arc<P>> {
        self.history@
    }

    /// The envelopes accepted but not yet received, oldest first.
    pub closed spec fn spec_queue(&self) -> Seq<Arc<P>> {
        self.queue@
    }

    /// Every envelope already handed to the consumer, oldest first.
    pub open spec fn spec_received(&self) -> Seq<Arc<P>> {
        self.spec_history().take(self.spec_history().len() - self.spec_queue().len())
    }

    pub closed spec fn spec_capacity(&self) -> usize {
        self.capacity
    }

    pub closed spec fn spec_tx_closed(&self) -> bool {
        self.tx_closed
    }

    pub closed spec fn spec_rx_closed(&self) -> bool {
        self.rx_closed
    }

    /// Whether some actor input has claimed the consumer side.
    pub closed spec fn spec_rx_attached(&self) -> bool {
        self.rx_attached
    }

    /// The (actor, output, slot) coordinates of the one sender port.
    pub closed spec fn spec_producer(&self) -> Option<(int, int, int)> {
        self.producer@
    }

    /// The (actor, input) coordinates of the one receiver port.
    pub closed spec fn spec_consumer(&self) -> Option<(int, int)> {
        self.consumer@
    }

    /// The queue is the unreceived suffix of the history and never exceeds
    /// the capacity.
    pub open spec fn wf(&self) -> bool {
        &&& self.spec_queue().len() <= self.spec_history().len()
        &&& self.spec_queue() == self.spec_history().skip(
            self.spec_history().len() - self.spec_queue().len(),
        )
        &&& self.spec_queue().len() <= self.spec_capacity()
    }

    /// A fresh channel: `capacity` bounds the queue; `UNBOUNDED` lifts the
    /// bound for sinks that must never hold their producer back.
    pub fn new(capacity: usize) -> (r: Self)
        ensures
            r.wf(),
            r.spec_history() =~= Seq::<Arc<P>>::empty(),
            r.spec_queue() =~= Seq::<Arc<P>>::empty(),
            r.spec_capacity() == capacity,
            !r.spec_tx_closed(),
            !r.spec_rx_closed(),
            !r.spec_rx_attached(),
            r.spec_producer() is None,
            r.spec_consumer() is None,
    {
        let r = Channel {
            queue: Vec::new(),
            capacity,
            tx_closed: false,
            rx_closed: false,
            rx_attached: false,
            history: Ghost(Seq::empty()),
            producer: Ghost(None),
            consumer: Ghost(None),
        };
        proof {
            assert(r.spec_queue() =~= r.spec_history().skip(
                r.spec_history().len() - r.spec_queue().len(),
            ));
        }
        r
    }

    /// Whether a send would be refused for want of room.
    pub fn is_full(&self) -> (r: bool)
        ensures
            r == (self.spec_queue().len() >= self.spec_capacity()),
    {
        self.queue.len() >= self.capacity
    }

    /// Whether a receive could take an envelope right now.
    pub fn is_ready(&self) -> (r: bool)
        ensures
            r == (self.spec_queue().len() > 0),
    {
        self.queue.len() > 0
    }

    pub fn tx_closed(&self) -> (r: bool)
        ensures
            r == self.spec_tx_closed(),
    {
        self.tx_closed
    }

    pub fn rx_closed(&self) -> (r: bool)
        ensures
            r == self.spec_rx_closed(),
    {
        self.rx_closed
    }

    pub fn capacity(&self) -> (r: usize)
        ensures
            r == self.spec_capacity(),
    {
        self.capacity
    }

    /// Accepts one envelope. The caller has checked for room and for a live
    /// consumer; a full or abandoned channel never takes an envelope.
    pub fn push(&mut self, v: Arc<P>)
        requires
            old(self).wf(),
            old(self).spec_queue().len() < old(self).spec_capacity(),
        ensures
            final(self).wf(),
            final(self).spec_history() =~= old(self).spec_history().push(v),
            final(self).spec_queue() =~= old(self).spec_queue().push(v),
            final(self).spec_received() =~= old(self).spec_received(),
            final(self).spec_capacity() == old(self).spec_capacity(),
            final(self).spec_tx_closed() == old(self).spec_tx_closed(),
            final(self).spec_rx_closed() == old(self).spec_rx_closed(),
            final(self).spec_rx_attached() == old(self).spec_rx_attached(),
            final(self).spec_producer() == old(self).spec_producer(),
            final(self).spec_consumer() == old(self).spec_consumer(),
    {
        self.queue.push(v);
        proof {
            self.history@ = self.history@.push(v);
            assert(self.spec_queue() =~= self.spec_history().skip(
                self.spec_history().len() - self.spec_queue().len(),
            ));
        }
    }

    /// Hands the oldest envelope to the consumer.
    pub fn pop(&mut self) -> (r: Arc<P>)
        requires
            old(self).wf(),
            old(self).spec_queue().len() > 0,
        ensures
            final(self).wf(),
            r == old(self).spec_queue()[0],
            final(self).spec_queue() =~= old(self).spec_queue().skip(1),
            final(self).spec_history() =~= old(self).spec_history(),
            final(self).spec_received() =~= old(self).spec_received().push(r),
            final(self).spec_capacity() == old(self).spec_capacity(),
            final(self).spec_tx_closed() == old(self).spec_tx_closed(),
            final(self).spec_rx_closed() == old(self).spec_rx_closed(),
            final(self).spec_rx_attached() == old(self).spec_rx_attached(),
            final(self).spec_producer() == old(self).spec_producer(),
            final(self).spec_consumer() == old(self).spec_consumer(),
    {
        let r = self.queue.remove(0);
        proof {
            assert(self.spec_queue() =~= self.spec_history().skip(
                self.spec_history().len() - self.spec_queue().len(),
            ));
            assert(self.spec_received() =~= old(self).spec_received().push(r));
        }
        r
    }

    pub fn rx_attached(&self) -> (r: bool)
        ensures
            r == self.spec_rx_attached(),
    {
        self.rx_attached
    }

    /// An actor input claims the consumer side; each channel feeds one
    /// input only. `who` records which actor and input slot it is.
    pub fn attach_rx(&mut self, who: Ghost<(int, int)>)
        requires
            old(self).wf(),
        ensures
            final(self).wf(),
            final(self).spec_rx_attached(),
            final(self).spec_consumer() == Some(who@),
            final(self).spec_producer() == old(self).spec_producer(),
            final(self).spec_tx_closed() == old(self).spec_tx_closed(),
            final(self).spec_rx_closed() == old(self).spec_rx_closed(),
            final(self).spec_history() =~= old(self).spec_history(),
            final(self).spec_queue() =~= old(self).spec_queue(),
            final(self).spec_capacity() == old(self).spec_capacity(),
    {
        self.rx_attached = true;
        proof {
            self.consumer@ = Some(who@);
        }
    }

    /// Records which actor, output and fan-out slot hold the sender side.
    pub fn record_producer(&mut self, who: Ghost<(int, int, int)>)
        requires
            old(self).wf(),
        ensures
            final(self).wf(),
            final(self).spec_producer() == Some(who@),
            final(self).spec_consumer() == old(self).spec_consumer(),
            final(self).spec_rx_attached() == old(self).spec_rx_attached(),
            final(self).spec_tx_closed() == old(self).spec_tx_closed(),
            final(self).spec_rx_closed() == old(self).spec_rx_closed(),
            final(self).spec_history() =~= old(self).spec_history(),
            final(self).spec_queue() =~= old(self).spec_queue(),
            final(self).spec_capacity() == old(self).spec_capacity(),
    {
        proof {
            self.producer@ = Some(who@);
        }
    }

    /// The producer walks away: no further envelope will ever arrive.
    pub fn close_tx(&mut self)
        requires
            old(self).wf(),
        ensures
            final(self).wf(),
            final(self).spec_tx_closed(),
            final(self).spec_rx_closed() == old(self).spec_rx_closed(),
            final(self).spec_history() =~= old(self).spec_history(),
            final(self).spec_queue() =~= old(self).spec_queue(),
            final(self).spec_capacity() == old(self).spec_capacity(),
            final(self).spec_rx_attached() == old(self).spec_rx_attached(),
            final(self).spec_producer() == old(self).spec_producer(),
            final(self).spec_consumer() == old(self).spec_consumer(),
    {
        self.tx_closed = true;
    }

    /// The consumer walks away: any further send must fail.
    pub fn close_rx(&mut self)
        requires
            old(self).wf(),
        ensures
            final(self).wf(),
            final(self).spec_rx_closed(),
            final(self).spec_tx_closed() == old(self).spec_tx_closed(),
            final(self).spec_history() =~= old(self).spec_history(),
            final(self).spec_queue() =~= old(self).spec_queue(),
            final(self).spec_capacity() == old(self).spec_capacity(),
            final(self).spec_rx_attached() == old(self).spec_rx_attached(),
            final(self).spec_producer() == old(self).spec_producer(),
            final(self).spec_consumer() == old(self).spec_consumer(),
    {
        self.rx_closed = true;
    }
}

} // verus!
