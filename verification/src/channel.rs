use vstd::prelude::*;
use std::collections::VecDeque;

verus! {

/// The state that the senders and the receiver of a channel share: the items
/// sent and not yet taken by the receiver, and the number of live senders.
/// `sent` records every item ever sent, in order.
pub struct Inner<T> {
    queue: VecDeque<T>,
    senders: usize,
    sent: Ghost<Seq<T>>,
}

/// What the receiver learns when it looks at the shared state.
pub enum RecvStep<T> {
    /// The next item in the channel.
    Item(T),
    /// Nothing is pending and no sender is left: the channel is closed.
    Closed,
    /// Nothing is pending but some sender is alive: wait for a notification.
    Wait,
}

impl<T> Inner<T> {
    pub closed spec fn queue(&self) -> Seq<T> {
        self.queue@
    }

    pub closed spec fn senders(&self) -> nat {
        self.senders as nat
    }

    /// Every item sent so far, in the order of the `send` calls.
    pub closed spec fn sent(&self) -> Seq<T> {
        self.sent@
    }

    /// The shared state of a new channel: one sender, nothing queued, nothing
    /// sent.
    pub fn new() -> (s: Self)
        ensures
            s.queue() == Seq::<T>::empty(),
            s.senders() == 1,
            s.sent() == Seq::<T>::empty(),
    {
        Inner { queue: VecDeque::new(), senders: 1, sent: Ghost(Seq::empty()) }
    }

    /// Appends an item at the back of the queue.
    pub fn send(&mut self, t: T)
        ensures
            final(self).queue() == old(self).queue().push(t),
            final(self).senders() == old(self).senders(),
            final(self).sent() == old(self).sent().push(t),
            forall|rx: RecvBuffer<T>| #[trigger] fifo(rx, *old(self)) ==> fifo(rx, *final(self)),
    {
        self.queue.push_back(t);
        self.sent = Ghost(self.sent@.push(t));
        assert forall|rx: RecvBuffer<T>| #[trigger] fifo(rx, *old(self)) implies fifo(rx, *self) by {
            assert(rx.received() + pending(rx, *self) =~= (rx.received() + pending(
                rx,
                *old(self),
            )).push(t));
        }
    }

    /// Records one more sender (a sender was cloned).
    pub fn add_sender(&mut self)
        requires
            old(self).senders() < usize::MAX,
        ensures
            final(self).queue() == old(self).queue(),
            final(self).senders() == old(self).senders() + 1,
            final(self).sent() == old(self).sent(),
    {
        self.senders = self.senders + 1;
    }

    /// Records that a sender is gone; tells whether it was the last one, in
    /// which case a waiting receiver must be woken.
    pub fn remove_sender(&mut self) -> (was_last: bool)
        requires
            old(self).senders() > 0,
        ensures
            final(self).queue() == old(self).queue(),
            final(self).senders() == old(self).senders() - 1,
            final(self).sent() == old(self).sent(),
            was_last == (final(self).senders() == 0),
    {
        self.senders = self.senders - 1;
        self.senders == 0
    }

    /// The number of live senders.
    pub fn sender_count(&self) -> (n: usize)
        ensures
            n == self.senders(),
    {
        self.senders
    }
}

/// The receiving end's own state: items it took from the shared queue in one
/// go and has not handed out yet. `received` records every item handed out,
/// in order.
pub struct RecvBuffer<T> {
    buffer: VecDeque<T>,
    received: Ghost<Seq<T>>,
}

/// The items a receiver will get, in order: its buffer, then the shared queue.
pub open spec fn pending<T>(rx: RecvBuffer<T>, inner: Inner<T>) -> Seq<T> {
    rx.buffered() + inner.queue()
}

/// First in, first out: the items handed out, followed by the items pending,
/// are exactly the items sent, in the order they were sent. A new channel
/// has it, and every operation keeps it.
pub open spec fn fifo<T>(rx: RecvBuffer<T>, inner: Inner<T>) -> bool {
    rx.received() + pending(rx, inner) == inner.sent()
}

impl<T> RecvBuffer<T> {
    pub closed spec fn buffered(&self) -> Seq<T> {
        self.buffer@
    }

    /// Every item handed out so far, in order.
    pub closed spec fn received(&self) -> Seq<T> {
        self.received@
    }

    pub fn new() -> (rx: Self)
        ensures
            rx.buffered() == Seq::<T>::empty(),
            rx.received() == Seq::<T>::empty(),
    {
        RecvBuffer { buffer: VecDeque::new(), received: Ghost(Seq::empty()) }
    }

    /// The buffered items, front first.
    pub fn buffer(&self) -> (b: &VecDeque<T>)
        ensures
            b@ == self.buffered(),
    {
        &self.buffer
    }

    /// Takes the next item from the buffer, without looking at the shared
    /// state.
    pub fn recv_buffered(&mut self) -> (r: Option<T>)
        ensures
            old(self).buffered().len() == 0 ==> r is None && final(self).buffered() == old(self).buffered(),
            old(self).buffered().len() > 0 ==> r == Some(old(self).buffered()[0]) && final(self).buffered() == old(self).buffered().drop_first(),
            final(self).received() == match r {
                Some(t) => old(self).received().push(t),
                None => old(self).received(),
            },
            forall|inner: Inner<T>| #[trigger] fifo(*old(self), inner) ==> fifo(*final(self), inner),
    {
        let r = self.buffer.pop_front();
        if let Some(t) = &r {
            self.received = Ghost(self.received@.push(*t));
        }
        assert forall|inner: Inner<T>| #[trigger] fifo(*old(self), inner) implies fifo(*self, inner) by {
            if old(self).buffered().len() > 0 {
                assert(self.received() + pending(*self, inner) =~= old(self).received() + pending(
                    *old(self),
                    inner,
                ));
            }
        }
        r
    }

    /// One look at the shared state, made while holding its lock.
    ///
    /// A buffered item is handed out first. Otherwise the front of the shared
    /// queue is handed out and the rest of the queue moves into the buffer, so
    /// that the next calls need not take the lock. With nothing pending the
    /// channel is closed when no sender is left, and the receiver must wait
    /// otherwise.
    pub fn recv_locked(&mut self, inner: &mut Inner<T>) -> (r: RecvStep<T>)
        ensures
            final(inner).senders() == old(inner).senders(),
            match r {
                RecvStep::Item(t) => {
                    &&& pending(*old(self), *old(inner)).len() > 0
                    &&& t == pending(*old(self), *old(inner))[0]
                    &&& pending(*final(self), *final(inner)) == pending(
                        *old(self),
                        *old(inner),
                    ).drop_first()
                },
                RecvStep::Closed => {
                    &&& pending(*old(self), *old(inner)).len() == 0
                    &&& old(inner).senders() == 0
                    &&& final(self).buffered() == old(self).buffered()
                    &&& final(inner).queue() == old(inner).queue()
                },
                RecvStep::Wait => {
                    &&& pending(*old(self), *old(inner)).len() == 0
                    &&& old(inner).senders() > 0
                    &&& final(self).buffered() == old(self).buffered()
                    &&& final(inner).queue() == old(inner).queue()
                },
            },
            old(self).buffered().len() > 0 ==> final(self).buffered() == old(self).buffered().drop_first() && final(inner).queue() == old(inner).queue(),
            old(self).buffered().len() == 0 && old(inner).queue().len() > 0 ==> final(self).buffered() == old(inner).queue().drop_first() && final(inner).queue()
                == Seq::<T>::empty(),
            final(inner).sent() == old(inner).sent(),
            final(self).received() == match r {
                RecvStep::Item(t) => old(self).received().push(t),
                _ => old(self).received(),
            },
            fifo(*old(self), *old(inner)) ==> fifo(*final(self), *final(inner)),
    {
        if let Some(t) = self.buffer.pop_front() {
            self.received = Ghost(self.received@.push(t));
            assert(pending(*self, *inner) =~= pending(*old(self), *old(inner)).drop_first());
            assert(self.received() + pending(*self, *inner) =~= old(self).received() + pending(
                *old(self),
                *old(inner),
            ));
            return RecvStep::Item(t);
        }
        match inner.queue.pop_front() {
            Some(t) => {
                if inner.queue.len() > 0 {
                    std::mem::swap(&mut self.buffer, &mut inner.queue);
                }
                self.received = Ghost(self.received@.push(t));
                assert(pending(*self, *inner) =~= pending(*old(self), *old(inner)).drop_first());
                assert(self.received() + pending(*self, *inner) =~= old(self).received() + pending(
                    *old(self),
                    *old(inner),
                ));
                RecvStep::Item(t)
            },
            None => {
                if inner.senders == 0 {
                    RecvStep::Closed
                } else {
                    RecvStep::Wait
                }
            },
        }
    }
}

/// The order of delivery: on a channel that keeps `fifo`, the items handed
/// out are the first items sent, in the order they were sent, and the items
/// pending are the rest, in order. A new channel's shared state and receiver
/// buffer keep `fifo`.
pub proof fn lemma_fifo_order<T>(rx: RecvBuffer<T>, inner: Inner<T>)
    requires
        fifo(rx, inner),
    ensures
        rx.received() == inner.sent().take(rx.received().len() as int),
        pending(rx, inner) == inner.sent().skip(rx.received().len() as int),
        rx.received().len() + pending(rx, inner).len() == inner.sent().len(),
{
    let n = rx.received().len() as int;
    assert(inner.sent().take(n) =~= rx.received());
    assert(inner.sent().skip(n) =~= pending(rx, inner));
}

/// The shared state and the receiver buffer of a new channel keep `fifo`.
pub proof fn lemma_new_channel_fifo<T>(rx: RecvBuffer<T>, inner: Inner<T>)
    requires
        rx.buffered() == Seq::<T>::empty(),
        rx.received() == Seq::<T>::empty(),
        inner.queue() == Seq::<T>::empty(),
        inner.sent() == Seq::<T>::empty(),
    ensures
        fifo(rx, inner),
{
    assert(rx.received() + pending(rx, inner) =~= inner.sent());
}

} // verus!
