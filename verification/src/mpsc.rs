//! The state of a single-threaded channel: the queue of messages sent and
//! not yet received, and whether the channel is closed. Senders and the
//! receiver share one such state.

use vstd::prelude::*;
use std::collections::VecDeque;

verus! {

/// A message that could not be sent because the channel is closed.
#[derive(Debug)]
pub struct SendError<T> {
    pub value: T,
}

#[derive(Clone, Copy, Debug, PartialEq, Eq, Structural)]
pub enum ReceiveError {
    /// No message is waiting and the channel is open.
    Empty,
    /// No message is waiting and the channel is closed.
    Closed,
}

pub struct Channel<T> {
    queue_: VecDeque<T>,
    channel_is_closed_: bool,
}

impl<T> Channel<T> {
    /// The messages waiting, oldest first.
    pub closed spec fn queue(&self) -> Seq<T> {
        self.queue_@
    }

    pub closed spec fn closed(&self) -> bool {
        self.channel_is_closed_
    }

    /// An open channel with no message.
    pub fn new() -> (r: Self)
        ensures
            r.queue() == Seq::<T>::empty(),
            !r.closed(),
    {
        Channel { queue_: VecDeque::new(), channel_is_closed_: false }
    }

    /// Queues `value`; fails, giving it back, when the channel is closed.
    pub fn send(&mut self, value: T) -> (r: Result<(), SendError<T>>)
        ensures
            final(self).closed() == old(self).closed(),
            old(self).closed() ==> r == Err::<(), SendError<T>>(SendError { value })
                && final(self).queue() == old(self).queue(),
            !old(self).closed() ==> r is Ok && final(self).queue() == old(self).queue().push(value),
    {
        if self.channel_is_closed_ {
            return Err(SendError { value: value });
        }
        self.queue_.push_back(value);
        Ok(())
    }

    pub fn is_closed(&self) -> (r: bool)
        ensures
            r == self.closed(),
    {
        self.channel_is_closed_
    }

    /// Takes the oldest waiting message. With none waiting, fails with
    /// `Closed` on a closed channel and `Empty` on an open one.
    pub fn recv(&mut self) -> (r: Result<T, ReceiveError>)
        ensures
            final(self).closed() == old(self).closed(),
            old(self).queue().len() > 0 ==> r == Ok::<T, ReceiveError>(old(self).queue()[0])
                && final(self).queue() == old(self).queue().drop_first(),
            old(self).queue().len() == 0 ==> final(self).queue() == old(self).queue() && r == Err::<
                T,
                ReceiveError,
            >(if old(self).closed() {
                ReceiveError::Closed
            } else {
                ReceiveError::Empty
            }),
    {
        if self.queue_.len() > 0 {
            match self.queue_.pop_front() {
                Some(v) => {
                    return Ok(v);
                },
                None => {},
            }
        }
        if self.channel_is_closed_ {
            return Err(ReceiveError::Closed);
        }
        Err(ReceiveError::Empty)
    }

    /// Closes the channel; the waiting messages stay.
    pub fn close(&mut self)
        ensures
            final(self).closed(),
            final(self).queue() == old(self).queue(),
    {
        self.channel_is_closed_ = true;
    }
}

} // verus!
