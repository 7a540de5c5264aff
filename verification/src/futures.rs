//! The state of the asynchronous operations between their turns.
use crate::channel::{Receiver, Sender, Shared, SharedReceiver};
use crate::error::{Disconnected, SendError};
use crate::model::{clone_of_receive_turn, send_turn, Resume, Step, Turn, Wake};
use vstd::prelude::*;

verus! {

impl<T> Sender<T> {
    /// Broadcast a message to all receivers. If the message cap is reached, this will
    /// asynchronously wait until the queue is no longer full.
    pub fn send_async(&self, item: T) -> (future: SendFut<T>)
        ensures
            future.item() == Some(item),
            !future.is_listening(),
    {
        SendFut { item: Some(item), sender: self, listening: false }
    }
}

/// The future representing an asynchronous broadcast operation.
pub struct SendFut<'a, T> {
    item: Option<T>,
    sender: &'a Sender<T>,
    listening: bool,
}

impl<'a, T> SendFut<'a, T> {
    /// The message, until the operation is over.
    pub closed spec fn item(&self) -> Option<T> {
        self.item
    }

    /// Whether a listener for room in the channel is kept.
    pub closed spec fn is_listening(&self) -> bool {
        self.listening
    }

    /// Whether the operation is over.
    pub fn is_completed(&self) -> (completed: bool)
        ensures
            completed == (self.item() is None),
    {
        self.item.is_none()
    }

    /// Takes one turn of the operation, which must not be over. A listener for room in the channel
    /// has to be registered before.
    pub fn poll(&mut self, shared: &mut Shared<T>) -> (answer: (
        Turn<Result<(), SendError<T>>, ()>,
        Wake,
    ))
        requires
            old(shared).wf(),
            old(self).item() is Some,
        ensures
            final(shared).wf(),
            final(shared)@ == old(shared)@.send(old(self).item()->0),
            match send_turn(old(shared)@.send_outcome(old(self).item()->0)) {
                Turn::Done(result) => {
                    &&& answer.0 == Turn::<Result<(), SendError<T>>, ()>::Done(result)
                    &&& final(self).item() is None
                },
                Turn::Wait(item) => {
                    &&& answer.0 == Turn::<Result<(), SendError<T>>, ()>::Wait(())
                    &&& final(self).item() == Some(item)
                },
            },
            final(self).is_listening() == old(self).is_listening(),
            answer.1 == old(shared)@.wake(Step::Send(old(self).item()->0)),
    {
        let item = self.item.take().unwrap();
        let (turn, wake) = self.sender.send(shared, item);
        match turn {
            Turn::Done(result) => (Turn::Done(result), wake),
            Turn::Wait(item) => {
                self.item = Some(item);
                (Turn::Wait(()), wake)
            },
        }
    }

    /// Decides what follows a turn that has to wait, by whether the listener was notified meanwhile;
    /// one that was not is kept.
    pub fn suspend(&mut self, notified: bool) -> (resume: Resume)
        ensures
            resume == if notified {
                Resume::Retry
            } else {
                Resume::Pending
            },
            final(self).is_listening() == (old(self).is_listening() || !notified),
            final(self).item() == old(self).item(),
    {
        if notified {
            return Resume::Retry;
        }
        self.listening = true;
        Resume::Pending
    }
}

impl<T> Receiver<T> {
    /// Receive a broadcast message. If there are none in the queue, it will asynchronously wait
    /// until another is sent or all senders disconnect.
    pub fn recv_async(&self) -> (future: RecvFut<T>)
        ensures
            future.mailbox() == self.mailbox(),
            !future.is_listening(),
    {
        RecvFut { receiver: self, listening: false }
    }
}

impl<T> SharedReceiver<T> {
    /// Receive a broadcast message. If there are none in the queue, it will asynchronously wait
    /// until another is sent or all senders disconnect.
    pub fn recv_async(&self) -> (future: RecvFut<T>)
        ensures
            future.mailbox() == self.mailbox(),
            !future.is_listening(),
    {
        self.as_receiver().recv_async()
    }
}

/// The future representing an asynchronous receive operation.
pub struct RecvFut<'a, T> {
    receiver: &'a Receiver<T>,
    listening: bool,
}

impl<'a, T> RecvFut<'a, T> {
    /// The mailbox that it reads.
    pub closed spec fn mailbox(&self) -> usize {
        self.receiver.mailbox()
    }

    /// Whether a listener for messages is kept.
    pub closed spec fn is_listening(&self) -> bool {
        self.listening
    }

    /// Decides what follows a turn that has to wait, by whether the listener was notified meanwhile;
    /// one that was not is kept.
    pub fn suspend(&mut self, notified: bool) -> (resume: Resume)
        ensures
            resume == if notified {
                Resume::Retry
            } else {
                Resume::Pending
            },
            final(self).is_listening() == (old(self).is_listening() || !notified),
            final(self).mailbox() == old(self).mailbox(),
    {
        if notified {
            return Resume::Retry;
        }
        self.listening = true;
        Resume::Pending
    }
}

impl<'a, T: Clone> RecvFut<'a, T> {
    /// Takes one turn of the operation. A listener for messages has to be registered before.
    pub fn poll(&mut self, shared: &mut Shared<T>) -> (answer: (
        Turn<Result<T, Disconnected>, ()>,
        Wake,
    ))
        requires
            old(shared).wf(),
            old(shared)@.cursors.contains_key(old(self).mailbox()),
        ensures
            final(shared).wf(),
            final(shared)@ == old(shared)@.receive(old(self).mailbox()),
            clone_of_receive_turn(old(shared)@.receive_outcome(old(self).mailbox()), answer.0),
            *final(self) == *old(self),
            answer.1 == old(shared)@.wake(Step::Receive(old(self).mailbox())),
    {
        self.receiver.recv(shared)
    }
}

} // verus!
