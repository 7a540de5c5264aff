//! The channel, its senders and its receivers.
use crate::error::{Disconnected, SendError, TrySendError};
use crate::model::{
    clone_of_answer, clone_of_receive_turn, lemma_held_alone, lemma_receive, lemma_release,
    lemma_same_places, lemma_send, lemma_subscribe, lemma_subscribe_held_alone, send_turn,
    ChannelState, Step, Turn, Wake,
};
use crate::queue::{
    queue_closed, queue_items, queue_limit, queue_pop, queue_push, queue_unbounded,
};
use crate::slab::Slab;
use concurrent_queue::ConcurrentQueue;
use std::marker::PhantomData;
use vstd::prelude::*;

verus! {

/// The messages that wait for the receivers of one mailbox.
struct Mailbox {
    /// The slots of the messages, the next one first.
    queue: ConcurrentQueue<usize>,
    /// How many receivers share the mailbox.
    handles: usize,
}

/// A message that some mailbox has yet to give out.
struct Message<T> {
    item: T,
    /// How many mailboxes have yet to give it out.
    holders: usize,
}

/// What the senders and receivers of a channel share.
pub struct Shared<T> {
    receiver_queues: Slab<Mailbox>,
    messages: Slab<Message<T>>,
    n_senders: usize,
    len: usize,
    capacity: Option<usize>,
    /// Every message broadcast so far.
    log: Ghost<Seq<T>>,
    /// The slot that each of them was given.
    slots: Ghost<Seq<usize>>,
}

impl<T> View for Shared<T> {
    type V = ChannelState<T>;

    closed spec fn view(&self) -> ChannelState<T> {
        ChannelState {
            capacity: self.capacity,
            log: self.log@,
            cursors: self.receiver_queues@.map_values(
                |mailbox: Mailbox| self.log@.len() - queue_items(mailbox.queue).len(),
            ),
            handles: self.receiver_queues@.map_values(|mailbox: Mailbox| mailbox.handles as int),
            senders: self.n_senders as int,
            len: self.len as int,
        }
    }
}

impl<T> Shared<T> {
    /// The mailbox is open and holds the slots of the latest messages.
    spec fn mailbox_wf(&self, mailbox: Mailbox) -> bool {
        let items = queue_items(mailbox.queue);
        &&& !queue_closed(mailbox.queue)
        &&& queue_limit(mailbox.queue) is None
        &&& items.len() <= self.slots@.len()
        &&& items == self.slots@.skip(self.slots@.len() - items.len())
    }

    /// Message `n` is in its slot, with the number of its holders.
    spec fn message_wf(&self, n: int) -> bool {
        let slot = self.slots@[n];
        &&& self.messages@.contains_key(slot)
        &&& self.messages@[slot].item == self.log@[n]
        &&& self.messages@[slot].holders == self@.holders(n).len()
    }

    /// What every operation keeps. The state is valid, so what holds of valid
    /// states holds of every channel in use.
    pub open spec fn wf(&self) -> bool {
        &&& self@.valid()
        &&& self.is_consistent()
    }

    /// Queues, slots and counts stand for the state.
    pub closed spec fn is_consistent(&self) -> bool {
        &&& self.receiver_queues.wf()
        &&& self.messages.wf()
        &&& self.slots@.len() == self.log@.len()
        &&& self.len == self.messages@.dom().len()
        &&& forall|m: usize| #[trigger]
            self.receiver_queues@.contains_key(m) ==> self.mailbox_wf(self.receiver_queues@[m])
        &&& forall|n: int| #[trigger] self@.is_outstanding(n) ==> self.message_wf(n)
        &&& forall|a: int, b: int|
            #[trigger] self@.is_outstanding(a) && #[trigger] self@.is_outstanding(b) && a != b
                ==> self.slots@[a] != self.slots@[b]
        &&& forall|slot: usize| #[trigger]
            self.messages@.contains_key(slot) ==> exists|n: int| #[trigger]
                self@.is_outstanding(n) && self.slots@[n] == slot
    }

    /// The number of senders.
    pub fn n_senders(&self) -> (count: usize)
        ensures
            count == self@.senders,
    {
        self.n_senders
    }

    /// Whether the receiver's mailbox is open on this channel.
    pub fn has_receiver(&self, receiver: &Receiver<T>) -> (found: bool)
        ensures
            found == self@.cursors.contains_key(receiver.mailbox()),
    {
        self.receiver_queues.contains(receiver.mailbox)
    }

    /// How many receivers share the receiver's mailbox.
    pub fn n_handles(&self, receiver: &Receiver<T>) -> (count: usize)
        requires
            self@.cursors.contains_key(receiver.mailbox()),
        ensures
            count == self@.handles[receiver.mailbox()],
    {
        assert(self.receiver_queues@.contains_key(receiver.mailbox));
        self.receiver_queues.get(receiver.mailbox).handles
    }

    /// A message that was put in a free slot and pushed to every mailbox is sent.
    proof fn lemma_sent(before: Self, after: Self, item: T, slot: usize)
        requires
            before.wf(),
            before@.send_outcome(item) is Ok,
            before.len < usize::MAX,
            after.receiver_queues.wf(),
            after.messages.wf(),
            after.receiver_queues@.dom() == before.receiver_queues@.dom(),
            forall|m: usize| #[trigger]
                before.receiver_queues@.contains_key(m) ==> {
                    let queue = after.receiver_queues@[m].queue;
                    &&& after.receiver_queues@[m].handles == before.receiver_queues@[m].handles
                    &&& queue_items(queue) == queue_items(before.receiver_queues@[m].queue).push(
                        slot,
                    )
                    &&& !queue_closed(queue)
                    &&& queue_limit(queue) is None
                },
            !before.messages@.contains_key(slot),
            after.messages@ == before.messages@.insert(slot, after.messages@[slot]),
            after.messages@[slot].item == item,
            after.messages@[slot].holders == before@.receivers(),
            after.n_senders == before.n_senders,
            after.len == before.len + 1,
            after.capacity == before.capacity,
            after.log@ == before.log@.push(item),
            after.slots@ == before.slots@.push(slot),
        ensures
            after.wf(),
            after@ == before@.send(item),
    {
        lemma_send(before@, item);
        before.messages.lemma_finite();
        assert(after.messages@.dom() =~= before.messages@.dom().insert(slot));
        assert(after@ =~= before@.send(item));
        let newest = before.log@.len() as int;
        assert(before@.send(item).outstanding().contains(newest));
        assert forall|n: int| #[trigger] after@.is_outstanding(n) implies n == newest
            || before@.is_outstanding(n) by {
            assert(before@.send(item).outstanding().contains(n));
        }
        assert forall|n: int| before@.is_outstanding(n) implies #[trigger] after@.is_outstanding(
            n,
        ) by {
            assert(before@.outstanding().contains(n));
            assert(before@.send(item).outstanding().contains(n));
        }
        assert forall|m: usize| #[trigger]
            after.receiver_queues@.contains_key(m) implies after.mailbox_wf(
            after.receiver_queues@[m],
        ) by {
            assert(before.mailbox_wf(before.receiver_queues@[m]));
            let items = queue_items(before.receiver_queues@[m].queue);
            assert(before.slots@.skip(before.slots@.len() - items.len()).push(slot)
                =~= after.slots@.skip(before.slots@.len() - items.len()));
        }
        assert forall|n: int| #[trigger] after@.is_outstanding(n) implies after.message_wf(
            n,
        ) by {
            assert(after@.holders(n) == before@.holders(n));
            if n != newest {
                assert(before.message_wf(n));
            }
        }
        assert forall|a: int, b: int|
            #[trigger] after@.is_outstanding(a) && #[trigger] after@.is_outstanding(b) && a
                != b implies after.slots@[a] != after.slots@[b] by {
            if a != newest {
                assert(before.message_wf(a));
            }
            if b != newest {
                assert(before.message_wf(b));
            }
        }
        assert forall|s: usize| #[trigger]
            after.messages@.contains_key(s) implies exists|n: int| #[trigger]
            after@.is_outstanding(n) && after.slots@[n] == s by {
            if s == slot {
                assert(after@.is_outstanding(newest) && after.slots@[newest] == s);
            } else {
                assert(before.messages@.contains_key(s));
                let n = choose|n: int| #[trigger]
                    before@.is_outstanding(n) && before.slots@[n] == s;
                assert(after@.is_outstanding(n) && after.slots@[n] == s);
            }
        }
    }
}

/// What a receiver leaves behind.
#[derive(Debug)]
pub struct Departure<T> {
    /// Who has to be woken.
    pub wake: Wake,
    /// The messages that left the channel unread, because no other mailbox holds them.
    pub unread: Vec<T>,
}

/// A message that a mailbox has given up.
enum Popped<T> {
    /// No other mailbox holds it.
    Last(T),
    /// It stays in its slot for other mailboxes.
    Held(usize),
}

impl<T> Shared<T> {
    /// A message that left the queue of one mailbox, and its slot if no other
    /// mailbox holds it, is given up by that mailbox.
    proof fn lemma_popped(before: Self, after: Self, mailbox: usize)
        requires
            before.wf(),
            before@.cursors.contains_key(mailbox),
            before@.cursors[mailbox] < before@.log.len(),
            after.receiver_queues.wf(),
            after.messages.wf(),
            after.receiver_queues@ == before.receiver_queues@.insert(
                mailbox,
                after.receiver_queues@[mailbox],
            ),
            ({
                let was = before.receiver_queues@[mailbox];
                let is = after.receiver_queues@[mailbox];
                &&& queue_items(is.queue) == queue_items(was.queue).drop_first()
                &&& is.handles == was.handles
                &&& queue_closed(is.queue) == queue_closed(was.queue)
                &&& queue_limit(is.queue) == queue_limit(was.queue)
            }),
            ({
                let slot = before.slots@[before@.cursors[mailbox]];
                if before@.is_final_receive(mailbox) {
                    after.messages@ == before.messages@.remove(slot)
                } else {
                    &&& after.messages@ == before.messages@.insert(slot, after.messages@[slot])
                    &&& after.messages@[slot].item == before.messages@[slot].item
                    &&& after.messages@[slot].holders == before.messages@[slot].holders - 1
                }
            }),
            after.n_senders == before.n_senders,
            after.len == if before@.is_final_receive(mailbox) {
                before.len - 1
            } else {
                before.len as int
            },
            after.capacity == before.capacity,
            after.log == before.log,
            after.slots == before.slots,
        ensures
            after.wf(),
            after@ == before@.receive(mailbox),
    {
        let n = before@.cursors[mailbox];
        let slot = before.slots@[n];
        lemma_receive(before@, mailbox);
        assert(before.receiver_queues@.contains_key(mailbox));
        assert(before.mailbox_wf(before.receiver_queues@[mailbox]));
        assert(after@ =~= before@.receive(mailbox));
        assert forall|i: int| #[trigger] after@.is_outstanding(i) implies before@.is_outstanding(
            i,
        ) && (before@.is_final_receive(mailbox) ==> i != n) by {
            assert(after@.outstanding().contains(i));
            assert(before@.outstanding().contains(i));
        }
        assert forall|i: int|
            before@.is_outstanding(i) && (before@.is_final_receive(mailbox) ==> i
                != n) implies #[trigger] after@.is_outstanding(i) by {
            assert(before@.outstanding().contains(i));
            assert(after@.outstanding().contains(i));
        }
        assert forall|m: usize| #[trigger]
            after.receiver_queues@.contains_key(m) implies after.mailbox_wf(
            after.receiver_queues@[m],
        ) by {
            assert(before.mailbox_wf(before.receiver_queues@[m]));
            if m == mailbox {
                let items = queue_items(before.receiver_queues@[m].queue);
                assert(before.slots@.skip(before.slots@.len() - items.len()).drop_first()
                    =~= before.slots@.skip(before.slots@.len() - items.len() + 1));
            }
        }
        assert(before.message_wf(n));
        before.messages.lemma_finite();
        if before@.is_final_receive(mailbox) {
            assert(after.messages@.dom() =~= before.messages@.dom().remove(slot));
        } else {
            assert(after.messages@.dom() =~= before.messages@.dom());
        }
        assert forall|i: int| #[trigger] after@.is_outstanding(i) implies after.message_wf(i) by {
            assert(before.message_wf(i));
            if i != n {
                assert(before.slots@[i] != slot);
                assert(after@.holders(i) == before@.holders(i));
            }
        }
        assert forall|s: usize| #[trigger]
            after.messages@.contains_key(s) implies exists|i: int| #[trigger]
            after@.is_outstanding(i) && after.slots@[i] == s by {
            assert(before.messages@.contains_key(s));
            let i = choose|i: int| #[trigger] before@.is_outstanding(i) && before.slots@[i] == s;
            assert(after@.is_outstanding(i) && after.slots@[i] == s);
        }
    }

    /// With another number of senders the channel is otherwise the same.
    proof fn lemma_senders(before: Self, after: Self)
        requires
            before.wf(),
            after == (Shared { n_senders: after.n_senders, ..before }),
        ensures
            after.wf(),
            after@ == (ChannelState { senders: after.n_senders as int, ..before@ }),
    {
        assert(after@ =~= ChannelState { senders: after.n_senders as int, ..before@ });
        lemma_same_places(after@, before@);
        Self::lemma_same_messages(before, after);
    }

    /// With another number of receivers at a mailbox the channel is otherwise the same.
    proof fn lemma_handles(before: Self, after: Self, mailbox: usize)
        requires
            before.wf(),
            before@.cursors.contains_key(mailbox),
            after.receiver_queues.wf(),
            after == (Shared { receiver_queues: after.receiver_queues, ..before }),
            after.receiver_queues@ == before.receiver_queues@.insert(
                mailbox,
                after.receiver_queues@[mailbox],
            ),
            after.receiver_queues@[mailbox].queue == before.receiver_queues@[mailbox].queue,
            after.receiver_queues@[mailbox].handles >= 1,
        ensures
            after.wf(),
            after@ == (ChannelState {
                handles: before@.handles.insert(
                    mailbox,
                    after.receiver_queues@[mailbox].handles as int,
                ),
                ..before@
            }),
    {
        let state = ChannelState {
            handles: before@.handles.insert(
                mailbox,
                after.receiver_queues@[mailbox].handles as int,
            ),
            ..before@
        };
        assert(before.receiver_queues@.contains_key(mailbox));
        assert(after@ =~= state);
        assert(state.handles.dom() =~= before@.handles.dom());
        lemma_same_places(after@, before@);
        Self::lemma_same_messages(before, after);
    }

    /// Where log, slots, messages and their holders stay, so does what ties them
    /// together.
    proof fn lemma_same_messages(before: Self, after: Self)
        requires
            before.wf(),
            after.log == before.log,
            after.slots == before.slots,
            after.messages == before.messages,
            after@.outstanding() == before@.outstanding(),
            forall|n: int| n < before.log@.len() ==> #[trigger] after@.holders(n)
                == before@.holders(n),
        ensures
            forall|n: int| #[trigger] after@.is_outstanding(n) ==> after.message_wf(n),
            forall|a: int, b: int|
                #[trigger] after@.is_outstanding(a) && #[trigger] after@.is_outstanding(b) && a != b
                    ==> after.slots@[a] != after.slots@[b],
            forall|slot: usize| #[trigger]
                after.messages@.contains_key(slot) ==> exists|n: int| #[trigger]
                    after@.is_outstanding(n) && after.slots@[n] == slot,
    {
        assert forall|n: int| #[trigger]
            after@.is_outstanding(n) implies before@.is_outstanding(n) by {
            assert(after@.outstanding().contains(n));
            assert(before@.outstanding().contains(n));
        }
        assert forall|n: int| #[trigger] after@.is_outstanding(n) implies after.message_wf(n) by {
            assert(before.message_wf(n));
            assert(after@.holders(n) == before@.holders(n));
        }
        assert forall|slot: usize| #[trigger]
            after.messages@.contains_key(slot) implies exists|n: int| #[trigger]
            after@.is_outstanding(n) && after.slots@[n] == slot by {
            let n = choose|n: int| #[trigger] before@.is_outstanding(n) && before.slots@[n] == slot;
            assert(before@.outstanding().contains(n));
            assert(after@.outstanding().contains(n));
            assert(after@.is_outstanding(n) && after.slots@[n] == slot);
        }
    }

    /// Opens a mailbox with one receiver.
    fn subscribe(&mut self) -> (mailbox: usize)
        requires
            old(self).wf(),
        ensures
            final(self).wf(),
            !old(self)@.cursors.contains_key(mailbox),
            final(self)@ == old(self)@.subscribe(mailbox),
    {
        let ghost before = *self;
        let queue = queue_unbounded();
        let mailbox = self.receiver_queues.insert(Mailbox { queue, handles: 1 });
        // One more mailbox still fits the count.
        let _n_receivers = self.receiver_queues.len();
        proof {
            assert(before@.cursors.dom() =~= before.receiver_queues@.dom());
            lemma_subscribe(before@, mailbox);
            assert(self@ =~= before@.subscribe(mailbox));
            Self::lemma_same_messages(before, *self);
            assert forall|m: usize| #[trigger]
                self.receiver_queues@.contains_key(m) implies self.mailbox_wf(
                self.receiver_queues@[m],
            ) by {
                if m == mailbox {
                    assert(Seq::<usize>::empty() =~= self.slots@.skip(self.slots@.len() as int));
                } else {
                    assert(before.mailbox_wf(before.receiver_queues@[m]));
                }
            }
        }
        mailbox
    }

    /// Takes one receiver from the mailbox, which closes with its last receiver.
    fn release(&mut self, mailbox: usize) -> (departure: Departure<T>)
        requires
            old(self).wf(),
            old(self)@.cursors.contains_key(mailbox),
        ensures
            final(self).wf(),
            final(self)@ == old(self)@.release(mailbox),
            departure.wake == old(self)@.wake(Step::Release(mailbox)),
            departure.unread@ == old(self)@.left_unread(mailbox),
    {
        let ghost before = *self;
        let mut unread: Vec<T> = Vec::new();
        assert(before.receiver_queues@.contains_key(mailbox));
        let handles = self.receiver_queues.get(mailbox).handles;
        if handles != 1 {
            self.receiver_queues.get_mut(mailbox).handles = handles - 1;
            proof {
                Self::lemma_handles(before, *self, mailbox);
                assert(self@ =~= before@.release(mailbox));
            }
            return Departure { wake: Wake::Nobody, unread };
        }
        proof {
            lemma_held_alone(before@, mailbox);
            assert(self@.cursors =~= before@.cursors.insert(mailbox, before@.cursors[mailbox]));
        }
        let mut more = true;
        while more
            invariant
                self.wf(),
                before.wf(),
                before@.cursors.contains_key(mailbox),
                before@.has_one_handle(mailbox),
                self@ == (ChannelState {
                    cursors: before@.cursors.insert(mailbox, self@.cursors[mailbox]),
                    len: before@.len - unread@.len(),
                    ..before@
                }),
                before@.cursors[mailbox] <= self@.cursors[mailbox] <= self@.log.len(),
                !more ==> self@.cursors[mailbox] == self@.log.len(),
                unread@.len() + self@.held_alone(mailbox) == before@.held_alone(mailbox),
                self@.held_alone(mailbox) > 0 ==> self@.cursors[mailbox]
                    == before@.cursors[mailbox] + unread@.len(),
                unread@.len() <= before@.backlog(mailbox).len(),
                unread@ == before@.backlog(mailbox).take(unread@.len() as int),
            decreases
                self@.log.len() - self@.cursors[mailbox],
                if more {
                    1int
                } else {
                    0int
                },
        {
            let ghost popping = self@;
            proof {
                lemma_held_alone(popping, mailbox);
            }
            match self.pop_message(mailbox) {
                Some(Popped::Last(item)) => {
                    proof {
                        lemma_held_alone(self@, mailbox);
                        let n = unread@.len() as int;
                        assert(before@.backlog(mailbox).take(n).push(item)
                            =~= before@.backlog(mailbox).take(n + 1));
                    }
                    unread.push(item);
                },
                Some(Popped::Held(_)) => {},
                None => {
                    more = false;
                },
            }
            assert(self@.cursors =~= before@.cursors.insert(mailbox, self@.cursors[mailbox]));
        }
        let ghost drained = *self;
        self.receiver_queues.remove(mailbox);
        proof {
            lemma_held_alone(drained@, mailbox);
            lemma_release(drained@, mailbox);
            assert(self@ =~= drained@.release(mailbox));
            Self::lemma_same_messages(drained, *self);
            assert forall|m: usize| #[trigger]
                self.receiver_queues@.contains_key(m) implies self.mailbox_wf(
                self.receiver_queues@[m],
            ) by {
                assert(drained.mailbox_wf(drained.receiver_queues@[m]));
            }
            assert(self@ =~= before@.release(mailbox));
            assert(self@.cursors.dom() =~= self.receiver_queues@.dom());
            assert(self@.cursors.dom() =~= before@.cursors.dom().remove(mailbox));
        }
        let wake = if self.receiver_queues.len() == 0 {
            Wake::Senders(usize::MAX)
        } else if unread.len() > 0 {
            Wake::MoreSenders(unread.len())
        } else {
            Wake::Nobody
        };
        Departure { wake, unread }
    }

    /// Takes the next message out of the mailbox.
    fn pop_message(&mut self, mailbox: usize) -> (popped: Option<Popped<T>>)
        requires
            old(self).wf(),
            old(self)@.cursors.contains_key(mailbox),
        ensures
            final(self).wf(),
            popped is None <==> old(self)@.cursors[mailbox] >= old(self)@.log.len(),
            final(self)@ == old(self)@.receive(mailbox),
            match popped {
                Some(Popped::Last(item)) => {
                    &&& old(self)@.is_final_receive(mailbox)
                    &&& item == old(self)@.log[old(self)@.cursors[mailbox]]
                },
                Some(Popped::Held(slot)) => {
                    &&& !old(self)@.is_final_receive(mailbox)
                    &&& final(self).messages@.contains_key(slot)
                    &&& final(self).messages@[slot].item == old(self)@.log[old(
                        self,
                    )@.cursors[mailbox]]
                },
                None => true,
            },
    {
        let ghost before = *self;
        let ghost n = before@.cursors[mailbox];
        assert(before.receiver_queues@.contains_key(mailbox));
        assert(before.mailbox_wf(before.receiver_queues@[mailbox]));
        match queue_pop(&mut self.receiver_queues.get_mut(mailbox).queue) {
            Some(slot) => {
                proof {
                    lemma_receive(before@, mailbox);
                    assert(before.message_wf(n));
                    assert(slot == before.slots@[n]);
                }
                let holders = self.messages.get(slot).holders;
                if holders == 1 {
                    let message = self.messages.remove(slot);
                    self.len = self.len - 1;
                    proof {
                        Self::lemma_popped(before, *self, mailbox);
                    }
                    Some(Popped::Last(message.item))
                } else {
                    self.messages.get_mut(slot).holders = holders - 1;
                    proof {
                        Self::lemma_popped(before, *self, mailbox);
                    }
                    Some(Popped::Held(slot))
                }
            },
            None => {
                proof {
                    assert(self@ =~= before@);
                    assert forall|m: usize| #[trigger]
                        self.receiver_queues@.contains_key(m) implies self.mailbox_wf(
                        self.receiver_queues@[m],
                    ) by {
                        assert(before.mailbox_wf(before.receiver_queues@[m]));
                    }
                    assert forall|i: int| #[trigger]
                        self@.is_outstanding(i) implies self.message_wf(i) by {
                        assert(before.message_wf(i));
                    }
                }
                None
            },
        }
    }
}

/// The broadcaster side of the channel.
pub struct Sender<T> {
    channel: PhantomData<T>,
}

impl<T> Sender<T> {
    /// Try to broadcast a message to all receivers. If the message cap is reached, this will fail.
    pub fn try_send(&self, shared: &mut Shared<T>, item: T) -> (answer: (
        Result<(), TrySendError<T>>,
        Wake,
    ))
        requires
            old(shared).wf(),
        ensures
            final(shared).wf(),
            final(shared)@ == old(shared)@.send(item),
            answer.0 == old(shared)@.send_outcome(item),
            answer.1 == old(shared)@.wake(Step::Send(item)),
    {
        let ghost before = *shared;
        let n_receivers = shared.receiver_queues.len();
        assert(before@.cursors.dom() =~= before.receiver_queues@.dom());
        if n_receivers == 0 {
            return (Err(TrySendError::Disconnected(item)), Wake::Nobody);
        }
        if let Some(capacity) = shared.capacity {
            if capacity == shared.len {
                return (Err(TrySendError::Full(item)), Wake::Nobody);
            }
        }
        let slot = shared.messages.insert(Message { item, holders: n_receivers });
        // One more message still fits the count.
        let len = shared.messages.len();
        proof {
            before.messages.lemma_finite();
            assert(shared.messages@.dom() =~= before.messages@.dom().insert(slot));
        }
        let bound = shared.receiver_queues.bound();
        let mut key: usize = 0;
        while key < bound
            invariant
                key <= bound,
                forall|m: usize| #[trigger]
                    before.receiver_queues@.contains_key(m) ==> m < bound,
                shared.receiver_queues.wf(),
                shared.receiver_queues@.dom() == before.receiver_queues@.dom(),
                shared.messages.wf(),
                shared.messages@ == before.messages@.insert(
                    slot,
                    Message { item, holders: n_receivers },
                ),
                shared.n_senders == before.n_senders,
                shared.len == before.len,
                len == before.len + 1,
                shared.capacity == before.capacity,
                shared.log == before.log,
                shared.slots == before.slots,
                before.wf(),
                forall|m: usize| #[trigger]
                    before.receiver_queues@.contains_key(m) ==> {
                        let queue = shared.receiver_queues@[m].queue;
                        let old_queue = before.receiver_queues@[m].queue;
                        &&& shared.receiver_queues@[m].handles == before.receiver_queues@[m].handles
                        &&& queue_items(queue) == if m < key {
                            queue_items(old_queue).push(slot)
                        } else {
                            queue_items(old_queue)
                        }
                        &&& !queue_closed(queue)
                        &&& queue_limit(queue) is None
                    },
            decreases bound - key,
        {
            if shared.receiver_queues.contains(key) {
                let pushed = queue_push(&mut shared.receiver_queues.get_mut(key).queue, slot);
                assert(pushed);
                assert(shared.receiver_queues@.dom() =~= before.receiver_queues@.dom());
            }
            key = key + 1;
        }
        shared.len = len;
        proof {
            shared.log@ = before.log@.push(item);
            shared.slots@ = before.slots@.push(slot);
            Shared::lemma_sent(before, *shared, item, slot);
        }
        (Ok(()), Wake::Receivers(usize::MAX))
    }

    /// Broadcast a message to all receivers: one turn. If the message cap is reached, the message
    /// comes back, to be sent again when there is room.
    pub fn send(&self, shared: &mut Shared<T>, item: T) -> (answer: (
        Turn<Result<(), SendError<T>>, T>,
        Wake,
    ))
        requires
            old(shared).wf(),
        ensures
            final(shared).wf(),
            final(shared)@ == old(shared)@.send(item),
            answer.0 == send_turn(old(shared)@.send_outcome(item)),
            answer.1 == old(shared)@.wake(Step::Send(item)),
    {
        let (answer, wake) = self.try_send(shared, item);
        match answer {
            Ok(()) => (Turn::Done(Ok(())), wake),
            Err(TrySendError::Disconnected(item)) => (Turn::Done(Err(SendError(item))), wake),
            Err(TrySendError::Full(item)) => (Turn::Wait(item), wake),
        }
    }

    /// Another sender for the same channel.
    pub fn clone(&self, shared: &mut Shared<T>) -> (sender: Sender<T>)
        requires
            old(shared).wf(),
            old(shared)@.enabled(Step::CloneSender),
        ensures
            final(shared).wf(),
            final(shared)@ == old(shared)@.next(Step::CloneSender),
            final(shared)@.senders == old(shared)@.senders + 1,
    {
        let ghost before = *shared;
        shared.n_senders = shared.n_senders + 1;
        proof {
            Shared::lemma_senders(before, *shared);
        }
        Sender { channel: PhantomData }
    }

    /// Disconnects the sender from the channel.
    pub fn drop(self, shared: &mut Shared<T>) -> (wake: Wake)
        requires
            old(shared).wf(),
            old(shared)@.enabled(Step::DropSender),
        ensures
            final(shared).wf(),
            final(shared)@ == old(shared)@.next(Step::DropSender),
            final(shared)@.senders == old(shared)@.senders - 1,
            wake == old(shared)@.wake(Step::DropSender),
    {
        let ghost before = *shared;
        let n_senders = shared.n_senders;
        shared.n_senders = n_senders - 1;
        proof {
            Shared::lemma_senders(before, *shared);
        }
        if n_senders != 1 {
            return Wake::Nobody;
        }
        Wake::Receivers(usize::MAX)
    }
}

/// The receiver side of the channel. This will receive every message broadcast.
pub struct Receiver<T> {
    mailbox: usize,
    channel: PhantomData<T>,
}

impl<T> Receiver<T> {
    /// The mailbox that it reads.
    pub closed spec fn mailbox(&self) -> usize {
        self.mailbox
    }

    /// A receiver with a mailbox of its own, which will only receive messages sent from now on.
    pub fn clone(&self, shared: &mut Shared<T>) -> (receiver: Receiver<T>)
        requires
            old(shared).wf(),
            old(shared)@.cursors.contains_key(self.mailbox()),
        ensures
            final(shared).wf(),
            !old(shared)@.cursors.contains_key(receiver.mailbox()),
            final(shared)@ == old(shared)@.subscribe(receiver.mailbox()),
            final(shared)@.handles[receiver.mailbox()] == 1,
    {
        Receiver { mailbox: shared.subscribe(), channel: PhantomData }
    }

    /// Disconnects the receiver from the channel.
    pub fn drop(self, shared: &mut Shared<T>) -> (departure: Departure<T>)
        requires
            old(shared).wf(),
            old(shared)@.cursors.contains_key(self.mailbox()),
        ensures
            final(shared).wf(),
            final(shared)@ == old(shared)@.release(self.mailbox()),
            departure.wake == old(shared)@.wake(Step::Release(self.mailbox())),
            departure.unread@ == old(shared)@.left_unread(self.mailbox()),
    {
        shared.release(self.mailbox)
    }

    /// Lets several receivers share the mailbox, so that each message goes to one of them.
    pub fn into_shared(self) -> (receiver: SharedReceiver<T>)
        ensures
            receiver.mailbox() == self.mailbox(),
    {
        SharedReceiver { receiver: self }
    }
}

impl<T: Clone> Receiver<T> {
    /// Try to receive a broadcast message. If there are none in the queue, it will return `None`, or
    /// if there are no senders it will return `Disconnected`.
    pub fn try_recv(&self, shared: &mut Shared<T>) -> (answer: (
        Result<Option<T>, Disconnected>,
        Wake,
    ))
        requires
            old(shared).wf(),
            old(shared)@.cursors.contains_key(self.mailbox()),
        ensures
            final(shared).wf(),
            final(shared)@ == old(shared)@.receive(self.mailbox()),
            clone_of_answer(old(shared)@.receive_outcome(self.mailbox()), answer.0),
            answer.1 == old(shared)@.wake(Step::Receive(self.mailbox())),
    {
        match shared.pop_message(self.mailbox) {
            Some(Popped::Last(item)) => (Ok(Some(item.clone())), Wake::MoreSenders(1)),
            Some(Popped::Held(slot)) => {
                (Ok(Some(shared.messages.get(slot).item.clone())), Wake::Nobody)
            },
            None => {
                if shared.n_senders > 0 {
                    (Ok(None), Wake::Nobody)
                } else {
                    (Err(Disconnected), Wake::Nobody)
                }
            },
        }
    }

    /// Receive a broadcast message: one turn. If there are none in the queue, it has to be taken up
    /// again when another is sent or all senders disconnect.
    pub fn recv(&self, shared: &mut Shared<T>) -> (answer: (
        Turn<Result<T, Disconnected>, ()>,
        Wake,
    ))
        requires
            old(shared).wf(),
            old(shared)@.cursors.contains_key(self.mailbox()),
        ensures
            final(shared).wf(),
            final(shared)@ == old(shared)@.receive(self.mailbox()),
            clone_of_receive_turn(old(shared)@.receive_outcome(self.mailbox()), answer.0),
            answer.1 == old(shared)@.wake(Step::Receive(self.mailbox())),
    {
        let (answer, wake) = self.try_recv(shared);
        match answer {
            Ok(Some(item)) => (Turn::Done(Ok(item)), wake),
            Ok(None) => (Turn::Wait(()), wake),
            Err(_) => (Turn::Done(Err(Disconnected)), wake),
        }
    }
}

/// A receiver that shares its mailbox with its clones: a message that one of them receives, the
/// others do not.
pub struct SharedReceiver<T> {
    receiver: Receiver<T>,
}

impl<T> SharedReceiver<T> {
    /// The mailbox that it reads.
    pub closed spec fn mailbox(&self) -> usize {
        self.receiver.mailbox()
    }

    /// Another receiver at the same mailbox.
    pub fn clone(&self, shared: &mut Shared<T>) -> (receiver: SharedReceiver<T>)
        requires
            old(shared).wf(),
            old(shared)@.enabled(Step::Share(self.mailbox())),
        ensures
            final(shared).wf(),
            receiver.mailbox() == self.mailbox(),
            final(shared)@ == old(shared)@.share(self.mailbox()),
    {
        let ghost before = *shared;
        let mailbox = self.receiver.mailbox;
        assert(before.receiver_queues@.contains_key(mailbox));
        let entry = shared.receiver_queues.get_mut(mailbox);
        entry.handles = entry.handles + 1;
        proof {
            Shared::lemma_handles(before, *shared, mailbox);
            assert(shared@ =~= before@.share(mailbox));
        }
        SharedReceiver { receiver: Receiver { mailbox, channel: PhantomData } }
    }

    /// Disconnects the receiver from its mailbox, and the mailbox from the channel if no other
    /// receiver shares it.
    pub fn drop(self, shared: &mut Shared<T>) -> (departure: Departure<T>)
        requires
            old(shared).wf(),
            old(shared)@.cursors.contains_key(self.mailbox()),
        ensures
            final(shared).wf(),
            final(shared)@ == old(shared)@.release(self.mailbox()),
            departure.wake == old(shared)@.wake(Step::Release(self.mailbox())),
            departure.unread@ == old(shared)@.left_unread(self.mailbox()),
    {
        shared.release(self.receiver.mailbox)
    }

    /// Whether both receivers, of one channel, read the same mailbox.
    pub fn same_mailbox(&self, other: &SharedReceiver<T>) -> (same: bool)
        ensures
            same == (self.mailbox() == other.mailbox()),
    {
        self.receiver.mailbox == other.receiver.mailbox
    }

    /// Leaves the shared mailbox for a receiver of its own, with a new mailbox, which will only
    /// receive messages sent from now on.
    pub fn upgrade(self, shared: &mut Shared<T>) -> (answer: (Receiver<T>, Departure<T>))
        requires
            old(shared).wf(),
            old(shared)@.cursors.contains_key(self.mailbox()),
        ensures
            final(shared).wf(),
            !old(shared)@.cursors.contains_key(answer.0.mailbox()),
            final(shared)@ == old(shared)@.subscribe(answer.0.mailbox()).release(self.mailbox()),
            answer.1.wake == old(shared)@.subscribe(answer.0.mailbox()).wake(
                Step::Release(self.mailbox()),
            ),
            answer.1.unread@ == old(shared)@.left_unread(self.mailbox()),
    {
        let ghost before = *shared;
        let receiver = self.receiver.clone(shared);
        let departure = shared.release(self.receiver.mailbox);
        proof {
            lemma_subscribe_held_alone(before@, receiver.mailbox(), self.mailbox());
        }
        (receiver, departure)
    }

    /// The receiver that it shares.
    pub fn as_receiver(&self) -> (receiver: &Receiver<T>)
        ensures
            receiver.mailbox() == self.mailbox(),
    {
        &self.receiver
    }
}

impl<T: Clone> SharedReceiver<T> {
    /// Try to receive a broadcast message, as [`Receiver::try_recv`] does.
    pub fn try_recv(&self, shared: &mut Shared<T>) -> (answer: (
        Result<Option<T>, Disconnected>,
        Wake,
    ))
        requires
            old(shared).wf(),
            old(shared)@.cursors.contains_key(self.mailbox()),
        ensures
            final(shared).wf(),
            final(shared)@ == old(shared)@.receive(self.mailbox()),
            clone_of_answer(old(shared)@.receive_outcome(self.mailbox()), answer.0),
            answer.1 == old(shared)@.wake(Step::Receive(self.mailbox())),
    {
        self.receiver.try_recv(shared)
    }

    /// Receive a broadcast message: one turn, as [`Receiver::recv`] takes it.
    pub fn recv(&self, shared: &mut Shared<T>) -> (answer: (
        Turn<Result<T, Disconnected>, ()>,
        Wake,
    ))
        requires
            old(shared).wf(),
            old(shared)@.cursors.contains_key(self.mailbox()),
        ensures
            final(shared).wf(),
            final(shared)@ == old(shared)@.receive(self.mailbox()),
            clone_of_receive_turn(old(shared)@.receive_outcome(self.mailbox()), answer.0),
            answer.1 == old(shared)@.wake(Step::Receive(self.mailbox())),
    {
        self.receiver.recv(shared)
    }
}

/// Create a new channel with the given capacity. If `None` is passed, it will be unbounded.
pub fn new<T>(capacity: Option<usize>) -> (channel: (Shared<T>, Sender<T>, Receiver<T>))
    ensures
        channel.0.wf(),
        channel.0@ == ChannelState::<T>::initial(capacity, channel.2.mailbox()),
        channel.0@.capacity == capacity,
{
    let mut receiver_queues: Slab<Mailbox> = Slab::new();
    let messages: Slab<Message<T>> = Slab::new();
    let mailbox = receiver_queues.insert(Mailbox { queue: queue_unbounded(), handles: 1 });
    let shared = Shared {
        receiver_queues,
        messages,
        n_senders: 1,
        len: 0,
        capacity,
        log: Ghost(Seq::empty()),
        slots: Ghost(Seq::empty()),
    };
    proof {
        let state = ChannelState::<T>::initial(capacity, mailbox);
        assert(shared@ =~= state);
        assert(state.cursors.dom() =~= Set::empty().insert(mailbox));
        assert(state.handles.dom() =~= state.cursors.dom());
        assert(state.outstanding() =~= Set::empty());
        assert(Seq::<usize>::empty() =~= Seq::<usize>::empty().skip(0));
    }
    (shared, Sender { channel: PhantomData }, Receiver { mailbox, channel: PhantomData })
}

/// Create a bounded channel of the given capacity.
pub fn bounded<T>(capacity: usize) -> (channel: (Shared<T>, Sender<T>, Receiver<T>))
    ensures
        channel.0.wf(),
        channel.0@ == ChannelState::<T>::initial(Some(capacity), channel.2.mailbox()),
        channel.0@.capacity == Some(capacity),
{
    new(Some(capacity))
}

/// Create an unbounded channel.
pub fn unbounded<T>() -> (channel: (Shared<T>, Sender<T>, Receiver<T>))
    ensures
        channel.0.wf(),
        channel.0@ == ChannelState::<T>::initial(None, channel.2.mailbox()),
        channel.0@.capacity == None::<usize>,
{
    new(None)
}

} // verus!
