//! The channel as a mathematical object: a log of all messages ever broadcast,
//! and for each mailbox the place in the log that it has read up to.
use crate::error::{Disconnected, SendError, TrySendError};
use vstd::prelude::*;

verus! {

/// Who has to be woken after a step of the channel.
#[derive(Copy, Clone, Debug, Eq, PartialEq)]
pub enum Wake {
    /// Nobody: no waiting party can go on that could not before.
    Nobody,
    /// At least this many of those who wait for a message, or all if they are fewer.
    Receivers(usize),
    /// At least this many of those who wait for room, or all if they are fewer.
    Senders(usize),
    /// This many of those who wait for room, besides any already woken.
    MoreSenders(usize),
}

/// One turn of an operation that may have to wait.
#[derive(Copy, Clone, Debug, Eq, PartialEq)]
pub enum Turn<R, W> {
    /// The operation is over.
    Done(R),
    /// It has to be taken up again, with this, when the waiting party is woken.
    Wait(W),
}

/// What becomes of an operation that has to wait, once the listener that it
/// registered beforehand was asked.
#[derive(Copy, Clone, Debug, Eq, PartialEq)]
pub enum Resume {
    /// The listener was notified meanwhile: take another turn at once.
    Retry,
    /// The listener has yet to be notified: take the next turn after that.
    Pending,
}

/// The state of a channel.
///
/// Messages are numbered in the order in which they were sent: message `n` is
/// `log[n]`. Mailbox `m` has taken the messages below `cursors[m]` that were
/// sent since it was opened, and still holds those from `cursors[m]` on.
#[verifier::ext_equal]
pub struct ChannelState<T> {
    /// How many messages may count at a time; `None` for no cap.
    pub capacity: Option<usize>,
    /// Every message broadcast so far.
    pub log: Seq<T>,
    /// The open mailboxes, each with the number of the message that comes next.
    pub cursors: Map<usize, int>,
    /// How many receivers share each mailbox.
    pub handles: Map<usize, int>,
    /// The number of senders.
    pub senders: int,
    /// The messages that count against the cap: those that some mailbox has yet
    /// to give out.
    pub len: int,
}

/// A step of the channel.
pub enum Step<T> {
    /// A sender tries to broadcast a message.
    Send(T),
    /// A receiver tries to take the next message of its mailbox.
    Receive(usize),
    /// A sender is cloned.
    CloneSender,
    /// A sender is dropped.
    DropSender,
    /// A receiver with a mailbox of its own joins.
    Subscribe(usize),
    /// A receiver joins an open mailbox.
    Share(usize),
    /// A receiver leaves its mailbox.
    Release(usize),
}

impl<T> ChannelState<T> {
    /// A channel with one sender and one mailbox, read by one receiver.
    pub open spec fn initial(capacity: Option<usize>, mailbox: usize) -> Self {
        ChannelState {
            capacity,
            log: Seq::empty(),
            cursors: Map::empty().insert(mailbox, 0),
            handles: Map::empty().insert(mailbox, 1),
            senders: 1,
            len: 0,
        }
    }

    /// The number of open mailboxes.
    pub open spec fn receivers(self) -> nat {
        self.cursors.dom().len()
    }

    /// The mailboxes that have yet to give out message `n`.
    pub open spec fn holders(self, n: int) -> Set<usize> {
        self.cursors.dom().filter(|mailbox: usize| self.cursors[mailbox] <= n)
    }

    /// Whether some mailbox has yet to give out message `n`.
    pub open spec fn is_outstanding(self, n: int) -> bool {
        &&& 0 <= n < self.log.len()
        &&& exists|mailbox: usize| #[trigger]
            self.cursors.contains_key(mailbox) && self.cursors[mailbox] <= n
    }

    /// The messages that some mailbox has yet to give out.
    pub open spec fn outstanding(self) -> Set<int> {
        Set::new(|n: int| self.is_outstanding(n))
    }

    /// What every step of a channel keeps.
    pub open spec fn valid(self) -> bool {
        &&& self.cursors.dom().finite()
        &&& self.receivers() <= usize::MAX
        &&& self.handles.dom() == self.cursors.dom()
        &&& forall|mailbox: usize| #[trigger]
            self.cursors.contains_key(mailbox) ==> {
                &&& 0 <= self.cursors[mailbox] <= self.log.len()
                &&& 1 <= self.handles[mailbox] <= usize::MAX
            }
        &&& 0 <= self.senders <= usize::MAX
        &&& self.outstanding().finite()
        &&& self.outstanding().len() == self.len
        &&& self.len <= usize::MAX
        &&& self.capacity matches Some(capacity) ==> self.len <= capacity
    }

    /// The messages that the mailbox has yet to give out, the next one first.
    pub open spec fn backlog(self, mailbox: usize) -> Seq<T> {
        self.log.skip(self.cursors[mailbox])
    }

    /// Whether the message cap is reached.
    pub open spec fn is_full(self) -> bool {
        self.capacity matches Some(capacity) && capacity == self.len
    }

    /// What an attempt to broadcast a message is answered.
    pub open spec fn send_outcome(self, item: T) -> Result<(), TrySendError<T>> {
        if self.receivers() == 0 {
            Err(TrySendError::Disconnected(item))
        } else if self.is_full() {
            Err(TrySendError::Full(item))
        } else {
            Ok(())
        }
    }

    /// The channel after an attempt to broadcast a message.
    pub open spec fn send(self, item: T) -> Self {
        if self.send_outcome(item) is Ok {
            ChannelState { log: self.log.push(item), len: self.len + 1, ..self }
        } else {
            self
        }
    }

    /// What an attempt to receive from the mailbox is answered, with the message
    /// itself where a receiver gets a clone of it.
    pub open spec fn receive_outcome(self, mailbox: usize) -> Result<Option<T>, Disconnected> {
        if self.cursors[mailbox] < self.log.len() {
            Ok(Some(self.log[self.cursors[mailbox]]))
        } else if self.senders > 0 {
            Ok(None)
        } else {
            Err(Disconnected)
        }
    }

    /// Whether the next message of the mailbox is held by no other mailbox.
    pub open spec fn is_final_receive(self, mailbox: usize) -> bool {
        &&& self.cursors[mailbox] < self.log.len()
        &&& forall|other: usize| #[trigger]
            self.cursors.contains_key(other) && other != mailbox ==> self.cursors[mailbox]
                < self.cursors[other]
    }

    /// The channel after an attempt to receive from the mailbox.
    pub open spec fn receive(self, mailbox: usize) -> Self {
        if self.cursors[mailbox] >= self.log.len() {
            self
        } else {
            ChannelState {
                cursors: self.cursors.insert(mailbox, self.cursors[mailbox] + 1),
                len: if self.is_final_receive(mailbox) {
                    self.len - 1
                } else {
                    self.len
                },
                ..self
            }
        }
    }

    /// The channel with a new mailbox, which holds none of the messages so far.
    pub open spec fn subscribe(self, mailbox: usize) -> Self {
        ChannelState {
            cursors: self.cursors.insert(mailbox, self.log.len() as int),
            handles: self.handles.insert(mailbox, 1),
            ..self
        }
    }

    /// The channel with one more receiver at the mailbox.
    pub open spec fn share(self, mailbox: usize) -> Self {
        ChannelState {
            handles: self.handles.insert(mailbox, self.handles[mailbox] + 1),
            ..self
        }
    }

    /// The channel without the mailbox, with all messages still counted.
    pub open spec fn without(self, mailbox: usize) -> Self {
        ChannelState {
            cursors: self.cursors.remove(mailbox),
            handles: self.handles.remove(mailbox),
            ..self
        }
    }

    /// How many messages are outstanding at this mailbox alone.
    pub open spec fn held_alone(self, mailbox: usize) -> int {
        self.outstanding().len() - self.without(mailbox).outstanding().len()
    }

    /// Whether the mailbox closes with the next receiver that leaves it.
    pub open spec fn has_one_handle(self, mailbox: usize) -> bool {
        self.handles[mailbox] == 1
    }

    /// The channel with one receiver less at the mailbox, which closes with its
    /// last receiver. The messages that it alone held count no longer.
    pub open spec fn release(self, mailbox: usize) -> Self {
        if self.has_one_handle(mailbox) {
            ChannelState {
                len: self.len - self.held_alone(mailbox),
                ..self.without(mailbox)
            }
        } else {
            ChannelState {
                handles: self.handles.insert(mailbox, self.handles[mailbox] - 1),
                ..self
            }
        }
    }

    /// The messages that leave the channel unread with a receiver that leaves the
    /// mailbox: if the mailbox closes, those that it alone held, which are the
    /// oldest of its backlog.
    pub open spec fn left_unread(self, mailbox: usize) -> Seq<T> {
        if self.has_one_handle(mailbox) {
            self.backlog(mailbox).take(self.held_alone(mailbox))
        } else {
            Seq::empty()
        }
    }

    /// Whether the step can be taken: the handles that it works on are there,
    /// and one more can be counted.
    pub open spec fn enabled(self, step: Step<T>) -> bool {
        match step {
            Step::Send(item) => {
                &&& self.senders >= 1
                &&& self.send_outcome(item) is Ok ==> self.len < usize::MAX
            },
            Step::Receive(mailbox) => self.cursors.contains_key(mailbox),
            Step::CloneSender => 1 <= self.senders < usize::MAX,
            Step::DropSender => self.senders >= 1,
            Step::Subscribe(mailbox) => {
                &&& 1 <= self.receivers() < usize::MAX
                &&& !self.cursors.contains_key(mailbox)
            },
            Step::Share(mailbox) => {
                &&& self.cursors.contains_key(mailbox)
                &&& self.handles[mailbox] < usize::MAX
            },
            Step::Release(mailbox) => self.cursors.contains_key(mailbox),
        }
    }

    /// The channel after the step.
    pub open spec fn next(self, step: Step<T>) -> Self {
        match step {
            Step::Send(item) => self.send(item),
            Step::Receive(mailbox) => self.receive(mailbox),
            Step::CloneSender => ChannelState { senders: self.senders + 1, ..self },
            Step::DropSender => ChannelState { senders: self.senders - 1, ..self },
            Step::Subscribe(mailbox) => self.subscribe(mailbox),
            Step::Share(mailbox) => self.share(mailbox),
            Step::Release(mailbox) => self.release(mailbox),
        }
    }

    /// Who has to be woken after the step.
    ///
    /// Several may wait at one mailbox, or with one sender, so a message or the
    /// end of the channel wakes all who wait for one, and the loss of the last
    /// receiver all who wait for room. Otherwise as many more of these are woken
    /// as there is more room.
    pub open spec fn wake(self, step: Step<T>) -> Wake {
        match step {
            Step::Send(item) if self.send_outcome(item) is Ok => Wake::Receivers(usize::MAX),
            Step::Receive(mailbox) if self.is_final_receive(mailbox) => Wake::MoreSenders(1),
            Step::DropSender if self.senders == 1 => Wake::Receivers(usize::MAX),
            Step::Release(mailbox) if self.has_one_handle(mailbox) => {
                if self.receivers() == 1 {
                    Wake::Senders(usize::MAX)
                } else if self.held_alone(mailbox) > 0 {
                    Wake::MoreSenders(self.held_alone(mailbox) as usize)
                } else {
                    Wake::Nobody
                }
            },
            _ => Wake::Nobody,
        }
    }
}

/// Whether what a receiver got is the answer, the message cloned.
pub open spec fn clone_of_answer<T: Clone>(
    answer: Result<Option<T>, Disconnected>,
    got: Result<Option<T>, Disconnected>,
) -> bool {
    match answer {
        Ok(Some(message)) => got matches Ok(Some(item)) && vstd::pervasive::strictly_cloned(message, item),
        _ => got == answer,
    }
}

/// The turn of a send that waits for room, by what the attempt was answered.
pub open spec fn send_turn<T>(answer: Result<(), TrySendError<T>>) -> Turn<
    Result<(), SendError<T>>,
    T,
> {
    match answer {
        Ok(()) => Turn::Done(Ok(())),
        Err(TrySendError::Disconnected(item)) => Turn::Done(Err(SendError(item))),
        Err(TrySendError::Full(item)) => Turn::Wait(item),
    }
}

/// Whether the turn of a receive that waits for a message is the one that the
/// attempt's answer calls for, the message cloned.
pub open spec fn clone_of_receive_turn<T: Clone>(
    answer: Result<Option<T>, Disconnected>,
    got: Turn<Result<T, Disconnected>, ()>,
) -> bool {
    match answer {
        Ok(Some(message)) => got matches Turn::Done(Ok(item))
            && vstd::pervasive::strictly_cloned(message, item),
        Ok(None) => got == Turn::<Result<T, Disconnected>, ()>::Wait(()),
        Err(disconnected) => got == Turn::<Result<T, Disconnected>, ()>::Done(Err(disconnected)),
    }
}

/// Which messages are outstanding, and where, follows from the log and the
/// places of the mailboxes in it.
pub(crate) proof fn lemma_same_places<T>(state: ChannelState<T>, other: ChannelState<T>)
    requires
        state.log == other.log,
        state.cursors == other.cursors,
    ensures
        state.outstanding() == other.outstanding(),
        forall|n: int| #[trigger] state.holders(n) == other.holders(n),
{
    assert forall|n: int| state.is_outstanding(n) == other.is_outstanding(n) by {}
    assert(state.outstanding() =~= other.outstanding());
    assert forall|n: int| #[trigger] state.holders(n) == other.holders(n) by {
        assert(state.holders(n) =~= other.holders(n));
    }
}

/// A mailbox that gives up a message of which it was the last holder leaves one
/// message less outstanding; otherwise the same messages stay outstanding.
pub(crate) proof fn lemma_receive<T>(state: ChannelState<T>, mailbox: usize)
    requires
        state.valid(),
        state.cursors.contains_key(mailbox),
        state.cursors[mailbox] < state.log.len(),
    ensures
        state.receive(mailbox).valid(),
        state.is_final_receive(mailbox) ==> state.receive(mailbox).outstanding()
            == state.outstanding().remove(state.cursors[mailbox]),
        !state.is_final_receive(mailbox) ==> state.receive(mailbox).outstanding()
            == state.outstanding(),
        state.is_outstanding(state.cursors[mailbox]),
        forall|n: int| n != state.cursors[mailbox] ==> #[trigger] state.receive(mailbox).holders(n)
            == state.holders(n),
        state.receive(mailbox).holders(state.cursors[mailbox]) == state.holders(
            state.cursors[mailbox],
        ).remove(mailbox),
        forall|n: int| #[trigger] state.holders(n).finite(),
        state.holders(state.cursors[mailbox]).contains(mailbox),
        state.is_final_receive(mailbox) <==> state.holders(state.cursors[mailbox]).len() == 1,
{
    let after = state.receive(mailbox);
    let n = state.cursors[mailbox];
    assert(after.cursors.dom() =~= state.cursors.dom());
    assert forall|i: int| #[trigger] state.holders(i).finite() by {
        state.cursors.dom().lemma_len_filter(|m: usize| state.cursors[m] <= i);
    }
    assert forall|i: int| i != n implies #[trigger] after.holders(i) == state.holders(i) by {
        assert(after.holders(i) =~= state.holders(i));
    }
    assert(after.holders(n) =~= state.holders(n).remove(mailbox));
    assert(state.is_outstanding(n));
    assert forall|i: int| after.is_outstanding(i) implies state.is_outstanding(i) by {
        let m = choose|m: usize| #[trigger] after.cursors.contains_key(m) && after.cursors[m] <= i;
        assert(state.cursors.contains_key(m) && state.cursors[m] <= i);
    }
    assert forall|i: int| state.is_outstanding(i) && i != n implies after.is_outstanding(i) by {
        let m = choose|m: usize| #[trigger] state.cursors.contains_key(m) && state.cursors[m] <= i;
        assert(after.cursors.contains_key(m) && after.cursors[m] <= i);
    }
    if state.is_final_receive(mailbox) {
        assert(!after.is_outstanding(n));
        assert(after.outstanding() =~= state.outstanding().remove(n));
        assert(state.holders(n) =~= Set::empty().insert(mailbox));
    } else {
        let m = choose|m: usize| #[trigger]
            state.cursors.contains_key(m) && m != mailbox && state.cursors[m] <= n;
        assert(after.cursors.contains_key(m) && after.cursors[m] <= n);
        assert(after.outstanding() =~= state.outstanding());
        assert(state.holders(n).remove(mailbox).contains(m));
    }
    vstd::set_lib::lemma_len_subset(after.outstanding(), state.outstanding());
}

/// A broadcast message is held by every mailbox.
pub(crate) proof fn lemma_send<T>(state: ChannelState<T>, item: T)
    requires
        state.valid(),
        state.send_outcome(item) is Ok,
        state.len < usize::MAX,
    ensures
        state.send(item).valid(),
        state.send(item).outstanding() == state.outstanding().insert(state.log.len() as int),
        !state.outstanding().contains(state.log.len() as int),
        state.holders(state.log.len() as int) == state.cursors.dom(),
        forall|n: int| #[trigger] state.send(item).holders(n) == state.holders(n),
{
    let after = state.send(item);
    let n = state.log.len() as int;
    let m = state.cursors.dom().choose();
    assert(after.cursors.contains_key(m) && after.cursors[m] <= n);
    assert(after.is_outstanding(n));
    assert forall|i: int| state.is_outstanding(i) implies after.is_outstanding(i) by {}
    assert(after.outstanding() =~= state.outstanding().insert(n));
    assert(state.holders(n) =~= state.cursors.dom());
    assert forall|i: int| #[trigger] after.holders(i) == state.holders(i) by {
        assert(after.holders(i) =~= state.holders(i));
    }
}

/// A new mailbox holds nothing, so the same messages stay outstanding.
proof fn lemma_subscribe_outstanding<T>(state: ChannelState<T>, mailbox: usize)
    requires
        !state.cursors.contains_key(mailbox),
    ensures
        state.subscribe(mailbox).outstanding() == state.outstanding(),
        forall|n: int| n < state.log.len() ==> #[trigger] state.subscribe(mailbox).holders(n)
            == state.holders(n),
{
    let after = state.subscribe(mailbox);
    assert forall|i: int| state.is_outstanding(i) implies after.is_outstanding(i) by {
        let m = choose|m: usize| #[trigger] state.cursors.contains_key(m) && state.cursors[m] <= i;
        assert(after.cursors.contains_key(m) && after.cursors[m] <= i);
    }
    assert forall|i: int| after.is_outstanding(i) implies state.is_outstanding(i) by {
        let m = choose|m: usize| #[trigger] after.cursors.contains_key(m) && after.cursors[m] <= i;
        assert(state.cursors.contains_key(m) && state.cursors[m] <= i);
    }
    assert(after.outstanding() =~= state.outstanding());
    assert forall|i: int| i < state.log.len() implies #[trigger] after.holders(i) == state.holders(
        i,
    ) by {
        assert(after.holders(i) =~= state.holders(i));
    }
}

/// A channel with a new mailbox is valid.
pub(crate) proof fn lemma_subscribe<T>(state: ChannelState<T>, mailbox: usize)
    requires
        state.valid(),
        !state.cursors.contains_key(mailbox),
        state.receivers() < usize::MAX,
    ensures
        state.subscribe(mailbox).valid(),
        state.subscribe(mailbox).outstanding() == state.outstanding(),
        forall|n: int| n < state.log.len() ==> #[trigger] state.subscribe(mailbox).holders(n)
            == state.holders(n),
{
    let after = state.subscribe(mailbox);
    assert(after.cursors.dom() =~= state.cursors.dom().insert(mailbox));
    assert(after.handles.dom() =~= after.cursors.dom());
    lemma_subscribe_outstanding(state, mailbox);
}

/// What a mailbox holds alone is nothing if it is empty or if another mailbox
/// holds its next message; otherwise it is that message and what it holds alone
/// after that.
pub(crate) proof fn lemma_held_alone<T>(state: ChannelState<T>, mailbox: usize)
    requires
        state.valid(),
        state.cursors.contains_key(mailbox),
    ensures
        state.without(mailbox).outstanding().finite(),
        state.without(mailbox).outstanding().subset_of(state.outstanding()),
        0 <= state.held_alone(mailbox) <= state.len,
        state.is_final_receive(mailbox) ==> state.held_alone(mailbox) == 1 + state.receive(
            mailbox,
        ).held_alone(mailbox),
        !state.is_final_receive(mailbox) ==> {
            &&& state.without(mailbox).outstanding() == state.outstanding()
            &&& state.held_alone(mailbox) == 0
            &&& state.receive(mailbox).held_alone(mailbox) == 0
        },
{
    let rest = state.without(mailbox);
    let after = state.receive(mailbox);
    assert forall|i: int| rest.is_outstanding(i) implies state.is_outstanding(i) by {
        let m = choose|m: usize| #[trigger] rest.cursors.contains_key(m) && rest.cursors[m] <= i;
        assert(state.cursors.contains_key(m) && state.cursors[m] <= i);
    }
    vstd::set_lib::lemma_len_subset(rest.outstanding(), state.outstanding());
    if state.cursors[mailbox] < state.log.len() {
        lemma_receive(state, mailbox);
        assert(after.cursors.remove(mailbox) =~= rest.cursors);
        lemma_same_places(after.without(mailbox), rest);
    }
    if state.is_final_receive(mailbox) {
        assert(state.outstanding().contains(state.cursors[mailbox]));
    } else {
        assert forall|i: int| state.is_outstanding(i) implies rest.is_outstanding(i) by {
            let m = choose|m: usize| #[trigger]
                state.cursors.contains_key(m) && state.cursors[m] <= i;
            if m == mailbox {
                let other = choose|other: usize| #[trigger]
                    state.cursors.contains_key(other) && other != mailbox && state.cursors[other]
                        <= state.cursors[mailbox];
                assert(rest.cursors.contains_key(other) && rest.cursors[other] <= i);
            } else {
                assert(rest.cursors.contains_key(m) && rest.cursors[m] <= i);
            }
        }
        assert(rest.outstanding() =~= state.outstanding());
    }
}

/// A new mailbox holds nothing, so what another holds alone stays the same.
pub(crate) proof fn lemma_subscribe_held_alone<T>(
    state: ChannelState<T>,
    mailbox: usize,
    other: usize,
)
    requires
        state.valid(),
        !state.cursors.contains_key(mailbox),
        state.receivers() < usize::MAX,
        state.cursors.contains_key(other),
    ensures
        state.subscribe(mailbox).held_alone(other) == state.held_alone(other),
        state.subscribe(mailbox).left_unread(other) == state.left_unread(other),
{
    let joined = state.subscribe(mailbox);
    let rest = state.without(other);
    lemma_subscribe(state, mailbox);
    assert(joined.without(other).cursors =~= rest.subscribe(mailbox).cursors);
    lemma_same_places(joined.without(other), rest.subscribe(mailbox));
    lemma_subscribe_outstanding(rest, mailbox);
}

/// A receiver that leaves takes along what its mailbox alone held, if it closes.
pub(crate) proof fn lemma_release<T>(state: ChannelState<T>, mailbox: usize)
    requires
        state.valid(),
        state.cursors.contains_key(mailbox),
    ensures
        state.release(mailbox).valid(),
        state.has_one_handle(mailbox) && state.cursors[mailbox] == state.log.len() ==> {
            &&& state.release(mailbox).len == state.len
            &&& state.release(mailbox).outstanding() == state.outstanding()
            &&& forall|n: int| n < state.log.len() ==> #[trigger] state.release(mailbox).holders(n)
                == state.holders(n)
        },
{
    let after = state.release(mailbox);
    assert(after.handles.dom() =~= after.cursors.dom());
    if state.has_one_handle(mailbox) {
        lemma_held_alone(state, mailbox);
        lemma_same_places(after, state.without(mailbox));
        assert(after.cursors.dom() =~= state.cursors.dom().remove(mailbox));
        if state.cursors[mailbox] == state.log.len() {
            assert forall|i: int| i < state.log.len() implies #[trigger] after.holders(i)
                == state.holders(i) by {
                assert(after.holders(i) =~= state.holders(i));
            }
        }
    } else {
        lemma_same_places(after, state);
    }
}

} // verus!
