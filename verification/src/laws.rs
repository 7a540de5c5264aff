//! What holds of the channel as a whole, over all its states and runs.
use crate::error::{Disconnected, TrySendError};
use crate::model::{
    lemma_held_alone, lemma_receive, lemma_release, lemma_same_places, lemma_send, lemma_subscribe,
    ChannelState, Step, Wake,
};
use vstd::prelude::*;

verus! {

impl<T> ChannelState<T> {
    /// The channel after the steps, taken one after the other.
    pub open spec fn run(self, steps: Seq<Step<T>>) -> Self
        decreases steps.len(),
    {
        if steps.len() == 0 {
            self
        } else {
            self.next(steps[0]).run(steps.drop_first())
        }
    }

    /// Whether each of the steps can be taken when its turn comes.
    pub open spec fn can_run(self, steps: Seq<Step<T>>) -> bool
        decreases steps.len(),
    {
        steps.len() == 0 || (self.enabled(steps[0]) && self.next(steps[0]).can_run(
            steps.drop_first(),
        ))
    }

    /// Whether the mailbox is open before, between and after the steps.
    pub open spec fn stays_open(self, mailbox: usize, steps: Seq<Step<T>>) -> bool
        decreases steps.len(),
    {
        &&& self.cursors.contains_key(mailbox)
        &&& steps.len() == 0 || self.next(steps[0]).stays_open(mailbox, steps.drop_first())
    }

    /// The message that the step broadcasts, if it does.
    pub open spec fn broadcast_by(self, step: Step<T>) -> Seq<T> {
        match step {
            Step::Send(item) if self.send_outcome(item) is Ok => seq![item],
            _ => seq![],
        }
    }

    /// The messages that the steps broadcast.
    pub open spec fn broadcast(self, steps: Seq<Step<T>>) -> Seq<T>
        decreases steps.len(),
    {
        if steps.len() == 0 {
            seq![]
        } else {
            self.broadcast_by(steps[0]) + self.next(steps[0]).broadcast(steps.drop_first())
        }
    }

    /// Who has to be woken after each of the steps.
    pub open spec fn wakes(self, steps: Seq<Step<T>>) -> Seq<Wake>
        decreases steps.len(),
    {
        if steps.len() == 0 {
            seq![]
        } else {
            seq![self.wake(steps[0])] + self.next(steps[0]).wakes(steps.drop_first())
        }
    }

    /// The message that the step takes out of the mailbox, if it does.
    pub open spec fn delivered_by(self, mailbox: usize, step: Step<T>) -> Seq<T> {
        match (step, self.receive_outcome(mailbox)) {
            (Step::Receive(m), Ok(Some(message))) if m == mailbox => seq![message],
            _ => seq![],
        }
    }

    /// The messages that the steps take out of the mailbox.
    pub open spec fn delivered(self, mailbox: usize, steps: Seq<Step<T>>) -> Seq<T>
        decreases steps.len(),
    {
        if steps.len() == 0 {
            seq![]
        } else {
            self.delivered_by(mailbox, steps[0]) + self.next(steps[0]).delivered(
                mailbox,
                steps.drop_first(),
            )
        }
    }
}

/// How many more of those who wait for room are woken.
pub open spec fn more_senders(wake: Wake) -> int {
    match wake {
        Wake::MoreSenders(n) => n as int,
        _ => 0,
    }
}

/// How many more of those who wait for room are woken in all.
pub open spec fn all_more_senders(wakes: Seq<Wake>) -> int
    decreases wakes.len(),
{
    if wakes.len() == 0 {
        0
    } else {
        more_senders(wakes[0]) + all_more_senders(wakes.drop_first())
    }
}

/// A new channel is valid.
pub proof fn law_initial_valid<T>(capacity: Option<usize>, mailbox: usize)
    ensures
        ChannelState::<T>::initial(capacity, mailbox).valid(),
{
    let state = ChannelState::<T>::initial(capacity, mailbox);
    assert(state.cursors.dom() =~= Set::empty().insert(mailbox));
    assert(state.handles.dom() =~= state.cursors.dom());
    assert(state.outstanding() =~= Set::empty());
}

/// Every step keeps the channel valid; in particular the messages that count
/// never exceed the cap, and the outstanding ones are among them.
pub proof fn law_step_keeps_valid<T>(state: ChannelState<T>, step: Step<T>)
    requires
        state.valid(),
        state.enabled(step),
    ensures
        state.next(step).valid(),
{
    let after = state.next(step);
    match step {
        Step::Send(item) => {
            if state.send_outcome(item) is Ok {
                lemma_send(state, item);
            }
        },
        Step::Receive(mailbox) => {
            if state.cursors[mailbox] < state.log.len() {
                lemma_receive(state, mailbox);
            }
        },
        Step::CloneSender | Step::DropSender => {
            lemma_same_places(after, state);
        },
        Step::Subscribe(mailbox) => {
            lemma_subscribe(state, mailbox);
        },
        Step::Share(mailbox) => {
            lemma_same_places(after, state);
            assert(after.handles.dom() =~= state.handles.dom());
        },
        Step::Release(mailbox) => {
            lemma_release(state, mailbox);
        },
    }
}

/// Every run keeps the channel valid.
pub proof fn law_run_keeps_valid<T>(state: ChannelState<T>, steps: Seq<Step<T>>)
    requires
        state.valid(),
        state.can_run(steps),
    ensures
        state.run(steps).valid(),
    decreases steps.len(),
{
    if steps.len() > 0 {
        law_step_keeps_valid(state, steps[0]);
        law_run_keeps_valid(state.next(steps[0]), steps.drop_first());
    }
}

/// Each message sent is received by every receiver: a message that is broadcast
/// joins the end of every mailbox.
pub proof fn law_broadcast_reaches_every_mailbox<T>(
    state: ChannelState<T>,
    item: T,
    mailbox: usize,
)
    requires
        state.valid(),
        state.send_outcome(item) is Ok,
        state.cursors.contains_key(mailbox),
    ensures
        state.send(item).cursors.contains_key(mailbox),
        state.send(item).backlog(mailbox) == state.backlog(mailbox).push(item),
{
    assert(state.send(item).backlog(mailbox) =~= state.backlog(mailbox).push(item));
}

/// A receiver gets the oldest message of its mailbox, which then holds the rest;
/// all other mailboxes stay as they were.
pub proof fn law_receive_takes_oldest<T>(state: ChannelState<T>, mailbox: usize, other: usize)
    requires
        state.valid(),
        state.cursors.contains_key(mailbox),
        state.cursors.contains_key(other),
    ensures
        state.backlog(mailbox).len() > 0 ==> {
            &&& state.receive_outcome(mailbox) == Ok::<_, Disconnected>(
                Some(state.backlog(mailbox)[0]),
            )
            &&& state.receive(mailbox).backlog(mailbox) == state.backlog(mailbox).drop_first()
        },
        state.backlog(mailbox).len() == 0 ==> {
            &&& state.receive_outcome(mailbox) == if state.senders > 0 {
                Ok::<Option<T>, _>(None)
            } else {
                Err(Disconnected)
            }
            &&& state.receive(mailbox) == state
        },
        other != mailbox ==> state.receive(mailbox).backlog(other) == state.backlog(other),
{
    if state.backlog(mailbox).len() > 0 {
        assert(state.receive(mailbox).backlog(mailbox) =~= state.backlog(mailbox).drop_first());
    }
}

/// One step of a run: what it delivers and leaves in the mailbox is what the
/// mailbox held and what the step broadcast.
proof fn lemma_step_loses_nothing<T>(state: ChannelState<T>, mailbox: usize, step: Step<T>)
    requires
        state.valid(),
        state.enabled(step),
        state.cursors.contains_key(mailbox),
        state.next(step).cursors.contains_key(mailbox),
    ensures
        state.delivered_by(mailbox, step) + state.next(step).backlog(mailbox) == state.backlog(
            mailbox,
        ) + state.broadcast_by(step),
{
    let after = state.next(step);
    assert(state.delivered_by(mailbox, step) + after.backlog(mailbox) =~= state.backlog(mailbox)
        + state.broadcast_by(step));
}

/// Nothing is lost, doubled or reordered, whatever senders and receivers do
/// meanwhile: what a mailbox gives out while it is open, followed by what it
/// still holds, is what it held at first, followed by all that is broadcast.
pub proof fn law_no_reorder<T>(state: ChannelState<T>, mailbox: usize, steps: Seq<Step<T>>)
    requires
        state.valid(),
        state.can_run(steps),
        state.stays_open(mailbox, steps),
    ensures
        state.delivered(mailbox, steps) + state.run(steps).backlog(mailbox) == state.backlog(
            mailbox,
        ) + state.broadcast(steps),
    decreases steps.len(),
{
    if steps.len() == 0 {
        assert(state.delivered(mailbox, steps) + state.run(steps).backlog(mailbox)
            =~= state.backlog(mailbox) + state.broadcast(steps));
    } else {
        let step = steps[0];
        let rest = steps.drop_first();
        let next = state.next(step);
        law_step_keeps_valid(state, step);
        assert(next.stays_open(mailbox, rest));
        lemma_step_loses_nothing(state, mailbox, step);
        law_no_reorder(next, mailbox, rest);
        assert(state.delivered(mailbox, steps) + state.run(steps).backlog(mailbox)
            =~= state.delivered_by(mailbox, step) + (next.delivered(mailbox, rest) + next.run(
            rest,
        ).backlog(mailbox)));
        assert(state.delivered_by(mailbox, step) + (next.backlog(mailbox) + next.broadcast(rest))
            =~= (state.delivered_by(mailbox, step) + next.backlog(mailbox)) + next.broadcast(rest));
        assert((state.backlog(mailbox) + state.broadcast_by(step)) + next.broadcast(rest)
            =~= state.backlog(mailbox) + state.broadcast(steps));
    }
}

/// Cloned receivers only receive messages sent after they are cloned, and all of
/// those; the other mailboxes do not notice.
pub proof fn law_clone_receives_later_messages<T>(
    state: ChannelState<T>,
    mailbox: usize,
    other: usize,
    steps: Seq<Step<T>>,
)
    requires
        state.valid(),
        state.enabled(Step::Subscribe(mailbox)),
        state.subscribe(mailbox).can_run(steps),
        state.subscribe(mailbox).stays_open(mailbox, steps),
        state.cursors.contains_key(other),
    ensures
        state.subscribe(mailbox).backlog(mailbox) == Seq::<T>::empty(),
        state.subscribe(mailbox).delivered(mailbox, steps) + state.subscribe(mailbox).run(
            steps,
        ).backlog(mailbox) == state.subscribe(mailbox).broadcast(steps),
        state.subscribe(mailbox).backlog(other) == state.backlog(other),
{
    let after = state.subscribe(mailbox);
    law_step_keeps_valid(state, Step::Subscribe(mailbox));
    law_no_reorder(after, mailbox, steps);
    assert(after.backlog(mailbox) =~= Seq::<T>::empty());
    assert(Seq::<T>::empty() + after.broadcast(steps) =~= after.broadcast(steps));
}

/// A message that is refused comes back, and the channel is as it was.
pub proof fn law_refused_send_changes_nothing<T>(state: ChannelState<T>, item: T)
    requires
        state.valid(),
        state.send_outcome(item) is Err,
    ensures
        state.send(item) == state,
        state.send_outcome(item) == Err::<(), _>(TrySendError::Disconnected(item))
            || state.send_outcome(item) == Err::<(), _>(TrySendError::Full(item)),
{
}

/// A channel at its cap has room again as soon as the last copy of a message is
/// received.
pub proof fn law_final_receive_makes_room<T>(state: ChannelState<T>, mailbox: usize, item: T)
    requires
        state.valid(),
        state.cursors.contains_key(mailbox),
        state.is_final_receive(mailbox),
    ensures
        !state.receive(mailbox).is_full(),
        state.receive(mailbox).send_outcome(item) is Ok,
{
    let after = state.receive(mailbox);
    assert(after.cursors.dom() =~= state.cursors.dom());
}

/// A receive that leaves a copy with another mailbox makes no room.
pub proof fn law_other_receives_make_no_room<T>(state: ChannelState<T>, mailbox: usize)
    requires
        state.valid(),
        state.cursors.contains_key(mailbox),
        !state.is_final_receive(mailbox),
    ensures
        state.receive(mailbox).len == state.len,
        state.receive(mailbox).is_full() == state.is_full(),
{
}

/// The messages that count against the cap are the outstanding ones, whatever
/// step is taken.
pub proof fn law_counted_messages_are_outstanding<T>(state: ChannelState<T>, step: Step<T>)
    requires
        state.valid(),
        state.enabled(step),
    ensures
        state.next(step).len == state.next(step).outstanding().len(),
{
    law_step_keeps_valid(state, step);
}

/// The message cap is reached exactly if that many messages wait for some
/// receiver: where none waits for any, only a cap of nothing is reached.
pub proof fn law_cap_is_on_outstanding_messages<T>(state: ChannelState<T>, item: T)
    requires
        state.valid(),
    ensures
        state.is_full() <==> state.capacity == Some(state.outstanding().len() as usize),
        (forall|mailbox: usize| #[trigger]
            state.cursors.contains_key(mailbox) ==> state.backlog(mailbox).len() == 0)
            && state.receivers() > 0 && state.capacity != Some(0usize) ==> state.send_outcome(
            item,
        ) is Ok,
{
    if (forall|mailbox: usize| #[trigger]
        state.cursors.contains_key(mailbox) ==> state.backlog(mailbox).len() == 0) {
        assert(state.outstanding() =~= Set::empty());
    }
}

/// What a mailbox holds alone are the oldest messages of its backlog: those, and
/// no others, are no longer outstanding when it closes.
pub proof fn law_messages_left_unread_were_held_alone<T>(
    state: ChannelState<T>,
    mailbox: usize,
    n: int,
)
    requires
        state.valid(),
        state.cursors.contains_key(mailbox),
    ensures
        0 <= state.held_alone(mailbox) <= state.backlog(mailbox).len(),
        state.is_outstanding(n) && !state.without(mailbox).is_outstanding(n)
            <==> state.cursors[mailbox] <= n < state.cursors[mailbox] + state.held_alone(mailbox),
    decreases state.log.len() - state.cursors[mailbox],
{
    let rest = state.without(mailbox);
    lemma_held_alone(state, mailbox);
    if state.is_final_receive(mailbox) {
        let after = state.receive(mailbox);
        lemma_receive(state, mailbox);
        law_messages_left_unread_were_held_alone(after, mailbox, n);
        assert(after.without(mailbox).cursors =~= rest.cursors);
        lemma_same_places(after.without(mailbox), rest);
        assert(rest.outstanding().contains(n) == rest.is_outstanding(n));
        assert(after.without(mailbox).outstanding().contains(n) == after.without(
            mailbox,
        ).is_outstanding(n));
        assert(after.outstanding().contains(n) == after.is_outstanding(n));
        assert(state.outstanding().contains(n) == state.is_outstanding(n));
        if n == state.cursors[mailbox] {
            assert(!rest.is_outstanding(n)) by {
                if rest.is_outstanding(n) {
                    let m = choose|m: usize| #[trigger]
                        rest.cursors.contains_key(m) && rest.cursors[m] <= n;
                    assert(state.cursors.contains_key(m));
                }
            }
        }
    } else {
        assert(rest.outstanding().contains(n) == rest.is_outstanding(n));
        assert(state.outstanding().contains(n) == state.is_outstanding(n));
    }
}

/// A channel at its cap has room again as soon as a mailbox closes on messages
/// that it alone held, if a receiver is left.
pub proof fn law_closing_mailbox_makes_room<T>(state: ChannelState<T>, mailbox: usize, item: T)
    requires
        state.valid(),
        state.cursors.contains_key(mailbox),
        state.has_one_handle(mailbox),
        state.held_alone(mailbox) > 0,
        state.receivers() > 1,
    ensures
        !state.release(mailbox).is_full(),
        state.release(mailbox).send_outcome(item) is Ok,
{
    let after = state.release(mailbox);
    assert(after.cursors.dom() =~= state.cursors.dom().remove(mailbox));
}

/// Once all senders have disconnected, none comes back: from then on a receiver
/// gets what its mailbox still holds and after that is told so, for good.
pub proof fn law_no_senders_for_good<T>(
    state: ChannelState<T>,
    steps: Seq<Step<T>>,
    mailbox: usize,
)
    requires
        state.valid(),
        state.senders == 0,
        state.can_run(steps),
        state.stays_open(mailbox, steps),
    ensures
        state.run(steps).senders == 0,
        state.run(steps).receive_outcome(mailbox) == if state.run(steps).backlog(mailbox).len()
            > 0 {
            Ok(Some(state.run(steps).backlog(mailbox)[0]))
        } else {
            Err(Disconnected)
        },
        state.broadcast(steps) == Seq::<T>::empty(),
        state.backlog(mailbox).len() == 0 ==> state.run(steps).receive_outcome(mailbox) == Err::<
            Option<T>,
            _,
        >(Disconnected),
    decreases steps.len(),
{
    if steps.len() > 0 {
        let next = state.next(steps[0]);
        law_step_keeps_valid(state, steps[0]);
        law_no_senders_for_good(next, steps.drop_first(), mailbox);
        assert(state.broadcast(steps) =~= Seq::<T>::empty());
        if state.backlog(mailbox).len() == 0 {
            assert(next.stays_open(mailbox, steps.drop_first()));
            lemma_step_loses_nothing(state, mailbox, steps[0]);
            let held = state.backlog(mailbox) + state.broadcast_by(steps[0]);
            assert(held.len() == 0);
            assert((state.delivered_by(mailbox, steps[0]) + next.backlog(mailbox)).len() == 0);
            assert(next.backlog(mailbox).len() == 0);
        }
    }
}

/// Once all receivers have disconnected, none comes back.
proof fn lemma_no_receivers<T>(state: ChannelState<T>, steps: Seq<Step<T>>)
    requires
        state.valid(),
        state.receivers() == 0,
        state.can_run(steps),
    ensures
        state.run(steps).receivers() == 0,
    decreases steps.len(),
{
    if steps.len() > 0 {
        assert(state.cursors.dom() =~= Set::empty());
        law_step_keeps_valid(state, steps[0]);
        lemma_no_receivers(state.next(steps[0]), steps.drop_first());
    }
}

/// Once all receivers have disconnected, none comes back: from then on every
/// message is refused, for good.
pub proof fn law_no_receivers_for_good<T>(state: ChannelState<T>, steps: Seq<Step<T>>, item: T)
    requires
        state.valid(),
        state.receivers() == 0,
        state.can_run(steps),
    ensures
        state.run(steps).receivers() == 0,
        state.run(steps).send_outcome(item) == Err::<(), _>(TrySendError::Disconnected(item)),
{
    lemma_no_receivers(state, steps);
}

/// A message goes to one receiver of a shared mailbox: when one of them has it,
/// the next attempt of any of them gets the message after it.
pub proof fn law_shared_mailbox_receives_once<T>(state: ChannelState<T>, mailbox: usize)
    requires
        state.valid(),
        state.cursors.contains_key(mailbox),
        state.backlog(mailbox).len() > 0,
    ensures
        state.receive(mailbox).receive_outcome(mailbox) == if state.backlog(mailbox).len() > 1 {
            Ok(Some(state.backlog(mailbox)[1]))
        } else if state.senders > 0 {
            Ok(None)
        } else {
            Err(Disconnected)
        },
{
    law_receive_takes_oldest(state, mailbox, mailbox);
    let after = state.receive(mailbox);
    law_step_keeps_valid(state, Step::Receive(mailbox));
    law_receive_takes_oldest(after, mailbox, mailbox);
}

/// A mailbox is open as long as any of the receivers that share it is: one that
/// joins and leaves again changes nothing.
pub proof fn law_share_then_release<T>(state: ChannelState<T>, mailbox: usize)
    requires
        state.valid(),
        state.enabled(Step::Share(mailbox)),
    ensures
        state.share(mailbox).release(mailbox) == state,
{
    assert(state.share(mailbox).release(mailbox).handles =~= state.handles);
}

/// No receiver is left waiting: a step after which a mailbox that had nothing to
/// give out has something, or is told that no sender is left, wakes those who
/// wait for a message.
pub proof fn law_waiting_receivers_are_woken<T>(
    state: ChannelState<T>,
    step: Step<T>,
    mailbox: usize,
)
    requires
        state.valid(),
        state.enabled(step),
        state.cursors.contains_key(mailbox),
        state.receive_outcome(mailbox) == Ok::<Option<T>, Disconnected>(None),
        state.next(step).cursors.contains_key(mailbox),
        state.next(step).receive_outcome(mailbox) != Ok::<Option<T>, Disconnected>(None),
    ensures
        state.wake(step) == Wake::Receivers(usize::MAX),
{
}

/// No sender is left waiting: a step after which a channel that was at its cap
/// has room wakes as many more of those who wait for it as there is more room;
/// one after which no receiver is left wakes them all.
pub proof fn law_waiting_senders_are_woken<T>(state: ChannelState<T>, step: Step<T>, item: T)
    requires
        state.valid(),
        state.enabled(step),
        state.send_outcome(item) == Err::<(), _>(TrySendError::Full(item)),
        state.next(step).send_outcome(item) != Err::<(), _>(TrySendError::Full(item)),
    ensures
        match state.next(step).send_outcome(item) {
            Ok(()) => {
                &&& state.next(step).len < state.len
                &&& state.wake(step) == Wake::MoreSenders(
                    (state.len - state.next(step).len) as usize,
                )
            },
            Err(_) => state.wake(step) == Wake::Senders(usize::MAX),
        },
{
    let after = state.next(step);
    match step {
        Step::Receive(mailbox) => {
            assert(after.cursors.dom() =~= state.cursors.dom());
        },
        Step::Subscribe(mailbox) => {
            assert(after.cursors.dom() =~= state.cursors.dom().insert(mailbox));
        },
        Step::Release(mailbox) => {
            lemma_held_alone(state, mailbox);
            if state.has_one_handle(mailbox) {
                assert(after.cursors.dom() =~= state.cursors.dom().remove(mailbox));
            }
        },
        _ => {},
    }
}

/// One step of a run: unless it leaves no receiver, a message more counts for
/// each one broadcast, and one less for each sender more that is woken.
proof fn lemma_step_wakes_for_room<T>(state: ChannelState<T>, step: Step<T>)
    requires
        state.valid(),
        state.enabled(step),
        state.next(step).receivers() > 0,
    ensures
        state.next(step).len == state.len + state.broadcast_by(step).len() - more_senders(
            state.wake(step),
        ),
{
    let after = state.next(step);
    match step {
        Step::Release(mailbox) => {
            lemma_held_alone(state, mailbox);
            if state.has_one_handle(mailbox) {
                assert(after.cursors.dom() =~= state.cursors.dom().remove(mailbox));
            }
        },
        _ => {},
    }
}

/// Room made is room announced: over any run that leaves a receiver, as many
/// more of those who wait for room are woken as messages stopped to count, so
/// that however many wait, one is woken for each place.
pub proof fn law_every_place_wakes_a_sender<T>(state: ChannelState<T>, steps: Seq<Step<T>>)
    requires
        state.valid(),
        state.can_run(steps),
        state.run(steps).receivers() > 0,
    ensures
        all_more_senders(state.wakes(steps)) == state.len + state.broadcast(steps).len()
            - state.run(steps).len,
    decreases steps.len(),
{
    if steps.len() > 0 {
        let next = state.next(steps[0]);
        let rest = steps.drop_first();
        law_step_keeps_valid(state, steps[0]);
        law_every_place_wakes_a_sender(next, rest);
        if next.receivers() == 0 {
            lemma_no_receivers(next, rest);
        }
        lemma_step_wakes_for_room(state, steps[0]);
        assert(state.wakes(steps).drop_first() =~= next.wakes(rest));
    }
}

/// No wake-up is lost: a receiver that began to listen, found its mailbox empty
/// and waits is woken, whatever steps are taken meanwhile, if by then there is a
/// message for it or no sender is left.
pub proof fn law_no_wake_up_of_a_receiver_is_lost<T>(
    state: ChannelState<T>,
    steps: Seq<Step<T>>,
    mailbox: usize,
)
    requires
        state.valid(),
        state.can_run(steps),
        state.stays_open(mailbox, steps),
        state.receive_outcome(mailbox) == Ok::<Option<T>, Disconnected>(None),
        state.run(steps).receive_outcome(mailbox) != Ok::<Option<T>, Disconnected>(None),
    ensures
        state.wakes(steps).contains(Wake::Receivers(usize::MAX)),
    decreases steps.len(),
{
    let next = state.next(steps[0]);
    let rest = steps.drop_first();
    law_step_keeps_valid(state, steps[0]);
    assert(next.stays_open(mailbox, rest));
    if next.receive_outcome(mailbox) == Ok::<Option<T>, Disconnected>(None) {
        law_no_wake_up_of_a_receiver_is_lost(next, rest, mailbox);
        let i = choose|i: int|
            0 <= i < next.wakes(rest).len() && next.wakes(rest)[i] == Wake::Receivers(usize::MAX);
        assert(state.wakes(steps)[i + 1] == Wake::Receivers(usize::MAX));
    } else {
        law_waiting_receivers_are_woken(state, steps[0], mailbox);
        assert(state.wakes(steps)[0] == Wake::Receivers(usize::MAX));
    }
}

/// No wake-up is lost: where a sender began to listen, found the channel at its
/// cap and waits, then, whatever steps are taken meanwhile, if by then there is
/// room, some step woke more of those who wait for it; if no receiver is left,
/// some step woke them all.
pub proof fn law_no_wake_up_of_a_sender_is_lost<T>(
    state: ChannelState<T>,
    steps: Seq<Step<T>>,
    item: T,
)
    requires
        state.valid(),
        state.can_run(steps),
        state.send_outcome(item) == Err::<(), _>(TrySendError::Full(item)),
        state.run(steps).send_outcome(item) != Err::<(), _>(TrySendError::Full(item)),
    ensures
        state.run(steps).receivers() > 0 ==> exists|i: int|
            0 <= i < state.wakes(steps).len() && more_senders(#[trigger] state.wakes(steps)[i]) > 0,
        state.run(steps).receivers() == 0 ==> state.wakes(steps).contains(
            Wake::Senders(usize::MAX),
        ),
    decreases steps.len(),
{
    let next = state.next(steps[0]);
    let rest = steps.drop_first();
    law_step_keeps_valid(state, steps[0]);
    assert(state.wakes(steps)[0] == state.wake(steps[0]));
    if state.run(steps).receivers() == 0 {
        lemma_last_receiver_wakes_all(state, steps);
    } else if next.send_outcome(item) == Err::<(), _>(TrySendError::Full(item)) {
        law_no_wake_up_of_a_sender_is_lost(next, rest, item);
        let i = choose|i: int|
            0 <= i < next.wakes(rest).len() && more_senders(#[trigger] next.wakes(rest)[i]) > 0;
        assert(state.wakes(steps)[i + 1] == next.wakes(rest)[i]);
    } else {
        if next.receivers() == 0 {
            lemma_no_receivers(next, rest);
        }
        law_waiting_senders_are_woken(state, steps[0], item);
    }
}

/// A run that leaves no receiver, where there was one, wakes all who wait for
/// room.
proof fn lemma_last_receiver_wakes_all<T>(state: ChannelState<T>, steps: Seq<Step<T>>)
    requires
        state.valid(),
        state.can_run(steps),
        state.receivers() > 0,
        state.run(steps).receivers() == 0,
    ensures
        state.wakes(steps).contains(Wake::Senders(usize::MAX)),
    decreases steps.len(),
{
    let step = steps[0];
    let next = state.next(step);
    let rest = steps.drop_first();
    law_step_keeps_valid(state, step);
    if next.receivers() > 0 {
        lemma_last_receiver_wakes_all(next, rest);
        let i = choose|i: int|
            0 <= i < next.wakes(rest).len() && next.wakes(rest)[i] == Wake::Senders(usize::MAX);
        assert(state.wakes(steps)[i + 1] == Wake::Senders(usize::MAX));
    } else {
        match step {
            Step::Receive(mailbox) => {
                assert(next.cursors.dom() =~= state.cursors.dom());
            },
            Step::Subscribe(mailbox) => {
                assert(next.cursors.dom() =~= state.cursors.dom().insert(mailbox));
            },
            Step::Release(mailbox) => {
                if state.has_one_handle(mailbox) {
                    assert(next.cursors.dom() =~= state.cursors.dom().remove(mailbox));
                }
            },
            _ => {},
        }
        assert(state.wakes(steps)[0] == Wake::Senders(usize::MAX));
    }
}

/// A receiver that leaves a shared mailbox for one of its own gets none of the
/// messages so far; the shared mailbox keeps them for those who stay.
pub proof fn law_upgrade_starts_afresh<T>(state: ChannelState<T>, shared: usize, own: usize)
    requires
        state.valid(),
        state.cursors.contains_key(shared),
        state.enabled(Step::Subscribe(own)),
    ensures
        state.subscribe(own).release(shared).valid(),
        state.subscribe(own).release(shared).cursors.contains_key(own),
        state.subscribe(own).release(shared).backlog(own) == Seq::<T>::empty(),
        state.handles[shared] > 1 ==> {
            &&& state.subscribe(own).release(shared).cursors.contains_key(shared)
            &&& state.subscribe(own).release(shared).backlog(shared) == state.backlog(shared)
        },
{
    let joined = state.subscribe(own);
    law_step_keeps_valid(state, Step::Subscribe(own));
    law_step_keeps_valid(joined, Step::Release(shared));
    assert(joined.release(shared).backlog(own) =~= Seq::<T>::empty());
}

} // verus!
