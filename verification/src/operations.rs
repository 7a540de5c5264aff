//! What each operation is for: how its answer and the channel after it follow
//! from the messages, mailboxes, receivers and senders before it, and what pairs
//! and runs of operations come to.
use crate::error::{Disconnected, SendError, TrySendError};
use crate::laws::{law_messages_left_unread_were_held_alone, law_step_keeps_valid};
use crate::model::{
    clone_of_answer, clone_of_receive_turn, lemma_held_alone, send_turn, ChannelState, Step, Turn,
    Wake,
};
use vstd::prelude::*;

verus! {

/// Which states are valid: finitely many mailboxes, each with a place in the log
/// and at least one receiver; counts that fit their words; as many messages
/// counted as wait at some mailbox, and no more than the cap.
pub proof fn law_valid_states<T>(state: ChannelState<T>)
    ensures
        state.valid() <==> {
            let waiting = Set::new(
                |n: int|
                    0 <= n < state.log.len() && exists|m: usize| #[trigger]
                        state.cursors.contains_key(m) && state.cursors[m] <= n,
            );
            &&& state.cursors.dom().finite()
            &&& state.cursors.dom().len() <= usize::MAX
            &&& forall|m: usize| state.handles.contains_key(m) <==> state.cursors.contains_key(m)
            &&& forall|m: usize| #[trigger]
                state.cursors.contains_key(m) ==> 0 <= state.cursors[m] <= state.log.len() && 1
                    <= state.handles[m] <= usize::MAX
            &&& 0 <= state.senders <= usize::MAX
            &&& waiting.finite()
            &&& waiting.len() == state.len
            &&& state.len <= usize::MAX
            &&& match state.capacity {
                Some(capacity) => state.len <= capacity,
                None => true,
            }
        },
{
    let waiting = Set::new(
        |n: int|
            0 <= n < state.log.len() && exists|m: usize| #[trigger]
                state.cursors.contains_key(m) && state.cursors[m] <= n,
    );
    assert(waiting =~= state.outstanding());
    if forall|m: usize| state.handles.contains_key(m) <==> state.cursors.contains_key(m) {
        assert forall|m: usize| state.handles.dom().contains(m) <==> state.cursors.dom().contains(
            m,
        ) by {
            assert(state.handles.contains_key(m) <==> state.cursors.contains_key(m));
        }
        assert(state.handles.dom() =~= state.cursors.dom());
    }
    if state.valid() {
        assert forall|m: usize|
            state.handles.contains_key(m) <==> state.cursors.contains_key(m) by {
            assert(state.handles.dom().contains(m) <==> state.cursors.dom().contains(m));
        }
    }
}

/// Which steps can be taken: on handles that are there, as long as one more
/// sender, receiver or message can be counted.
pub proof fn law_steps_that_can_be_taken<T>(state: ChannelState<T>, step: Step<T>)
    requires
        state.valid(),
    ensures
        state.enabled(step) <==> match step {
            Step::Send(_) => state.senders >= 1 && (state.cursors.dom().len() == 0
                || state.capacity == Some(state.len as usize) || state.len < usize::MAX),
            Step::Receive(m) => state.cursors.contains_key(m),
            Step::CloneSender => 1 <= state.senders < usize::MAX,
            Step::DropSender => state.senders >= 1,
            Step::Subscribe(m) => !state.cursors.contains_key(m) && 1 <= state.cursors.dom().len()
                < usize::MAX,
            Step::Share(m) => state.cursors.contains_key(m) && state.handles[m] < usize::MAX,
            Step::Release(m) => state.cursors.contains_key(m),
        },
{
}

/// The steps of a run are the operations of senders and receivers.
pub proof fn law_steps_are_operations<T>(state: ChannelState<T>, item: T, mailbox: usize)
    ensures
        state.next(Step::Send(item)) == state.send(item),
        state.next(Step::Receive(mailbox)) == state.receive(mailbox),
        state.next(Step::Subscribe(mailbox)) == state.subscribe(mailbox),
        state.next(Step::Share(mailbox)) == state.share(mailbox),
        state.next(Step::Release(mailbox)) == state.release(mailbox),
{
}

/// A new channel has the capacity that was asked for, no message, one sender and
/// one mailbox with one receiver.
pub proof fn law_new_channel<T>(capacity: Option<usize>, mailbox: usize, other: usize)
    ensures
        ({
            let state = ChannelState::<T>::initial(capacity, mailbox);
            &&& state.capacity == capacity
            &&& state.log.len() == 0
            &&& state.len == 0
            &&& state.senders == 1
            &&& state.cursors.contains_key(other) <==> other == mailbox
            &&& state.handles.contains_key(other) <==> other == mailbox
            &&& state.cursors[mailbox] == 0
            &&& state.handles[mailbox] == 1
        }),
{
}

/// No step changes the capacity.
pub proof fn law_capacity_never_changes<T>(state: ChannelState<T>, step: Step<T>)
    ensures
        state.next(step).capacity == state.capacity,
{
}

/// Why a message is refused: it is handed back as disconnected exactly if no
/// mailbox is open, and as too many exactly if one is and as many messages wait
/// as the cap allows; otherwise it is taken.
pub proof fn law_why_a_send_is_refused<T>(state: ChannelState<T>, item: T)
    requires
        state.valid(),
    ensures
        state.send_outcome(item) == Err::<(), _>(TrySendError::Disconnected(item))
            <==> forall|m: usize| !state.cursors.contains_key(m),
        state.send_outcome(item) == Err::<(), _>(TrySendError::Full(item)) <==> (exists|m: usize|
            state.cursors.contains_key(m)) && state.capacity == Some(
            Set::new(
                |n: int|
                    0 <= n < state.log.len() && exists|m: usize| #[trigger]
                        state.cursors.contains_key(m) && state.cursors[m] <= n,
            ).len() as usize,
        ),
        state.send_outcome(item) == Ok::<(), TrySendError<T>>(()) <==> (exists|m: usize|
            state.cursors.contains_key(m)) && state.capacity != Some(state.len as usize),
{
    law_valid_states(state);
    if forall|m: usize| !state.cursors.contains_key(m) {
        assert(state.cursors.dom() =~= Set::empty());
    } else {
        let m = choose|m: usize| state.cursors.contains_key(m);
        assert(state.cursors.dom().contains(m));
    }
}

/// A message that is taken is the newest of the log and counts once; one that is
/// not leaves no trace. Nothing else changes.
pub proof fn law_what_a_send_does<T>(state: ChannelState<T>, item: T)
    requires
        state.valid(),
    ensures
        ({
            let after = state.send(item);
            let taken = (exists|m: usize| state.cursors.contains_key(m)) && state.capacity != Some(
                state.len as usize,
            );
            &&& after.cursors == state.cursors
            &&& after.handles == state.handles
            &&& after.senders == state.senders
            &&& after.capacity == state.capacity
            &&& taken ==> after.log == state.log.push(item) && after.len == state.len + 1
            &&& !taken ==> after.log == state.log && after.len == state.len
        }),
{
    law_why_a_send_is_refused(state, item);
}

/// The channel after the messages, sent one after the other.
pub open spec fn send_all<T>(state: ChannelState<T>, items: Seq<T>) -> ChannelState<T>
    decreases items.len(),
{
    if items.len() == 0 {
        state
    } else {
        send_all(state, items.drop_last()).send(items.last())
    }
}

/// Messages sent while there is room for all of them are all taken.
proof fn lemma_send_all<T>(state: ChannelState<T>, items: Seq<T>)
    requires
        state.valid(),
        state.cursors.dom().len() > 0,
        state.len + items.len() <= match state.capacity {
            Some(capacity) => capacity,
            None => usize::MAX,
        },
    ensures
        send_all(state, items).valid(),
        send_all(state, items).cursors == state.cursors,
        send_all(state, items).capacity == state.capacity,
        send_all(state, items).len == state.len + items.len(),
        send_all(state, items).log == state.log + items,
    decreases items.len(),
{
    if items.len() > 0 {
        let before = send_all(state, items.drop_last());
        lemma_send_all(state, items.drop_last());
        let m = state.cursors.dom().choose();
        assert(before.cursors.contains_key(m));
        law_what_a_send_does(before, items.last());
        crate::model::lemma_send(before, items.last());
        assert(items =~= items.drop_last().push(items.last()));
    }
    assert(send_all(state, items).log =~= state.log + items);
}

/// A bounded channel takes as many messages as its capacity while none is
/// received, in the order in which they are sent, and refuses the next one.
pub proof fn law_bounded_channel_takes_its_capacity<T>(
    capacity: usize,
    mailbox: usize,
    items: Seq<T>,
    item: T,
)
    requires
        items.len() <= capacity,
    ensures
        send_all(ChannelState::initial(Some(capacity), mailbox), items).log == items,
        send_all(ChannelState::initial(Some(capacity), mailbox), items).send_outcome(item)
            == if items.len() < capacity {
            Ok::<(), TrySendError<T>>(())
        } else {
            Err(TrySendError::Full(item))
        },
{
    let state = ChannelState::<T>::initial(Some(capacity), mailbox);
    crate::laws::law_initial_valid::<T>(Some(capacity), mailbox);
    assert(state.cursors.dom() =~= Set::empty().insert(mailbox));
    lemma_send_all(state, items);
    assert(state.log + items =~= items);
    law_valid_states(send_all(state, items));
    assert(send_all(state, items).cursors.contains_key(mailbox));
}

/// A channel without a cap is never full.
pub proof fn law_unbounded_channel_is_never_full<T>(
    mailbox: usize,
    steps: Seq<Step<T>>,
    item: T,
)
    ensures
        ChannelState::<T>::initial(None, mailbox).run(steps).send_outcome(item) != Err::<(), _>(
            TrySendError::Full(item),
        ),
{
    lemma_run_capacity(ChannelState::<T>::initial(None, mailbox), steps);
}

/// No run changes the capacity.
proof fn lemma_run_capacity<T>(state: ChannelState<T>, steps: Seq<Step<T>>)
    ensures
        state.run(steps).capacity == state.capacity,
    decreases steps.len(),
{
    if steps.len() > 0 {
        law_capacity_never_changes(state, steps[0]);
        lemma_run_capacity(state.next(steps[0]), steps.drop_first());
    }
}

/// What a receiver is answered: the message at its mailbox's place in the log;
/// past the end of the log nothing, while a sender is left, and otherwise that
/// none is.
pub proof fn law_what_a_receive_answers<T>(state: ChannelState<T>, mailbox: usize)
    requires
        state.valid(),
        state.cursors.contains_key(mailbox),
    ensures
        forall|message: T|
            state.receive_outcome(mailbox) == Ok::<_, Disconnected>(Some(message))
                <==> state.cursors[mailbox] < state.log.len() && message
                == state.log[state.cursors[mailbox]],
        state.receive_outcome(mailbox) == Ok::<Option<T>, Disconnected>(None)
            <==> state.cursors[mailbox] == state.log.len() && state.senders >= 1,
        state.receive_outcome(mailbox) == Err::<Option<T>, _>(Disconnected)
            <==> state.cursors[mailbox] == state.log.len() && state.senders == 0,
{
}

/// A receiver moves its mailbox on by one message, if there is one. The message
/// counts until no mailbox holds it. Nothing else changes.
pub proof fn law_what_a_receive_does<T>(state: ChannelState<T>, mailbox: usize)
    requires
        state.valid(),
        state.cursors.contains_key(mailbox),
    ensures
        ({
            let after = state.receive(mailbox);
            let n = state.cursors[mailbox];
            let another = exists|m: usize| #[trigger]
                state.cursors.contains_key(m) && m != mailbox && state.cursors[m] <= n;
            &&& after.log == state.log
            &&& after.handles == state.handles
            &&& after.senders == state.senders
            &&& after.capacity == state.capacity
            &&& n < state.log.len() ==> after.cursors == state.cursors.insert(mailbox, n + 1)
            &&& n < state.log.len() && another ==> after.len == state.len
            &&& n < state.log.len() && !another ==> after.len == state.len - 1
            &&& n == state.log.len() ==> after == state
        }),
{
    let n = state.cursors[mailbox];
    if exists|m: usize| #[trigger]
        state.cursors.contains_key(m) && m != mailbox && state.cursors[m] <= n {
        let m = choose|m: usize| #[trigger]
            state.cursors.contains_key(m) && m != mailbox && state.cursors[m] <= n;
        assert(!state.is_final_receive(mailbox));
    } else if n < state.log.len() {
        assert(state.is_final_receive(mailbox));
    }
}

/// A sender that is cloned counts as one more, one that is dropped as one less,
/// and nothing else changes; so a clone that is dropped again leaves no trace.
pub proof fn law_senders_are_cloned_and_dropped<T>(state: ChannelState<T>)
    ensures
        ({
            let more = state.next(Step::CloneSender);
            let less = state.next(Step::DropSender);
            &&& more.senders == state.senders + 1
            &&& less.senders == state.senders - 1
            &&& more.log == state.log && less.log == state.log
            &&& more.cursors == state.cursors && less.cursors == state.cursors
            &&& more.handles == state.handles && less.handles == state.handles
            &&& more.len == state.len && less.len == state.len
            &&& more.capacity == state.capacity && less.capacity == state.capacity
            &&& more.next(Step::DropSender) == state
            &&& less.next(Step::CloneSender) == state
        }),
{
}

/// How many senders more the step makes.
pub open spec fn senders_by<T>(step: Step<T>) -> int {
    match step {
        Step::CloneSender => 1,
        Step::DropSender => -1,
        _ => 0,
    }
}

/// How many senders more the steps make.
pub open spec fn all_senders_by<T>(steps: Seq<Step<T>>) -> int
    decreases steps.len(),
{
    if steps.len() == 0 {
        0
    } else {
        senders_by(steps[0]) + all_senders_by(steps.drop_first())
    }
}

/// Over any run the senders are those at first and those cloned, less those
/// dropped.
pub proof fn law_senders_are_counted<T>(state: ChannelState<T>, steps: Seq<Step<T>>)
    ensures
        state.run(steps).senders == state.senders + all_senders_by(steps),
    decreases steps.len(),
{
    if steps.len() > 0 {
        law_senders_are_counted(state.next(steps[0]), steps.drop_first());
    }
}

/// A receiver that is cloned opens one mailbox, for itself alone, at the end of
/// the log. Nothing else changes.
pub proof fn law_what_a_clone_of_a_receiver_does<T>(state: ChannelState<T>, mailbox: usize)
    ensures
        ({
            let after = state.subscribe(mailbox);
            &&& after.cursors == state.cursors.insert(mailbox, state.log.len() as int)
            &&& after.handles == state.handles.insert(mailbox, 1)
            &&& after.log == state.log
            &&& after.len == state.len
            &&& after.senders == state.senders
            &&& after.capacity == state.capacity
        }),
{
}

/// A receiver that is cloned and dropped again leaves no trace: no mailbox, no
/// message and no count is other than before.
pub proof fn law_clone_of_a_receiver_then_drop<T>(state: ChannelState<T>, mailbox: usize)
    requires
        state.valid(),
        state.enabled(Step::Subscribe(mailbox)),
    ensures
        state.subscribe(mailbox).release(mailbox) == state,
        state.subscribe(mailbox).left_unread(mailbox) == Seq::<T>::empty(),
        state.subscribe(mailbox).wake(Step::Release(mailbox)) == Wake::Nobody,
{
    let joined = state.subscribe(mailbox);
    law_step_keeps_valid(state, Step::Subscribe(mailbox));
    lemma_held_alone(joined, mailbox);
    assert(!state.handles.contains_key(mailbox)) by {
        law_valid_states(state);
    }
    assert(joined.release(mailbox).cursors =~= state.cursors);
    assert(joined.release(mailbox).handles =~= state.handles);
    assert(joined.left_unread(mailbox) =~= Seq::<T>::empty());
    assert(joined.cursors.dom() =~= state.cursors.dom().insert(mailbox));
}

/// A receiver that joins a mailbox counts there as one more. Nothing else
/// changes.
pub proof fn law_what_sharing_a_mailbox_does<T>(state: ChannelState<T>, mailbox: usize)
    ensures
        ({
            let after = state.share(mailbox);
            &&& after.handles == state.handles.insert(mailbox, state.handles[mailbox] + 1)
            &&& after.cursors == state.cursors
            &&& after.log == state.log
            &&& after.len == state.len
            &&& after.senders == state.senders
            &&& after.capacity == state.capacity
        }),
{
}

/// A receiver that leaves a mailbox which others share counts there as one less,
/// and takes nothing along.
pub proof fn law_mailbox_stays_open_while_shared<T>(state: ChannelState<T>, mailbox: usize)
    requires
        state.valid(),
        state.cursors.contains_key(mailbox),
        state.handles[mailbox] > 1,
    ensures
        ({
            let after = state.release(mailbox);
            &&& after.handles == state.handles.insert(mailbox, state.handles[mailbox] - 1)
            &&& after.cursors == state.cursors
            &&& after.log == state.log
            &&& after.len == state.len
            &&& after.senders == state.senders
            &&& after.capacity == state.capacity
            &&& state.left_unread(mailbox) == Seq::<T>::empty()
            &&& state.wake(Step::Release(mailbox)) == Wake::Nobody
        }),
{
}

/// The last receiver of a mailbox closes it, and only it: the other mailboxes
/// stay as they are, and as many messages count as still wait at one of them. If
/// no mailbox is left, every message is refused from then on, and all who wait
/// for room are woken.
pub proof fn law_last_receiver_closes_its_mailbox<T>(
    state: ChannelState<T>,
    mailbox: usize,
    item: T,
)
    requires
        state.valid(),
        state.cursors.contains_key(mailbox),
        state.handles[mailbox] == 1,
    ensures
        ({
            let after = state.release(mailbox);
            &&& after.cursors == state.cursors.remove(mailbox)
            &&& after.handles == state.handles.remove(mailbox)
            &&& after.log == state.log
            &&& after.senders == state.senders
            &&& after.capacity == state.capacity
            &&& after.len == Set::new(
                |n: int|
                    0 <= n < state.log.len() && exists|m: usize| #[trigger]
                        state.cursors.contains_key(m) && m != mailbox && state.cursors[m] <= n,
            ).len()
            &&& (forall|m: usize| #[trigger] state.cursors.contains_key(m) ==> m == mailbox) ==> {
                &&& after.cursors.dom().len() == 0
                &&& after.send_outcome(item) == Err::<(), _>(TrySendError::Disconnected(item))
                &&& state.wake(Step::Release(mailbox)) == Wake::Senders(usize::MAX)
            }
        }),
{
    let after = state.release(mailbox);
    law_step_keeps_valid(state, Step::Release(mailbox));
    law_valid_states(after);
    let waiting = Set::new(
        |n: int|
            0 <= n < state.log.len() && exists|m: usize| #[trigger]
                state.cursors.contains_key(m) && m != mailbox && state.cursors[m] <= n,
    );
    assert forall|n: int| waiting.contains(n) implies after.is_outstanding(n) by {
        let m = choose|m: usize| #[trigger]
            state.cursors.contains_key(m) && m != mailbox && state.cursors[m] <= n;
        assert(after.cursors.contains_key(m) && after.cursors[m] <= n);
    }
    assert forall|n: int| after.is_outstanding(n) implies waiting.contains(n) by {
        let m = choose|m: usize| #[trigger] after.cursors.contains_key(m) && after.cursors[m] <= n;
        assert(state.cursors.contains_key(m) && m != mailbox && state.cursors[m] <= n);
    }
    assert(waiting =~= after.outstanding());
    if forall|m: usize| #[trigger] state.cursors.contains_key(m) ==> m == mailbox {
        assert(state.cursors.dom() =~= Set::empty().insert(mailbox));
        assert(after.cursors.dom() =~= Set::empty());
    }
}

/// What leaves the channel unread with the last receiver of a mailbox are the
/// next messages of that mailbox that no other holds, all of them and in order.
pub proof fn law_what_is_left_unread<T>(state: ChannelState<T>, mailbox: usize)
    requires
        state.valid(),
        state.cursors.contains_key(mailbox),
        state.handles[mailbox] == 1,
    ensures
        ({
            let unread = state.left_unread(mailbox);
            let next = state.cursors[mailbox];
            &&& unread.len() == state.len - state.release(mailbox).len
            &&& next + unread.len() <= state.log.len()
            &&& unread == state.log.subrange(next, next + unread.len())
            &&& unread.len() > 0 ==> forall|m: usize| #[trigger]
                state.cursors.contains_key(m) && m != mailbox ==> next + unread.len()
                    <= state.cursors[m]
            &&& next + unread.len() < state.log.len() ==> exists|m: usize| #[trigger]
                state.cursors.contains_key(m) && m != mailbox && state.cursors[m] <= next
                    + unread.len()
        }),
{
    let next = state.cursors[mailbox];
    let rest = state.without(mailbox);
    let count = state.held_alone(mailbox);
    let unread = state.left_unread(mailbox);
    law_messages_left_unread_were_held_alone(state, mailbox, next + count - 1);
    law_messages_left_unread_were_held_alone(state, mailbox, next + count);
    assert(unread =~= state.log.subrange(next, next + count));
    if count > 0 {
        assert forall|m: usize| #[trigger]
            state.cursors.contains_key(m) && m != mailbox implies next + count
            <= state.cursors[m] by {
            if state.cursors[m] <= next + count - 1 {
                assert(rest.cursors.contains_key(m) && rest.cursors[m] <= next + count - 1);
                assert(rest.is_outstanding(next + count - 1));
            }
        }
    }
    if next + count < state.log.len() {
        assert(state.cursors.contains_key(mailbox) && state.cursors[mailbox] <= next + count);
        assert(state.is_outstanding(next + count));
        let m = choose|m: usize| #[trigger]
            rest.cursors.contains_key(m) && rest.cursors[m] <= next + count;
        assert(state.cursors.contains_key(m) && m != mailbox && state.cursors[m] <= next + count);
    }
}

/// A step leaves alone the mailboxes that it is not about, and opens and closes
/// no other.
pub proof fn law_steps_leave_other_mailboxes_alone<T>(
    state: ChannelState<T>,
    step: Step<T>,
    mailbox: usize,
)
    requires
        state.valid(),
        state.enabled(step),
        match step {
            Step::Receive(m) | Step::Subscribe(m) | Step::Share(m) | Step::Release(m) => m
                != mailbox,
            _ => true,
        },
    ensures
        state.next(step).cursors.contains_key(mailbox) <==> state.cursors.contains_key(mailbox),
        state.next(step).handles.contains_key(mailbox) <==> state.handles.contains_key(mailbox),
        state.cursors.contains_key(mailbox) ==> {
            &&& state.next(step).cursors[mailbox] == state.cursors[mailbox]
            &&& state.next(step).handles[mailbox] == state.handles[mailbox]
        },
{
}

/// How many receivers more the step makes at the mailbox.
pub open spec fn handles_by<T>(mailbox: usize, step: Step<T>) -> int {
    match step {
        Step::Share(m) if m == mailbox => 1,
        Step::Release(m) if m == mailbox => -1,
        _ => 0,
    }
}

/// How many receivers more the steps make at the mailbox.
pub open spec fn all_handles_by<T>(mailbox: usize, steps: Seq<Step<T>>) -> int
    decreases steps.len(),
{
    if steps.len() == 0 {
        0
    } else {
        handles_by(mailbox, steps[0]) + all_handles_by(mailbox, steps.drop_first())
    }
}

/// Over any run, the receivers of a mailbox that stays open are those at first
/// and those that joined, less those that left.
pub proof fn law_receivers_of_a_mailbox_are_counted<T>(
    state: ChannelState<T>,
    mailbox: usize,
    steps: Seq<Step<T>>,
)
    requires
        state.valid(),
        state.can_run(steps),
        state.stays_open(mailbox, steps),
    ensures
        state.run(steps).handles[mailbox] == state.handles[mailbox] + all_handles_by(
            mailbox,
            steps,
        ),
    decreases steps.len(),
{
    if steps.len() > 0 {
        let next = state.next(steps[0]);
        law_step_keeps_valid(state, steps[0]);
        assert(next.stays_open(mailbox, steps.drop_first()));
        assert(next.cursors.contains_key(mailbox));
        law_receivers_of_a_mailbox_are_counted(next, mailbox, steps.drop_first());
    }
}

/// Who is woken: all who wait for a message, when one is broadcast or the last
/// sender is dropped; all who wait for room, when the last mailbox closes;
/// otherwise one more of these for each message that counts no longer.
pub proof fn law_who_is_woken<T>(state: ChannelState<T>, step: Step<T>)
    requires
        state.valid(),
        match step {
            Step::Receive(m) | Step::Release(m) => state.cursors.contains_key(m),
            _ => true,
        },
    ensures
        state.wake(step) == match step {
            Step::Send(_) => if state.next(step).log.len() > state.log.len() {
                Wake::Receivers(usize::MAX)
            } else {
                Wake::Nobody
            },
            Step::DropSender => if state.senders == 1 {
                Wake::Receivers(usize::MAX)
            } else {
                Wake::Nobody
            },
            Step::Receive(_) => if state.next(step).len < state.len {
                Wake::MoreSenders(1)
            } else {
                Wake::Nobody
            },
            Step::Release(_) => if state.next(step).cursors.dom().len() == 0 {
                Wake::Senders(usize::MAX)
            } else if state.next(step).len < state.len {
                Wake::MoreSenders((state.len - state.next(step).len) as usize)
            } else {
                Wake::Nobody
            },
            Step::CloneSender | Step::Subscribe(_) | Step::Share(_) => Wake::Nobody,
        },
{
    let after = state.next(step);
    match step {
        Step::Release(mailbox) => {
            lemma_held_alone(state, mailbox);
            assert(state.cursors.dom().contains(mailbox));
            if state.has_one_handle(mailbox) {
                assert(after.cursors.dom() =~= state.cursors.dom().remove(mailbox));
            }
        },
        _ => {},
    }
}

/// A send that waits for room is over when the attempt was taken, or refused for
/// want of receivers, and then with the message; it waits exactly if the channel
/// was full, and keeps the message.
pub proof fn law_turns_of_a_send<T>(answer: Result<(), TrySendError<T>>, item: T)
    ensures
        send_turn(answer) == Turn::<Result<(), SendError<T>>, T>::Done(Ok(())) <==> answer is Ok,
        send_turn(answer) == Turn::<Result<(), SendError<T>>, T>::Done(Err(SendError(item)))
            <==> answer == Err::<(), _>(TrySendError::Disconnected(item)),
        send_turn(answer) == Turn::<Result<(), SendError<T>>, T>::Wait(item) <==> answer == Err::<
            (),
            _,
        >(TrySendError::Full(item)),
{
}

/// A receiver gets a clone of the message that the channel answers, and the
/// other answers as they are.
pub proof fn law_receivers_get_clones<T: Clone>(
    answer: Result<Option<T>, Disconnected>,
    got: Result<Option<T>, Disconnected>,
)
    ensures
        clone_of_answer(answer, got) <==> match (answer, got) {
            (Ok(Some(message)), Ok(Some(item))) => call_ensures(T::clone, (&message,), item),
            (Ok(None), Ok(None)) => true,
            (Err(disconnected), Err(told)) => told == disconnected,
            _ => false,
        },
{
}

/// A receive that waits for a message is over when there was one, and then with
/// a clone of it, or when no sender was left; it waits exactly if neither holds.
pub proof fn law_turns_of_a_receive<T: Clone>(
    answer: Result<Option<T>, Disconnected>,
    got: Turn<Result<T, Disconnected>, ()>,
)
    ensures
        clone_of_receive_turn(answer, got) <==> match (answer, got) {
            (Ok(Some(message)), Turn::Done(Ok(item))) => call_ensures(
                T::clone,
                (&message,),
                item,
            ),
            (Ok(None), Turn::Wait(unit)) => unit == (),
            (Err(disconnected), Turn::Done(Err(told))) => told == disconnected,
            _ => false,
        },
{
}

} // verus!
