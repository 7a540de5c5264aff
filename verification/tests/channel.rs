use barrage::facade::{wait_lock, Backoff, Pause};
use barrage::{bounded, new, unbounded, Disconnected, Resume, SendError, TrySendError, Turn, Wake};

#[test]
fn doc_example() {
    let (mut ch, tx, rx1) = unbounded();
    let rx2 = rx1.clone(&mut ch);
    assert_eq!(tx.send(&mut ch, "Hello!").0, Turn::Done(Ok(())));
    let rx3 = rx1.clone(&mut ch);
    assert_eq!(rx1.recv(&mut ch).0, Turn::Done(Ok("Hello!")));
    assert_eq!(rx2.recv(&mut ch).0, Turn::Done(Ok("Hello!")));
    assert_eq!(rx3.try_recv(&mut ch).0, Ok(None));
}

#[test]
fn full_channel_gives_the_message_back() {
    let (mut ch, tx, rx) = bounded(2);
    assert_eq!(
        tx.try_send(&mut ch, 1),
        (Ok(()), Wake::Receivers(usize::MAX))
    );
    assert_eq!(
        tx.try_send(&mut ch, 2),
        (Ok(()), Wake::Receivers(usize::MAX))
    );
    assert_eq!(
        tx.try_send(&mut ch, 3),
        (Err(TrySendError::Full(3)), Wake::Nobody)
    );
    assert_eq!(tx.send(&mut ch, 4), (Turn::Wait(4), Wake::Nobody));
    assert_eq!(
        rx.try_recv(&mut ch),
        (Ok(Some(1)), Wake::MoreSenders(1))
    );
    assert_eq!(tx.try_send(&mut ch, 5).0, Ok(()));
    assert_eq!(rx.try_recv(&mut ch).0, Ok(Some(2)));
    assert_eq!(rx.try_recv(&mut ch).0, Ok(Some(5)));
    assert_eq!(rx.try_recv(&mut ch), (Ok(None), Wake::Nobody));
}

#[test]
fn capacity_zero_is_always_full() {
    let (mut ch, tx, rx) = new(Some(0));
    assert_eq!(
        tx.try_send(&mut ch, 'a').0,
        Err(TrySendError::Full('a'))
    );
    assert_eq!(rx.try_recv(&mut ch).0, Ok(None));
}

#[test]
fn no_receiver_gives_the_message_back() {
    let (mut ch, tx, rx) = bounded(1);
    assert_eq!(tx.try_send(&mut ch, 1).0, Ok(()));
    assert_eq!(rx.drop(&mut ch).wake, Wake::Senders(usize::MAX));
    assert_eq!(
        tx.try_send(&mut ch, 2),
        (Err(TrySendError::Disconnected(2)), Wake::Nobody)
    );
    assert_eq!(
        tx.send(&mut ch, 3),
        (Turn::Done(Err(SendError(3))), Wake::Nobody)
    );
}

#[test]
fn only_the_last_copy_makes_room() {
    let (mut ch, tx, rx1) = bounded(1);
    let rx2 = rx1.clone(&mut ch);
    assert_eq!(tx.try_send(&mut ch, "a").0, Ok(()));
    assert_eq!(rx1.try_recv(&mut ch), (Ok(Some("a")), Wake::Nobody));
    assert_eq!(
        tx.try_send(&mut ch, "b").0,
        Err(TrySendError::Full("b"))
    );
    assert_eq!(
        rx2.try_recv(&mut ch),
        (Ok(Some("a")), Wake::MoreSenders(1))
    );
    assert_eq!(tx.try_send(&mut ch, "b").0, Ok(()));
}

#[test]
fn a_closed_mailbox_gives_its_room_back() {
    let (mut ch, tx, rx1) = bounded(1);
    let rx2 = rx1.clone(&mut ch);
    assert_eq!(tx.try_send(&mut ch, 1).0, Ok(()));
    assert_eq!(rx1.try_recv(&mut ch), (Ok(Some(1)), Wake::Nobody));
    assert_eq!(tx.try_send(&mut ch, 2).0, Err(TrySendError::Full(2)));
    let departure = rx2.drop(&mut ch);
    assert_eq!(departure.wake, Wake::MoreSenders(1));
    assert_eq!(departure.unread, vec![1]);
    assert_eq!(tx.try_send(&mut ch, 2).0, Ok(()));
}

#[test]
fn a_closed_mailbox_gives_back_only_what_it_alone_held() {
    let (mut ch, tx, rx1) = bounded(3);
    let rx2 = rx1.clone(&mut ch);
    for message in ["a", "b", "c"] {
        assert_eq!(tx.try_send(&mut ch, message).0, Ok(()));
    }
    assert_eq!(rx1.try_recv(&mut ch).0, Ok(Some("a")));
    assert_eq!(rx1.try_recv(&mut ch).0, Ok(Some("b")));
    let departure = rx2.drop(&mut ch);
    assert_eq!(departure.wake, Wake::MoreSenders(2));
    assert_eq!(departure.unread, vec!["a", "b"]);
    assert_eq!(tx.try_send(&mut ch, "d").0, Ok(()));
    assert_eq!(tx.try_send(&mut ch, "e").0, Ok(()));
    assert_eq!(tx.try_send(&mut ch, "f").0, Err(TrySendError::Full("f")));
    for message in ["c", "d", "e"] {
        assert_eq!(rx1.try_recv(&mut ch).0, Ok(Some(message)));
    }
}

#[test]
fn the_last_receiver_wakes_all_senders() {
    let (mut ch, tx, rx) = bounded(1);
    assert_eq!(tx.try_send(&mut ch, 1).0, Ok(()));
    let mut fut1 = tx.send_async(2);
    let mut fut2 = tx.send_async(3);
    assert_eq!(fut1.poll(&mut ch).0, Turn::Wait(()));
    assert_eq!(fut2.poll(&mut ch).0, Turn::Wait(()));
    let departure = rx.drop(&mut ch);
    assert_eq!(departure.wake, Wake::Senders(usize::MAX));
    assert_eq!(departure.unread, vec![1]);
    assert_eq!(fut1.poll(&mut ch).0, Turn::Done(Err(SendError(2))));
    assert_eq!(fut2.poll(&mut ch).0, Turn::Done(Err(SendError(3))));
}

#[test]
fn a_closed_mailbox_leaves_the_others_their_messages() {
    let (mut ch, tx, rx1) = bounded(2);
    let rx2 = rx1.clone(&mut ch);
    assert_eq!(tx.try_send(&mut ch, 1).0, Ok(()));
    assert_eq!(tx.try_send(&mut ch, 2).0, Ok(()));
    assert_eq!(rx2.drop(&mut ch).wake, Wake::Nobody);
    let rx3 = rx1.clone(&mut ch);
    assert_eq!(rx3.try_recv(&mut ch).0, Ok(None));
    assert_eq!(
        rx1.try_recv(&mut ch),
        (Ok(Some(1)), Wake::MoreSenders(1))
    );
    assert_eq!(
        rx1.try_recv(&mut ch),
        (Ok(Some(2)), Wake::MoreSenders(1))
    );
    assert_eq!(rx1.try_recv(&mut ch).0, Ok(None));
}

#[test]
fn senders_are_counted() {
    let (mut ch, tx, rx) = unbounded::<u8>();
    assert_eq!(ch.n_senders(), 1);
    let tx2 = tx.clone(&mut ch);
    assert_eq!(ch.n_senders(), 2);
    assert_eq!(tx.drop(&mut ch), Wake::Nobody);
    assert_eq!(rx.try_recv(&mut ch).0, Ok(None));
    assert_eq!(tx2.drop(&mut ch), Wake::Receivers(usize::MAX));
    assert_eq!(ch.n_senders(), 0);
    assert_eq!(rx.try_recv(&mut ch).0, Err(Disconnected));
    assert_eq!(
        rx.recv(&mut ch),
        (Turn::Done(Err(Disconnected)), Wake::Nobody)
    );
}

#[test]
fn receivers_of_a_mailbox_are_counted() {
    let (mut ch, tx, rx) = unbounded();
    assert!(ch.has_receiver(&rx));
    assert_eq!(ch.n_handles(&rx), 1);
    let shared1 = rx.into_shared();
    let shared2 = shared1.clone(&mut ch);
    assert_eq!(ch.n_handles(shared1.as_receiver()), 2);
    assert_eq!(tx.try_send(&mut ch, 1).0, Ok(()));
    assert_eq!(tx.try_send(&mut ch, 2).0, Ok(()));
    assert_eq!(shared1.drop(&mut ch).wake, Wake::Nobody);
    assert_eq!(ch.n_handles(shared2.as_receiver()), 1);
    assert_eq!(shared2.recv(&mut ch).0, Turn::Done(Ok(1)));
    assert_eq!(shared2.recv_async().poll(&mut ch).0, Turn::Done(Ok(2)));
    assert_eq!(shared2.recv(&mut ch).0, Turn::Wait(()));
    let rx = shared2.upgrade(&mut ch).0;
    assert!(ch.has_receiver(&rx));
    assert_eq!(rx.drop(&mut ch).wake, Wake::Senders(usize::MAX));
}

#[test]
fn upgrade_of_the_only_receiver_starts_afresh() {
    let (mut ch, tx, rx) = bounded(1);
    assert_eq!(tx.try_send(&mut ch, 1).0, Ok(()));
    let (rx, departure) = rx.into_shared().upgrade(&mut ch);
    assert_eq!(departure.wake, Wake::MoreSenders(1));
    assert_eq!(departure.unread, vec![1]);
    assert_eq!(rx.try_recv(&mut ch).0, Ok(None));
    assert_eq!(tx.try_send(&mut ch, 2).0, Ok(()));
    assert_eq!(rx.try_recv(&mut ch).0, Ok(Some(2)));
}

#[test]
fn upgrade_leaves_a_mailbox_that_others_share() {
    let (mut ch, tx, rx) = unbounded();
    let shared1 = rx.into_shared();
    assert_eq!(tx.try_send(&mut ch, 1).0, Ok(()));
    let shared2 = shared1.clone(&mut ch);
    let (rx, departure) = shared2.upgrade(&mut ch);
    assert_eq!(departure.wake, Wake::Nobody);
    assert_eq!(departure.unread, vec![]);
    assert_eq!(shared1.try_recv(&mut ch).0, Ok(Some(1)));
    assert_eq!(rx.try_recv(&mut ch).0, Ok(None));
}

#[test]
fn many_messages_through_reused_slots() {
    let (mut ch, tx, rx1) = unbounded();
    let rx2 = rx1.clone(&mut ch);
    let mut next1 = 0;
    let mut next2 = 0;
    for i in 0..500u32 {
        assert_eq!(tx.try_send(&mut ch, i.to_string()).0, Ok(()));
        if i % 2 == 1 {
            assert_eq!(rx1.try_recv(&mut ch).0, Ok(Some(next1.to_string())));
            next1 += 1;
        }
        if i % 3 == 2 {
            assert_eq!(rx2.try_recv(&mut ch).0, Ok(Some(next2.to_string())));
            next2 += 1;
        }
    }
    while let Ok(Some(message)) = rx2.try_recv(&mut ch).0 {
        assert_eq!(message, next2.to_string());
        next2 += 1;
    }
    while let Ok(Some(message)) = rx1.try_recv(&mut ch).0 {
        assert_eq!(message, next1.to_string());
        next1 += 1;
    }
    assert_eq!((next1, next2), (500, 500));
}

#[test]
fn send_future_keeps_its_message_until_sent() {
    let (mut ch, tx, rx) = bounded(1);
    assert_eq!(tx.try_send(&mut ch, 1).0, Ok(()));
    let mut fut = tx.send_async(2);
    assert_eq!(fut.poll(&mut ch), (Turn::Wait(()), Wake::Nobody));
    assert!(!fut.is_completed());
    assert_eq!(fut.suspend(true), Resume::Retry);
    assert_eq!(fut.poll(&mut ch).0, Turn::Wait(()));
    assert_eq!(fut.suspend(false), Resume::Pending);
    assert_eq!(rx.try_recv(&mut ch).0, Ok(Some(1)));
    assert_eq!(
        fut.poll(&mut ch),
        (Turn::Done(Ok(())), Wake::Receivers(usize::MAX))
    );
    assert!(fut.is_completed());
    assert_eq!(rx.try_recv(&mut ch).0, Ok(Some(2)));
}

#[test]
fn receive_future_waits() {
    let (mut ch, tx, rx) = unbounded();
    let mut fut = rx.recv_async();
    assert_eq!(fut.poll(&mut ch), (Turn::Wait(()), Wake::Nobody));
    assert_eq!(fut.suspend(false), Resume::Pending);
    assert_eq!(tx.try_send(&mut ch, 1).0, Ok(()));
    assert_eq!(fut.suspend(true), Resume::Retry);
    assert_eq!(
        fut.poll(&mut ch),
        (Turn::Done(Ok(1)), Wake::MoreSenders(1))
    );
}

#[test]
fn a_taken_lock_is_tried_ten_times_between_sleeps() {
    let mut backoff = Backoff::new();
    let mut sleeps = Vec::new();
    for attempt in 1..=600 {
        assert!(!backoff.is_exhausted());
        match wait_lock(&mut backoff) {
            Pause::Yield => assert!(attempt % 10 != 0),
            Pause::YieldThenSleep(nanos) => {
                assert!(attempt % 10 == 0);
                sleeps.push(nanos);
            }
        }
    }
    assert_eq!(sleeps.len(), 60);
    assert_eq!(&sleeps[..4], &[16, 32, 64, 128]);
    assert_eq!(sleeps[59], 1 << 63);
    for _ in 0..9 {
        assert!(!backoff.is_exhausted());
        assert_eq!(wait_lock(&mut backoff), Pause::Yield);
    }
    assert!(backoff.is_exhausted());
}
