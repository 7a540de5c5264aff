use barrage::{bounded, new, unbounded, Disconnected, Receiver, SendError, Shared, Turn, Wake};
use event_listener::Event;
use std::time::Duration;

#[test]
fn one_message_unbounded() {
    let (mut ch, tx, rx) = new(None);
    let rx2 = rx.clone(&mut ch);
    assert_eq!(
        tx.send_async("Hello!").poll(&mut ch).0,
        Turn::Done(Ok(()))
    );
    assert_eq!(rx.recv_async().poll(&mut ch).0, Turn::Done(Ok("Hello!")));
    assert_eq!(rx2.recv_async().poll(&mut ch).0, Turn::Done(Ok("Hello!")));
}

#[test]
fn shared_recv() {
    let (mut ch, tx, rx) = new(None);
    let mut fut1 = rx.recv_async();
    let mut fut2 = rx.recv_async();

    let on_send = Event::new();
    let listener1 = on_send.listen();
    let listener2 = on_send.listen();
    assert_eq!(fut1.poll(&mut ch).0, Turn::Wait(()));
    assert_eq!(fut2.poll(&mut ch).0, Turn::Wait(()));

    let (turn, wake) = tx.send(&mut ch, "Hello!");
    assert_eq!(turn, Turn::Done(Ok(())));
    match wake {
        Wake::Receivers(n) => on_send.notify(n),
        _ => panic!("nobody who waits for a message was woken"),
    }

    assert!(listener1.wait_timeout(Duration::from_secs(0)));
    assert!(listener2.wait_timeout(Duration::from_secs(0)));

    assert_eq!(fut1.poll(&mut ch).0, Turn::Done(Ok("Hello!")));
    assert_eq!(fut2.poll(&mut ch).0, Turn::Wait(()));
}

#[test]
fn sync_receive_from_wait_async_send() {
    let (mut ch, tx, rx) = new(None);
    assert_eq!(rx.recv(&mut ch).0, Turn::Wait(()));
    let (turn, wake) = tx.send_async("Hello!").poll(&mut ch);
    assert_eq!(turn, Turn::Done(Ok(())));
    assert_eq!(wake, Wake::Receivers(usize::MAX));
    assert_eq!(rx.recv(&mut ch).0, Turn::Done(Ok("Hello!")));
}

#[test]
fn sync_receive_from_wait_try_send() {
    let (mut ch, tx, rx) = new(None);
    assert_eq!(rx.recv(&mut ch).0, Turn::Wait(()));
    let (answer, wake) = tx.try_send(&mut ch, "Hello!");
    answer.unwrap();
    assert_eq!(wake, Wake::Receivers(usize::MAX));
    assert_eq!(rx.recv(&mut ch).0, Turn::Done(Ok("Hello!")));
}

#[test]
fn sync_receive() {
    let (mut ch, tx, rx) = new(None);
    assert_eq!(
        tx.send_async("Hello!").poll(&mut ch).0,
        Turn::Done(Ok(()))
    );
    assert_eq!(rx.recv(&mut ch).0, Turn::Done(Ok("Hello!")));
}

#[test]
fn new_recv_after_send() {
    let (mut ch, tx, rx) = new(None);
    assert_eq!(
        tx.send_async("Hello!").poll(&mut ch).0,
        Turn::Done(Ok(()))
    );
    let rx2 = rx.clone(&mut ch);
    assert_eq!(
        tx.send_async("Hello 2!").poll(&mut ch).0,
        Turn::Done(Ok(()))
    );
    assert_eq!(rx.recv_async().poll(&mut ch).0, Turn::Done(Ok("Hello!")));
    assert_eq!(rx2.recv_async().poll(&mut ch).0, Turn::Done(Ok("Hello 2!")));
}

#[test]
fn tx_drop_disconnect() {
    let (mut ch, tx, rx) = new(None);
    assert_eq!(
        tx.send_async("Hello!").poll(&mut ch).0,
        Turn::Done(Ok(()))
    );
    assert_eq!(tx.drop(&mut ch), Wake::Receivers(usize::MAX));
    let rx2 = rx.clone(&mut ch);
    assert_eq!(
        rx2.recv_async().poll(&mut ch).0,
        Turn::Done(Err(Disconnected))
    );
    assert_eq!(
        rx2.recv_async().poll(&mut ch).0,
        Turn::Done(Err(Disconnected))
    );
    assert_eq!(rx.recv_async().poll(&mut ch).0, Turn::Done(Ok("Hello!")));
    assert_eq!(
        rx.recv_async().poll(&mut ch).0,
        Turn::Done(Err(Disconnected))
    );
    assert_eq!(
        rx.recv_async().poll(&mut ch).0,
        Turn::Done(Err(Disconnected))
    );
}

#[test]
fn rx_drop_disconnect() {
    let (mut ch, tx, rx) = new(None);
    let _tx2 = tx.clone(&mut ch);
    assert_eq!(
        tx.send_async("Hello!").poll(&mut ch).0,
        Turn::Done(Ok(()))
    );
    assert_eq!(rx.drop(&mut ch).wake, Wake::Senders(usize::MAX));
    assert_eq!(
        tx.send_async("Hello!").poll(&mut ch).0,
        Turn::Done(Err(SendError("Hello!")))
    );
    assert_eq!(
        tx.send_async("Hello!").poll(&mut ch).0,
        Turn::Done(Err(SendError("Hello!")))
    );
}

#[test]
fn bounded_wait_resume() {
    let (mut ch, tx, rx) = new(Some(1));
    assert_eq!(
        tx.send_async("Hello!").poll(&mut ch).0,
        Turn::Done(Ok(()))
    );
    let mut fut = tx.send_async("Hello!");
    assert_eq!(fut.poll(&mut ch).0, Turn::Wait(()));
    assert_eq!(
        rx.recv_async().poll(&mut ch),
        (Turn::Done(Ok("Hello!")), Wake::MoreSenders(1))
    );
    assert_eq!(fut.poll(&mut ch).0, Turn::Done(Ok(())));
}

#[test]
fn try_send_bounded_wait_resume() {
    let (mut ch, tx, rx) = new(Some(1));
    tx.try_send(&mut ch, "Hello!").0.unwrap();
    let mut fut = tx.send_async("Hello!");
    assert_eq!(fut.poll(&mut ch).0, Turn::Wait(()));
    assert_eq!(
        rx.recv_async().poll(&mut ch),
        (Turn::Done(Ok("Hello!")), Wake::MoreSenders(1))
    );
    assert_eq!(fut.poll(&mut ch).0, Turn::Done(Ok(())));
}

#[test]
fn sync_send_bounded_wait_resume() {
    let (mut ch, tx, rx) = new(Some(1));
    assert_eq!(tx.send(&mut ch, "Hello!").0, Turn::Done(Ok(())));
    let mut fut = tx.send_async("Hello!");
    assert_eq!(fut.poll(&mut ch).0, Turn::Wait(()));
    assert_eq!(
        rx.recv_async().poll(&mut ch),
        (Turn::Done(Ok("Hello!")), Wake::MoreSenders(1))
    );
    assert_eq!(fut.poll(&mut ch).0, Turn::Done(Ok(())));
}

/// Receives all that there is, checks that it counts on from `cur`, and tells whether a sender is
/// left.
fn count_on(ch: &mut Shared<usize>, rx: &Receiver<usize>, cur: &mut usize) -> bool {
    loop {
        match rx.recv_async().poll(ch).0 {
            Turn::Done(Ok(n)) => {
                assert_eq!(n, *cur);
                *cur += 1;
            }
            Turn::Done(Err(Disconnected)) => return false,
            Turn::Wait(()) => return true,
        }
    }
}

#[test]
fn no_reorder() {
    let (mut ch, tx, rx) = new(Some(1000));
    let mut receivers = Vec::new();
    for _ in 0..4 {
        receivers.push((rx.clone(&mut ch), 0));
    }
    assert_eq!(rx.drop(&mut ch).wake, Wake::Nobody);

    for i in 0..10_000usize {
        let mut fut = tx.send_async(i);
        let mut turns = 0;
        while fut.poll(&mut ch).0 != Turn::Done(Ok(())) {
            turns += 1;
            assert_eq!(turns, 1);
            for (rx, cur) in receivers.iter_mut() {
                assert!(count_on(&mut ch, rx, cur));
            }
        }
    }
    tx.drop(&mut ch);

    for (rx, cur) in receivers.iter_mut() {
        assert!(!count_on(&mut ch, rx, cur));
        assert_eq!(*cur, 10_000);
    }
}

#[test]
fn broadcast_send_threaded() {
    let (mut ch, tx, rx) = bounded(2);
    let mut sent1 = Vec::new();
    let mut sent2 = Vec::new();
    let mut left1 = vec!["three", "two", "one"];
    let mut left2 = vec!["zintathu", "zimbini", "inye"];
    let mut fut2 = None;
    let mut num: usize = 0;
    while sent1.len() < 3 || sent2.len() < 3 {
        if let Some(item) = left1.pop() {
            match tx.send(&mut ch, item).0 {
                Turn::Done(result) => {
                    assert_eq!(result, Ok(()));
                    sent1.push(item);
                }
                Turn::Wait(item) => left1.push(item),
            }
        }
        if fut2.is_none() {
            fut2 = left2.pop().map(|item| (item, tx.send_async(item)));
        }
        if let Some((item, mut fut)) = fut2.take() {
            match fut.poll(&mut ch).0 {
                Turn::Done(result) => {
                    assert_eq!(result, Ok(()));
                    sent2.push(item);
                }
                Turn::Wait(()) => fut2 = Some((item, fut)),
            }
        }
        if let Turn::Done(result) = rx.recv_async().poll(&mut ch).0 {
            assert!(result.is_ok());
            num += 1;
        }
    }
    tx.drop(&mut ch);
    loop {
        match rx.recv_async().poll(&mut ch).0 {
            Turn::Done(Ok(_)) => num += 1,
            Turn::Done(Err(_)) => break,
            Turn::Wait(()) => panic!("no sender is left"),
        }
    }
    assert_eq!(num, 6);
    assert_eq!(sent1, vec!["one", "two", "three"]);
    assert_eq!(sent2, vec!["inye", "zimbini", "zintathu"]);
}

#[test]
fn drop_rx() {
    let (mut ch, tx, rx1) = bounded(16);
    let rx2 = rx1.clone(&mut ch);

    assert_eq!(tx.send(&mut ch, "one").0, Turn::Done(Ok(())));
    assert_eq!(rx2.drop(&mut ch).wake, Wake::Nobody);
    assert_eq!(tx.send(&mut ch, "two").0, Turn::Done(Ok(())));
    assert_eq!(tx.send(&mut ch, "three").0, Turn::Done(Ok(())));
    tx.drop(&mut ch);

    assert_eq!(rx1.recv_async().poll(&mut ch).0, Turn::Done(Ok("one")));
    assert_eq!(rx1.recv_async().poll(&mut ch).0, Turn::Done(Ok("two")));
    assert_eq!(rx1.recv_async().poll(&mut ch).0, Turn::Done(Ok("three")));
    assert_eq!(
        rx1.recv_async().poll(&mut ch).0,
        Turn::Done(Err(Disconnected))
    );
}

#[test]
fn shared_receiver_receives_once() {
    let (mut ch, tx, rx) = unbounded();
    let shared1 = rx.clone(&mut ch).into_shared();
    let shared2 = shared1.clone(&mut ch);

    tx.try_send(&mut ch, "Hello!").0.unwrap();
    assert_eq!(shared1.try_recv(&mut ch).0, Ok(Some("Hello!")));
    assert_eq!(shared2.try_recv(&mut ch).0, Ok(None));
    assert_eq!(rx.try_recv(&mut ch).0, Ok(Some("Hello!")));
}

#[test]
fn shared_receiver_same_mailbox() {
    let (mut ch, _, rx) = unbounded::<()>();
    let shared_a_1 = rx.clone(&mut ch).into_shared();
    let shared_a_2 = shared_a_1.clone(&mut ch);
    let shared_b = rx.into_shared();

    assert!(shared_a_1.same_mailbox(&shared_a_2));
    assert!(!shared_a_1.same_mailbox(&shared_b));
}

#[test]
fn shared_receiver_drop() {
    let (mut ch, tx, rx) = unbounded();
    let shared1 = rx.into_shared();
    let shared2 = shared1.clone(&mut ch);

    tx.try_send(&mut ch, "Hello!").0.unwrap();
    assert_eq!(shared1.try_recv(&mut ch).0, Ok(Some("Hello!")));
    assert_eq!(shared2.try_recv(&mut ch).0, Ok(None));

    shared2.drop(&mut ch);

    tx.try_send(&mut ch, "Hello2!").0.unwrap();
    assert_eq!(shared1.try_recv(&mut ch).0, Ok(Some("Hello2!")));

    shared1.drop(&mut ch);

    assert!(tx.try_send(&mut ch, "Hello3!").0.is_err());
}

#[test]
fn shared_receiver_upgrade() {
    let (mut ch, tx, rx) = unbounded();
    let shared1 = rx.into_shared();
    let rx2 = shared1.clone(&mut ch).upgrade(&mut ch).0;

    tx.try_send(&mut ch, "Hello!").0.unwrap();
    assert_eq!(shared1.try_recv(&mut ch).0, Ok(Some("Hello!")));
    assert_eq!(rx2.try_recv(&mut ch).0, Ok(Some("Hello!")));
}
