use barrage::{bounded, Disconnected, Turn, Wake};

#[test]
fn drop_tx_rx() {
    let (mut ch, tx, rx1) = bounded(16);
    let rx2 = rx1.clone(&mut ch);

    for message in ["one", "two", "three"] {
        assert_eq!(rx1.recv_async().poll(&mut ch).0, Turn::Wait(()));
        assert_eq!(tx.send_async(message).poll(&mut ch).0, Turn::Done(Ok(())));
        assert_eq!(rx1.recv_async().poll(&mut ch).0, Turn::Done(Ok(message)));
    }
    assert_eq!(tx.drop(&mut ch), Wake::Receivers(usize::MAX));
    assert_eq!(
        rx1.recv_async().poll(&mut ch).0,
        Turn::Done(Err(Disconnected))
    );
    assert_eq!(rx2.drop(&mut ch).wake, Wake::MoreSenders(3));
    assert_eq!(rx1.drop(&mut ch).wake, Wake::Senders(usize::MAX));
}
