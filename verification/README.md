# barrage

A broadcast channel, verified with Verus: each message sent is received by every receiver.

`src/` holds the channel as a value that each operation is handed, with what every operation does
stated and proved:

- `model.rs`: the channel as a mathematical object, a log of messages and the place of each mailbox
  in it; the steps that a channel can take and who has to be woken after each.
- `channel.rs`: `Shared`, the state of a channel, and `Sender`, `Receiver` and `SharedReceiver`,
  which work on it.
- `futures.rs`: the state of the asynchronous operations between their turns.
- `laws.rs`: what holds over all states and runs: order, delivery to every receiver, the cap,
  disconnection, wake-ups.
- `facade.rs`: how long to hold off from a lock that is in use.
- `queue.rs`: the queue behind each mailbox, from the `concurrent-queue` crate, and what is taken
  for granted of it.
- `slab.rs`: the table of messages and mailboxes.

`app/` is the channel for threads and async tasks: the state behind a lock of the `spin` crate, two
events of the `event-listener` crate for those who wait, and handles that disconnect when they are
dropped. It is runtime agnostic and can be used from any executor. It can also operate
synchronously.
