//! Barrage - a broadcast channel. Each message sent will be received by every receiver.
//! When the channel reaches its cap, send operations will wait or fail (depending on which
//! type of send was chosen). Cloned receivers will only receive messages sent after they are cloned.
//!
//! The state of a channel is a value, [`Shared`], that each operation of a [`Sender`] or a
//! [`Receiver`] is handed. An operation that has to wait takes one [`Turn`] at a time, and every
//! operation tells by a [`Wake`] who is to be woken after it.
//!
//! # Example
//!
//! ```rust
//! let (mut channel, tx, rx1) = barrage::unbounded();
//! let rx2 = rx1.clone(&mut channel);
//! tx.try_send(&mut channel, "Hello!");
//! let rx3 = rx1.clone(&mut channel);
//! assert_eq!(rx1.try_recv(&mut channel).0, Ok(Some("Hello!")));
//! assert_eq!(rx2.try_recv(&mut channel).0, Ok(Some("Hello!")));
//! assert_eq!(rx3.try_recv(&mut channel).0, Ok(None));
//! ```
pub mod channel;
pub mod error;
pub mod facade;
pub mod futures;
pub mod laws;
pub mod model;
pub mod operations;
pub mod queue;
mod slab;

pub use channel::{bounded, new, unbounded, Departure, Receiver, Sender, Shared, SharedReceiver};
pub use error::{Disconnected, SendError, TrySendError};
pub use futures::{RecvFut, SendFut};
pub use model::{Resume, Turn, Wake};
