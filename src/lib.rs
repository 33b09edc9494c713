//! A bounded multi-producer, single-consumer channel whose messages carry keys.
//!
//! A message handed to the consumer holds its keys until it is released; while
//! they are held, no other message that shares one of them is delivered. The
//! logic of the channel lives here: the keyed buffer with its conflict-aware
//! FIFO scan, and the channel state that decides every send, receive and
//! release. Blocking and waking are left to the caller, which holds the state
//! under a lock.
pub mod buff;
pub mod err;
pub mod key;
pub mod laws;
pub mod message;
pub mod state;

pub use buff::KeyedBuff;
pub use err::{RecvError, SendError, TrySendError};
pub use key::{Key, KeySet};
pub use message::{DeactivateKeys, Message};
pub use state::State;
