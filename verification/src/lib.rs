//! A multi-producer, single-consumer message queue with key-based exclusivity.
//!
//! Every message carries a set of keys. The channel delivers a message only while none of
//! its keys is held by a message that was delivered before and is still being processed.

pub mod channel;
pub mod errors;
pub mod util_chan;
