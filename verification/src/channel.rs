//! The channel and the list that orders its messages.

pub mod linked_list;
pub mod laws;
pub mod model;
pub mod mspc_channel;
pub mod proofs;
