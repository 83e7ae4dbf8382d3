//! Short names for making a channel and a message.

use crate::channel::model::{ChannelView, MessageView};
use crate::channel::mspc_channel::{InternalMessage, MspcChannel};
use std::marker::PhantomData;
use vstd::prelude::*;

verus! {

/// Chan is a wrapper for `mspc_channel`
#[derive(Debug)]
pub struct Chan<T> {
    /// a magic filed
    a: PhantomData<T>,
}

/// Message is a wrapper for `internal_message`
#[derive(Debug)]
pub struct Message<T> {
    /// a magic filed
    a: PhantomData<T>,
}

impl<T> Chan<T> {
    /// `create_chan` makes the channel that its senders and its receiver share. It holds at
    /// most `bounded_size` messages at a time, or any number where `bounded_size` is -1.
    #[inline]
    #[must_use]
    pub fn create_chan(bounded_size: i32) -> (chan: MspcChannel<T>)
        ensures
            chan.wf(),
            chan@ == ChannelView::<T>::empty(bounded_size),
    {
        MspcChannel::<T>::channel(bounded_size)
    }
}

impl<T> Message<T> {
    /// `create_internal_message` makes a message with the keys named by `vecs`, in that
    /// order, and the payload `data`. The message belongs to no channel yet.
    #[inline]
    pub fn create_internal_message(vecs: Vec<String>, data: T) -> (message: InternalMessage<T>)
        ensures
            message@ == (MessageView {
                keys: Seq::new(vecs@.len(), |i: int| vecs@[i]@),
                data,
                conflicts: 0,
            }),
            message.id() == 0,
            message.is_detached(),
    {
        InternalMessage::new(vecs, data)
    }
}

} // verus!
