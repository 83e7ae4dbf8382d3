use key_channel::channel::mspc_channel::{
    Admission, Delivery, InternalMessage, MspcChannel, Reciever, Sender,
};
use key_channel::errors::Errors;

fn message(names: &[&str], data: u32) -> InternalMessage<u32> {
    InternalMessage::new(names.iter().map(|name| String::from(*name)).collect(), data)
}

fn put(chan: &mut MspcChannel<u32>, names: &[&str], data: u32) {
    assert!(matches!(Sender::send(chan, message(names, data)), Ok(Admission::Queued { .. })));
}

fn take(chan: &mut MspcChannel<u32>) -> InternalMessage<u32> {
    match Reciever::recv(chan) {
        Ok(Delivery::Delivered { message, .. }) => message,
        Ok(Delivery::Empty) => panic!("the channel is empty"),
        Err(e) => panic!("the front of the queue waits: {:?}", e),
    }
}

fn waits(chan: &mut MspcChannel<u32>) -> bool {
    matches!(Reciever::recv(chan), Err(Errors::KeyDuplicate))
}

#[test]
fn free_messages_stand_before_waiting_ones() {
    let mut chan = MspcChannel::<u32>::channel(-1);
    put(&mut chan, &["a"], 1);
    let mut holder = take(&mut chan);
    // 2 and 4 wait for "a", 3 and 5 are free
    put(&mut chan, &["a"], 2);
    put(&mut chan, &["b"], 3);
    put(&mut chan, &["a", "c"], 4);
    put(&mut chan, &["d"], 5);
    assert!(!chan.is_valid(2));
    assert!(chan.is_valid(3));
    assert!(!chan.is_valid(4));
    assert!(chan.is_valid(5));
    // the free ones come out first, whatever was sent between them
    assert_eq!(take(&mut chan).data, 5);
    assert_eq!(take(&mut chan).data, 3);
    // what is left waits, and the front says so for all
    assert!(waits(&mut chan));
    assert_eq!(chan.len(), 2);
    chan.release(&mut holder);
    // both were promoted, the later promotion to the very front
    assert_eq!(take(&mut chan).data, 4);
    assert!(waits(&mut chan));
}

#[test]
fn extraction_sends_sharers_to_the_back() {
    let mut chan = MspcChannel::<u32>::channel(-1);
    put(&mut chan, &["x"], 1);
    put(&mut chan, &["y"], 2);
    put(&mut chan, &["x"], 3);
    // queue: 3, 2, 1; taking 3 checks out "x" and sends 1 behind 2
    let mut third = take(&mut chan);
    assert_eq!(third.data, 3);
    assert!(!chan.is_valid(1));
    assert!(chan.is_valid(2));
    assert_eq!(take(&mut chan).data, 2);
    assert!(waits(&mut chan));
    chan.release(&mut third);
    assert_eq!(take(&mut chan).data, 1);
}

#[test]
fn a_key_has_one_holder_at_a_time() {
    let mut chan = MspcChannel::<u32>::channel(-1);
    for data in 1..=3 {
        put(&mut chan, &["k"], data);
    }
    let mut delivered = Vec::new();
    for _ in 0..3 {
        let mut holder = take(&mut chan);
        // while it is held, nobody else gets "k"
        assert!(chan.len() == 0 || waits(&mut chan));
        delivered.push(holder.data);
        chan.release(&mut holder);
    }
    delivered.sort();
    assert_eq!(delivered, vec![1, 2, 3]);
}

#[test]
fn release_lets_the_waiting_message_through() {
    let mut chan = MspcChannel::<u32>::channel(-1);
    put(&mut chan, &["a", "b"], 1);
    put(&mut chan, &["b", "c"], 2);
    let mut second = take(&mut chan);
    assert_eq!(second.data, 2);
    assert!(waits(&mut chan));
    chan.release(&mut second);
    let first = take(&mut chan);
    assert_eq!(first.data, 1);
}

#[test]
fn a_message_waits_for_each_of_its_held_keys() {
    let mut chan = MspcChannel::<u32>::channel(-1);
    put(&mut chan, &["a"], 1);
    put(&mut chan, &["b"], 2);
    let mut holds_b = take(&mut chan);
    let mut holds_a = take(&mut chan);
    put(&mut chan, &["a", "b"], 3);
    assert!(waits(&mut chan));
    chan.release(&mut holds_a);
    // "b" is still held
    assert!(waits(&mut chan));
    chan.release(&mut holds_b);
    assert_eq!(take(&mut chan).data, 3);
}

#[test]
fn each_entry_of_a_repeated_key_counts() {
    let mut chan = MspcChannel::<u32>::channel(-1);
    put(&mut chan, &["a"], 1);
    let mut holder = take(&mut chan);
    // two conflicts for the two entries, and one release for the one key
    put(&mut chan, &["a", "a"], 2);
    assert!(waits(&mut chan));
    chan.release(&mut holder);
    assert!(!chan.is_valid(2));
    assert!(waits(&mut chan));
    assert_eq!(chan.len(), 1);
}

#[test]
fn one_at_a_time_is_delivered_in_order() {
    let mut chan = MspcChannel::<u32>::channel(-1);
    for data in 1..=6 {
        put(&mut chan, &["k", "l"], data);
        let mut got = take(&mut chan);
        assert_eq!(got.data, data);
        chan.release(&mut got);
    }
}

#[test]
fn of_two_free_messages_the_later_comes_first() {
    let mut chan = MspcChannel::<u32>::channel(-1);
    put(&mut chan, &["a"], 1);
    put(&mut chan, &["b"], 2);
    assert_eq!(take(&mut chan).data, 2);
    assert_eq!(take(&mut chan).data, 1);
}

#[test]
fn releasing_twice_is_releasing_once() {
    let mut chan = MspcChannel::<u32>::channel(-1);
    put(&mut chan, &["a"], 1);
    put(&mut chan, &["a"], 2);
    put(&mut chan, &["a"], 3);
    let mut first = take(&mut chan);
    chan.release(&mut first);
    let second = take(&mut chan);
    // "a" belongs to the second now; the first has nothing left to release
    chan.release(&mut first);
    chan.release(&mut first);
    assert!(waits(&mut chan));
    assert_eq!(chan.len(), 1);
    drop(second);
}

#[test]
fn releasing_a_message_that_was_never_sent_does_nothing() {
    let mut chan = MspcChannel::<u32>::channel(-1);
    put(&mut chan, &["a"], 1);
    put(&mut chan, &["a"], 2);
    let holder = take(&mut chan);
    let mut stranger = message(&["a", "b"], 9);
    chan.release(&mut stranger);
    // "a" is still held
    assert!(waits(&mut chan));
    assert_eq!(stranger.data, 9);
    assert_eq!(chan.len(), 1);
    drop(holder);
}
