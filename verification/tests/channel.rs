use key_channel::channel::mspc_channel::{
    Admission, Delivery, InternalMessage, MspcChannel, Reciever, Sender,
};
use key_channel::errors::Errors;

fn keys(names: &[&str]) -> Vec<String> {
    names.iter().map(|name| String::from(*name)).collect()
}

fn put(chan: &mut MspcChannel<i32>, names: &[&str], data: i32) -> bool {
    match Sender::send(chan, InternalMessage::new(keys(names), data)) {
        Ok(Admission::Queued { wake_receiver }) => wake_receiver,
        Ok(Admission::Full(_)) => panic!("the channel is full"),
        Err(e) => panic!("the channel refused the message: {:?}", e),
    }
}

fn take(chan: &mut MspcChannel<i32>) -> InternalMessage<i32> {
    match Reciever::recv(chan) {
        Ok(Delivery::Delivered { message, .. }) => message,
        Ok(Delivery::Empty) => panic!("the channel is empty"),
        Err(e) => panic!("the front of the queue waits: {:?}", e),
    }
}

fn waits(chan: &mut MspcChannel<i32>) -> bool {
    matches!(Reciever::recv(chan), Err(Errors::KeyDuplicate))
}

fn is_empty(chan: &mut MspcChannel<i32>) -> bool {
    matches!(Reciever::recv(chan), Ok(Delivery::Empty))
}

#[test]
fn test_me() {
    let mut chan = MspcChannel::<i32>::channel(3);
    let strs = vec![String::from("a"), String::from("b")];
    let message = InternalMessage::new(strs, 33);
    let res0 = Sender::send(&mut chan, message);
    assert!(res0.is_ok());
    let res = Reciever::recv(&mut chan);
    assert!(res.is_ok());
}

#[test]
fn test_basic_channel() {
    let mut chan = MspcChannel::<i32>::channel(-1);
    let strs = vec![String::from("a"), String::from("b")];
    let message = InternalMessage::new(strs, 33);
    let res0 = Sender::send(&mut chan, message);
    assert!(res0.is_ok());
    let res = Reciever::recv(&mut chan);
    assert!(res.is_ok());
    match res.unwrap() {
        Delivery::Delivered { message: data, .. } => assert_eq!(data.data, 33),
        Delivery::Empty => panic!("a message was queued"),
    }
}

#[test]
fn test_keys_duplicate() {
    let mut chan = MspcChannel::<i32>::channel(-1);
    for i in 1..=4 {
        let message = InternalMessage::new(keys(&["a", "b"]), i);
        let res = Sender::send(&mut chan, message);
        assert!(res.is_ok());
    }
    // for now we have all data in channel
    for _ in 0..3 {
        let message = Reciever::recv(&mut chan);
        assert!(message.is_ok());
        // message 'Active'
        assert!(Reciever::recv(&mut chan).is_err());
        if let Err(err) = Reciever::recv(&mut chan) {
            assert_eq!(err, Errors::KeyDuplicate);
        }
        // message drop here
        if let Ok(Delivery::Delivered { mut message, .. }) = message {
            chan.release(&mut message);
        } else {
            panic!("a message was queued");
        }
    }
    {
        let message = Reciever::recv(&mut chan);
        assert!(matches!(message, Ok(Delivery::Delivered { .. })));
        // the chan is empty now
        assert!(is_empty(&mut chan));
    }
}

#[test]
fn test_keys_without_duplicate() {
    let mut chan = MspcChannel::<i32>::channel(-1);
    for i in 1..=4 {
        let str = format!("{}", i);
        let strs = vec![String::from("a") + &str, String::from("b") + &str];
        let message = InternalMessage::new(strs, i);
        let res = Sender::send(&mut chan, message);
        assert!(res.is_ok());
    }
    // for now we have all data in channel
    let message = Reciever::recv(&mut chan);
    assert!(matches!(message, Ok(Delivery::Delivered { .. })));
    let message = Reciever::recv(&mut chan);
    assert!(matches!(message, Ok(Delivery::Delivered { .. })));
    let message = Reciever::recv(&mut chan);
    assert!(matches!(message, Ok(Delivery::Delivered { .. })));
    let message = Reciever::recv(&mut chan);
    assert!(matches!(message, Ok(Delivery::Delivered { .. })));
    assert!(is_empty(&mut chan));
}

#[test]
fn test_get_valid_message_first() {
    let mut chan = MspcChannel::<i32>::channel(-1);
    for _ in 0..2 {
        for i in 1..=4 {
            let str = format!("{}", i);
            let strs = vec![String::from("a") + &str, String::from("b") + &str];
            let message = InternalMessage::new(strs, i);
            let res = Sender::send(&mut chan, message);
            assert!(res.is_ok());
        }
    }
    // for now we have all data in channel
    let mut held = Vec::new();
    for _ in 0..4 {
        held.push(take(&mut chan));
    }
    // message 'Active'
    assert!(Reciever::recv(&mut chan).is_err());
    if let Err(err) = Reciever::recv(&mut chan) {
        assert_eq!(err, Errors::KeyDuplicate);
    }
    // messages drop here
    for message in held.iter_mut() {
        chan.release(message);
    }
    let mut payloads = Vec::new();
    for _ in 0..4 {
        payloads.push(take(&mut chan).data);
    }
    payloads.sort();
    assert_eq!(payloads, vec![1, 2, 3, 4]);
    assert!(is_empty(&mut chan));
}

#[test]
fn a_new_channel_is_empty() {
    let mut chan = MspcChannel::<i32>::channel(5);
    assert_eq!(chan.len(), 0);
    assert_eq!(chan.last_id(), 0);
    assert_eq!(chan.capacity(), 5);
    assert!(is_empty(&mut chan));
    assert!(!chan.is_valid(0));
    assert!(!chan.is_valid(1));
}

#[test]
fn ids_rise_by_one() {
    let mut chan = MspcChannel::<i32>::channel(-1);
    put(&mut chan, &["a"], 1);
    assert_eq!(chan.last_id(), 1);
    put(&mut chan, &["b"], 2);
    assert_eq!(chan.last_id(), 2);
    assert!(chan.is_valid(1));
    assert!(chan.is_valid(2));
    assert!(!chan.is_valid(3));
    assert_eq!(chan.len(), 2);
}

#[test]
fn a_message_without_keys_never_waits() {
    let mut chan = MspcChannel::<i32>::channel(-1);
    put(&mut chan, &["a"], 1);
    let held = take(&mut chan);
    put(&mut chan, &[], 2);
    put(&mut chan, &["a"], 3);
    put(&mut chan, &[], 4);
    // the messages without keys stand before the one that waits
    assert_eq!(take(&mut chan).data, 4);
    assert_eq!(take(&mut chan).data, 2);
    assert!(waits(&mut chan));
    drop(held);
}

#[test]
fn wake_receiver_tells_that_the_queue_was_empty() {
    let mut chan = MspcChannel::<i32>::channel(-1);
    assert!(put(&mut chan, &["a"], 1));
    assert!(!put(&mut chan, &["b"], 2));
    take(&mut chan);
    assert!(!put(&mut chan, &["c"], 3));
    take(&mut chan);
    take(&mut chan);
    assert!(put(&mut chan, &["d"], 4));
}

#[test]
fn a_full_channel_hands_the_message_back() {
    let mut chan = MspcChannel::<i32>::channel(3);
    put(&mut chan, &["a"], 1);
    put(&mut chan, &["b"], 2);
    put(&mut chan, &["c"], 3);
    let fourth = InternalMessage::new(keys(&["d"]), 4);
    let back = match Sender::send(&mut chan, fourth) {
        Ok(Admission::Full(back)) => back,
        _ => panic!("the channel has room for three"),
    };
    assert_eq!(back.data, 4);
    assert_eq!(chan.len(), 3);
    assert_eq!(chan.last_id(), 3);
    // a receive makes room and says so
    match Reciever::recv(&mut chan) {
        Ok(Delivery::Delivered { message, wake_senders }) => {
            assert_eq!(message.data, 3);
            assert!(wake_senders);
        },
        _ => panic!("three messages are queued"),
    }
    assert!(matches!(Sender::send(&mut chan, back), Ok(Admission::Queued { wake_receiver: false })));
    assert_eq!(chan.len(), 3);
    assert_eq!(chan.last_id(), 4);
}

#[test]
fn an_unbounded_channel_wakes_no_sender() {
    let mut chan = MspcChannel::<i32>::channel(-1);
    put(&mut chan, &["a"], 1);
    match Reciever::recv(&mut chan) {
        Ok(Delivery::Delivered { wake_senders, .. }) => assert!(!wake_senders),
        _ => panic!("a message is queued"),
    }
}

#[test]
fn a_channel_of_capacity_zero_is_always_full() {
    let mut chan = MspcChannel::<i32>::channel(0);
    let message = InternalMessage::new(keys(&["a"]), 1);
    assert!(matches!(Sender::send(&mut chan, message), Ok(Admission::Full(_))));
    assert_eq!(chan.len(), 0);
}

#[test]
fn a_capacity_below_minus_one_is_no_size() {
    let mut chan = MspcChannel::<i32>::channel(-2);
    let message = InternalMessage::new(keys(&["a"]), 1);
    match Sender::send(&mut chan, message) {
        Err(e) => assert_eq!(e, Errors::TypeConversionError),
        Ok(_) => panic!("-2 bounds nothing"),
    }
    assert_eq!(chan.len(), 0);
    assert_eq!(chan.last_id(), 0);
    let mut chan = MspcChannel::<i32>::channel(i32::MIN);
    let message = InternalMessage::new(keys(&[]), 1);
    assert!(matches!(Sender::send(&mut chan, message), Err(Errors::TypeConversionError)));
}

#[test]
fn key_duplicate_changes_nothing() {
    let mut chan = MspcChannel::<i32>::channel(-1);
    put(&mut chan, &["a"], 1);
    put(&mut chan, &["a"], 2);
    let mut first = take(&mut chan);
    assert_eq!(chan.len(), 1);
    for _ in 0..5 {
        assert!(waits(&mut chan));
        assert_eq!(chan.len(), 1);
    }
    chan.release(&mut first);
    assert_eq!(take(&mut chan).data, 1);
}

#[test]
fn is_valid_and_remove_take_a_message_by_id() {
    let mut chan = MspcChannel::<i32>::channel(-1);
    put(&mut chan, &["a"], 10);
    put(&mut chan, &["a", "b"], 20);
    put(&mut chan, &["c"], 30);
    assert!(chan.is_valid(1));
    assert!(chan.is_valid(2));
    assert!(chan.is_valid(3));
    let second = chan.remove(2);
    assert_eq!(second.data, 20);
    // "a" and "b" are held now: the first message waits, the third does not
    assert!(!chan.is_valid(1));
    assert!(!chan.is_valid(2));
    assert!(chan.is_valid(3));
    assert_eq!(take(&mut chan).data, 30);
    assert!(waits(&mut chan));
}
