use key_channel::channel::mspc_channel::{Delivery, InternalMessage, Reciever, Sender};
use key_channel::errors::Errors;
use key_channel::util_chan::{Chan, Message};

#[test]
fn create_chan_makes_an_empty_channel() {
    let mut chan = Chan::<String>::create_chan(2);
    assert_eq!(chan.capacity(), 2);
    assert_eq!(chan.len(), 0);
    assert!(matches!(Reciever::recv(&mut chan), Ok(Delivery::Empty)));
}

#[test]
fn create_internal_message_keeps_keys_and_payload() {
    let mut chan = Chan::<String>::create_chan(-1);
    let first = Message::create_internal_message(vec![String::from("k")], String::from("one"));
    assert_eq!(first.data, "one");
    assert_eq!(first.payload(), "one");
    let second: InternalMessage<String> =
        Message::create_internal_message(vec![String::from("k")], String::from("two"));
    assert!(Sender::send(&mut chan, first).is_ok());
    assert!(Sender::send(&mut chan, second).is_ok());
    let got = match Reciever::recv(&mut chan) {
        Ok(Delivery::Delivered { message, .. }) => message,
        _ => panic!("two messages are queued"),
    };
    assert_eq!(got.data, "two");
    // both carry the key "k"
    assert!(matches!(Reciever::recv(&mut chan), Err(Errors::KeyDuplicate)));
}

#[test]
fn errors_have_their_texts() {
    assert_eq!(Errors::KeyDuplicate.message(), "Recieve Key Duplicate");
    assert_eq!(Errors::MessageContentError.message(), "Message Content Error");
    assert_eq!(Errors::TypeConversionError.message(), "Type Conversion Error");
    assert_ne!(Errors::KeyDuplicate, Errors::TypeConversionError);
    let copy = Errors::MessageContentError;
    assert_eq!(copy, Errors::MessageContentError.clone());
}
