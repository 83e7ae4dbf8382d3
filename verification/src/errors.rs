//! The failure reasons that channel operations report.

use vstd::prelude::*;

verus! {

/// Why a channel operation did not complete.
#[derive(Debug, PartialEq, Eq, Clone, Copy, Structural)]
pub enum Errors {
    /// Every queued message shares a key with a message that is still held by the consumer.
    KeyDuplicate,
    /// The payload of a message does not have the expected shape.
    MessageContentError,
    /// The capacity of the channel cannot be represented as a size.
    TypeConversionError,
}

impl Errors {
    /// The text that describes the failure.
    pub fn message(&self) -> (text: &'static str)
        ensures
            text@ == match *self {
                Errors::KeyDuplicate => "Recieve Key Duplicate"@,
                Errors::MessageContentError => "Message Content Error"@,
                Errors::TypeConversionError => "Type Conversion Error"@,
            },
    {
        match self {
            Errors::KeyDuplicate => "Recieve Key Duplicate",
            Errors::MessageContentError => "Message Content Error",
            Errors::TypeConversionError => "Type Conversion Error",
        }
    }
}

} // verus!
