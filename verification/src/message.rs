//! The application-level message carried by the protocol.

use vstd::prelude::*;

verus! {

/// A single logical unit of application data: a text payload.
///
/// A `Message` is immutable once constructed; the codec serializes it to
/// bytes and reconstructs it from bytes. Its mathematical model is the
/// character sequence `self.text@`.
#[derive(Debug, Clone, PartialEq, Eq)]
pub struct Message {
    /// The text payload of the message.
    pub text: String,
}

impl Message {
    /// Builds a message carrying the given text.
    pub fn new(text: String) -> (m: Message)
        ensures
            m.text@ == text@,
    {
        Message { text }
    }

    /// Static factory for response messages: the fixed acknowledgment
    /// a server sends back for every message it receives.
    pub fn new_ok() -> (m: Message)
        ensures
            m.text@ == "ok"@,
    {
        Message { text: "ok".to_owned() }
    }
}

} // verus!
