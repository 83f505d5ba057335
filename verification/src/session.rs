//! Decision logic for the session loop, in both roles.
//!
//! A session loop owns a duplex byte stream, reads bytes into a buffer,
//! and hands the codec's outcome — a decoded message, a decode error, or
//! nothing — to the functions here. They decide what the role does next;
//! the I/O that carries the decision out lives outside the library.

use vstd::prelude::*;
use crate::codec::DecodeError;
use crate::codec::EncodeError;
use crate::message::Message;

verus! {

/// The errors a whole exchange can end with, kept distinct so a caller
/// can branch on them.
#[derive(Debug, Clone, Copy, PartialEq, Eq)]
pub enum SessionError {
    /// The endpoint string is not a valid address.
    AddressParse,
    /// Bind, accept or connect failed at the transport layer.
    Connection,
    /// Bytes arrived but were not a well-formed message.
    Decode(DecodeError),
    /// A message could not be serialized.
    Encode(EncodeError),
    /// Nothing arrived to decode; benign for the server, a failed
    /// exchange for the client.
    NoData,
}

/// What the server does after one receive attempt on its connection.
#[derive(Debug, Clone, PartialEq, Eq)]
pub enum ServerAction {
    /// A message was decoded: send this acknowledgment and continue.
    Reply(Message),
    /// The bytes were malformed: report the error and continue waiting.
    ReportError(DecodeError),
    /// Nothing was received: report that and continue waiting.
    ReportNoData,
}

/// What the client reports after its single receive attempt.
#[derive(Debug, Clone, PartialEq, Eq)]
pub enum ClientOutcome {
    /// The reply was decoded; the exchange succeeded.
    Reply(Message),
    /// Bytes arrived but were not a well-formed reply.
    DecodeFailed(DecodeError),
    /// No reply could be received.
    NoReply,
}

/// The server role: accepts one connection, then serves messages on it
/// in a loop.
pub struct Server;

impl Server {
    /// Decides the server's next step from one receive attempt: a decoded
    /// message is acknowledged with the fixed `ok` reply, a decode error
    /// and an empty read are reported, and in every case the loop
    /// continues.
    pub fn handle_frame(frame: Option<Result<Message, DecodeError>>) -> (a: ServerAction)
        ensures
            match frame {
                Some(res) => match res {
                    Ok(_) => a matches ServerAction::Reply(rep) && rep.text@ == "ok"@,
                    Err(e) => a == ServerAction::ReportError(e),
                },
                None => a == ServerAction::ReportNoData,
            },
    {
        match frame {
            Some(res) => match res {
                Ok(_) => ServerAction::Reply(Message::new_ok()),
                Err(e) => ServerAction::ReportError(e),
            },
            None => ServerAction::ReportNoData,
        }
    }
}

/// Decides what the client's single exchange resolves to from its one
/// receive attempt: the decoded reply on success, and otherwise a failure
/// distinct from the success path.
pub fn client_outcome(frame: Option<Result<Message, DecodeError>>) -> (o: ClientOutcome)
    ensures
        match frame {
            Some(res) => match res {
                Ok(m) => o == ClientOutcome::Reply(m),
                Err(e) => o == ClientOutcome::DecodeFailed(e),
            },
            None => o == ClientOutcome::NoReply,
        },
{
    match frame {
        Some(res) => match res {
            Ok(m) => ClientOutcome::Reply(m),
            Err(e) => ClientOutcome::DecodeFailed(e),
        },
        None => ClientOutcome::NoReply,
    }
}

} // verus!
