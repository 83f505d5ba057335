//! A minimal request/response message protocol over a stream transport.
//!
//! The heart of the crate is the codec: a pure, verified transformation
//! between a [`message::Message`] and the bytes carried on the wire. The
//! wire format is a small JSON document, `{"text":"..."}`, produced and
//! parsed entirely by verified code. Session-loop decision logic for the
//! server and client roles sits on top of the codec; the I/O that drives
//! it lives outside this library.

pub mod codec;
pub mod message;
pub mod session;

pub use codec::DecodeError;
pub use codec::EncodeError;
pub use codec::MyBytesCodec;
pub use message::Message;
pub use session::client_outcome;
pub use session::ClientOutcome;
pub use session::Server;
pub use session::ServerAction;
pub use session::SessionError;
