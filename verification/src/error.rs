//! The session error taxonomy: every failure a caller can see is one of
//! these, and each protocol parse error carries its static discriminator.
use vstd::prelude::*;

verus! {

/// Errors of the protocol engine and its callers.
#[derive(Debug)]
pub enum Error {
    /// An underlying socket or I/O failure, with its text.
    Io(String),
    /// A protocol parse error with a static discriminator.
    Unexpected(&'static str),
    /// The server supplied a textual reason (Latin-1 bytes).
    Server(Vec<u8>),
    /// No acceptable authentication method was offered or chosen.
    AuthenticationUnavailable,
    /// The security result was Failed, with the server's reason.
    AuthenticationFailure(Vec<u8>),
    /// Clean EOF at a message boundary; bounds the pump's read loop.
    Disconnected,
}

} // verus!
