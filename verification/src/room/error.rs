//! The ways in which the room refuses an input.

use vstd::prelude::*;

verus! {

/// Why the room refused an input. Each fault is recovered where it arises:
/// the room's state is left as it was.
#[derive(Debug, Clone, Copy, PartialEq, Eq, Structural)]
pub enum RoomError {
    /// The raw input was no text frame, or did not parse as a message.
    MalformedMessage,
    /// The message kind is not valid in the sender's current state.
    ProtocolViolation,
    /// The requested name is held by an active session.
    DuplicateIdentity,
    /// An already active session was asked to become active.
    InvalidTransition,
    /// The request's address is no valid URL.
    InvalidUrl,
}

} // verus!
