//! A chat room coordinator.
//!
//! One [`room::Room`] manages every participant of a single chat room. It
//! admits connections, gates each of them through a join handshake, turns
//! chat text into an ordered broadcast stream and replays recent history to
//! late joiners.
//!
//! The room never touches a socket, a clock or a store. Every operation takes
//! plain values in and hands plain values back: the messages to deliver, the
//! record to persist, the attachment to save. The embedding program performs
//! them and reports what failed.

pub mod echo;
pub mod room;
