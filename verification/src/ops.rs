use vstd::prelude::*;
use crate::messages::Message;

verus! {

/// What a session and the supervisor say to each other over the channels.
#[derive(Debug, Clone, PartialEq)]
pub enum OpType {
    /// Relay this wire message on the session's connection.
    OpMessage(Message),
    /// The session must drop its connection.
    OpDisconnect,
    /// A verified piece: index and full payload.
    OpPiece(u32, Vec<u8>),
    /// The remote asked for bytes: index, offset, length.
    OpRequest(u32, u32, u32),
    /// The download is complete: downloaders exit, uploaders keep serving.
    OpDownStop,
    /// Shut everything down.
    OpStop,
}

/// An operation tagged with its session: id 0 is the supervisor.
#[derive(Debug, Clone, PartialEq)]
pub struct Op {
    pub id: u64,
    pub op_type: OpType,
}

} // verus!
