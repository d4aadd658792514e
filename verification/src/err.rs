use vstd::prelude::*;

verus! {

/// A connection could not be established or a peer broke the protocol.
#[derive(Debug, Clone, PartialEq, Eq, Structural)]
pub struct ConnectError;

/// An established connection failed mid-exchange.
#[derive(Debug, Clone, PartialEq, Eq, Structural)]
pub struct CommunicationError;

} // verus!
