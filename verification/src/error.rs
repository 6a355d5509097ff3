//! Errors.

use vstd::prelude::*;

verus! {

/// What can go wrong when events and messages are handled.
#[derive(Clone, Copy, Debug, PartialEq, Eq, Structural)]
pub enum RoutingError {
    /// The operation does not fit the present state.
    InvalidStateForOperation,
    /// The message is not valid.
    InvalidMessage,
    /// None of the previous hops of a message is known.
    UnknownPrevHop,
    /// A value could not be serialised or parsed.
    Serialisation,
}

/// What can go wrong when the targets of a message are looked up.
#[derive(Clone, Copy, Debug, PartialEq, Eq, Structural)]
pub enum Error {
    /// There is nobody that the message could be sent to.
    CannotRoute,
}

} // verus!
