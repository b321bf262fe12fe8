use vstd::prelude::*;

verus! {

/// Every failure that creating a policy can report.
#[derive(Debug, PartialEq, Eq)]
pub enum PolicyError {
    /// A resource or action name failed validation.
    InvalidIdentifier,
    /// The expression text is not in the grammar; `position` is the character
    /// offset at which the parser gave up.
    SyntaxError { position: usize },
    /// A wire payload is truncated or carries an inconsistent tag.
    MalformedExpression,
    /// No node answers to the given name.
    NodeNotFound,
    /// The node could not be reached, or the exchange timed out.
    NodeUnreachable,
    /// The exchange failed after the connection was made.
    TransportError,
    /// The node's answer could not be decoded.
    ProtocolError,
    /// The node rejected the request, with its status code and message.
    RemoteError { code: u16, message: String },
}

} // verus!
