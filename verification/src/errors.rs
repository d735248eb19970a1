//! The error kinds a request operation can surface. Callers branch on the
//! kind, never on message text.

use vstd::prelude::*;

verus! {

/// Why a request operation was refused.
#[derive(Clone, Copy, Debug, PartialEq, Eq, Structural)]
pub enum RequestError {
    /// The requester already has an open request; it must be finished first.
    AlreadyOpen,
    /// The requester has no open request to act on.
    NoOpenRequest,
    /// The raw resource list holds a quantity token that does not fit an
    /// unsigned 64-bit integer.
    ParseError,
    /// Settlement was refused because stock does not cover every line.
    InsufficientStock,
    /// A transport or persistence collaborator failed; the operation did not
    /// complete.
    CollaboratorError,
}

impl RequestError {
    /// A short, stable label for the error kind, for user-visible messages.
    pub fn describe(&self) -> (r: &'static str)
        ensures
            r@ == match self {
                RequestError::AlreadyOpen => "already open"@,
                RequestError::NoOpenRequest => "no open request"@,
                RequestError::ParseError => "unparseable quantity"@,
                RequestError::InsufficientStock => "insufficient stock"@,
                RequestError::CollaboratorError => "collaborator failure"@,
            },
    {
        match self {
            RequestError::AlreadyOpen => "already open",
            RequestError::NoOpenRequest => "no open request",
            RequestError::ParseError => "unparseable quantity",
            RequestError::InsufficientStock => "insufficient stock",
            RequestError::CollaboratorError => "collaborator failure",
        }
    }
}

} // verus!
