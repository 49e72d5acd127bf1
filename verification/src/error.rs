//! The one error every fallible operation answers with: a message for a
//! person, and whether trying again may help.

use vstd::prelude::*;

verus! {

/// What went wrong.
#[derive(Clone, Debug, PartialEq, Eq)]
pub struct TransportError {
    pub message: String,
    /// Whether the same thing tried again may succeed.
    pub retryable: bool,
}

/// The mathematical content of a [`TransportError`].
pub struct Failure {
    pub message: Seq<char>,
    pub retryable: bool,
}

impl View for TransportError {
    type V = Failure;

    open spec fn view(&self) -> Failure {
        Failure { message: self.message@, retryable: self.retryable }
    }
}

/// A failure that trying again will not mend.
pub open spec fn permanent(message: Seq<char>) -> Failure {
    Failure { message, retryable: false }
}

/// A failure that trying again may mend.
pub open spec fn retryable(message: Seq<char>) -> Failure {
    Failure { message, retryable: true }
}

/// The message with which a connection that ends mid-message fails, while
/// doing `what`.
pub open spec fn closed_while(what: Seq<char>) -> Seq<char> {
    what + ": the connection closed mid-message"@
}

impl TransportError {
    /// An error that trying again will not mend.
    pub fn permanent(message: String) -> (error: TransportError)
        ensures
            error@ == permanent(message@),
    {
        TransportError { message, retryable: false }
    }

    /// An error that trying again may mend.
    pub fn retryable(message: String) -> (error: TransportError)
        ensures
            error@ == retryable(message@),
    {
        TransportError { message, retryable: true }
    }
}

/// A peer that broke the protocol: permanent.
pub fn protocol_error(message: &str) -> (error: TransportError)
    ensures
        error@ == permanent(message@),
{
    TransportError::permanent(message.to_string())
}

/// A connection that ended mid-message, while doing `what`: a new connection
/// may fare better.
pub fn closed_error(what: &str) -> (error: TransportError)
    ensures
        error@ == retryable(closed_while(what@)),
{
    let mut message: String = what.to_string();
    message.append(": the connection closed mid-message");
    TransportError::retryable(message)
}

} // verus!
