//! The encoder's one error channel: a generic message.
//!
//! The encoder itself introduces no failure modes; this type only carries a
//! message surfaced by the traversal mechanism that drives the encoder.

use vstd::prelude::*;

verus! {

/// A generic error carrying only a human-readable message.
pub enum Error {
    Message(String),
}

impl View for Error {
    type V = Seq<char>;

    open spec fn view(&self) -> Seq<char> {
        match self {
            Error::Message(m) => m@,
        }
    }
}

impl Error {
    /// Wraps an arbitrary message, as a traversal failure is reported.
    pub fn custom(msg: String) -> (e: Error)
        ensures
            e@ == msg@,
    {
        Error::Message(msg)
    }

    /// The carried message.
    pub fn message(&self) -> (m: &str)
        ensures
            m@ == self@,
    {
        match self {
            Error::Message(m) => m.as_str(),
        }
    }
}

} // verus!
