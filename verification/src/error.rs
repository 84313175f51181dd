//! The errors the library reports.
use vstd::prelude::*;

verus! {

/// Why a call could not be served.
#[derive(Debug)]
pub enum Error {
    /// The combination asked for is not implemented, or not on this host.
    NotSupported { message: String },
    /// The caller's input breaks a rule of the call.
    InvalidInput { message: String },
    /// Index data is malformed or of an unsupported kind.
    Index { message: String },
    /// A result broke a rule that the library relies on.
    Internal { message: String },
    /// The columnar array library declined.
    Arrow { message: String },
}

impl Error {
    /// The text that says what went wrong.
    pub open spec fn text(self) -> Seq<char> {
        match self {
            Error::NotSupported { message } => message@,
            Error::InvalidInput { message } => message@,
            Error::Index { message } => message@,
            Error::Internal { message } => message@,
            Error::Arrow { message } => message@,
        }
    }

    /// Whether two errors are of one kind and say the same.
    pub open spec fn says(self, other: Error) -> bool {
        &&& self is NotSupported <==> other is NotSupported
        &&& self is InvalidInput <==> other is InvalidInput
        &&& self is Index <==> other is Index
        &&& self is Internal <==> other is Internal
        &&& self is Arrow <==> other is Arrow
        &&& self.text() == other.text()
    }

    /// The text that says what went wrong.
    pub fn message(&self) -> (s: &str)
        ensures
            s@ == self.text(),
    {
        match self {
            Error::NotSupported { message } => message.as_str(),
            Error::InvalidInput { message } => message.as_str(),
            Error::Index { message } => message.as_str(),
            Error::Internal { message } => message.as_str(),
            Error::Arrow { message } => message.as_str(),
        }
    }
}

/// An error of any kind says what it was made with.
pub proof fn lemma_says_what_it_was_made_with(message: String, e: Error, s: &str)
    requires
        call_ensures(Error::message, (&e,), s),
        e == (Error::NotSupported { message }) || e == (Error::InvalidInput { message }) || e == (
        Error::Index { message }) || e == (Error::Internal { message }) || e == (Error::Arrow {
            message,
        }),
    ensures
        s@ == message@,
        e.text() == message@,
{
}

} // verus!
