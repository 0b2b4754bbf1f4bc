//! What can go wrong.

use vstd::prelude::*;

verus! {

/// The error of reading and writing. Nothing is known of what it holds.
#[verifier::external_type_specification]
#[verifier::external_body]
pub struct ExIoError(std::io::Error);

/// What a source or a coder failed with, or why a request is refused.
#[derive(Debug)]
pub enum Error {
    /// A source or a coder failed, while doing what the message says.
    Io { error: std::io::Error, message: String },
    /// The request makes no sense.
    Other(String),
    /// The request makes sense, and cannot be served.
    Unsupported(String),
}

impl Error {
    /// What the message of an error is.
    pub open spec fn text(&self) -> Seq<char> {
        match *self {
            Error::Io { message, .. } => message@,
            Error::Other(message) => message@,
            Error::Unsupported(message) => message@,
        }
    }

    /// The failure of a source or a coder, and what was being done.
    pub fn io_msg(error: std::io::Error, message: String) -> (r: Self)
        ensures
            r == (Error::Io { error, message }),
    {
        Error::Io { error, message }
    }

    /// A request that makes no sense.
    pub fn other(message: String) -> (r: Self)
        ensures
            r == Error::Other(message),
    {
        Error::Other(message)
    }

    /// A request that cannot be served.
    pub fn unsupported(message: String) -> (r: Self)
        ensures
            r == Error::Unsupported(message),
    {
        Error::Unsupported(message)
    }

    /// The message, as text.
    pub fn message(&self) -> (r: String)
        ensures
            r@ == self.text(),
    {
        match self {
            Error::Io { message, .. } => message.clone(),
            Error::Other(message) => message.clone(),
            Error::Unsupported(message) => message.clone(),
        }
    }
}

} // verus!
