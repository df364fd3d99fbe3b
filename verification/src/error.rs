//! What can go wrong, and how it is told.

use vstd::prelude::*;

use crate::text::{concat2, concat3};

verus! {

/// Why a command failed.
pub enum Error {
    Usage(String),
    Git(String),
    File { label: String, message: String },
    Io { context: String, source: String },
}

/// Why a command failed.
#[verifier::ext_equal]
pub enum Failure {
    Usage(Seq<char>),
    Git(Seq<char>),
    File { label: Seq<char>, message: Seq<char> },
    Io { context: Seq<char>, source: Seq<char> },
}

impl View for Error {
    type V = Failure;

    open spec fn view(&self) -> Failure {
        match *self {
            Error::Usage(message) => Failure::Usage(message@),
            Error::Git(message) => Failure::Git(message@),
            Error::File { label, message } => Failure::File { label: label@, message: message@ },
            Error::Io { context, source } => Failure::Io { context: context@, source: source@ },
        }
    }
}

impl Clone for Error {
    fn clone(&self) -> (copy: Error)
        ensures
            copy@ == self@,
    {
        match self {
            Error::Usage(message) => Error::Usage(message.clone()),
            Error::Git(message) => Error::Git(message.clone()),
            Error::File { label, message } => Error::File {
                label: label.clone(),
                message: message.clone(),
            },
            Error::Io { context, source } => Error::Io {
                context: context.clone(),
                source: source.clone(),
            },
        }
    }
}

/// How a failure is told.
pub open spec fn told(failure: Failure) -> Seq<char> {
    match failure {
        Failure::Usage(message) => message,
        Failure::Git(message) => message,
        Failure::File { label, message } => "could not parse "@ + label + ": "@ + message,
        Failure::Io { context, source } => context + ": "@ + source,
    }
}

impl Error {
    /// How the failure is told.
    pub fn message(&self) -> (text: String)
        ensures
            text@ == told(self@),
    {
        match self {
            Error::Usage(message) => message.clone(),
            Error::Git(message) => message.clone(),
            Error::File { label, message } => concat2(
                concat3("could not parse ", label.as_str(), ": ").as_str(),
                message.as_str(),
            ),
            Error::Io { context, source } => concat3(context.as_str(), ": ", source.as_str()),
        }
    }
}

/// A result as contracts speak of it.
pub open spec fn result_of<T: DeepView>(result: Result<T, Error>) -> Result<T::V, Failure> {
    match result {
        Ok(value) => Ok(value.deep_view()),
        Err(error) => Err(error@),
    }
}

/// A failure is told with all that is known of it.
pub proof fn failures_are_told_in_full(
    label: Seq<char>,
    message: Seq<char>,
    context: Seq<char>,
    source: Seq<char>,
)
    ensures
        told(Failure::Usage(message)) == message,
        told(Failure::Git(message)) == message,
        told(Failure::File { label, message }) == "could not parse "@ + label + seq![':', ' ']
            + message,
        told(Failure::Io { context, source }) == context + seq![':', ' '] + source,
{
    reveal_strlit(": ");
    assert(": "@ =~= seq![':', ' ']);
}

} // verus!
