//! The decoder's error type: one variant per class of fault, so a caller can
//! tell a malformed input from an unsupported feature.

use vstd::prelude::*;
use vstd::string::*;

verus! {

/// The result of every fallible decoder function.
pub type Result<T> = core::result::Result<T, Error>;

/// The class of a decode failure, without its message.
#[derive(Debug, Clone, Copy, PartialEq, Eq, Structural)]
pub enum ErrorKind {
    Codestream,
    Marker,
    Unsupported,
    Limit,
    InvalidOptions,
    Inconsistent,
}

/// A decode failure as a value: its class and its message.
pub struct Fault {
    pub kind: ErrorKind,
    pub text: Seq<char>,
}

/// A failure of a class, with a message.
pub open spec fn fault(kind: ErrorKind, text: Seq<char>) -> Fault {
    Fault { kind, text }
}

/// A decode failure, tagged by the class of fault.
#[derive(Debug, Clone, PartialEq, Eq)]
#[non_exhaustive]
pub enum Error {
    /// Not a JPEG 2000 codestream, or its structure is broken: a truncated or
    /// missing segment, lost sync, or corrupt packet or coded data.
    Codestream(String),
    /// A marker segment carried an illegal field encoding.
    Marker(String),
    /// A valid feature that is not decoded: a JP2 container, an HTJ2K
    /// codestream, a Part 2 extension.
    Unsupported(String),
    /// The input exceeded one of the decoder's resource guards.
    Limit(String),
    /// The caller passed options that this codestream cannot be decoded with.
    InvalidOptions(String),
    /// Declared geometry and decoded state disagreed where they never should.
    Inconsistent(String),
}

impl View for Error {
    type V = Fault;

    open spec fn view(&self) -> Fault {
        fault(self.kind(), self.message())
    }
}

impl Error {
    /// The class of this error.
    pub open spec fn kind_spec(&self) -> ErrorKind {
        match self {
            Error::Codestream(_) => ErrorKind::Codestream,
            Error::Marker(_) => ErrorKind::Marker,
            Error::Unsupported(_) => ErrorKind::Unsupported,
            Error::Limit(_) => ErrorKind::Limit,
            Error::InvalidOptions(_) => ErrorKind::InvalidOptions,
            Error::Inconsistent(_) => ErrorKind::Inconsistent,
        }
    }

    /// The class of this error.
    #[verifier::when_used_as_spec(kind_spec)]
    pub fn kind(&self) -> (k: ErrorKind)
        ensures
            k == self.kind(),
    {
        match self {
            Error::Codestream(_) => ErrorKind::Codestream,
            Error::Marker(_) => ErrorKind::Marker,
            Error::Unsupported(_) => ErrorKind::Unsupported,
            Error::Limit(_) => ErrorKind::Limit,
            Error::InvalidOptions(_) => ErrorKind::InvalidOptions,
            Error::Inconsistent(_) => ErrorKind::Inconsistent,
        }
    }

    /// The message, without the class.
    pub open spec fn message(&self) -> Seq<char> {
        match self {
            Error::Codestream(m) => m@,
            Error::Marker(m) => m@,
            Error::Unsupported(m) => m@,
            Error::Limit(m) => m@,
            Error::InvalidOptions(m) => m@,
            Error::Inconsistent(m) => m@,
        }
    }

    /// What is said of this error: its class and its message.
    pub open spec fn text_spec(&self) -> Seq<char> {
        match self {
            Error::Codestream(m) => "codestream: "@ + m@,
            Error::Marker(m) => "marker: "@ + m@,
            Error::Unsupported(m) => "unsupported: "@ + m@,
            Error::Limit(m) => "limit: "@ + m@,
            Error::InvalidOptions(m) => "invalid options: "@ + m@,
            Error::Inconsistent(m) => "inconsistent: "@ + m@,
        }
    }

    /// The error as text: its class and its message.
    pub fn text(&self) -> (s: String)
        ensures
            s@ == self.text_spec(),
    {
        match self {
            Error::Codestream(m) => "codestream: ".to_string().concat(m.as_str()),
            Error::Marker(m) => "marker: ".to_string().concat(m.as_str()),
            Error::Unsupported(m) => "unsupported: ".to_string().concat(m.as_str()),
            Error::Limit(m) => "limit: ".to_string().concat(m.as_str()),
            Error::InvalidOptions(m) => "invalid options: ".to_string().concat(m.as_str()),
            Error::Inconsistent(m) => "inconsistent: ".to_string().concat(m.as_str()),
        }
    }
}

} // verus!
