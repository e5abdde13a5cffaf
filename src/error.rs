//! The errors of a run.

use vstd::prelude::*;

verus! {

/// `std::io::Error`, carried opaque by [`Error::Io`].
#[verifier::external_type_specification]
#[verifier::external_body]
pub struct ExIoError(std::io::Error);

/// Why a run stops, or (`NoChange`) why the catalog file is left as it is.
#[derive(Debug)]
pub enum Error {
    Other(&'static str),
    NoChange,
    NotFound,
    UnexpectedEof,
    Io(std::io::Error),
}

impl From<std::io::Error> for Error {
    fn from(err: std::io::Error) -> (r: Error) {
        Error::Io(err)
    }
}

impl vstd::std_specs::convert::FromSpecImpl<std::io::Error> for Error {
    open spec fn obeys_from_spec() -> bool {
        true
    }

    open spec fn from_spec(err: std::io::Error) -> Error {
        Error::Io(err)
    }
}

impl Error {
    /// The short description of each kind.
    pub open spec fn short_text(&self) -> Seq<char> {
        match self {
            Error::NoChange => "no changes to be made"@,
            Error::NotFound => "entity not found"@,
            Error::UnexpectedEof => "unexpected end of file"@,
            _ => "unknown"@,
        }
    }

    /// A short description of the kinds that carry no text of their own.
    pub fn as_str(&self) -> (r: &'static str)
        ensures
            r@ == self.short_text(),
    {
        match self {
            Error::NoChange => "no changes to be made",
            Error::NotFound => "entity not found",
            Error::UnexpectedEof => "unexpected end of file",
            _ => "unknown",
        }
    }

    /// The message to show for this error.
    pub fn message(&self) -> (r: String)
        ensures
            match self {
                Error::Other(msg) => r@ == msg@,
                Error::Io(_) => true,
                _ => r@ == self.short_text(),
            },
    {
        match self {
            Error::Other(msg) => String::from_str(msg),
            Error::Io(err) => err.to_string(),
            _ => String::from_str(self.as_str()),
        }
    }
}

} // verus!
