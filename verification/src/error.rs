//! The error type of the library.

use vstd::prelude::*;

verus! {

/// `std::io::Error`, carried as it is: nothing is known here of what
/// one holds.
#[verifier::external_type_specification]
#[verifier::external_body]
pub struct ExIoError(std::io::Error);

/// `url::ParseError`, the reasons for which `url` refuses a text. It is
/// a plain list of reasons without fields, taken as the crate defines
/// it, so that one reason can be told from another.
#[verifier::external_type_specification]
pub struct ExParseError(url::ParseError);

/// What can go wrong in a command.
#[derive(Debug)]
pub enum Error {
    /// Reading a directory or running a program failed.
    Io(std::io::Error),
    /// The text is no URL.
    UrlParseError(url::ParseError),
    /// Anything else, in words.
    Custom(String),
}

impl From<std::io::Error> for Error {
    fn from(e: std::io::Error) -> (r: Self) {
        Error::Io(e)
    }
}

impl vstd::std_specs::convert::FromSpecImpl<std::io::Error> for Error {
    open spec fn obeys_from_spec() -> bool {
        true
    }

    open spec fn from_spec(e: std::io::Error) -> Self {
        Error::Io(e)
    }
}

impl From<url::ParseError> for Error {
    fn from(e: url::ParseError) -> (r: Self) {
        Error::UrlParseError(e)
    }
}

impl vstd::std_specs::convert::FromSpecImpl<url::ParseError> for Error {
    open spec fn obeys_from_spec() -> bool {
        true
    }

    open spec fn from_spec(e: url::ParseError) -> Self {
        Error::UrlParseError(e)
    }
}

} // verus!
