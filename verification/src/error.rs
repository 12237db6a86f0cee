//! What can go wrong in an extraction.

use vstd::prelude::*;

verus! {

/// The error of url's parser.
#[verifier::external_type_specification]
#[verifier::external_body]
pub struct ExParseError(url::ParseError);

/// The error of an input or output operation.
#[verifier::external_type_specification]
#[verifier::external_body]
pub struct ExIoError(std::io::Error);

/// What went wrong.
#[derive(Debug)]
pub enum Error {
    UrlParseError(url::ParseError),
    IOError(std::io::Error),
    Unexpected,
}

impl Error {
    /// What kind of error this is. The error that caused it, where there is one, is in the variant.
    pub fn message(&self) -> (r: String)
        ensures
            r@ == match *self {
                Error::UrlParseError(_) => "UrlParseError"@,
                Error::IOError(_) => "InputOutputError"@,
                Error::Unexpected => "UnexpectedError"@,
            },
    {
        match self {
            Error::UrlParseError(_) => "UrlParseError".to_owned(),
            Error::IOError(_) => "InputOutputError".to_owned(),
            Error::Unexpected => "UnexpectedError".to_owned(),
        }
    }
}

impl From<url::ParseError> for Error {
    fn from(err: url::ParseError) -> (r: Error) {
        Error::UrlParseError(err)
    }
}

impl vstd::std_specs::convert::FromSpecImpl<url::ParseError> for Error {
    open spec fn obeys_from_spec() -> bool {
        true
    }

    open spec fn from_spec(err: url::ParseError) -> Error {
        Error::UrlParseError(err)
    }
}

impl From<std::io::Error> for Error {
    fn from(err: std::io::Error) -> (r: Error) {
        Error::IOError(err)
    }
}

impl vstd::std_specs::convert::FromSpecImpl<std::io::Error> for Error {
    open spec fn obeys_from_spec() -> bool {
        true
    }

    open spec fn from_spec(err: std::io::Error) -> Error {
        Error::IOError(err)
    }
}

} // verus!
