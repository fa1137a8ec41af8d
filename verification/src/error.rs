//! Errors of coordinate transformations.
use vstd::prelude::*;
use vstd::string::StringExecFns;

verus! {

/// Errors that can occur during coordinate transformations.
#[derive(Debug, Clone)]
pub enum Error {
    UnsupportedCrs(String),
    InvalidCoordinate(String),
    ProjectionError(String),
}

/// The text with which an error describes itself.
pub open spec fn error_message(e: Error) -> Seq<char> {
    match e {
        Error::UnsupportedCrs(m) => "unsupported CRS: "@ + m@,
        Error::InvalidCoordinate(m) => "invalid coordinate: "@ + m@,
        Error::ProjectionError(m) => "projection error: "@ + m@,
    }
}

impl Error {
    /// The error's description: its kind, a colon, and its detail.
    pub fn message(&self) -> (r: String)
        ensures
            r@ == error_message(*self),
    {
        match self {
            Error::UnsupportedCrs(m) => String::from_str("unsupported CRS: ").concat(m.as_str()),
            Error::InvalidCoordinate(m) => String::from_str("invalid coordinate: ").concat(
                m.as_str(),
            ),
            Error::ProjectionError(m) => String::from_str("projection error: ").concat(m.as_str()),
        }
    }
}

} // verus!
