//! The errors of reading an archive.

use vstd::prelude::*;
use vstd::string::StringExecFns;

verus! {

/// What went wrong when looking something up or reading it.
#[derive(Debug, PartialEq, Eq)]
pub enum SqPackReaderError {
    InvalidPath,
    NoSuchFolder,
    NoSuchFile,
    ReadError(String),
}

/// The outcome of an operation of this library.
pub type Result<T> = core::result::Result<T, SqPackReaderError>;

/// The text that describes an error.
pub open spec fn spec_error_message(e: SqPackReaderError) -> Seq<char> {
    match e {
        SqPackReaderError::InvalidPath => "Invalid path"@,
        SqPackReaderError::NoSuchFolder => "No such folder"@,
        SqPackReaderError::NoSuchFile => "No such file"@,
        SqPackReaderError::ReadError(x) => "Read error, "@ + x@,
    }
}

impl SqPackReaderError {
    /// The text that describes this error.
    pub fn to_string(&self) -> (r: String)
        ensures
            r@ == spec_error_message(*self),
    {
        match self {
            SqPackReaderError::InvalidPath => String::from_str("Invalid path"),
            SqPackReaderError::NoSuchFolder => String::from_str("No such folder"),
            SqPackReaderError::NoSuchFile => String::from_str("No such file"),
            SqPackReaderError::ReadError(x) => String::from_str("Read error, ").concat(x.as_str()),
        }
    }
}

} // verus!
