//! The failures that one sampling step can meet.
use vstd::prelude::*;

verus! {

/// Why a sample could not be taken or read.
#[derive(Debug, PartialEq, Eq)]
pub enum Error {
    /// The diagnostic tool could not be run, or a sensor file could not be read.
    Io(String),
    /// The tool's output was not valid UTF-8.
    Utf8,
    /// An integer field did not parse.
    ParseInt,
    /// A decimal field did not parse.
    ParseFloat,
    /// An expected marker (a prefix or a suffix) was missing from the output.
    ParseCommand(String),
    /// The throttle status word was not valid hexadecimal.
    MalformedStatusWord,
}

/// Whether `r` failed for want of an expected marker in the tool's output.
pub open spec fn is_parse_command<T>(r: Result<T, Error>) -> bool {
    match r {
        Err(Error::ParseCommand(_)) => true,
        _ => false,
    }
}

} // verus!
