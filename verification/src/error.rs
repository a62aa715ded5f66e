//! Errors reported while parsing an XRK file.
use vstd::prelude::*;

verus! {

/// Why an XRK byte buffer could not be parsed.
#[derive(Debug)]
pub enum XrkError {
    /// The buffer is shorter than the smallest valid XRK file; holds its length.
    FileTooSmall(usize),
    /// No measurement marker `)(M` was found: the file is empty or corrupt.
    NoDataMarkers,
    /// A metadata field is not valid UTF-8.
    InvalidUtf8 { field: &'static str, source: core::str::Utf8Error },
    /// The data ended before a structure was complete.
    UnexpectedEof { offset: usize, need: usize, have: usize },
}

} // verus!
