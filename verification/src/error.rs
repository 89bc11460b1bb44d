//! What can go wrong between an external command and the records read from
//! its output.

use vstd::prelude::*;

verus! {

/// Relies on `std::io::Error`: carried through as an opaque value, never
/// inspected here.
#[verifier::external_type_specification]
#[verifier::external_body]
pub struct ExIoError(std::io::Error);

/// Relies on `std::string::FromUtf8Error`: carried through as an opaque
/// value, never inspected here.
#[verifier::external_type_specification]
#[verifier::external_body]
pub struct ExFromUtf8Error(std::string::FromUtf8Error);

/// Why no records could be read from an external command.
#[derive(Debug)]
pub enum StoreError {
    /// Running the command failed.
    Io(std::io::Error),
    /// Its output was not UTF-8.
    Utf8(std::string::FromUtf8Error),
    /// Its output did not have the expected shape.
    MalformedOutput,
}

} // verus!
