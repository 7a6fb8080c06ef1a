use vstd::prelude::*;

verus! {

#[verifier::external_type_specification]
#[verifier::external_body]
pub struct ExIoError(std::io::Error);

/// The error type for checksum-based operations.
#[derive(Debug)]
pub enum Error {
    /// The input is an interactive terminal.
    IsTerminal,
    /// An I/O operation failed.
    Io(std::io::Error),
}

/// A specialized `Result` type for checksum-based operations.
pub type Result<T> = core::result::Result<T, Error>;

} // verus!
