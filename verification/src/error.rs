//! The errors of file and configuration handling.

use vstd::prelude::*;

verus! {

#[verifier::external_type_specification]
#[verifier::external_body]
pub struct ExIoError(std::io::Error);

/// What can go wrong reading or locating a file.
#[derive(Debug)]
pub enum FileError {
    Io(std::io::Error),
    HomeDirNotFound,
    ContentConversionError(String),
    FileTooLarge(u64, u64),
}

/// What can go wrong loading or writing the configuration.
#[derive(Debug)]
pub enum ConfigurationError {
    Io(std::io::Error),
    /// The YAML could not be read or written; the parser's message.
    Yaml(String),
    FilePathError(FileError),
}

} // verus!
