//! The error taxonomy of a rotation run. Every failure aborts the whole
//! run: there is no local recovery and no partial-success reporting.

use vstd::prelude::*;

verus! {

/// Why configuration resolution failed.
#[derive(Debug, PartialEq, Eq, Structural, Clone, Copy)]
pub enum ConfigError {
    /// The home directory of the invoking user could not be determined.
    HomeNotFound,
    /// A configuration source exists but could not be parsed.
    Malformed,
}

/// An error that aborts a rotation run.
#[derive(Debug)]
pub enum Error {
    /// A free-form failure message.
    Other(String),
    /// A filename in the log directory does not match `<name>.log` nor
    /// `<name>.<N>.log`; the offending filename is carried along.
    FilenameParse(Vec<u8>),
    /// Configuration resolution failed.
    Config(ConfigError),
    /// Enumerating the log directory failed; the caller supplies the message.
    Traversal(String),
    /// A metadata read, copy, truncation or deletion failed; the caller
    /// supplies the message.
    Io(String),
}

impl Error {
    /// Wraps a free-form message.
    pub fn other(s: &str) -> (r: Self)
        ensures
            r matches Error::Other(m) && m@ == s@,
    {
        Error::Other(String::from_str(s))
    }
}

} // verus!
