//! Errors of the store and the engine marker check.
use vstd::prelude::*;

verus! {

/// Why an operation of the store failed.
#[derive(Debug, Clone, Copy, PartialEq, Eq, Structural)]
pub enum KvsError {
    /// The key has no value.
    KeyNotFound,
    /// The data directory was made by another engine.
    EngineMismatch,
    /// The log holds bytes that are not a sequence of well-formed records.
    Corrupt,
    /// Reading or writing the data on disk failed: the files of the
    /// embedded database, or the log file that the caller keeps.
    Io,
}

/// The text of an error, as a response carries it.
pub open spec fn error_text(e: KvsError) -> Seq<char> {
    match e {
        KvsError::KeyNotFound => "Key not found"@,
        KvsError::EngineMismatch => "Engine does not match"@,
        KvsError::Corrupt => "Corrupt log"@,
        KvsError::Io => "I/O error"@,
    }
}

impl KvsError {
    pub fn message(&self) -> (r: String)
        ensures
            r@ == error_text(*self),
    {
        match self {
            KvsError::KeyNotFound => String::from_str("Key not found"),
            KvsError::EngineMismatch => String::from_str("Engine does not match"),
            KvsError::Corrupt => String::from_str("Corrupt log"),
            KvsError::Io => String::from_str("I/O error"),
        }
    }
}

/// The error of a lookup or removal of a key that has no value.
#[derive(Debug, Clone, Copy, PartialEq, Eq, Structural)]
pub struct KeyNotFound;

impl KeyNotFound {
    pub fn message(&self) -> (r: String)
        ensures
            r@ == error_text(KvsError::KeyNotFound),
    {
        KvsError::KeyNotFound.message()
    }
}

impl From<KeyNotFound> for KvsError {
    fn from(e: KeyNotFound) -> (r: KvsError)
        ensures
            r == KvsError::KeyNotFound,
    {
        KvsError::KeyNotFound
    }
}

impl vstd::std_specs::convert::FromSpecImpl<KeyNotFound> for KvsError {
    open spec fn obeys_from_spec() -> bool {
        true
    }

    open spec fn from_spec(e: KeyNotFound) -> KvsError {
        KvsError::KeyNotFound
    }
}

} // verus!
