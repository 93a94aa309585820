//! The errors that the store reports.

use vstd::prelude::*;
use vstd::string::StringExecFns;

verus! {

/// What went wrong with a file of the log directory.
#[derive(Debug, Clone, Copy, PartialEq, Eq, Structural)]
pub enum IoErrorKind {
    /// A file that the log refers to is not in the directory.
    NotFound,
    /// A file that was to be created is already in the directory.
    AlreadyExists,
    /// A file ends before the bytes that were asked of it.
    UnexpectedEof,
}

/// What went wrong when text was written or read.
#[derive(Debug, Clone, Copy, PartialEq, Eq, Structural)]
pub enum SerdeErrorKind {
    /// The bytes of a partition do not read as an entry.
    MalformedEntry,
    /// The bytes of the metadata file do not read as the description of a log.
    MalformedMetadata,
    /// A value whose text does not read back as the value itself.
    Unencodable,
}

/// The errors of the store.
#[derive(Debug, Clone, Copy, PartialEq, Eq, Structural)]
pub enum KvsError {
    /// A file of the log directory could not be used.
    Io(IoErrorKind),
    /// Text could not be written or read.
    Serde(SerdeErrorKind),
    /// `remove` was called with a key that the store does not hold.
    KeyNotFound,
    /// The active partition cannot be written to.
    InvalidLogFileHandle,
}

/// What the operations of the store return.
pub type Result<T> = std::result::Result<T, KvsError>;

impl IoErrorKind {
    /// The text that describes this kind of error.
    pub open spec fn text(self) -> Seq<char> {
        match self {
            IoErrorKind::NotFound => "file not found"@,
            IoErrorKind::AlreadyExists => "file already exists"@,
            IoErrorKind::UnexpectedEof => "unexpected end of file"@,
        }
    }

    /// The text that describes this kind of error.
    pub fn message(&self) -> (s: String)
        ensures
            s@ == self.text(),
    {
        match self {
            IoErrorKind::NotFound => String::from_str("file not found"),
            IoErrorKind::AlreadyExists => String::from_str("file already exists"),
            IoErrorKind::UnexpectedEof => String::from_str("unexpected end of file"),
        }
    }
}

impl SerdeErrorKind {
    /// The text that describes this kind of error.
    pub open spec fn text(self) -> Seq<char> {
        match self {
            SerdeErrorKind::MalformedEntry => "malformed log entry"@,
            SerdeErrorKind::MalformedMetadata => "malformed log metadata"@,
            SerdeErrorKind::Unencodable => "value cannot be encoded"@,
        }
    }

    /// The text that describes this kind of error.
    pub fn message(&self) -> (s: String)
        ensures
            s@ == self.text(),
    {
        match self {
            SerdeErrorKind::MalformedEntry => String::from_str("malformed log entry"),
            SerdeErrorKind::MalformedMetadata => String::from_str("malformed log metadata"),
            SerdeErrorKind::Unencodable => String::from_str("value cannot be encoded"),
        }
    }
}

impl KvsError {
    /// Whether this error says that a key was not found.
    pub open spec fn spec_is_key_not_found(&self) -> bool {
        *self == KvsError::KeyNotFound
    }

    /// Whether this error says that a key was not found.
    #[verifier::when_used_as_spec(spec_is_key_not_found)]
    pub fn is_key_not_found(&self) -> (b: bool)
        ensures
            b == (*self == KvsError::KeyNotFound),
    {
        match self {
            KvsError::KeyNotFound => true,
            _ => false,
        }
    }

    /// The text that describes this error.
    pub open spec fn text(self) -> Seq<char> {
        match self {
            KvsError::Io(kind) => kind.text(),
            KvsError::Serde(kind) => kind.text(),
            KvsError::KeyNotFound => "Key not found"@,
            KvsError::InvalidLogFileHandle => "The Log file handle is not valid"@,
        }
    }

    /// The text that describes this error.
    pub fn message(&self) -> (s: String)
        ensures
            s@ == self.text(),
    {
        match self {
            KvsError::Io(kind) => kind.message(),
            KvsError::Serde(kind) => kind.message(),
            KvsError::KeyNotFound => String::from_str("Key not found"),
            KvsError::InvalidLogFileHandle => String::from_str("The Log file handle is not valid"),
        }
    }
}

} // verus!
