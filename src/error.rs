use vstd::prelude::*;

verus! {

/// The kinds of failure the store reports.
#[derive(Debug, Clone, PartialEq, Eq)]
pub enum Error {
    /// A file-system failure, with its message.
    Io(String),
    /// The log ended inside a record.
    Eof,
    /// The log file has been torn down.
    DBFileNotExist,
    /// The key is empty.
    EmptyKey,
    /// The key has no live record.
    KeyNotExists,
    /// The lock guarding the store was poisoned.
    MutexPoison,
    /// A record header was read from an empty buffer.
    EmptyContent,
    /// The offset lies at or past the end of the log.
    InvalidOffset,
    /// A record header carries an unknown operation tag.
    InvalidRecord,
}

/// Whether `e` only says that no more valid records follow.
pub open spec fn is_end_of_data(e: Error) -> bool {
    e is Eof || e is EmptyContent || e is InvalidOffset
}

impl Error {
    /// The error for a failed file-system call: an unexpected end of file
    /// becomes `Eof`, anything else is carried as `Io`.
    pub fn from_io(unexpected_eof: bool, message: String) -> (e: Error)
        ensures
            unexpected_eof ==> e is Eof,
            !unexpected_eof ==> e == Error::Io(message),
    {
        if unexpected_eof {
            Error::Eof
        } else {
            Error::Io(message)
        }
    }

    /// The error for a poisoned lock.
    pub fn from_poison() -> (e: Error)
        ensures
            e is MutexPoison,
    {
        Error::MutexPoison
    }

    /// Whether this error only marks the end of the valid records.
    pub fn is_end(&self) -> (b: bool)
        ensures
            b == is_end_of_data(*self),
    {
        match self {
            Error::Eof => true,
            Error::EmptyContent => true,
            Error::InvalidOffset => true,
            _ => false,
        }
    }

    /// A short description of the error.
    pub fn message(&self) -> String {
        match self {
            Error::Io(m) => m.clone(),
            Error::Eof => String::from_str("EOF"),
            Error::DBFileNotExist => String::from_str("db file not exist"),
            Error::EmptyKey => String::from_str("empty key"),
            Error::KeyNotExists => String::from_str("key not exist"),
            Error::MutexPoison => String::from_str("mutex poison error"),
            Error::EmptyContent => String::from_str("the read content is empty"),
            Error::InvalidOffset => String::from_str("invalid offset"),
            Error::InvalidRecord => String::from_str("invalid record"),
        }
    }
}

} // verus!
