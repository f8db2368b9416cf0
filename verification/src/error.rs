//! What can go wrong.
use crate::memtable::Blob;
use vstd::prelude::*;

verus! {

/// `std::io::Error`, carried through and never looked into.
#[verifier::external_type_specification]
#[verifier::external_body]
pub struct ExIoError(std::io::Error);

/// `std::string::FromUtf8Error`, dropped when it is converted.
#[verifier::external_type_specification]
#[verifier::external_body]
pub struct ExFromUtf8Error(std::string::FromUtf8Error);

/// `std::num::ParseIntError`, dropped when it is converted.
#[verifier::external_type_specification]
#[verifier::external_body]
pub struct ExParseIntError(std::num::ParseIntError);

/// `yaml_serde::Error`, carried through and never looked into.
#[verifier::external_type_specification]
#[verifier::external_body]
pub struct ExYamlError(yaml_serde::Error);

/// The error of reading past the end of a file. Calls `std::io::Error::from` on
/// `std::io::ErrorKind::UnexpectedEof`; of the opaque error that comes back nothing is
/// claimed.
#[verifier::external_body]
pub(crate) fn unexpected_eof() -> (err: std::io::Error) {
    std::io::Error::from(std::io::ErrorKind::UnexpectedEof)
}

/// A write that a memtable did not take.
#[derive(Debug)]
pub enum MemtableError {
    /// The table is full. The key comes back, and for an insertion the value.
    TableFull(Blob, Option<Blob>),
}

/// A lookup in an SSTable that found no value, or a file that is no SSTable.
#[derive(Debug)]
pub enum SSTableError {
    /// The table holds no record of the key.
    DiskRecordNotFound,
    /// Reading failed.
    IOError(std::io::Error),
    /// The table holds a tombstone for the key.
    Tombstone,
    /// The file does not begin with the magic bytes, or has no record where its index
    /// says that there is one.
    InvalidSSTableFile,
}

impl From<std::io::Error> for SSTableError {
    fn from(err: std::io::Error) -> (converted: SSTableError) {
        SSTableError::IOError(err)
    }
}

impl vstd::std_specs::convert::FromSpecImpl<std::io::Error> for SSTableError {
    open spec fn obeys_from_spec() -> bool {
        true
    }

    open spec fn from_spec(err: std::io::Error) -> SSTableError {
        SSTableError::IOError(err)
    }
}

/// An error of the database as a whole.
#[derive(Debug)]
pub enum LsmliteError {
    InvalidQuery,
    InvalidParameter,
    InvalidConfigFile(yaml_serde::Error),
    IOError(std::io::Error),
    KeySizeConstraint,
    RecordSizeConstraint,
}

impl From<std::string::FromUtf8Error> for LsmliteError {
    fn from(_err: std::string::FromUtf8Error) -> (converted: LsmliteError) {
        LsmliteError::InvalidQuery
    }
}

impl vstd::std_specs::convert::FromSpecImpl<std::string::FromUtf8Error> for LsmliteError {
    open spec fn obeys_from_spec() -> bool {
        true
    }

    open spec fn from_spec(_err: std::string::FromUtf8Error) -> LsmliteError {
        LsmliteError::InvalidQuery
    }
}

impl From<std::num::ParseIntError> for LsmliteError {
    fn from(_err: std::num::ParseIntError) -> (converted: LsmliteError) {
        LsmliteError::InvalidParameter
    }
}

impl vstd::std_specs::convert::FromSpecImpl<std::num::ParseIntError> for LsmliteError {
    open spec fn obeys_from_spec() -> bool {
        true
    }

    open spec fn from_spec(_err: std::num::ParseIntError) -> LsmliteError {
        LsmliteError::InvalidParameter
    }
}

impl From<std::io::Error> for LsmliteError {
    fn from(err: std::io::Error) -> (converted: LsmliteError) {
        LsmliteError::IOError(err)
    }
}

impl vstd::std_specs::convert::FromSpecImpl<std::io::Error> for LsmliteError {
    open spec fn obeys_from_spec() -> bool {
        true
    }

    open spec fn from_spec(err: std::io::Error) -> LsmliteError {
        LsmliteError::IOError(err)
    }
}

impl From<yaml_serde::Error> for LsmliteError {
    fn from(err: yaml_serde::Error) -> (converted: LsmliteError) {
        LsmliteError::InvalidConfigFile(err)
    }
}

impl vstd::std_specs::convert::FromSpecImpl<yaml_serde::Error> for LsmliteError {
    open spec fn obeys_from_spec() -> bool {
        true
    }

    open spec fn from_spec(err: yaml_serde::Error) -> LsmliteError {
        LsmliteError::InvalidConfigFile(err)
    }
}

} // verus!
