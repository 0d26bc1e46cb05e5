//! The error type shared by the store, the codec and the request handler.

use vstd::prelude::*;
use vstd::string::StringExecFns;

verus! {

/// `flexbuffers::SerializationError`, carried along without a look inside.
#[verifier::external_type_specification]
#[verifier::external_body]
pub struct ExSerializationError(flexbuffers::SerializationError);

/// `flexbuffers::ReaderError`, carried along without a look inside.
#[verifier::external_type_specification]
#[verifier::external_body]
pub struct ExReaderError(flexbuffers::ReaderError);

/// Everything that can go wrong in the store, the codec or the server.
#[derive(Debug)]
pub enum KvsError {
    /// A file or socket operation failed; the text is the host's description.
    Io(String),
    /// The flexbuffer encoder rejected a value.
    Serializer(flexbuffers::SerializationError),
    /// A payload is a flexbuffer, but not one that holds the expected value.
    Deserializer,
    /// The flexbuffer reader rejected a payload.
    Reader(flexbuffers::ReaderError),
    /// A record in a log segment is cut short or cannot be decoded.
    CorruptRecord,
    /// The key to remove is not in the store.
    KeyDoesNotExist,
    /// A length, an offset or a generation does not fit its integer type.
    TryFromInt,
    /// The record found for a key is not a `Put` of that key.
    UnexpectedCommandType,
    /// A bind or connect address could not be parsed.
    AddrParseError(String),
    /// The requested backend is not one this build knows.
    UnknownEngineType(String),
    /// The directory belongs to another backend than the requested one.
    WrongEngineType(String),
}

/// The text that `flexbuffers::SerializationError` displays. Nothing is
/// claimed about it.
#[verifier::external_body]
fn serialization_error_text(err: &flexbuffers::SerializationError) -> String {
    format!("{}", err)
}

/// The text that `flexbuffers::ReaderError` displays. Nothing is claimed
/// about it.
#[verifier::external_body]
fn reader_error_text(err: &flexbuffers::ReaderError) -> String {
    format!("{}", err)
}

impl KvsError {
    /// The fixed part of the message, which comes before any detail.
    pub open spec fn prefix(&self) -> Seq<char> {
        match self {
            KvsError::Io(_) => "IO error: "@,
            KvsError::Serializer(_) => "Serialization error: "@,
            KvsError::Deserializer => "Deserialization error"@,
            KvsError::Reader(_) => "Reader error: "@,
            KvsError::CorruptRecord => "Corrupt record"@,
            KvsError::KeyDoesNotExist => "Key not found"@,
            KvsError::TryFromInt => "Integer out of range"@,
            KvsError::UnexpectedCommandType => "Unexpected command type"@,
            KvsError::AddrParseError(_) => "IP Address Parse error: "@,
            KvsError::UnknownEngineType(_) => "Unknown Engine type: "@,
            KvsError::WrongEngineType(_) => "Wrong engine type: "@,
        }
    }

    /// The message for variants whose detail is a string of the library.
    pub open spec fn detail(&self) -> Option<Seq<char>> {
        match self {
            KvsError::Io(text) => Some(text@),
            KvsError::AddrParseError(text) => Some(text@),
            KvsError::UnknownEngineType(name) => Some(name@),
            KvsError::WrongEngineType(name) => Some(name@),
            KvsError::Serializer(_) | KvsError::Reader(_) => None,
            _ => Some(Seq::<char>::empty()),
        }
    }

    /// Whether a text is a message of this error: it starts with the
    /// variant's fixed text, and where the detail is a string of the
    /// library, the detail follows and nothing else.
    pub open spec fn described_by(&self, text: Seq<char>) -> bool {
        &&& self.prefix().is_prefix_of(text)
        &&& self.detail() matches Some(d) ==> text == self.prefix() + d
    }

    /// The human-readable message of the error. For the two flexbuffer
    /// errors the detail is whatever that crate displays.
    pub fn to_string(&self) -> (text: String)
        ensures
            self.described_by(text@),
    {
        match self {
            KvsError::Io(detail) => String::from_str("IO error: ").concat(detail.as_str()),
            KvsError::Serializer(err) => {
                let detail = serialization_error_text(err);
                String::from_str("Serialization error: ").concat(detail.as_str())
            },
            KvsError::Deserializer => String::from_str("Deserialization error"),
            KvsError::Reader(err) => {
                let detail = reader_error_text(err);
                String::from_str("Reader error: ").concat(detail.as_str())
            },
            KvsError::CorruptRecord => String::from_str("Corrupt record"),
            KvsError::KeyDoesNotExist => String::from_str("Key not found"),
            KvsError::TryFromInt => String::from_str("Integer out of range"),
            KvsError::UnexpectedCommandType => String::from_str("Unexpected command type"),
            KvsError::AddrParseError(detail) => String::from_str("IP Address Parse error: ").concat(
                detail.as_str(),
            ),
            KvsError::UnknownEngineType(name) => String::from_str("Unknown Engine type: ").concat(
                name.as_str(),
            ),
            KvsError::WrongEngineType(name) => String::from_str("Wrong engine type: ").concat(
                name.as_str(),
            ),
        }
    }
}

} // verus!
