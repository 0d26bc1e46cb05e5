//! The messages that client and server exchange, and how they are framed.
//!
//! A message travels as the length of its payload in eight little-endian
//! bytes, a line feed, and the payload. The payload holds the message's
//! fields: the names of its variants, then their strings.

use vstd::prelude::*;
use vstd::bytes::{
    lemma_auto_spec_u64_to_from_le_bytes, spec_u64_from_le_bytes, spec_u64_to_le_bytes,
    u64_from_le_bytes, u64_to_le_bytes,
};
use vstd::slice::{slice_subrange, slice_to_vec};
use vstd::string::StringExecFns;
use crate::error::KvsError;
use crate::flex::{decode_fields, decoded, encode_fields, encoded, reports, reports_unencodable};

verus! {

/// The bytes before the payload: the length and the line feed.
pub const HEADER_LEN: usize = 9;

/// The byte between the length and the payload.
pub const SEPARATOR: u8 = 10;

/// What a client can ask of the store.
#[derive(Debug, PartialEq, Eq)]
pub enum Commands {
    /// Sets the value of a key.
    Put { key: String, value: String },
    /// Gets the value of a key.
    Get { key: String },
    /// Removes a key.
    Rm { key: String },
}

/// One message between client and server.
#[derive(Debug, PartialEq, Eq)]
pub enum NetworkConnection {
    /// A request, sent by the client.
    Request { command: Commands },
    /// A reply that carries a value.
    Response { value: String },
    /// A reply that reports a failure.
    Error { error: String },
    /// A reply that says the request was carried out.
    Done,
}

/// A command as a plain value.
pub enum Command {
    Put { key: Seq<char>, value: Seq<char> },
    Get { key: Seq<char> },
    Rm { key: Seq<char> },
}

/// A message as a plain value.
pub enum Message {
    Request { command: Command },
    Response { value: Seq<char> },
    Error { error: Seq<char> },
    Done,
}

impl View for Commands {
    type V = Command;

    open spec fn view(&self) -> Command {
        match self {
            Commands::Put { key, value } => Command::Put { key: key@, value: value@ },
            Commands::Get { key } => Command::Get { key: key@ },
            Commands::Rm { key } => Command::Rm { key: key@ },
        }
    }
}

impl View for NetworkConnection {
    type V = Message;

    open spec fn view(&self) -> Message {
        match self {
            NetworkConnection::Request { command } => Message::Request { command: command@ },
            NetworkConnection::Response { value } => Message::Response { value: value@ },
            NetworkConnection::Error { error } => Message::Error { error: error@ },
            NetworkConnection::Done => Message::Done,
        }
    }
}

/// The fields that stand for a message.
pub open spec fn message_fields(message: Message) -> Seq<Seq<char>> {
    match message {
        Message::Request { command } => match command {
            Command::Put { key, value } => seq!["Request"@, "Set"@, key, value],
            Command::Get { key } => seq!["Request"@, "Get"@, key],
            Command::Rm { key } => seq!["Request"@, "Rm"@, key],
        },
        Message::Response { value } => seq!["Response"@, value],
        Message::Error { error } => seq!["Error"@, error],
        Message::Done => seq!["Ok"@],
    }
}

/// The message that some fields stand for, if any.
pub open spec fn fields_message(fields: Seq<Seq<char>>) -> Option<Message> {
    if fields.len() == 4 && fields[0] == "Request"@ && fields[1] == "Set"@ {
        Some(Message::Request { command: Command::Put { key: fields[2], value: fields[3] } })
    } else if fields.len() == 3 && fields[0] == "Request"@ && fields[1] == "Get"@ {
        Some(Message::Request { command: Command::Get { key: fields[2] } })
    } else if fields.len() == 3 && fields[0] == "Request"@ && fields[1] == "Rm"@ {
        Some(Message::Request { command: Command::Rm { key: fields[2] } })
    } else if fields.len() == 2 && fields[0] == "Response"@ {
        Some(Message::Response { value: fields[1] })
    } else if fields.len() == 2 && fields[0] == "Error"@ {
        Some(Message::Error { error: fields[1] })
    } else if fields.len() == 1 && fields[0] == "Ok"@ {
        Some(Message::Done)
    } else {
        None
    }
}

/// The payload of a message.
pub open spec fn message_payload(message: Message) -> Option<Seq<u8>> {
    encoded(message_fields(message))
}

/// The message that a payload holds, if it holds one.
pub open spec fn payload_message(payload: Seq<u8>) -> Option<Message> {
    match decoded(payload) {
        Ok(fields) => fields_message(fields),
        Err(_) => None,
    }
}

/// The frame around a payload.
pub open spec fn framed_payload(payload: Seq<u8>) -> Seq<u8>
    recommends
        payload.len() <= u64::MAX,
{
    spec_u64_to_le_bytes(payload.len() as u64) + seq![SEPARATOR] + payload
}

/// The length that a header announces.
pub open spec fn announced_len(bytes: Seq<u8>) -> int
    recommends
        bytes.len() >= 8,
{
    spec_u64_from_le_bytes(bytes.subrange(0, 8)) as int
}

/// Why some bytes do not start with a whole frame.
pub enum FrameFailure {
    /// The bytes end before the frame does.
    Truncated,
    /// The byte after the length is no line feed.
    NoSeparator,
    /// The announced length does not fit in memory.
    TooLong,
}

/// The payload of the frame that some bytes start with.
pub open spec fn unframed(bytes: Seq<u8>) -> Result<Seq<u8>, FrameFailure> {
    if bytes.len() < HEADER_LEN {
        Err(FrameFailure::Truncated)
    } else if bytes[8] != SEPARATOR {
        Err(FrameFailure::NoSeparator)
    } else if announced_len(bytes) > usize::MAX {
        Err(FrameFailure::TooLong)
    } else if bytes.len() - HEADER_LEN < announced_len(bytes) {
        Err(FrameFailure::Truncated)
    } else {
        Ok(bytes.subrange(HEADER_LEN as int, HEADER_LEN + announced_len(bytes)))
    }
}

/// Whether an error of the library reports the given failure.
pub open spec fn reports_frame(err: KvsError, failure: FrameFailure) -> bool {
    match failure {
        FrameFailure::Truncated => err is Io,
        FrameFailure::NoSeparator => err is Deserializer,
        FrameFailure::TooLong => err is TryFromInt,
    }
}

/// Reading the fields of a message gives the message back.
pub proof fn lemma_message_fields_roundtrip(message: Message)
    ensures
        fields_message(message_fields(message)) == Some(message),
{
    reveal_strlit("Request");
    reveal_strlit("Response");
    reveal_strlit("Error");
    reveal_strlit("Set");
    reveal_strlit("Get");
    reveal_strlit("Rm");
    reveal_strlit("Ok");
    let fields = message_fields(message);
    match message {
        Message::Request { command } => {
            match command {
                Command::Rm { key } => {
                    assert("Rm"@.len() != "Get"@.len());
                },
                _ => {},
            }
        },
        Message::Error { error } => {
            assert("Error"@.len() != "Response"@.len());
        },
        _ => {},
    }
}

/// A payload that a message was given holds that message.
pub proof fn lemma_message_roundtrip(message: Message)
    requires
        message_payload(message) is Some,
    ensures
        payload_message(message_payload(message)->0) == Some(message),
{
    lemma_message_fields_roundtrip(message);
}

/// Taking the frame off a framed payload gives the payload back.
pub proof fn lemma_frame_roundtrip(payload: Seq<u8>)
    requires
        payload.len() <= usize::MAX,
    ensures
        unframed(framed_payload(payload)) == Ok::<_, FrameFailure>(payload),
{
    lemma_auto_spec_u64_to_from_le_bytes();
    let frame = framed_payload(payload);
    let length = spec_u64_to_le_bytes(payload.len() as u64);
    assert(frame.subrange(0, 8) =~= length);
    assert(frame[8] == SEPARATOR);
    assert(frame.subrange(HEADER_LEN as int, HEADER_LEN + payload.len()) =~= payload);
}

/// A message that has a payload is read back from its frame: taking the
/// frame off gives the payload, and the payload holds the message.
pub proof fn lemma_codec_roundtrip(message: Message)
    requires
        message_payload(message) is Some,
        message_payload(message)->0.len() <= usize::MAX,
    ensures
        unframed(framed_payload(message_payload(message)->0)) matches Ok(payload)
            && payload_message(payload) == Some(message),
{
    lemma_message_roundtrip(message);
    lemma_frame_roundtrip(message_payload(message)->0);
}

impl Commands {
    /// The fields that stand for a request with this command.
    fn request_fields(&self) -> (fields: Vec<String>)
        ensures
            fields.deep_view() == message_fields(Message::Request { command: self@ }),
    {
        let mut fields: Vec<String> = Vec::new();
        fields.push(String::from_str("Request"));
        match self {
            Commands::Put { key, value } => {
                fields.push(String::from_str("Set"));
                fields.push(key.clone());
                fields.push(value.clone());
            },
            Commands::Get { key } => {
                fields.push(String::from_str("Get"));
                fields.push(key.clone());
            },
            Commands::Rm { key } => {
                fields.push(String::from_str("Rm"));
                fields.push(key.clone());
            },
        }
        assert(fields.deep_view() =~= message_fields(Message::Request { command: self@ }));
        fields
    }
}

impl NetworkConnection {
    /// The fields that stand for the message.
    pub fn to_fields(&self) -> (fields: Vec<String>)
        ensures
            fields.deep_view() == message_fields(self@),
    {
        let mut fields: Vec<String> = Vec::new();
        match self {
            NetworkConnection::Request { command } => {
                return command.request_fields();
            },
            NetworkConnection::Response { value } => {
                fields.push(String::from_str("Response"));
                fields.push(value.clone());
            },
            NetworkConnection::Error { error } => {
                fields.push(String::from_str("Error"));
                fields.push(error.clone());
            },
            NetworkConnection::Done => {
                fields.push(String::from_str("Ok"));
            },
        }
        assert(fields.deep_view() =~= message_fields(self@));
        fields
    }

    /// The message that the fields stand for, if any.
    pub fn from_fields(fields: &Vec<String>) -> (r: Option<NetworkConnection>)
        ensures
            match r {
                Some(message) => fields_message(fields.deep_view()) == Some(message@),
                None => fields_message(fields.deep_view()) is None,
            },
    {
        let ghost plain = fields.deep_view();
        let n = fields.len();
        assert(plain.len() == n);
        assert(forall|i: int| 0 <= i < n ==> plain[i] == fields@[i]@);
        if n == 0 || n > 4 {
            return None;
        }
        let request = String::from_str("Request");
        if n == 4 {
            if fields[0] == request && fields[1] == String::from_str("Set") {
                return Some(
                    NetworkConnection::Request {
                        command: Commands::Put { key: fields[2].clone(), value: fields[3].clone() },
                    },
                );
            }
        } else if n == 3 {
            if fields[0] == request {
                if fields[1] == String::from_str("Get") {
                    return Some(
                        NetworkConnection::Request { command: Commands::Get { key: fields[2].clone() } },
                    );
                }
                if fields[1] == String::from_str("Rm") {
                    return Some(
                        NetworkConnection::Request { command: Commands::Rm { key: fields[2].clone() } },
                    );
                }
            }
        } else if n == 2 {
            if fields[0] == String::from_str("Response") {
                return Some(NetworkConnection::Response { value: fields[1].clone() });
            }
            if fields[0] == String::from_str("Error") {
                return Some(NetworkConnection::Error { error: fields[1].clone() });
            }
        } else {
            if fields[0] == String::from_str("Ok") {
                return Some(NetworkConnection::Done);
            }
        }
        None
    }

    /// The payload of the message.
    ///
    /// Every payload that this returns holds the message again. It fails
    /// where the message has no payload.
    pub fn serialize_message(&self) -> (r: Result<Vec<u8>, KvsError>)
        ensures
            match r {
                Ok(payload) => message_payload(self@) == Some(payload@) && payload_message(payload@)
                    == Some(self@),
                Err(err) => message_payload(self@) is None && reports_unencodable(
                    err,
                    message_fields(self@),
                ),
            },
    {
        proof {
            lemma_message_fields_roundtrip(self@);
        }
        let fields = self.to_fields();
        encode_fields(&fields)
    }

    /// The message that a payload holds.
    ///
    /// Fails where the payload does not decode to fields, and with
    /// `Deserializer` where the fields stand for no message.
    pub fn deserialize_message(buf: Vec<u8>) -> (r: Result<NetworkConnection, KvsError>)
        ensures
            match r {
                Ok(message) => payload_message(buf@) == Some(message@),
                Err(err) => payload_message(buf@) is None && match decoded(buf@) {
                    Ok(_) => err is Deserializer,
                    Err(failure) => reports(err, failure),
                },
            },
    {
        let fields = decode_fields(buf.as_slice())?;
        match NetworkConnection::from_fields(&fields) {
            Some(message) => Ok(message),
            None => Err(KvsError::Deserializer),
        }
    }

    /// The bytes to send for a message: its payload in a frame.
    ///
    /// Fails where the message has no payload.
    pub fn send_network_message(network_connection: NetworkConnection) -> (r: Result<
        Vec<u8>,
        KvsError,
    >)
        ensures
            match r {
                Ok(frame) => message_payload(network_connection@) matches Some(payload) && frame@
                    == framed_payload(payload) && unframed(frame@) == Ok::<_, FrameFailure>(payload),
                Err(err) => message_payload(network_connection@) is None && reports_unencodable(
                    err,
                    message_fields(network_connection@),
                ),
            },
    {
        let payload = network_connection.serialize_message()?;
        proof {
            lemma_frame_roundtrip(payload@);
        }
        let mut frame = u64_to_le_bytes(payload.len() as u64);
        frame.push(SEPARATOR);
        frame.extend_from_slice(payload.as_slice());
        assert(frame@ =~= framed_payload(payload@));
        Ok(frame)
    }

    /// The length of the payload that a header announces.
    ///
    /// Fails with `Io` where the header is incomplete, with `Deserializer`
    /// where the line feed is missing, and with `TryFromInt` where the
    /// length does not fit in memory.
    pub fn frame_payload_len(header: &[u8]) -> (r: Result<usize, KvsError>)
        ensures
            match r {
                Ok(len) => header@.len() >= HEADER_LEN && header@[8] == SEPARATOR && len
                    == announced_len(header@),
                Err(err) => if header@.len() < HEADER_LEN {
                    err is Io
                } else if header@[8] != SEPARATOR {
                    err is Deserializer
                } else {
                    err is TryFromInt && announced_len(header@) > usize::MAX
                },
            },
    {
        if header.len() < HEADER_LEN {
            return Err(KvsError::Io(String::from_str("failed to fill whole buffer")));
        }
        if header[8] != SEPARATOR {
            return Err(KvsError::Deserializer);
        }
        let len = u64_from_le_bytes(slice_subrange(header, 0, 8));
        if len > usize::MAX as u64 {
            return Err(KvsError::TryFromInt);
        }
        Ok(len as usize)
    }

    /// The payload of the frame that the received bytes start with.
    ///
    /// Fails with `Io` where the bytes end before the frame does, and
    /// otherwise as `frame_payload_len` does.
    pub fn receive_network_message(received: &[u8]) -> (r: Result<Vec<u8>, KvsError>)
        ensures
            match r {
                Ok(payload) => unframed(received@) == Ok::<_, FrameFailure>(payload@),
                Err(err) => unframed(received@) matches Err(failure) && reports_frame(err, failure),
            },
    {
        let len = NetworkConnection::frame_payload_len(received)?;
        if received.len() - HEADER_LEN < len {
            return Err(KvsError::Io(String::from_str("failed to fill whole buffer")));
        }
        Ok(slice_to_vec(slice_subrange(received, HEADER_LEN, HEADER_LEN + len)))
    }
}

} // verus!
