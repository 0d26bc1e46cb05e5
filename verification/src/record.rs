//! Log records and their framing.
//!
//! A record is written as a four-byte little-endian length followed by that
//! many bytes of payload. The payload holds the record's fields: a tag that
//! names the variant, then the key, then the value where there is one.

use vstd::prelude::*;
use vstd::bytes::{
    lemma_auto_spec_u32_to_from_le_bytes, spec_u32_from_le_bytes, spec_u32_to_le_bytes,
    u32_from_le_bytes, u32_to_le_bytes,
};
use vstd::string::StringExecFns;
use crate::bufio::{BufReaderWithPos, BufWriterWithPos};
use crate::error::KvsError;
use crate::flex::{decode_fields, decoded, encode_fields, encoded, reports_unencodable};

verus! {

/// The bytes of the length prefix.
pub const PREFIX_LEN: usize = 4;

/// One mutation, as it is written to the log.
#[derive(Debug, PartialEq, Eq)]
pub enum KvsLogLine {
    Put { key: String, value: String },
    Rm { key: String },
}

/// A log record as a plain value.
pub enum Record {
    Put { key: Seq<char>, value: Seq<char> },
    Rm { key: Seq<char> },
}

impl View for KvsLogLine {
    type V = Record;

    open spec fn view(&self) -> Record {
        match self {
            KvsLogLine::Put { key, value } => Record::Put { key: key@, value: value@ },
            KvsLogLine::Rm { key } => Record::Rm { key: key@ },
        }
    }
}

impl Record {
    /// The key that the record speaks of.
    pub open spec fn key(self) -> Seq<char> {
        match self {
            Record::Put { key, .. } => key,
            Record::Rm { key } => key,
        }
    }
}

/// The tag of a `Put` record.
pub open spec fn put_tag() -> Seq<char> {
    "Set"@
}

/// The tag of a `Rm` record.
pub open spec fn rm_tag() -> Seq<char> {
    "Rm"@
}

/// The fields that stand for a record.
pub open spec fn record_fields(record: Record) -> Seq<Seq<char>> {
    match record {
        Record::Put { key, value } => seq![put_tag(), key, value],
        Record::Rm { key } => seq![rm_tag(), key],
    }
}

/// The record that some fields stand for, if any.
pub open spec fn fields_record(fields: Seq<Seq<char>>) -> Option<Record> {
    if fields.len() == 3 && fields[0] == put_tag() {
        Some(Record::Put { key: fields[1], value: fields[2] })
    } else if fields.len() == 2 && fields[0] == rm_tag() {
        Some(Record::Rm { key: fields[1] })
    } else {
        None
    }
}

/// Reading the fields of a record gives the record back.
pub proof fn lemma_fields_roundtrip(record: Record)
    ensures
        fields_record(record_fields(record)) == Some(record),
{
}

/// The payload of a record.
pub open spec fn payload_of(record: Record) -> Option<Seq<u8>> {
    encoded(record_fields(record))
}

/// The record that a payload holds, if it holds one.
pub open spec fn record_of(payload: Seq<u8>) -> Option<Record> {
    match decoded(payload) {
        Ok(fields) => fields_record(fields),
        Err(_) => None,
    }
}

/// The frame around a payload: its length, then the payload itself.
pub open spec fn framed(payload: Seq<u8>) -> Seq<u8>
    recommends
        payload.len() <= u32::MAX,
{
    spec_u32_to_le_bytes(payload.len() as u32) + payload
}

/// The frame of a record: defined where the record has a payload whose
/// length fits the prefix.
pub open spec fn frame_of(record: Record) -> Option<Seq<u8>> {
    match payload_of(record) {
        Some(payload) => if payload.len() <= u32::MAX {
            Some(framed(payload))
        } else {
            None
        },
        None => None,
    }
}

/// The payload of the frame that starts at `pos`, if a whole frame lies
/// there.
pub open spec fn payload_at(data: Seq<u8>, pos: int) -> Option<Seq<u8>> {
    if 0 <= pos && pos + 4 <= data.len() {
        let n = spec_u32_from_le_bytes(data.subrange(pos, pos + 4)) as int;
        if pos + 4 + n <= data.len() {
            Some(data.subrange(pos + 4, pos + 4 + n))
        } else {
            None
        }
    } else {
        None
    }
}

/// The record framed at `pos` together with the length of its frame, if a
/// whole frame lies there and its payload holds a record.
pub open spec fn record_at(data: Seq<u8>, pos: int) -> Option<(Record, int)> {
    match payload_at(data, pos) {
        Some(payload) => match record_of(payload) {
            Some(record) => Some((record, 4 + payload.len() as int)),
            None => None,
        },
        None => None,
    }
}

/// A payload that a record was given holds that record.
pub proof fn lemma_payload_roundtrip(record: Record)
    requires
        payload_of(record) is Some,
    ensures
        record_of(payload_of(record)->0) == Some(record),
{
}

/// A frame appended to some bytes is found where those bytes ended.
pub proof fn lemma_payload_at_end(data: Seq<u8>, payload: Seq<u8>)
    requires
        payload.len() <= u32::MAX,
    ensures
        payload_at(data + framed(payload), data.len() as int) == Some(payload),
        framed(payload).len() == 4 + payload.len(),
{
    lemma_auto_spec_u32_to_from_le_bytes();
    let prefix = spec_u32_to_le_bytes(payload.len() as u32);
    let all = data + framed(payload);
    let pos = data.len() as int;
    assert(all.subrange(pos, pos + 4) =~= prefix);
    assert(all.subrange(pos + 4, pos + 4 + payload.len()) =~= payload);
}

/// The bytes of a whole frame are the frame of its payload.
pub proof fn lemma_frame_bytes(data: Seq<u8>, pos: int)
    requires
        payload_at(data, pos) is Some,
    ensures
        ({
            let payload = payload_at(data, pos)->0;
            &&& payload.len() <= u32::MAX
            &&& pos + 4 + payload.len() <= data.len()
            &&& data.subrange(pos, pos + 4 + payload.len()) == framed(payload)
        }),
{
    lemma_auto_spec_u32_to_from_le_bytes();
    let prefix = data.subrange(pos, pos + 4);
    let payload = payload_at(data, pos)->0;
    assert(spec_u32_to_le_bytes(spec_u32_from_le_bytes(prefix)) == prefix);
    assert(data.subrange(pos, pos + 4 + payload.len()) =~= prefix + payload);
}

/// A frame that lies within some bytes is still there after more bytes
/// are appended.
pub proof fn lemma_payload_at_stable(data: Seq<u8>, more: Seq<u8>, pos: int)
    requires
        payload_at(data, pos) is Some,
    ensures
        payload_at(data + more, pos) == payload_at(data, pos),
{
    let all = data + more;
    assert(all.subrange(pos, pos + 4) =~= data.subrange(pos, pos + 4));
    let n = spec_u32_from_le_bytes(data.subrange(pos, pos + 4)) as int;
    assert(all.subrange(pos + 4, pos + 4 + n) =~= data.subrange(pos + 4, pos + 4 + n));
}

impl KvsLogLine {
    /// The fields that stand for the record.
    pub fn to_fields(&self) -> (fields: Vec<String>)
        ensures
            fields.deep_view() == record_fields(self@),
    {
        let mut fields: Vec<String> = Vec::new();
        match self {
            KvsLogLine::Put { key, value } => {
                fields.push(String::from_str("Set"));
                fields.push(key.clone());
                fields.push(value.clone());
            },
            KvsLogLine::Rm { key } => {
                fields.push(String::from_str("Rm"));
                fields.push(key.clone());
            },
        }
        assert(fields.deep_view() =~= record_fields(self@));
        fields
    }

    /// The record that the fields stand for, if any.
    pub fn from_fields(fields: &Vec<String>) -> (r: Option<KvsLogLine>)
        ensures
            match r {
                Some(line) => fields_record(fields.deep_view()) == Some(line@),
                None => fields_record(fields.deep_view()) is None,
            },
    {
        let ghost plain = fields.deep_view();
        assert(plain.len() == fields.len());
        if fields.len() == 3 {
            assert(plain[0] == fields@[0]@ && plain[1] == fields@[1]@ && plain[2] == fields@[2]@);
            if fields[0] == String::from_str("Set") {
                return Some(KvsLogLine::Put { key: fields[1].clone(), value: fields[2].clone() });
            }
        } else if fields.len() == 2 {
            assert(plain[0] == fields@[0]@ && plain[1] == fields@[1]@);
            if fields[0] == String::from_str("Rm") {
                return Some(KvsLogLine::Rm { key: fields[1].clone() });
            }
        }
        None
    }
}

/// Frames a record: the length prefix and the payload, as one buffer.
///
/// Fails where the record has no payload, and with `TryFromInt` where the
/// payload is too long for the prefix.
pub fn encode_record(logline: &KvsLogLine) -> (r: Result<Vec<u8>, KvsError>)
    ensures
        match r {
            Ok(frame) => frame_of(logline@) == Some(frame@),
            Err(err) => frame_of(logline@) is None && match payload_of(logline@) {
                Some(_) => err is TryFromInt,
                None => reports_unencodable(err, record_fields(logline@)),
            },
        },
{
    let fields = logline.to_fields();
    let payload = encode_fields(&fields)?;
    if payload.len() > u32::MAX as usize {
        return Err(KvsError::TryFromInt);
    }
    let mut frame = u32_to_le_bytes(payload.len() as u32);
    frame.extend_from_slice(payload.as_slice());
    Ok(frame)
}

/// Appends the frame of a record to the writer. Nothing is written where
/// the record cannot be framed.
pub fn serialize_to_log(writer: &mut BufWriterWithPos, logline: &KvsLogLine) -> (r: Result<
    (),
    KvsError,
>)
    requires
        old(writer).wf(),
    ensures
        final(writer).wf(),
        match r {
            Ok(()) => frame_of(logline@) matches Some(frame) && final(writer)@ == old(writer)@
                + frame,
            Err(err) => frame_of(logline@) is None && final(writer)@ == old(writer)@ && match payload_of(
                logline@,
            ) {
                Some(_) => err is TryFromInt,
                None => reports_unencodable(err, record_fields(logline@)),
            },
        },
{
    let frame = encode_record(logline)?;
    writer.write(frame.as_slice());
    Ok(())
}

/// Reads the record framed at the reader's position and moves past it.
///
/// Where no whole frame lies there, or its payload holds no record, the
/// record is corrupt and the reader stays where it was.
pub fn deserialize_from_log(reader: &mut BufReaderWithPos) -> (r: Result<KvsLogLine, KvsError>)
    ensures
        final(reader).data == old(reader).data,
        match r {
            Ok(line) => record_at(old(reader).data@, old(reader).pos as int) matches Some(found)
                && found.0 == line@ && final(reader).pos == old(reader).pos + found.1,
            Err(err) => record_at(old(reader).data@, old(reader).pos as int) is None
                && err is CorruptRecord && final(reader).pos == old(reader).pos,
        },
{
    let start = reader.pos;
    let ghost data = reader.data@;
    let prefix = match reader.read_exact(PREFIX_LEN) {
        Ok(prefix) => prefix,
        Err(_) => {
            return Err(KvsError::CorruptRecord);
        },
    };
    assert(prefix@ =~= data.subrange(start as int, start + 4));
    let size = u32_from_le_bytes(prefix) as usize;
    let payload = match reader.read_exact(size) {
        Ok(payload) => payload,
        Err(_) => {
            reader.seek(start);
            return Err(KvsError::CorruptRecord);
        },
    };
    assert(payload@ =~= data.subrange(start + 4, start + 4 + size));
    let fields = match decode_fields(payload) {
        Ok(fields) => fields,
        Err(_) => {
            reader.seek(start);
            return Err(KvsError::CorruptRecord);
        },
    };
    match KvsLogLine::from_fields(&fields) {
        Some(line) => Ok(line),
        None => {
            reader.seek(start);
            Err(KvsError::CorruptRecord)
        },
    }
}

} // verus!
