//! Payloads are flexbuffers that hold a vector of strings.
//!
//! Encoding and every read of encoded bytes are done by the `flexbuffers`
//! crate, behind the trusted functions of this module. The reader of that
//! crate indexes and adds without checks in places, so it is only ever
//! handed bytes whose announced lengths were compared with the buffer's
//! length first: `decode_fields` does that, step by step.

use vstd::prelude::*;
use vstd::string::StringSliceAdditionalSpecFns;
use vstd::utf8::encode_utf8;
use crate::error::KvsError;

verus! {

/// The flexbuffer type tag of a vector whose elements carry their own types.
pub const VECTOR_TYPE: u8 = 10;

/// What `flexbuffers::to_vec` makes of a vector of strings, `None` where it
/// reports an error.
pub uninterp spec fn flex_serialized(fields: Seq<Seq<char>>) -> Option<Seq<u8>>;

/// The type tag of the root of a flexbuffer, `None` where the reader finds
/// no root.
pub uninterp spec fn flex_root_type(bytes: Seq<u8>) -> Option<u8>;

/// The number of elements that the root vector of a flexbuffer announces,
/// `None` where the root is no vector.
pub uninterp spec fn flex_vector_len(bytes: Seq<u8>) -> Option<usize>;

/// The length that element `i` of the root vector announces for itself,
/// `None` where the reader cannot reach the element.
pub uninterp spec fn flex_element_len(bytes: Seq<u8>, i: usize) -> Option<usize>;

/// Element `i` of the root vector read as a string, `None` where it is no
/// string, lies outside the buffer or is not UTF-8.
pub uninterp spec fn flex_element_str(bytes: Seq<u8>, i: usize) -> Option<Seq<char>>;

/// Buffers up to this length leave room for every sum the reader forms from
/// an address, eight times a length, and an index, each below the buffer's
/// length.
pub open spec fn reader_can_address(len: int) -> bool {
    10 * len <= usize::MAX
}

/// The root is a heterogeneous vector whose announced length is at most the
/// buffer's length.
pub open spec fn vector_in_bounds(bytes: Seq<u8>) -> bool {
    &&& reader_can_address(bytes.len() as int)
    &&& flex_root_type(bytes) == Some(VECTOR_TYPE)
    &&& flex_vector_len(bytes) matches Some(n)
    &&& n <= bytes.len()
}

/// Element `i` exists and announces a length of at most the buffer's length.
pub open spec fn element_in_bounds(bytes: Seq<u8>, i: usize) -> bool {
    &&& vector_in_bounds(bytes)
    &&& i < flex_vector_len(bytes)->0
    &&& flex_element_len(bytes, i) matches Some(n)
    &&& n <= bytes.len()
}

/// The most fields that are handed to the encoder at once.
pub const MAX_FIELDS: usize = 7281;

/// The most bytes of text that are handed to the encoder at once.
pub const MAX_TEXT: u64 = 4_000_000_000;

/// The bytes that the texts of some fields take together, as UTF-8.
pub open spec fn text_len(fields: Seq<Seq<char>>) -> int
    decreases fields.len(),
{
    if fields.len() == 0 {
        0
    } else {
        text_len(fields.drop_last()) + encode_utf8(fields.last()).len()
    }
}

/// The fields are few and short enough for the encoder.
///
/// The encoder looks for the width of every offset it writes by trying
/// four widths in turn, and gives up where none fits. With no more fields
/// than this the offset of the root stays below 65535 and fits the first
/// or the second width it tries; with no more text than this every other
/// offset stays below four gigabytes and fits one of the first three.
pub open spec fn can_serialize(fields: Seq<Seq<char>>) -> bool {
    fields.len() <= MAX_FIELDS && text_len(fields) <= MAX_TEXT
}

/// Calls `flexbuffers::to_vec` on the fields. The result is the named
/// serialization; nothing is claimed about what the bytes look like.
/// `to_vec` panics where an offset fits none of the widths it tries, which
/// the bound required here rules out.
#[verifier::external_body]
fn serialize_fields(fields: &Vec<String>) -> (r: Result<Vec<u8>, flexbuffers::SerializationError>)
    requires
        can_serialize(fields.deep_view()),
    ensures
        match r {
            Ok(bytes) => flex_serialized(fields.deep_view()) == Some(bytes@),
            Err(_) => flex_serialized(fields.deep_view()) is None,
        },
{
    flexbuffers::to_vec(fields)
}

/// Calls `flexbuffers::Reader::get_root` and reports the root's type tag.
/// `get_root` checks the buffer's length before every access, so any bytes
/// may be given.
#[verifier::external_body]
fn root_type(bytes: &[u8]) -> (r: Result<u8, flexbuffers::ReaderError>)
    ensures
        match r {
            Ok(tag) => flex_root_type(bytes@) == Some(tag),
            Err(_) => flex_root_type(bytes@) is None,
        },
{
    let root = flexbuffers::Reader::get_root(bytes)?;
    Ok(root.flexbuffer_type() as u8)
}

/// Calls `flexbuffers::Reader::get_vector` on the root and reports the
/// length it announces. The length slot lies before the root's address,
/// which `get_root` has bounded, so any bytes may be given.
#[verifier::external_body]
fn vector_len(bytes: &[u8]) -> (r: Result<usize, flexbuffers::ReaderError>)
    ensures
        match r {
            Ok(n) => flex_vector_len(bytes@) == Some(n),
            Err(_) => flex_vector_len(bytes@) is None,
        },
{
    let vector = flexbuffers::Reader::get_root(bytes)?.get_vector()?;
    Ok(vector.len())
}

/// Calls `flexbuffers::VectorReader::index` and `Reader::length` for one
/// element. `index` adds the vector's address, its length times the element
/// width, and the index without checks, then reads the element's type byte
/// with a check: the bounds required here keep those sums from overflowing,
/// and the checked read keeps the element's address inside the buffer.
#[verifier::external_body]
fn element_len(bytes: &[u8], i: usize) -> (r: Result<usize, flexbuffers::ReaderError>)
    requires
        vector_in_bounds(bytes@),
        i < flex_vector_len(bytes@)->0,
    ensures
        match r {
            Ok(n) => flex_element_len(bytes@, i) == Some(n),
            Err(_) => flex_element_len(bytes@, i) is None,
        },
{
    let element = flexbuffers::Reader::get_root(bytes)?.get_vector()?.index(i)?;
    Ok(element.length())
}

/// Calls `flexbuffers::Reader::get_str` for one element. `get_str` adds the
/// element's address and its announced length without a check before it
/// slices with one: the bound required here keeps that sum from overflowing.
#[verifier::external_body]
fn element_str(bytes: &[u8], i: usize) -> (r: Result<String, flexbuffers::ReaderError>)
    requires
        element_in_bounds(bytes@, i),
    ensures
        match r {
            Ok(text) => flex_element_str(bytes@, i) == Some(text@),
            Err(_) => flex_element_str(bytes@, i) is None,
        },
{
    let element = flexbuffers::Reader::get_root(bytes)?.get_vector()?.index(i)?;
    Ok(String::from(element.get_str()?))
}

/// Why a buffer does not decode to fields.
pub enum FlexFailure {
    /// The buffer is longer than the reader can address.
    TooLarge,
    /// The reader reported an error.
    Unreadable,
    /// The bytes are a flexbuffer of another shape, or announce a length
    /// that exceeds the buffer.
    Misshapen,
}

/// The first `n` elements of the root vector as strings, or the failure at
/// the first element that has one.
pub open spec fn elements_upto(bytes: Seq<u8>, n: usize) -> Result<Seq<Seq<char>>, FlexFailure>
    decreases n,
{
    if n == 0 {
        Ok(Seq::empty())
    } else {
        let i = (n - 1) as usize;
        match elements_upto(bytes, i) {
            Err(failure) => Err(failure),
            Ok(before) => match flex_element_len(bytes, i) {
                None => Err(FlexFailure::Unreadable),
                Some(len) => if len > bytes.len() {
                    Err(FlexFailure::Misshapen)
                } else {
                    match flex_element_str(bytes, i) {
                        None => Err(FlexFailure::Unreadable),
                        Some(text) => Ok(before.push(text)),
                    }
                },
            },
        }
    }
}

/// The fields that a payload holds: the elements of its root vector, each a
/// string, provided every length it announces fits the buffer.
pub open spec fn decoded(bytes: Seq<u8>) -> Result<Seq<Seq<char>>, FlexFailure> {
    if !reader_can_address(bytes.len() as int) {
        Err(FlexFailure::TooLarge)
    } else {
        match flex_root_type(bytes) {
            None => Err(FlexFailure::Unreadable),
            Some(tag) => if tag != VECTOR_TYPE {
                Err(FlexFailure::Misshapen)
            } else {
                match flex_vector_len(bytes) {
                    None => Err(FlexFailure::Unreadable),
                    Some(n) => if n > bytes.len() {
                        Err(FlexFailure::Misshapen)
                    } else {
                        elements_upto(bytes, n)
                    },
                }
            },
        }
    }
}

/// The payload for some fields: what the encoder makes of them, provided
/// they are few and short enough for it and the payload decodes to the
/// same fields again.
pub open spec fn encoded(fields: Seq<Seq<char>>) -> Option<Seq<u8>> {
    if !can_serialize(fields) {
        None
    } else {
        match flex_serialized(fields) {
            Some(bytes) => if decoded(bytes) == Ok::<_, FlexFailure>(fields) {
                Some(bytes)
            } else {
                None
            },
            None => None,
        }
    }
}

/// Whether an error of the library reports the given failure.
pub open spec fn reports(err: KvsError, failure: FlexFailure) -> bool {
    match failure {
        FlexFailure::TooLarge => err is TryFromInt,
        FlexFailure::Unreadable => err is Reader,
        FlexFailure::Misshapen => err is Deserializer,
    }
}

/// Whether an error of the library reports why some fields have no payload.
pub open spec fn reports_unencodable(err: KvsError, fields: Seq<Seq<char>>) -> bool {
    if !can_serialize(fields) {
        err is TryFromInt
    } else {
        match flex_serialized(fields) {
            None => err is Serializer,
            Some(bytes) => match decoded(bytes) {
                Ok(_) => err is Deserializer,
                Err(failure) => reports(err, failure),
            },
        }
    }
}

/// Once an element fails, every longer prefix fails in the same way.
proof fn lemma_failure_persists(bytes: Seq<u8>, i: usize, n: usize)
    requires
        i <= n,
        elements_upto(bytes, i) is Err,
    ensures
        elements_upto(bytes, n) == elements_upto(bytes, i),
    decreases n,
{
    if i < n {
        lemma_failure_persists(bytes, i, (n - 1) as usize);
    }
}

/// Reads the fields of a payload.
///
/// Succeeds exactly on the buffers whose root is a vector of strings with
/// honest lengths, and tells the three ways of failing apart.
pub fn decode_fields(bytes: &[u8]) -> (r: Result<Vec<String>, KvsError>)
    ensures
        match r {
            Ok(fields) => decoded(bytes@) == Ok::<_, FlexFailure>(fields.deep_view()),
            Err(err) => decoded(bytes@) matches Err(failure) && reports(err, failure),
        },
{
    if bytes.len() > usize::MAX / 10 {
        return Err(KvsError::TryFromInt);
    }
    let tag = match root_type(bytes) {
        Ok(tag) => tag,
        Err(err) => {
            return Err(KvsError::Reader(err));
        },
    };
    if tag != VECTOR_TYPE {
        return Err(KvsError::Deserializer);
    }
    let n = match vector_len(bytes) {
        Ok(n) => n,
        Err(err) => {
            return Err(KvsError::Reader(err));
        },
    };
    if n > bytes.len() {
        return Err(KvsError::Deserializer);
    }
    let mut fields: Vec<String> = Vec::new();
    let mut i: usize = 0;
    assert(fields.deep_view() =~= Seq::<Seq<char>>::empty());
    while i < n
        invariant
            i <= n,
            vector_in_bounds(bytes@),
            flex_vector_len(bytes@) == Some(n),
            elements_upto(bytes@, i) == Ok::<_, FlexFailure>(fields.deep_view()),
        decreases n - i,
    {
        let len = match element_len(bytes, i) {
            Ok(len) => len,
            Err(err) => {
                proof {
                    lemma_failure_persists(bytes@, (i + 1) as usize, n);
                }
                return Err(KvsError::Reader(err));
            },
        };
        if len > bytes.len() {
            proof {
                lemma_failure_persists(bytes@, (i + 1) as usize, n);
            }
            return Err(KvsError::Deserializer);
        }
        let text = match element_str(bytes, i) {
            Ok(text) => text,
            Err(err) => {
                proof {
                    lemma_failure_persists(bytes@, (i + 1) as usize, n);
                }
                return Err(KvsError::Reader(err));
            },
        };
        let ghost before = fields.deep_view();
        fields.push(text);
        i = i + 1;
        assert(fields.deep_view() =~= before.push(text@));
    }
    Ok(fields)
}

/// Whether two vectors hold the same strings in the same order.
pub fn same_fields(a: &Vec<String>, b: &Vec<String>) -> (same: bool)
    ensures
        same == (a.deep_view() == b.deep_view()),
{
    if a.len() != b.len() {
        assert(a.deep_view().len() != b.deep_view().len());
        return false;
    }
    let mut i: usize = 0;
    while i < a.len()
        invariant
            i <= a.len(),
            a.len() == b.len(),
            forall|j: int| 0 <= j < i ==> a@[j]@ == b@[j]@,
        decreases a.len() - i,
    {
        if a[i] != b[i] {
            assert(a.deep_view()[i as int] != b.deep_view()[i as int]);
            return false;
        }
        i = i + 1;
    }
    assert(a.deep_view() =~= b.deep_view());
    true
}

/// The text of the first fields is no longer than that of all.
proof fn lemma_text_len_grows(fields: Seq<Seq<char>>, k: int)
    requires
        0 <= k <= fields.len(),
    ensures
        0 <= text_len(fields.subrange(0, k)) <= text_len(fields),
        k < fields.len() ==> text_len(fields.subrange(0, k + 1)) == text_len(fields.subrange(0, k))
            + encode_utf8(fields[k]).len(),
    decreases fields.len() - k,
{
    if k < fields.len() {
        assert(fields.subrange(0, k + 1).drop_last() =~= fields.subrange(0, k));
        lemma_text_len_grows(fields, k + 1);
    } else {
        assert(fields.subrange(0, k) =~= fields);
    }
    if k > 0 {
        assert(fields.subrange(0, k).drop_last() =~= fields.subrange(0, k - 1));
        lemma_text_len_nonneg(fields.subrange(0, k));
    }
}

/// Text never takes fewer than no bytes.
proof fn lemma_text_len_nonneg(fields: Seq<Seq<char>>)
    ensures
        0 <= text_len(fields),
    decreases fields.len(),
{
    if fields.len() > 0 {
        lemma_text_len_nonneg(fields.drop_last());
    }
}

/// Whether the fields are few and short enough for the encoder.
pub fn within_limits(fields: &Vec<String>) -> (fits: bool)
    ensures
        fits == can_serialize(fields.deep_view()),
{
    let ghost plain = fields.deep_view();
    if fields.len() > MAX_FIELDS {
        return false;
    }
    let mut total: u64 = 0;
    let mut i: usize = 0;
    assert(plain.subrange(0, 0) =~= Seq::<Seq<char>>::empty());
    while i < fields.len()
        invariant
            i <= fields.len(),
            plain == fields.deep_view(),
            total == text_len(plain.subrange(0, i as int)),
            total <= MAX_TEXT,
        decreases fields.len() - i,
    {
        proof {
            lemma_text_len_grows(plain, i as int);
            lemma_text_len_grows(plain, i + 1);
        }
        assert(plain[i as int] == fields@[i as int]@);
        let len = fields[i].as_str().as_bytes().len() as u64;
        assert(len == encode_utf8(plain[i as int]).len());
        if len > MAX_TEXT - total {
            return false;
        }
        total = total + len;
        i = i + 1;
    }
    assert(plain.subrange(0, i as int) =~= plain);
    true
}

/// Writes fields as a payload and reads the payload back before handing it
/// out, so that every payload this function returns decodes to its fields.
/// Fields that are too many or too long for the encoder are refused with
/// `TryFromInt`.
pub fn encode_fields(fields: &Vec<String>) -> (r: Result<Vec<u8>, KvsError>)
    ensures
        match r {
            Ok(bytes) => encoded(fields.deep_view()) == Some(bytes@),
            Err(err) => encoded(fields.deep_view()) is None && reports_unencodable(
                err,
                fields.deep_view(),
            ),
        },
{
    if !within_limits(fields) {
        return Err(KvsError::TryFromInt);
    }
    let bytes = match serialize_fields(fields) {
        Ok(bytes) => bytes,
        Err(err) => {
            return Err(KvsError::Serializer(err));
        },
    };
    let back = decode_fields(bytes.as_slice())?;
    if same_fields(&back, fields) {
        Ok(bytes)
    } else {
        Err(KvsError::Deserializer)
    }
}

} // verus!
