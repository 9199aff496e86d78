//! The keys under which the index is stored.
use crate::error::Error;
use crate::index::DocumentId;
use bytes::Buf;
use bytes::BufMut;
use bytes::Bytes;
use bytes::BytesMut;
use crate::utf8::from_utf8;
use crate::utf8::lemma_encode_injective;
use vstd::prelude::*;
use vstd::slice::slice_subrange;
use vstd::string::StringSliceAdditionalSpecFns;
use vstd::utf8::decode_utf8;
use vstd::utf8::encode_utf8;
use vstd::utf8::valid_utf8;

verus! {

/// `bytes::BytesMut`, a buffer of bytes that can be written to and read from.
/// What it holds is known as `buffer_bytes`.
#[verifier::external_type_specification]
#[verifier::external_body]
pub struct ExBytesMut(BytesMut);

/// `bytes::Bytes`, a buffer of bytes that does not change. What it holds is
/// known as `frozen_bytes`.
#[verifier::external_type_specification]
#[verifier::external_body]
pub struct ExBytes(Bytes);

/// The bytes that a buffer holds, from the next one to be read to the last
/// one written.
pub uninterp spec fn buffer_bytes(buffer: BytesMut) -> Seq<u8>;

/// The bytes that a frozen buffer holds.
pub uninterp spec fn frozen_bytes(bytes: Bytes) -> Seq<u8>;

/// 256 to the power of `width`.
pub open spec fn pow256(width: nat) -> nat
    decreases width,
{
    if width == 0 {
        1
    } else {
        256 * pow256((width - 1) as nat)
    }
}

/// The bytes of `value` in `width` bytes, the most significant first.
pub open spec fn be_bytes(value: nat, width: nat) -> Seq<u8>
    decreases width,
{
    if width == 0 {
        Seq::empty()
    } else {
        be_bytes(value / 256, (width - 1) as nat).push((value % 256) as u8)
    }
}

/// The number that `bytes` stand for, the most significant byte first.
pub open spec fn be_value(bytes: Seq<u8>) -> nat
    decreases bytes.len(),
{
    if bytes.len() == 0 {
        0
    } else {
        be_value(bytes.drop_last()) * 256 + bytes.last() as nat
    }
}

/// Calls `BytesMut::with_capacity`, which makes a buffer that holds no bytes
/// and has room for `capacity`. More than `isize::MAX` cannot be allocated.
#[verifier::external_body]
fn buffer_with_capacity(capacity: usize) -> (buffer: BytesMut)
    requires
        capacity <= isize::MAX,
    ensures
        buffer_bytes(buffer) == Seq::<u8>::empty(),
{
    BytesMut::with_capacity(capacity)
}

/// Calls `BufMut::put` with a slice, which writes the bytes of `src` behind
/// those that the buffer holds.
#[verifier::external_body]
fn buffer_put(buffer: &mut BytesMut, src: &[u8])
    requires
        buffer_bytes(*old(buffer)).len() + src@.len() <= isize::MAX,
    ensures
        buffer_bytes(*final(buffer)) == buffer_bytes(*old(buffer)) + src@,
{
    buffer.put(src);
}

/// Calls `BytesMut::freeze`, which keeps the bytes of the buffer.
#[verifier::external_body]
fn buffer_freeze(buffer: BytesMut) -> (bytes: Bytes)
    ensures
        frozen_bytes(bytes) == buffer_bytes(buffer),
{
    buffer.freeze()
}

/// Calls `BytesMut::from` with a slice, which makes a buffer that holds a
/// copy of the bytes of `src`.
#[verifier::external_body]
fn buffer_from(src: &[u8]) -> (buffer: BytesMut)
    ensures
        buffer_bytes(buffer) == src@,
{
    BytesMut::from(src)
}

/// Calls `BytesMut::len`: the number of bytes that the buffer holds.
#[verifier::external_body]
fn buffer_len(buffer: &BytesMut) -> (len: usize)
    ensures
        len == buffer_bytes(*buffer).len(),
{
    buffer.len()
}

/// Borrows the bytes of the buffer as a slice, through `Deref`.
#[verifier::external_body]
fn buffer_slice(buffer: &BytesMut) -> (slice: &[u8])
    ensures
        slice@ == buffer_bytes(*buffer),
{
    &buffer[..]
}

/// Calls `Buf::advance`, which drops the first `count` bytes of the buffer.
/// It panics where the buffer holds fewer.
#[verifier::external_body]
fn buffer_advance(buffer: &mut BytesMut, count: usize)
    requires
        count <= buffer_bytes(*old(buffer)).len(),
    ensures
        buffer_bytes(*final(buffer)) == buffer_bytes(*old(buffer)).skip(count as int),
{
    buffer.advance(count);
}

/// Calls `Buf::get_u8`, which takes the first byte out of the buffer. It
/// panics where the buffer holds none.
#[verifier::external_body]
fn buffer_get_u8(buffer: &mut BytesMut) -> (byte: u8)
    requires
        1 <= buffer_bytes(*old(buffer)).len(),
    ensures
        byte == buffer_bytes(*old(buffer))[0],
        buffer_bytes(*final(buffer)) == buffer_bytes(*old(buffer)).skip(1),
{
    buffer.get_u8()
}

/// Calls `Buf::get_u128`, which takes the first 16 bytes out of the buffer
/// and reads them as a number, the most significant byte first. It panics
/// where the buffer holds fewer.
#[verifier::external_body]
fn buffer_get_u128(buffer: &mut BytesMut) -> (value: u128)
    requires
        16 <= buffer_bytes(*old(buffer)).len(),
    ensures
        value == be_value(buffer_bytes(*old(buffer)).take(16)),
        buffer_bytes(*final(buffer)) == buffer_bytes(*old(buffer)).skip(16),
{
    buffer.get_u128()
}

/// Calls `u128::to_be_bytes`: the 16 bytes of `value`, the most significant
/// first.
#[verifier::external_body]
fn to_be_bytes(value: u128) -> (bytes: [u8; 16])
    ensures
        bytes@ == be_bytes(value as nat, 16),
{
    value.to_be_bytes()
}

/// The key of the posting of `term` in `doc`: the term, a zero byte, and the
/// identifier of the document in 16 bytes.
pub open spec fn posting_key(term: Seq<char>, doc: DocumentId) -> Seq<u8> {
    encode_utf8(term) + seq![0u8] + be_bytes(doc as nat, 16)
}

/// What the keys of all postings of `term` begin with: the term and a zero byte.
pub open spec fn posting_prefix(term: Seq<char>) -> Seq<u8> {
    encode_utf8(term) + seq![0u8]
}

/// The part of a posting key that holds the term.
pub open spec fn term_part(key: Seq<u8>) -> Seq<u8> {
    key.subrange(0, key.len() - 17)
}

/// The part of a posting key that holds the document.
pub open spec fn doc_part(key: Seq<u8>) -> Seq<u8> {
    key.subrange(key.len() - 16, key.len() as int)
}

/// Whether `key` has the form of a posting key.
pub open spec fn is_posting_key(key: Seq<u8>) -> bool {
    &&& key.len() >= 17
    &&& valid_utf8(term_part(key))
    &&& key[key.len() - 17] == 0
}

/// The key of the record of a document: its identifier in 16 bytes.
pub fn make_document_key(doc: DocumentId) -> (key: [u8; 16])
    ensures
        key@ == be_bytes(doc as nat, 16),
{
    to_be_bytes(doc)
}

/// The identifier for a new document, and the counter to keep for the next
/// one. `counter` is the counter that was kept, if there is one: the first
/// identifier is zero, and each one after it is one more than the last.
///
/// A counter that is not 16 bytes long is refused, and so is the one after
/// which no identifier is left.
pub fn next_document_id(counter: Option<&[u8]>) -> (next: Result<(DocumentId, [u8; 16]), Error>)
    ensures
        match next {
            Ok((doc, kept)) => {
                &&& doc < u128::MAX
                &&& kept@ == be_bytes((doc + 1) as nat, 16)
                &&& match counter {
                    Some(bytes) => bytes@.len() == 16 && doc == be_value(bytes@),
                    None => doc == 0,
                }
            },
            Err(Error::DeserializationError {  }) => match counter {
                Some(bytes) => bytes@.len() != 16 || be_value(bytes@) >= u128::MAX,
                None => false,
            },
            Err(Error::Utf8Error(_)) => false,
        },
{
    let doc = match counter {
        None => 0,
        Some(bytes) => {
            let mut buffer = buffer_from(bytes);
            if buffer_len(&buffer) != 16 {
                return Err(Error::DeserializationError {  });
            }
            assert(bytes@.take(16) =~= bytes@);
            buffer_get_u128(&mut buffer)
        },
    };
    if doc == u128::MAX {
        return Err(Error::DeserializationError {  });
    }
    Ok((doc, to_be_bytes(doc + 1)))
}

/// The room to make for a key of `needed` bytes more than a term of `len`
/// bytes: four times the term where that can be had, and no less than the
/// key takes.
fn room_for(len: usize, needed: usize) -> (room: usize)
    requires
        needed <= 17,
        len + needed <= isize::MAX,
    ensures
        len + needed <= room <= isize::MAX,
{
    if len <= (isize::MAX as usize - needed) / 4 {
        len * 4 + needed
    } else {
        len + needed
    }
}

/// The key of the posting of `term` in `doc`. No key is longer than the
/// longest buffer, which holds `isize::MAX` bytes.
pub fn make_posting_list_key(term: &str, doc: DocumentId) -> (key: Bytes)
    requires
        term.spec_bytes().len() + 17 <= isize::MAX,
    ensures
        frozen_bytes(key) == posting_key(term@, doc),
{
    let text = term.as_bytes();
    let mut buffer = buffer_with_capacity(room_for(text.len(), 17));
    buffer_put(&mut buffer, text);
    let delimiter: [u8; 1] = [0u8];
    buffer_put(&mut buffer, delimiter.as_slice());
    let id = to_be_bytes(doc);
    proof {
        lemma_be_bytes_len(doc as nat, 16);
    }
    buffer_put(&mut buffer, id.as_slice());
    assert(delimiter@ =~= seq![0u8]);
    buffer_freeze(buffer)
}

/// What the keys of all postings of `term` begin with.
pub fn make_posting_list_prefix(term: &str) -> (prefix: Bytes)
    requires
        term.spec_bytes().len() + 1 <= isize::MAX,
    ensures
        frozen_bytes(prefix) == posting_prefix(term@),
{
    let text = term.as_bytes();
    let mut buffer = buffer_with_capacity(room_for(text.len(), 1));
    buffer_put(&mut buffer, text);
    let delimiter: [u8; 1] = [0u8];
    buffer_put(&mut buffer, delimiter.as_slice());
    assert(delimiter@ =~= seq![0u8]);
    buffer_freeze(buffer)
}

/// The term and the document of a posting key.
///
/// A key of fewer than 17 bytes is refused, then one whose term is not
/// UTF-8, then one that lacks the zero byte between term and document.
pub fn parse_posting_list_key(key: &[u8]) -> (parsed: Result<(String, DocumentId), Error>)
    ensures
        match parsed {
            Ok((term, doc)) => {
                &&& is_posting_key(key@)
                &&& term@ == decode_utf8(term_part(key@))
                &&& doc == be_value(doc_part(key@))
            },
            Err(Error::Utf8Error(_)) => key@.len() >= 17 && !valid_utf8(term_part(key@)),
            Err(Error::DeserializationError {  }) => {
                ||| key@.len() < 17
                ||| (valid_utf8(term_part(key@)) && key@[key@.len() - 17] != 0)
            },
        },
{
    let mut buffer = buffer_from(key);
    let length = buffer_len(&buffer);
    if length < 17 {
        return Err(Error::DeserializationError {  });
    }
    let term_length = length - 17;
    let term = match from_utf8(slice_subrange(buffer_slice(&buffer), 0, term_length)) {
        Ok(text) => text.to_owned(),
        Err(error) => {
            return Err(Error::Utf8Error(error));
        },
    };
    proof {
        vstd::utf8::decode_utf8_encode_utf8(term_part(key@));
        lemma_encode_injective(term@, decode_utf8(term_part(key@)));
    }
    buffer_advance(&mut buffer, term_length);
    let delimiter = buffer_get_u8(&mut buffer);
    if delimiter != 0 {
        return Err(Error::DeserializationError {  });
    }
    let doc = buffer_get_u128(&mut buffer);
    assert(key@.skip(term_length as int).skip(1).take(16) =~= doc_part(key@));
    Ok((term, doc))
}

/// `width` bytes are `width` bytes.
pub proof fn lemma_be_bytes_len(value: nat, width: nat)
    ensures
        be_bytes(value, width).len() == width,
    decreases width,
{
    if width > 0 {
        lemma_be_bytes_len(value / 256, (width - 1) as nat);
    }
}

} // verus!
