//! The records as bytes: each is written field by field, and read back from
//! fields in any order, with fields that are not known left aside and
//! fields that are missing left at zero.
use crate::error::Error;
use crate::index::zero_document;
use crate::index::zero_document_term;
use crate::index::zero_term;
use crate::index::Document;
use crate::index::DocumentData;
use crate::index::DocumentTermData;
use crate::index::TermData;
use crate::utf8::from_utf8;
use crate::wire::field_at;
use crate::wire::lemma_field_is_taken;
use crate::wire::lemma_number_field_round_trip;
use crate::wire::lemma_text_field_round_trip;
use crate::wire::number_field;
use crate::wire::put_number_field;
use crate::wire::put_text_field;
use crate::wire::read_field;
use crate::wire::text_field;
use crate::wire::FieldValue;
use crate::wire::Payload;
use vstd::prelude::*;
use vstd::slice::slice_subrange;
use vstd::string::StringSliceAdditionalSpecFns;
use vstd::utf8::decode_utf8;
use vstd::utf8::encode_utf8;
use vstd::utf8::valid_utf8;

verus! {

/// The bytes of a term record: its count as field 0 and the number of its
/// documents as field 1.
pub open spec fn encoded_term(data: TermData) -> Seq<u8> {
    number_field(0, data.count) + number_field(1, data.document_count)
}

/// A term record with the field `id` set to `payload`, if the field can hold it.
pub open spec fn term_with(data: TermData, id: u64, payload: Payload) -> Option<TermData> {
    if id == 0 {
        match payload {
            Payload::Number(value) => Some(TermData { count: value, ..data }),
            Payload::Bytes(_) => None,
        }
    } else if id == 1 {
        match payload {
            Payload::Number(value) => Some(TermData { document_count: value, ..data }),
            Payload::Bytes(_) => None,
        }
    } else {
        Some(data)
    }
}

/// The term record `data` with the fields of `bytes` set one after the
/// other, if `bytes` are fields that the record can hold.
pub open spec fn term_from(bytes: Seq<u8>, data: TermData) -> Option<TermData>
    decreases bytes.len(),
    via term_from_decreases
{
    if bytes.len() == 0 {
        Some(data)
    } else {
        match field_at(bytes) {
            None => None,
            Some((id, payload, taken)) => match term_with(data, id, payload) {
                None => None,
                Some(next) => term_from(bytes.skip(taken), next),
            },
        }
    }
}

#[via_fn]
proof fn term_from_decreases(bytes: Seq<u8>, data: TermData) {
    lemma_field_is_taken(bytes);
}

/// The term record that `bytes` hold.
pub open spec fn decoded_term(bytes: Seq<u8>) -> Option<TermData> {
    term_from(bytes, zero_term())
}

/// The bytes of a term record.
pub fn encode_term_data(data: &TermData) -> (bytes: Vec<u8>)
    ensures
        bytes@ == encoded_term(*data),
{
    let mut bytes: Vec<u8> = Vec::new();
    put_number_field(&mut bytes, 0, data.count);
    put_number_field(&mut bytes, 1, data.document_count);
    assert(bytes@ =~= encoded_term(*data));
    bytes
}

/// The term record that `input` holds.
pub fn decode_term_data(input: &[u8]) -> (decoded: Result<TermData, Error>)
    ensures
        match decoded {
            Ok(data) => decoded_term(input@) == Some(data),
            Err(Error::DeserializationError {  }) => decoded_term(input@) is None,
            Err(Error::Utf8Error(_)) => false,
        },
{
    let mut data = TermData::default();
    let mut at: usize = 0;
    let len = input.len();
    assert(input@.skip(0) =~= input@);
    while at < len
        invariant
            0 <= at <= len,
            len == input@.len(),
            decoded_term(input@) == term_from(input@.skip(at as int), data),
        decreases len - at,
    {
        let field = match read_field(input, at) {
            Some(field) => field,
            None => {
                return Err(Error::DeserializationError {  });
            },
        };
        assert(input@.skip(at as int).skip(field.next - at) =~= input@.skip(field.next as int));
        if field.id == 0 {
            match field.value {
                FieldValue::Number(value) => {
                    data.count = value;
                },
                FieldValue::Bytes { .. } => {
                    return Err(Error::DeserializationError {  });
                },
            }
        } else if field.id == 1 {
            match field.value {
                FieldValue::Number(value) => {
                    data.document_count = value;
                },
                FieldValue::Bytes { .. } => {
                    return Err(Error::DeserializationError {  });
                },
            }
        }
        at = field.next;
    }
    Ok(data)
}

/// A term record is read back from its bytes.
pub proof fn lemma_term_round_trip(data: TermData)
    ensures
        decoded_term(encoded_term(data)) == Some(data),
{
    let first = number_field(0, data.count);
    let second = number_field(1, data.document_count);
    let none = Seq::<u8>::empty();
    lemma_number_field_round_trip(0, data.count, second);
    lemma_number_field_round_trip(1, data.document_count, none);
    assert(second + none =~= second);
    let half = TermData { count: data.count, document_count: 0 };
    assert(term_from(second, half) == term_from(none, data)) by {
        lemma_field_is_taken(second);
    }
    assert(term_from(first + second, zero_term()) == term_from(second, half)) by {
        lemma_field_is_taken(first + second);
    }
}

/// The bytes of the record of a term in a document: the count in the text as
/// field 0 and the count in the path as field 1.
pub open spec fn encoded_document_term(data: DocumentTermData) -> Seq<u8> {
    number_field(0, data.body_count) + number_field(1, data.path_count)
}

/// The record of a term in a document with the field `id` set to `payload`,
/// if the field can hold it.
pub open spec fn document_term_with(data: DocumentTermData, id: u64, payload: Payload) -> Option<
    DocumentTermData,
> {
    if id == 0 {
        match payload {
            Payload::Number(value) => Some(DocumentTermData { body_count: value, ..data }),
            Payload::Bytes(_) => None,
        }
    } else if id == 1 {
        match payload {
            Payload::Number(value) => Some(DocumentTermData { path_count: value, ..data }),
            Payload::Bytes(_) => None,
        }
    } else {
        Some(data)
    }
}

/// The record `data` with the fields of `bytes` set one after the other, if
/// `bytes` are fields that the record can hold.
pub open spec fn document_term_from(bytes: Seq<u8>, data: DocumentTermData) -> Option<
    DocumentTermData,
>
    decreases bytes.len(),
    via document_term_from_decreases
{
    if bytes.len() == 0 {
        Some(data)
    } else {
        match field_at(bytes) {
            None => None,
            Some((id, payload, taken)) => match document_term_with(data, id, payload) {
                None => None,
                Some(next) => document_term_from(bytes.skip(taken), next),
            },
        }
    }
}

#[via_fn]
proof fn document_term_from_decreases(bytes: Seq<u8>, data: DocumentTermData) {
    lemma_field_is_taken(bytes);
}

/// The record of a term in a document that `bytes` hold.
pub open spec fn decoded_document_term(bytes: Seq<u8>) -> Option<DocumentTermData> {
    document_term_from(bytes, zero_document_term())
}

/// The bytes of the record of a term in a document.
pub fn encode_document_term_data(data: &DocumentTermData) -> (bytes: Vec<u8>)
    ensures
        bytes@ == encoded_document_term(*data),
{
    let mut bytes: Vec<u8> = Vec::new();
    put_number_field(&mut bytes, 0, data.body_count);
    put_number_field(&mut bytes, 1, data.path_count);
    assert(bytes@ =~= encoded_document_term(*data));
    bytes
}

/// The record of a term in a document that `input` holds.
pub fn decode_document_term_data(input: &[u8]) -> (decoded: Result<DocumentTermData, Error>)
    ensures
        match decoded {
            Ok(data) => decoded_document_term(input@) == Some(data),
            Err(Error::DeserializationError {  }) => decoded_document_term(input@) is None,
            Err(Error::Utf8Error(_)) => false,
        },
{
    let mut data = DocumentTermData::default();
    let mut at: usize = 0;
    let len = input.len();
    assert(input@.skip(0) =~= input@);
    while at < len
        invariant
            0 <= at <= len,
            len == input@.len(),
            decoded_document_term(input@) == document_term_from(input@.skip(at as int), data),
        decreases len - at,
    {
        let field = match read_field(input, at) {
            Some(field) => field,
            None => {
                return Err(Error::DeserializationError {  });
            },
        };
        assert(input@.skip(at as int).skip(field.next - at) =~= input@.skip(field.next as int));
        if field.id == 0 {
            match field.value {
                FieldValue::Number(value) => {
                    data.body_count = value;
                },
                FieldValue::Bytes { .. } => {
                    return Err(Error::DeserializationError {  });
                },
            }
        } else if field.id == 1 {
            match field.value {
                FieldValue::Number(value) => {
                    data.path_count = value;
                },
                FieldValue::Bytes { .. } => {
                    return Err(Error::DeserializationError {  });
                },
            }
        }
        at = field.next;
    }
    Ok(data)
}

/// The record of a term in a document is read back from its bytes.
pub proof fn lemma_document_term_round_trip(data: DocumentTermData)
    ensures
        decoded_document_term(encoded_document_term(data)) == Some(data),
{
    let first = number_field(0, data.body_count);
    let second = number_field(1, data.path_count);
    let none = Seq::<u8>::empty();
    lemma_number_field_round_trip(0, data.body_count, second);
    lemma_number_field_round_trip(1, data.path_count, none);
    assert(second + none =~= second);
    let half = DocumentTermData { body_count: data.body_count, path_count: 0 };
    assert(document_term_from(second, half) == document_term_from(none, data)) by {
        lemma_field_is_taken(second);
    }
    assert(document_term_from(first + second, zero_document_term()) == document_term_from(
        second,
        half,
    )) by {
        lemma_field_is_taken(first + second);
    }
}

/// The bytes of a document record: its path as field 0 and its length as
/// field 1.
pub open spec fn encoded_document(data: Document) -> Seq<u8> {
    text_field(0, data.path) + number_field(1, data.length)
}

/// A document record with the field `id` set to `payload`, if the field can
/// hold it: the path holds bytes that are UTF-8.
pub open spec fn document_with(data: Document, id: u64, payload: Payload) -> Option<Document> {
    if id == 0 {
        match payload {
            Payload::Bytes(bytes) => if valid_utf8(bytes) {
                Some(Document { path: decode_utf8(bytes), ..data })
            } else {
                None
            },
            Payload::Number(_) => None,
        }
    } else if id == 1 {
        match payload {
            Payload::Number(value) => Some(Document { length: value, ..data }),
            Payload::Bytes(_) => None,
        }
    } else {
        Some(data)
    }
}

/// The document record `data` with the fields of `bytes` set one after the
/// other, if `bytes` are fields that the record can hold.
pub open spec fn document_from(bytes: Seq<u8>, data: Document) -> Option<Document>
    decreases bytes.len(),
    via document_from_decreases
{
    if bytes.len() == 0 {
        Some(data)
    } else {
        match field_at(bytes) {
            None => None,
            Some((id, payload, taken)) => match document_with(data, id, payload) {
                None => None,
                Some(next) => document_from(bytes.skip(taken), next),
            },
        }
    }
}

#[via_fn]
proof fn document_from_decreases(bytes: Seq<u8>, data: Document) {
    lemma_field_is_taken(bytes);
}

/// The document record that `bytes` hold.
pub open spec fn decoded_document(bytes: Seq<u8>) -> Option<Document> {
    document_from(bytes, zero_document())
}

/// The bytes of a document record.
pub fn encode_document_data(data: &DocumentData) -> (bytes: Vec<u8>)
    ensures
        bytes@ == encoded_document(data@),
{
    let mut bytes: Vec<u8> = Vec::new();
    put_text_field(&mut bytes, 0, &data.path);
    put_number_field(&mut bytes, 1, data.length);
    assert(bytes@ =~= encoded_document(data@));
    bytes
}

/// The document record that `input` holds.
pub fn decode_document_data(input: &[u8]) -> (decoded: Result<DocumentData, Error>)
    ensures
        match decoded {
            Ok(data) => decoded_document(input@) == Some(data@),
            Err(Error::DeserializationError {  }) => decoded_document(input@) is None,
            Err(Error::Utf8Error(_)) => false,
        },
{
    let mut data = DocumentData::default();
    let mut at: usize = 0;
    let len = input.len();
    assert(input@.skip(0) =~= input@);
    while at < len
        invariant
            0 <= at <= len,
            len == input@.len(),
            decoded_document(input@) == document_from(input@.skip(at as int), data@),
        decreases len - at,
    {
        let field = match read_field(input, at) {
            Some(field) => field,
            None => {
                return Err(Error::DeserializationError {  });
            },
        };
        assert(input@.skip(at as int).skip(field.next - at) =~= input@.skip(field.next as int));
        if field.id == 0 {
            match field.value {
                FieldValue::Bytes { start, end } => {
                    match from_utf8(slice_subrange(input, start, end)) {
                        Ok(text) => {
                            proof {
                                let bytes = input@.subrange(start as int, end as int);
                                vstd::utf8::decode_utf8_encode_utf8(bytes);
                                vstd::utf8::encode_utf8_decode_utf8(text@);
                                vstd::utf8::encode_utf8_decode_utf8(decode_utf8(bytes));
                            }
                            data.path = text.to_owned();
                        },
                        Err(_) => {
                            return Err(Error::DeserializationError {  });
                        },
                    }
                },
                FieldValue::Number(_) => {
                    return Err(Error::DeserializationError {  });
                },
            }
        } else if field.id == 1 {
            match field.value {
                FieldValue::Number(value) => {
                    data.length = value;
                },
                FieldValue::Bytes { .. } => {
                    return Err(Error::DeserializationError {  });
                },
            }
        }
        at = field.next;
    }
    Ok(data)
}

/// A document record is read back from its bytes.
pub proof fn lemma_document_round_trip(data: Document)
    requires
        encode_utf8(data.path).len() <= u64::MAX,
    ensures
        decoded_document(encoded_document(data)) == Some(data),
{
    let first = text_field(0, data.path);
    let second = number_field(1, data.length);
    let none = Seq::<u8>::empty();
    lemma_text_field_round_trip(0, data.path, second);
    lemma_number_field_round_trip(1, data.length, none);
    assert(second + none =~= second);
    vstd::utf8::encode_utf8_valid_utf8(data.path);
    vstd::utf8::encode_utf8_decode_utf8(data.path);
    let half = Document { path: data.path, length: 0 };
    assert(document_from(second, half) == document_from(none, data)) by {
        lemma_field_is_taken(second);
    }
    assert(document_from(first + second, zero_document()) == document_from(second, half)) by {
        lemma_field_is_taken(first + second);
    }
}

} // verus!
