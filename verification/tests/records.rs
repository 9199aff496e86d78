use brotopuf::{DeserializeField, ProtoType, Serialize};
use tangerine::error::Error;
use tangerine::index::{DocumentData, DocumentTermData, TermData};
use tangerine::records::{
    decode_document_data, decode_document_term_data, decode_term_data, encode_document_data,
    encode_document_term_data, encode_term_data,
};
use tangerine::wire::{read_field, read_fixed, read_number, Field, FieldValue};

fn is_refused<T>(decoded: Result<T, Error>) -> bool {
    matches!(decoded, Err(Error::DeserializationError {}))
}

#[test]
fn term_record_is_two_tagged_numbers() {
    let bytes = encode_term_data(&TermData { count: 1, document_count: 2 });
    assert_eq!(vec![0x00, 0x01, 0x08, 0x02], bytes);
    let bytes = encode_term_data(&TermData { count: 150, document_count: 0 });
    assert_eq!(vec![0x00, 0x96, 0x01, 0x08, 0x00], bytes);
}

#[test]
fn document_record_is_a_text_and_a_number() {
    let bytes = encode_document_data(&DocumentData { path: "/a".to_string(), length: 300 });
    assert_eq!(vec![0x02, 0x02, b'/', b'a', 0x08, 0xac, 0x02], bytes);
}

#[test]
fn document_term_record_is_two_tagged_numbers() {
    let bytes = encode_document_term_data(&DocumentTermData { body_count: 5, path_count: 15 });
    assert_eq!(vec![0x00, 0x05, 0x08, 0x0f], bytes);
}

#[test]
fn records_are_written_as_the_codec_writes_their_fields() {
    for (count, document_count) in [(0u64, 0u64), (1, 127), (128, 16384), (u64::MAX, 1 << 63)] {
        let mut expected = Vec::new();
        count.serialize_field(0, ProtoType::UInt64, &mut expected).unwrap();
        document_count.serialize_field(1, ProtoType::UInt64, &mut expected).unwrap();
        assert_eq!(expected, encode_term_data(&TermData { count, document_count }));
    }
    for path in ["", "/hundred/one", "\u{798f}/\u{1f49c}"] {
        let mut expected = Vec::new();
        path.to_string().serialize_field(0, ProtoType::String, &mut expected).unwrap();
        7u64.serialize_field(1, ProtoType::UInt64, &mut expected).unwrap();
        assert_eq!(
            expected,
            encode_document_data(&DocumentData { path: path.to_string(), length: 7 })
        );
    }
}

#[test]
fn records_are_read_as_the_codec_reads_their_fields() {
    let bytes = encode_term_data(&TermData { count: 300, document_count: u64::MAX });
    let mut input = &bytes[..];
    let (id, wire) = brotopuf::read_tag(&mut input).unwrap().unwrap();
    assert_eq!(0, id);
    let mut count = 0u64;
    count.deserialize_field(ProtoType::UInt64, wire, &mut input).unwrap();
    assert_eq!(300, count);
    let (id, wire) = brotopuf::read_tag(&mut input).unwrap().unwrap();
    assert_eq!(1, id);
    let mut document_count = 0u64;
    document_count.deserialize_field(ProtoType::UInt64, wire, &mut input).unwrap();
    assert_eq!(u64::MAX, document_count);
    assert!(input.is_empty());

    let bytes = encode_document_data(&DocumentData { path: "/p/\u{dc}".to_string(), length: 9 });
    let mut input = &bytes[..];
    let (id, wire) = brotopuf::read_tag(&mut input).unwrap().unwrap();
    assert_eq!(0, id);
    let mut path = String::new();
    path.deserialize_field(ProtoType::String, wire, &mut input).unwrap();
    assert_eq!("/p/\u{dc}", path);
}

#[test]
fn term_record_round_trip() {
    for data in [
        TermData { count: 0, document_count: 0 },
        TermData { count: 1, document_count: 2 },
        TermData { count: u64::MAX, document_count: 127 },
        TermData { count: 128, document_count: u64::MAX },
    ] {
        assert_eq!(data, decode_term_data(&encode_term_data(&data)).unwrap());
    }
}

#[test]
fn document_term_record_round_trip() {
    for data in [
        DocumentTermData { body_count: 0, path_count: 0 },
        DocumentTermData { body_count: 5, path_count: 15 },
        DocumentTermData { body_count: u64::MAX, path_count: 1 << 35 },
    ] {
        assert_eq!(data, decode_document_term_data(&encode_document_term_data(&data)).unwrap());
    }
}

#[test]
fn document_record_round_trip() {
    for (path, length) in [("", 0u64), ("/one/hundred", 101), ("\u{798f}\u{1f49c} x", u64::MAX)] {
        let data = DocumentData { path: path.to_string(), length };
        let decoded = decode_document_data(&encode_document_data(&data)).unwrap();
        assert_eq!(path, decoded.path);
        assert_eq!(length, decoded.length);
    }
    let long = "x".repeat(300);
    let data = DocumentData { path: long.clone(), length: 1 };
    assert_eq!(long, decode_document_data(&encode_document_data(&data)).unwrap().path);
}

#[test]
fn missing_fields_are_zero() {
    assert_eq!(TermData { count: 0, document_count: 0 }, decode_term_data(&[]).unwrap());
    assert_eq!(TermData { count: 0, document_count: 9 }, decode_term_data(&[0x08, 9]).unwrap());
    let decoded = decode_document_data(&[0x08, 9]).unwrap();
    assert_eq!(("", 9), (decoded.path.as_str(), decoded.length));
    let decoded = decode_document_data(&[]).unwrap();
    assert_eq!(("", 0), (decoded.path.as_str(), decoded.length));
}

#[test]
fn fields_are_read_in_any_order_and_the_last_one_stands() {
    assert_eq!(
        TermData { count: 4, document_count: 9 },
        decode_term_data(&[0x08, 9, 0x00, 4]).unwrap()
    );
    assert_eq!(
        TermData { count: 6, document_count: 0 },
        decode_term_data(&[0x00, 4, 0x00, 6]).unwrap()
    );
}

#[test]
fn unknown_fields_are_left_aside() {
    // field 2 as a number, field 3 as eight bytes, field 4 as bytes, field 5 as four bytes
    let bytes = [
        0x10, 0x96, 0x01, 0x00, 4, 0x19, 1, 2, 3, 4, 5, 6, 7, 8, 0x22, 3, 0xff, 0xfe, 0xfd, 0x2d,
        1, 2, 3, 4, 0x08, 9,
    ];
    assert_eq!(TermData { count: 4, document_count: 9 }, decode_term_data(&bytes).unwrap());
    assert_eq!(
        DocumentTermData { body_count: 4, path_count: 9 },
        decode_document_term_data(&bytes).unwrap()
    );
}

#[test]
fn numbers_of_fixed_width_are_read() {
    // field 0 as eight bytes, field 1 as four bytes
    let bytes = [0x01, 0x9a, 0, 0, 0, 0, 0, 0, 0, 0x0d, 0x9b, 0, 0, 1];
    assert_eq!(
        TermData { count: 154, document_count: 155 + (1 << 24) },
        decode_term_data(&bytes).unwrap()
    );
}

#[test]
fn truncated_bytes_are_refused() {
    let bytes = encode_term_data(&TermData { count: 300, document_count: 2 });
    assert_eq!(5, bytes.len());
    assert!(is_refused(decode_term_data(&bytes[..1])));
    assert!(is_refused(decode_term_data(&bytes[..2])));
    assert!(is_refused(decode_term_data(&bytes[..4])));
    assert!(decode_term_data(&bytes[..3]).is_ok());
    assert!(is_refused(decode_term_data(&[0x80])));
    assert!(is_refused(decode_term_data(&[0x01, 1, 2, 3])));
    assert!(is_refused(decode_term_data(&[0x05, 1, 2, 3])));

    let bytes = encode_document_data(&DocumentData { path: "/hundred".to_string(), length: 1 });
    for cut in 1..bytes.len() {
        if cut != 10 {
            assert!(is_refused(decode_document_data(&bytes[..cut])), "cut at {}", cut);
        }
    }
    assert!(decode_document_data(&bytes[..10]).is_ok());
}

#[test]
fn unknown_kinds_are_refused() {
    for kind in [3u8, 4, 6, 7] {
        assert!(is_refused(decode_term_data(&[kind, 0])));
        assert!(is_refused(decode_term_data(&[0x10 | kind, 0])));
        assert!(is_refused(decode_document_data(&[kind, 0])));
        assert!(is_refused(decode_document_term_data(&[kind, 0])));
    }
}

#[test]
fn a_path_that_is_not_utf8_is_refused() {
    assert!(is_refused(decode_document_data(&[0x02, 2, 0xff, 0xfe])));
    assert!(is_refused(decode_document_data(&[0x02, 1, 0xc3])));
    assert!(decode_document_data(&[0x02, 2, 0xc3, 0x9c]).is_ok());
}

#[test]
fn a_field_of_the_wrong_kind_is_refused() {
    assert!(is_refused(decode_term_data(&[0x02, 1, b'a'])));
    assert!(is_refused(decode_term_data(&[0x0a, 0])));
    assert!(is_refused(decode_document_term_data(&[0x02, 0])));
    assert!(is_refused(decode_document_data(&[0x00, 1])));
    assert!(is_refused(decode_document_data(&[0x0a, 1, b'a'])));
}

#[test]
fn numbers_that_are_too_long_or_too_large_are_refused() {
    let ten = [0xff, 0xff, 0xff, 0xff, 0xff, 0xff, 0xff, 0xff, 0xff, 0x01];
    assert_eq!(Some((u64::MAX, 10)), read_number(&ten, 0));
    let large = [0xff, 0xff, 0xff, 0xff, 0xff, 0xff, 0xff, 0xff, 0xff, 0x02];
    assert_eq!(None, read_number(&large, 0));
    let long = [0x80, 0x80, 0x80, 0x80, 0x80, 0x80, 0x80, 0x80, 0x80, 0x80, 0x00];
    assert_eq!(None, read_number(&long, 0));
    let mut bytes = vec![0x00];
    bytes.extend_from_slice(&long);
    assert!(is_refused(decode_term_data(&bytes)));
}

#[test]
fn read_number_reads_seven_bits_to_a_byte() {
    assert_eq!(Some((0, 1)), read_number(&[0], 0));
    assert_eq!(Some((127, 1)), read_number(&[127], 0));
    assert_eq!(Some((150, 2)), read_number(&[0x96, 0x01], 0));
    assert_eq!(Some((150, 3)), read_number(&[9, 0x96, 0x01, 7], 1));
    assert_eq!(Some((0, 3)), read_number(&[0x80, 0x80, 0x00], 0));
    assert_eq!(Some((128, 2)), read_number(&[0x80, 0x01], 0));
    assert_eq!(None, read_number(&[0x96], 0));
    assert_eq!(None, read_number(&[], 0));
    assert_eq!(None, read_number(&[1], 1));
}

#[test]
fn read_fixed_reads_the_least_significant_byte_first() {
    assert_eq!(0, read_fixed(&[1, 2], 1, 0));
    assert_eq!(0x0201, read_fixed(&[1, 2], 0, 2));
    assert_eq!(0x0807_0605_0403_0201, read_fixed(&[9, 1, 2, 3, 4, 5, 6, 7, 8], 1, 8));
    assert_eq!(u64::MAX, read_fixed(&[0xff; 8], 0, 8));
}

#[test]
fn read_field_tells_the_kinds_apart() {
    assert_eq!(
        Some(Field { id: 1, value: FieldValue::Number(150), next: 3 }),
        read_field(&[0x08, 0x96, 0x01], 0)
    );
    assert_eq!(
        Some(Field { id: 2, value: FieldValue::Bytes { start: 3, end: 5 }, next: 5 }),
        read_field(&[0xff, 0x12, 2, b'h', b'i', 0], 1)
    );
    assert_eq!(
        Some(Field { id: 0, value: FieldValue::Number(0x04030201), next: 5 }),
        read_field(&[0x05, 1, 2, 3, 4], 0)
    );
    assert_eq!(None, read_field(&[0x12, 3, b'h', b'i'], 0));
    assert_eq!(None, read_field(&[0x0b, 0], 0));
    assert_eq!(None, read_field(&[], 0));
}
