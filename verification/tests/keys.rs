use tangerine::error::Error;
use tangerine::store::{
    make_document_key, make_posting_list_key, make_posting_list_prefix, parse_posting_list_key,
};

fn id_bytes(last: u8) -> Vec<u8> {
    let mut bytes = vec![0u8; 15];
    bytes.push(last);
    bytes
}

#[test]
fn posting_key_is_term_delimiter_and_document() {
    let key = make_posting_list_key("ab", 0x0102);
    let mut expected = vec![b'a', b'b', 0u8];
    expected.extend_from_slice(&[0, 0, 0, 0, 0, 0, 0, 0, 0, 0, 0, 0, 0, 0, 1, 2]);
    assert_eq!(expected, key.to_vec());
    assert_eq!(19, key.len());
}

#[test]
fn posting_key_of_empty_term() {
    let key = make_posting_list_key("", 7);
    let mut expected = vec![0u8];
    expected.extend_from_slice(&id_bytes(7));
    assert_eq!(expected, key.to_vec());
}

#[test]
fn posting_key_of_wide_term() {
    let key = make_posting_list_key("\u{798f}", u128::MAX);
    let mut expected = vec![0xe7, 0xa6, 0x8f, 0u8];
    expected.extend_from_slice(&[0xff; 16]);
    assert_eq!(expected, key.to_vec());
}

#[test]
fn posting_prefix_is_term_and_delimiter() {
    let prefix = make_posting_list_prefix("ab");
    assert_eq!(vec![b'a', b'b', 0u8], prefix.to_vec());
    let prefix = make_posting_list_prefix("");
    assert_eq!(vec![0u8], prefix.to_vec());
}

#[test]
fn posting_key_begins_with_its_prefix() {
    let key = make_posting_list_key("term", 42);
    let prefix = make_posting_list_prefix("term");
    assert!(key.starts_with(&prefix));
    let other = make_posting_list_prefix("ter");
    assert!(!key.starts_with(&other));
    let longer = make_posting_list_prefix("terms");
    assert!(!key.starts_with(&longer));
}

#[test]
fn posting_keys_of_a_term_sort_by_document() {
    let low = make_posting_list_key("a", 1);
    let mid = make_posting_list_key("a", 256);
    let high = make_posting_list_key("a", 1u128 << 100);
    assert!(low < mid);
    assert!(mid < high);
    assert!(low < high);
}

#[test]
fn document_key_is_big_endian() {
    assert_eq!(id_bytes(123).as_slice(), &make_document_key(123)[..]);
    let key = make_document_key(0x0102_0304_0506_0708_090a_0b0c_0d0e_0f10);
    assert_eq!([1, 2, 3, 4, 5, 6, 7, 8, 9, 10, 11, 12, 13, 14, 15, 16], key);
}

#[test]
fn parse_reads_back_what_was_made() {
    let key = make_posting_list_key("foo", 600);
    let (term, doc) = parse_posting_list_key(&key[..]).unwrap();
    assert_eq!("foo", term);
    assert_eq!(600, doc);

    let key = make_posting_list_key("\u{dc}ber", u128::MAX - 1);
    let (term, doc) = parse_posting_list_key(&key[..]).unwrap();
    assert_eq!("\u{dc}ber", term);
    assert_eq!(u128::MAX - 1, doc);

    let key = make_posting_list_key("", 0);
    let (term, doc) = parse_posting_list_key(&key[..]).unwrap();
    assert_eq!("", term);
    assert_eq!(0, doc);
}

#[test]
fn parse_refuses_a_short_key() {
    let key = [0u8; 16];
    assert!(matches!(
        parse_posting_list_key(&key[..]),
        Err(Error::DeserializationError {})
    ));
    assert!(matches!(
        parse_posting_list_key(&[]),
        Err(Error::DeserializationError {})
    ));
}

#[test]
fn parse_refuses_a_key_without_delimiter() {
    let mut key = vec![b'a', 1u8];
    key.extend_from_slice(&id_bytes(9));
    assert!(matches!(
        parse_posting_list_key(&key[..]),
        Err(Error::DeserializationError {})
    ));
}

#[test]
fn parse_refuses_a_term_that_is_not_utf8() {
    let mut key = vec![0xff, 0u8];
    key.extend_from_slice(&id_bytes(9));
    assert!(matches!(
        parse_posting_list_key(&key[..]),
        Err(Error::Utf8Error(_))
    ));
}

#[test]
fn parse_checks_the_term_before_the_delimiter() {
    let mut key = vec![0xc3, 7u8];
    key.extend_from_slice(&id_bytes(9));
    assert!(matches!(
        parse_posting_list_key(&key[..]),
        Err(Error::Utf8Error(_))
    ));
}

#[test]
fn parse_takes_the_shortest_key() {
    let mut key = vec![0u8];
    key.extend_from_slice(&id_bytes(5));
    let (term, doc) = parse_posting_list_key(&key[..]).unwrap();
    assert_eq!("", term);
    assert_eq!(5, doc);
}
