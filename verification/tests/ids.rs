use tangerine::error::Error;
use tangerine::store::next_document_id;

#[test]
fn the_first_document_is_zero() {
    let (doc, kept) = next_document_id(None).unwrap();
    assert_eq!(0, doc);
    assert_eq!(1u128.to_be_bytes(), kept);
}

#[test]
fn each_document_is_one_more_than_the_last() {
    let (first, kept) = next_document_id(None).unwrap();
    let (second, kept) = next_document_id(Some(&kept[..])).unwrap();
    let (third, kept) = next_document_id(Some(&kept[..])).unwrap();
    assert_eq!((0, 1, 2), (first, second, third));
    assert_eq!(3u128.to_be_bytes(), kept);
}

#[test]
fn the_counter_is_read_most_significant_byte_first() {
    let counter = 0x0102_0304_0506_0708_090a_0b0c_0d0e_0f10u128.to_be_bytes();
    let (doc, kept) = next_document_id(Some(&counter[..])).unwrap();
    assert_eq!(0x0102_0304_0506_0708_090a_0b0c_0d0e_0f10, doc);
    assert_eq!(0x0102_0304_0506_0708_090a_0b0c_0d0e_0f11u128.to_be_bytes(), kept);
}

#[test]
fn a_counter_of_the_wrong_length_is_refused() {
    assert!(matches!(
        next_document_id(Some(&[0u8; 15][..])),
        Err(Error::DeserializationError {})
    ));
    assert!(matches!(
        next_document_id(Some(&[0u8; 17][..])),
        Err(Error::DeserializationError {})
    ));
    assert!(matches!(next_document_id(Some(&[][..])), Err(Error::DeserializationError {})));
}

#[test]
fn the_last_counter_is_refused() {
    assert!(matches!(
        next_document_id(Some(&[0xffu8; 16][..])),
        Err(Error::DeserializationError {})
    ));
    let counter = (u128::MAX - 1).to_be_bytes();
    let (doc, kept) = next_document_id(Some(&counter[..])).unwrap();
    assert_eq!(u128::MAX - 1, doc);
    assert_eq!([0xffu8; 16], kept);
}
