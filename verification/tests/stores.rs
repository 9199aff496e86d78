use fjall::{Config, Keyspace, Partition, PartitionCreateOptions};
use tangerine::index::{DocumentData, DocumentId, DocumentTermData, TermData};
use tangerine::records::{
    decode_document_data, decode_document_term_data, decode_term_data, encode_document_data,
    encode_document_term_data, encode_term_data,
};
use tangerine::store::{
    make_document_key, make_posting_list_key, make_posting_list_prefix, parse_posting_list_key,
};

// Opens the partition `name` with nothing in it.
fn fresh(keyspace: &Keyspace, name: &str) -> Partition {
    let stale = keyspace.open_partition(name, PartitionCreateOptions::default()).unwrap();
    keyspace.delete_partition(stale).unwrap();
    keyspace.open_partition(name, PartitionCreateOptions::default()).unwrap()
}

#[test]
fn test_term_store() {
    let keyspace = Config::new("/tmp/tangerine/test_term_store").open().unwrap();
    let terms = fresh(&keyspace, "terms");

    let term_data = TermData { count: 1, document_count: 2 };
    terms.insert("a", encode_term_data(&term_data)).unwrap();

    let stored = terms.get("a").unwrap().unwrap();
    let actual = decode_term_data(&stored[..]).unwrap();

    assert_eq!(1, actual.count);
    assert_eq!(2, actual.document_count);

    assert!(terms.get("b").unwrap().is_none());
}

#[test]
fn test_document_store() {
    let keyspace = Config::new("/tmp/tangerine/test_document_store").open().unwrap();
    let documents = fresh(&keyspace, "docs");

    let doc_data = DocumentData { path: String::new(), length: 3 };
    documents.insert(make_document_key(123), encode_document_data(&doc_data)).unwrap();

    let stored = documents.get(make_document_key(123)).unwrap().unwrap();
    let actual = decode_document_data(&stored[..]).unwrap();

    assert_eq!(3, actual.length);
    assert_eq!("", actual.path);

    assert!(documents.get(make_document_key(124)).unwrap().is_none());
}

#[test]
fn test_posting_list_store() {
    let keyspace = Config::new("/tmp/tangerine/test_posting_list_store").open().unwrap();
    let postings = fresh(&keyspace, "postings");

    let doc_data = DocumentTermData { body_count: 4, path_count: 0 };
    let key = make_posting_list_key("a", 1);
    postings.insert(&key[..], encode_document_term_data(&doc_data)).unwrap();

    let doc_data = DocumentTermData { body_count: 5, path_count: 0 };
    let key = make_posting_list_key("a", 2);
    postings.insert(&key[..], encode_document_term_data(&doc_data)).unwrap();

    let prefix = make_posting_list_prefix("a");
    let mut result: Vec<(DocumentId, DocumentTermData)> = Vec::new();
    for item in postings.prefix(&prefix[..]) {
        let (key, data) = item.unwrap();
        let (_, doc_id) = parse_posting_list_key(&key[..]).unwrap();
        result.push((doc_id, decode_document_term_data(&data[..]).unwrap()));
    }
    assert_eq!(2, result.len());

    let (result_doc, result_data) = result.get(0).unwrap();
    assert_eq!(1u128, *result_doc);
    assert_eq!(4, result_data.body_count);

    let (result_doc, result_data) = result.get(1).unwrap();
    assert_eq!(2u128, *result_doc);
    assert_eq!(5, result_data.body_count);
}
