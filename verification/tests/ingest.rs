use tangerine::index::{DocumentTermData, TermData};
use tangerine::ingest::{process_document, DocProcessor};
use tangerine::parse::{parse_text, TokenProcessor, TokenSlice};

fn find<'a, T>(names: &[String], records: &'a [T], name: &str) -> &'a T {
    let at = names.iter().position(|n| n == name).unwrap();
    &records[at]
}

#[test]
fn new_processor_has_counted_nothing() {
    let processor = DocProcessor::new(7, "/some/path");
    let writes = processor.finalize();
    assert_eq!(7, writes.id);
    assert_eq!("/some/path", writes.document.path);
    assert_eq!(0, writes.document.length);
    assert!(writes.names.is_empty());
    assert!(writes.terms.is_empty());
    assert!(writes.doc_terms.is_empty());
}

#[test]
fn processor_counts_a_token_of_the_text() {
    let mut processor = DocProcessor::new(1, "p");
    let token = TokenSlice { token: "foo", line: 0, column: 0, offset: 0, partial: false };
    processor.process_token(&token);
    processor.process_token(&token);
    let writes = processor.finalize();
    assert_eq!(vec!["foo".to_string()], writes.names);
    assert_eq!(vec![TermData { count: 2, document_count: 1 }], writes.terms);
    assert_eq!(vec![DocumentTermData { body_count: 2, path_count: 0 }], writes.doc_terms);
    assert_eq!(2, writes.document.length);
}

#[test]
fn processor_counts_a_token_of_the_path() {
    let mut processor = DocProcessor::new(1, "p");
    processor.set_in_path(true);
    let token = TokenSlice { token: "foo", line: 0, column: 0, offset: 0, partial: false };
    processor.process_token(&token);
    processor.set_in_path(false);
    processor.process_token(&token);
    processor.process_token(&token);
    let writes = processor.finalize();
    assert_eq!(vec![TermData { count: 3, document_count: 1 }], writes.terms);
    assert_eq!(vec![DocumentTermData { body_count: 2, path_count: 1 }], writes.doc_terms);
    assert_eq!(2, writes.document.length);
}

#[test]
fn partial_tokens_count_but_make_no_length() {
    let mut processor = DocProcessor::new(1, "p");
    let whole = TokenSlice { token: "fooBar", line: 0, column: 0, offset: 0, partial: false };
    let part = TokenSlice { token: "foo", line: 0, column: 0, offset: 0, partial: true };
    processor.process_token(&whole);
    processor.process_token(&part);
    let writes = processor.finalize();
    assert_eq!(vec!["fooBar".to_string(), "foo".to_string()], writes.names);
    assert_eq!(1, writes.document.length);
    assert_eq!(1, find(&writes.names, &writes.terms, "foo").count);
}

#[test]
fn processor_counts_what_the_tokenizer_hands_out() {
    let mut processor = DocProcessor::new(3, "p");
    parse_text("foo bar foo fooBar", &mut processor);
    let writes = processor.finalize();
    assert_eq!(
        vec!["foo".to_string(), "bar".to_string(), "fooBar".to_string(), "Bar".to_string()],
        writes.names
    );
    assert_eq!(3, find(&writes.names, &writes.terms, "foo").count);
    assert_eq!(1, find(&writes.names, &writes.terms, "bar").count);
    assert_eq!(1, find(&writes.names, &writes.terms, "fooBar").count);
    assert_eq!(1, find(&writes.names, &writes.terms, "Bar").count);
    assert_eq!(1, find(&writes.names, &writes.terms, "foo").document_count);
    assert_eq!(4, writes.document.length);
}

#[test]
fn document_counts_path_and_text() {
    let processor = process_document(9, "/docs/readme", "read the docs, the docs");
    let writes = processor.finalize();
    assert_eq!(9, writes.id);
    assert_eq!("/docs/readme", writes.document.path);
    assert_eq!(5, writes.document.length);
    assert_eq!(
        vec!["docs".to_string(), "readme".to_string(), "read".to_string(), "the".to_string()],
        writes.names
    );
    let docs = find(&writes.names, &writes.doc_terms, "docs");
    assert_eq!(1, docs.path_count);
    assert_eq!(2, docs.body_count);
    let readme = find(&writes.names, &writes.doc_terms, "readme");
    assert_eq!(1, readme.path_count);
    assert_eq!(0, readme.body_count);
    let the = find(&writes.names, &writes.doc_terms, "the");
    assert_eq!(0, the.path_count);
    assert_eq!(2, the.body_count);
    assert_eq!(3, find(&writes.names, &writes.terms, "docs").count);
    assert_eq!(1, find(&writes.names, &writes.terms, "docs").document_count);
}

#[test]
fn document_length_is_the_longer_of_path_and_text() {
    let processor = process_document(9, "a b c d", "e f");
    assert_eq!(4, processor.finalize().document.length);
    let processor = process_document(9, "", "");
    let writes = processor.finalize();
    assert_eq!(0, writes.document.length);
    assert!(writes.names.is_empty());
}
