use std::collections::HashMap;
use std::iter::zip;
use tangerine::index::{
    search, DocumentData, DocumentId, DocumentTermData, QueryTerm, Score, Scorer, TermData,
};

// A test scorer that verifies all the arguments thoroughly and then just sorts by document id.
struct ArgumentVerifyingTestScorer {}

impl Scorer for ArgumentVerifyingTestScorer {
    fn score(
        &self,
        doc_id: DocumentId,
        doc_data: &DocumentData,
        terms: &[String],
        term_data: &[TermData],
        doc_term_data: &[DocumentTermData],
    ) -> Score {
        assert_eq!(terms.len(), term_data.len());
        assert_eq!(term_data.len(), doc_term_data.len());

        for (term, term_data) in zip(terms, term_data) {
            match term.as_str() {
                "a" => {
                    assert_eq!(1, term_data.count);
                    assert_eq!(2, term_data.document_count);
                }
                "b" => {
                    assert_eq!(3, term_data.count);
                    assert_eq!(4, term_data.document_count);
                }
                _ => {
                    panic!("unknown term {}", term);
                }
            }
        }

        match doc_id {
            100 => {
                assert_eq!("/one/hundred", doc_data.path);
                assert_eq!(101, doc_data.length);
                for (term, doc_term_data) in zip(terms, doc_term_data) {
                    match term.as_str() {
                        "a" => {
                            assert_eq!(15, doc_term_data.path_count);
                            assert_eq!(5, doc_term_data.body_count);
                        }
                        "b" => {
                            assert_eq!(16, doc_term_data.path_count);
                            assert_eq!(6, doc_term_data.body_count);
                        }
                        _ => {
                            panic!("unknown term {}", term);
                        }
                    }
                }
            }
            200 => {
                assert_eq!("/two/hundred", doc_data.path);
                assert_eq!(201, doc_data.length);
                for (term, doc_term_data) in zip(terms, doc_term_data) {
                    match term.as_str() {
                        "a" => {
                            assert_eq!(17, doc_term_data.path_count);
                            assert_eq!(7, doc_term_data.body_count);
                        }
                        "b" => {
                            assert_eq!(18, doc_term_data.path_count);
                            assert_eq!(8, doc_term_data.body_count);
                        }
                        _ => {
                            panic!("unknown term {}", term);
                        }
                    }
                }
            }
            _ => {
                panic!("unknown document {}", doc_id);
            }
        }

        doc_id as Score
    }
}

// A test scorer that just uses doc_data.length to sort the documents.
struct SortingScorer {}

impl Scorer for SortingScorer {
    fn score(
        &self,
        _doc_id: DocumentId,
        doc_data: &DocumentData,
        _terms: &[String],
        _term_data: &[TermData],
        _doc_term_data: &[DocumentTermData],
    ) -> Score {
        doc_data.length
    }
}

fn six_documents() -> HashMap<u128, DocumentData> {
    [
        (100, DocumentData { path: "/hundred/one".to_string(), length: 5 }),
        (200, DocumentData { path: "/hundred/two".to_string(), length: 2 }),
        (300, DocumentData { path: "/hundred/three".to_string(), length: 4 }),
        (400, DocumentData { path: "/hundred/four".to_string(), length: 3 }),
        (500, DocumentData { path: "/hundred/five".to_string(), length: 1 }),
        (600, DocumentData { path: "/hundred/six".to_string(), length: 6 }),
    ]
    .into_iter()
    .collect()
}

fn term_a_in_six_documents() -> QueryTerm {
    QueryTerm {
        term: "a".to_string(),
        data: Some(TermData { count: 1, document_count: 2 }),
        postings: vec![
            (100, DocumentTermData::default()),
            (200, DocumentTermData::default()),
            (300, DocumentTermData::default()),
            (400, DocumentTermData::default()),
            (500, DocumentTermData::default()),
            (600, DocumentTermData::default()),
        ],
    }
}

#[test]
fn test_search_arguments_passed_to_scorer() {
    let documents: HashMap<u128, DocumentData> = [
        (100, DocumentData { path: "/one/hundred".to_string(), length: 101 }),
        (200, DocumentData { path: "/two/hundred".to_string(), length: 201 }),
    ]
    .into_iter()
    .collect();

    let query = vec![
        QueryTerm {
            term: "a".to_string(),
            data: Some(TermData { count: 1, document_count: 2 }),
            postings: vec![
                (100, DocumentTermData { body_count: 5, path_count: 15 }),
                (200, DocumentTermData { body_count: 7, path_count: 17 }),
            ],
        },
        QueryTerm {
            term: "b".to_string(),
            data: Some(TermData { count: 3, document_count: 4 }),
            postings: vec![
                (100, DocumentTermData { body_count: 6, path_count: 16 }),
                (200, DocumentTermData { body_count: 8, path_count: 18 }),
            ],
        },
    ];

    let scorer = ArgumentVerifyingTestScorer {};
    let results = search(&query, &documents, scorer, 10);

    assert_eq!(2, results.len());
    assert_eq!(200, *results.get(0).unwrap());
    assert_eq!(100, *results.get(1).unwrap());
}

#[test]
fn test_search_results_are_sorted_by_score() {
    let documents = six_documents();
    let query = vec![term_a_in_six_documents()];

    let scorer = SortingScorer {};
    let results = search(&query, &documents, scorer, 10);

    assert_eq!(6, results.len());
    assert_eq!(600, *results.get(0).unwrap());
    assert_eq!(100, *results.get(1).unwrap());
    assert_eq!(300, *results.get(2).unwrap());
    assert_eq!(400, *results.get(3).unwrap());
    assert_eq!(200, *results.get(4).unwrap());
    assert_eq!(500, *results.get(5).unwrap());
}

#[test]
fn test_search_max_docs_works() {
    let documents = six_documents();
    let query = vec![term_a_in_six_documents()];

    let scorer = SortingScorer {};
    let results = search(&query, &documents, scorer, 3);

    assert_eq!(3, results.len());
    assert_eq!(600, *results.get(0).unwrap());
    assert_eq!(100, *results.get(1).unwrap());
    assert_eq!(300, *results.get(2).unwrap());
}

#[test]
fn test_search_with_term_not_id_docs() {
    let documents = six_documents();
    let query = vec![
        term_a_in_six_documents(),
        QueryTerm {
            term: "b".to_string(),
            data: Some(TermData { count: 3, document_count: 4 }),
            postings: vec![],
        },
    ];

    let scorer = SortingScorer {};
    let results = search(&query, &documents, scorer, 10);

    assert_eq!(6, results.len());
    assert_eq!(600, *results.get(0).unwrap());
    assert_eq!(100, *results.get(1).unwrap());
    assert_eq!(300, *results.get(2).unwrap());
    assert_eq!(400, *results.get(3).unwrap());
    assert_eq!(200, *results.get(4).unwrap());
    assert_eq!(500, *results.get(5).unwrap());
}

#[test]
fn test_search_with_nonexistent_term() {
    let documents = six_documents();
    let query = vec![
        term_a_in_six_documents(),
        QueryTerm { term: "b".to_string(), data: None, postings: vec![] },
    ];

    let scorer = SortingScorer {};
    let results = search(&query, &documents, scorer, 10);

    assert_eq!(6, results.len());
    assert_eq!(600, *results.get(0).unwrap());
    assert_eq!(100, *results.get(1).unwrap());
    assert_eq!(300, *results.get(2).unwrap());
    assert_eq!(400, *results.get(3).unwrap());
    assert_eq!(200, *results.get(4).unwrap());
    assert_eq!(500, *results.get(5).unwrap());
}
