use std::cell::RefCell;
use std::collections::HashMap;
use tangerine::index::{
    lowest_document, search, take_records, DocumentData, DocumentId, DocumentTermData, QueryTerm,
    Score, Scorer, TermData,
};

fn record(body_count: u64) -> DocumentTermData {
    DocumentTermData { body_count, path_count: 0 }
}

fn term(name: &str, postings: &[(DocumentId, u64)]) -> QueryTerm {
    QueryTerm {
        term: name.to_string(),
        data: Some(TermData { count: postings.len() as u64, document_count: 1 }),
        postings: postings.iter().map(|(doc, count)| (*doc, record(*count))).collect(),
    }
}

// Scores a document by the sum of its body counts and remembers each call.
struct Recorder {
    calls: RefCell<Vec<(DocumentId, String, u64, Vec<TermData>, Vec<DocumentTermData>)>>,
}

impl Recorder {
    fn new() -> Self {
        Recorder { calls: RefCell::new(Vec::new()) }
    }
}

impl Scorer for &Recorder {
    fn score(
        &self,
        doc_id: DocumentId,
        doc_data: &DocumentData,
        terms: &[String],
        term_data: &[TermData],
        doc_term_data: &[DocumentTermData],
    ) -> Score {
        assert_eq!(terms.len(), term_data.len());
        assert_eq!(terms.len(), doc_term_data.len());
        self.calls.borrow_mut().push((
            doc_id,
            doc_data.path.clone(),
            doc_data.length,
            term_data.to_vec(),
            doc_term_data.to_vec(),
        ));
        doc_term_data.iter().map(|d| d.body_count).sum()
    }
}

#[test]
fn merge_visits_each_document_once_in_ascending_order() {
    let query = vec![
        term("a", &[(1, 10), (3, 30), (5, 50)]),
        term("b", &[(2, 2), (3, 3), (6, 6)]),
    ];
    let documents = HashMap::new();
    let recorder = Recorder::new();
    let results = search(&query, &documents, &recorder, 10);

    let calls = recorder.calls.borrow();
    let visited: Vec<DocumentId> = calls.iter().map(|call| call.0).collect();
    assert_eq!(vec![1, 2, 3, 5, 6], visited);
    assert_eq!(vec![record(10), record(0)], calls[0].4);
    assert_eq!(vec![record(0), record(2)], calls[1].4);
    assert_eq!(vec![record(30), record(3)], calls[2].4);
    assert_eq!(vec![record(50), record(0)], calls[3].4);
    assert_eq!(vec![record(0), record(6)], calls[4].4);
    assert_eq!(vec![5, 3, 1, 6, 2], results);
}

#[test]
fn every_result_stands_in_a_posting_list() {
    let query = vec![term("a", &[(4, 1), (9, 1)]), term("b", &[(7, 5)])];
    let documents = HashMap::new();
    let recorder = Recorder::new();
    let results = search(&query, &documents, &recorder, 10);
    assert_eq!(3, results.len());
    for doc in results.iter() {
        assert!(query.iter().any(|t| t.postings.iter().any(|p| p.0 == *doc)));
    }
}

#[test]
fn a_wide_limit_returns_every_candidate_sorted() {
    let query = vec![term("a", &[(1, 3), (2, 9), (3, 1), (4, 7)])];
    let documents = HashMap::new();
    let recorder = Recorder::new();
    let results = search(&query, &documents, &recorder, 4);
    assert_eq!(vec![2, 4, 1, 3], results);
    let recorder = Recorder::new();
    let results = search(&query, &documents, &recorder, i32::MAX);
    assert_eq!(vec![2, 4, 1, 3], results);
}

#[test]
fn a_narrow_limit_returns_the_best() {
    let query = vec![term("a", &[(1, 3), (2, 9), (3, 1), (4, 7)])];
    let documents = HashMap::new();
    let recorder = Recorder::new();
    let results = search(&query, &documents, &recorder, 2);
    assert_eq!(vec![2, 4], results);
    let recorder = Recorder::new();
    let results = search(&query, &documents, &recorder, 1);
    assert_eq!(vec![2], results);
}

#[test]
fn equal_scores_stand_by_document() {
    let query = vec![term("a", &[(1, 5), (2, 5), (3, 5)])];
    let documents = HashMap::new();
    let recorder = Recorder::new();
    assert_eq!(vec![3, 2, 1], search(&query, &documents, &recorder, 10));
    let recorder = Recorder::new();
    assert_eq!(vec![3, 2], search(&query, &documents, &recorder, 2));
}

#[test]
fn a_query_without_terms_finds_nothing() {
    let query: Vec<QueryTerm> = Vec::new();
    let documents = HashMap::new();
    let recorder = Recorder::new();
    assert!(search(&query, &documents, &recorder, 10).is_empty());
    assert!(recorder.calls.borrow().is_empty());
}

#[test]
fn no_room_finds_nothing() {
    let query = vec![term("a", &[(1, 3), (2, 9)])];
    let documents = HashMap::new();
    let recorder = Recorder::new();
    assert!(search(&query, &documents, &recorder, 0).is_empty());
    let recorder = Recorder::new();
    assert!(search(&query, &documents, &recorder, -1).is_empty());
}

#[test]
fn a_term_without_postings_says_nothing() {
    let with = vec![
        term("a", &[(1, 3), (2, 9)]),
        QueryTerm { term: "b".to_string(), data: None, postings: vec![] },
    ];
    let without = vec![term("a", &[(1, 3), (2, 9)])];
    let documents = HashMap::new();

    let recorder = Recorder::new();
    let results = search(&with, &documents, &recorder, 10);
    let calls = recorder.calls.borrow();
    assert_eq!(2, calls.len());
    for call in calls.iter() {
        assert_eq!(TermData { count: 0, document_count: 0 }, call.3[1]);
        assert_eq!(DocumentTermData { body_count: 0, path_count: 0 }, call.4[1]);
    }

    let other = Recorder::new();
    assert_eq!(results, search(&without, &documents, &other, 10));
}

#[test]
fn an_unknown_document_gets_the_zero_record() {
    let query = vec![term("a", &[(1, 3), (2, 9)])];
    let mut documents = HashMap::new();
    documents.insert(2, DocumentData { path: "/two".to_string(), length: 22 });
    let recorder = Recorder::new();
    search(&query, &documents, &recorder, 10);
    let calls = recorder.calls.borrow();
    assert_eq!((1, "".to_string(), 0), (calls[0].0, calls[0].1.clone(), calls[0].2));
    assert_eq!((2, "/two".to_string(), 22), (calls[1].0, calls[1].1.clone(), calls[1].2));
}

#[test]
fn lowest_document_is_the_lowest_head() {
    let query = vec![term("a", &[(5, 1), (8, 1)]), term("b", &[(3, 1)]), term("c", &[])];
    assert_eq!(Some(3), lowest_document(&query, &vec![0, 0, 0]));
    assert_eq!(Some(5), lowest_document(&query, &vec![0, 1, 0]));
    assert_eq!(Some(8), lowest_document(&query, &vec![1, 1, 0]));
    assert_eq!(None, lowest_document(&query, &vec![2, 1, 0]));
    assert_eq!(Some(3), lowest_document(&query, &vec![2, 0]));
    assert_eq!(None, lowest_document(&Vec::new(), &Vec::new()));
}

#[test]
fn take_records_moves_the_lists_that_stand_at_the_document() {
    let query = vec![term("a", &[(3, 7), (8, 1)]), term("b", &[(3, 9)]), term("c", &[(4, 2)])];
    let mut cursors = vec![0, 0, 0];
    let records = take_records(&query, &mut cursors, 3);
    assert_eq!(vec![record(7), record(9), record(0)], records);
    assert_eq!(vec![1, 1, 0], cursors);
    let records = take_records(&query, &mut cursors, 4);
    assert_eq!(vec![record(0), record(0), record(2)], records);
    assert_eq!(vec![1, 1, 1], cursors);
}
