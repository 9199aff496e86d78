//! The records of the index and the search over posting lists.
use crate::search_laws::lemma_no_terms_no_visits;
use crate::search_laws::lemma_no_visits_no_results;
use crate::search_laws::lemma_results_are_listed;
use crate::search_laws::lemma_results_within_limit;
use crate::search_laws::listed;
use crate::top_docs::best_first;
use crate::top_docs::kept_after;
use crate::top_docs::limit_of;
use crate::top_docs::TopDocs;
use std::collections::HashMap;
use vstd::prelude::*;

verus! {

/// The identifier of a document.
pub type DocumentId = u128;

/// What a scorer says of a document: the larger, the better.
pub type Score = u64;

/// What the index knows of a document.
#[derive(Debug)]
pub struct DocumentData {
    /// The path that the document was added under.
    pub path: String,
    /// The number of words in the document.
    pub length: u64,
}

/// What a `DocumentData` stands for.
pub ghost struct Document {
    pub path: Seq<char>,
    pub length: u64,
}

impl View for DocumentData {
    type V = Document;

    open spec fn view(&self) -> Document {
        Document { path: self.path@, length: self.length }
    }
}

/// The document record that stands for a document that the index does not know.
pub open spec fn zero_document() -> Document {
    Document { path: Seq::empty(), length: 0 }
}

impl Default for DocumentData {
    fn default() -> (data: DocumentData)
        ensures
            data@ == zero_document(),
    {
        DocumentData { path: String::new(), length: 0 }
    }
}

/// What the index knows of a term.
#[derive(Clone, Copy, Debug, PartialEq, Eq, Structural)]
pub struct TermData {
    /// How often the term occurs.
    pub count: u64,
    /// In how many documents the term occurs.
    pub document_count: u64,
}

/// The term record that stands for a term that the index does not know.
pub open spec fn zero_term() -> TermData {
    TermData { count: 0, document_count: 0 }
}

impl Default for TermData {
    fn default() -> (data: TermData)
        ensures
            data == zero_term(),
    {
        TermData { count: 0, document_count: 0 }
    }
}

/// What the index knows of a term in one document.
#[derive(Clone, Copy, Debug, PartialEq, Eq, Structural)]
pub struct DocumentTermData {
    /// How often the term occurs in the text of the document.
    pub body_count: u64,
    /// How often the term occurs in the path of the document.
    pub path_count: u64,
}

/// The record that stands for a term that does not occur in a document.
pub open spec fn zero_document_term() -> DocumentTermData {
    DocumentTermData { body_count: 0, path_count: 0 }
}

impl Default for DocumentTermData {
    fn default() -> (data: DocumentTermData)
        ensures
            data == zero_document_term(),
    {
        DocumentTermData { body_count: 0, path_count: 0 }
    }
}

/// One entry of a posting list: a document and what is known of the term in it.
pub type Posting = (DocumentId, DocumentTermData);

/// The texts of `terms`.
pub open spec fn term_texts(terms: Seq<String>) -> Seq<Seq<char>> {
    Seq::new(terms.len(), |i: int| terms[i]@)
}

/// Something that gives a document a score for a query.
pub trait Scorer {
    /// Whether `score` may be what the scorer gives for these arguments. A
    /// scorer that says nothing of itself admits every score.
    open spec fn admits(
        &self,
        doc_id: DocumentId,
        doc_data: Document,
        terms: Seq<Seq<char>>,
        term_data: Seq<TermData>,
        doc_term_data: Seq<DocumentTermData>,
        score: Score,
    ) -> bool {
        true
    }

    /// Scores the document `doc_id`. The three slices have one entry for each
    /// term of the query, in the order of the query.
    fn score(
        &self,
        doc_id: DocumentId,
        doc_data: &DocumentData,
        terms: &[String],
        term_data: &[TermData],
        doc_term_data: &[DocumentTermData],
    ) -> (score: Score)
        requires
            terms@.len() == term_data@.len(),
            term_data@.len() == doc_term_data@.len(),
        ensures
            self.admits(
                doc_id,
                doc_data@,
                term_texts(terms@),
                term_data@,
                doc_term_data@,
                score,
            ),
    ;
}

/// The posting at which list `i` stands, if the list has not run out.
pub open spec fn head(lists: Seq<Seq<Posting>>, cursors: Seq<int>, i: int) -> Option<Posting> {
    if 0 <= i < lists.len() && i < cursors.len() && 0 <= cursors[i] < lists[i].len() {
        Some(lists[i][cursors[i]])
    } else {
        None
    }
}

/// Whether list `i` stands at a posting of `doc`.
pub open spec fn stands_at(
    lists: Seq<Seq<Posting>>,
    cursors: Seq<int>,
    i: int,
    doc: DocumentId,
) -> bool {
    match head(lists, cursors, i) {
        Some(posting) => posting.0 == doc,
        None => false,
    }
}

/// Whether list `i` has run out or stands at `doc` or at a higher document.
pub open spec fn stands_no_lower(
    lists: Seq<Seq<Posting>>,
    cursors: Seq<int>,
    i: int,
    doc: DocumentId,
) -> bool {
    match head(lists, cursors, i) {
        Some(posting) => doc <= posting.0,
        None => true,
    }
}

/// The lowest document at which one of the first `upto` lists stands.
pub open spec fn lowest_head(lists: Seq<Seq<Posting>>, cursors: Seq<int>, upto: int) -> Option<
    DocumentId,
>
    decreases upto,
{
    if upto <= 0 {
        None
    } else {
        let before = lowest_head(lists, cursors, upto - 1);
        match head(lists, cursors, upto - 1) {
            None => before,
            Some(posting) => match before {
                None => Some(posting.0),
                Some(doc) => if posting.0 < doc {
                    Some(posting.0)
                } else {
                    before
                },
            },
        }
    }
}

/// What list `i` says of `doc`: the record at which it stands, if that is a
/// record of `doc`, and the zero record otherwise.
pub open spec fn record_at(
    lists: Seq<Seq<Posting>>,
    cursors: Seq<int>,
    doc: DocumentId,
    i: int,
) -> DocumentTermData {
    match head(lists, cursors, i) {
        Some(posting) => if posting.0 == doc {
            posting.1
        } else {
            zero_document_term()
        },
        None => zero_document_term(),
    }
}

/// What each list says of `doc`, in the order of the lists.
pub open spec fn records_at(lists: Seq<Seq<Posting>>, cursors: Seq<int>, doc: DocumentId) -> Seq<
    DocumentTermData,
> {
    Seq::new(lists.len(), |i: int| record_at(lists, cursors, doc, i))
}

/// Where list `i` stands once `doc` was visited: one further, if it stood at `doc`.
pub open spec fn cursor_after(
    lists: Seq<Seq<Posting>>,
    cursors: Seq<int>,
    doc: DocumentId,
    i: int,
) -> int {
    match head(lists, cursors, i) {
        Some(posting) => if posting.0 == doc {
            cursors[i] + 1
        } else {
            cursors[i]
        },
        None => cursors[i],
    }
}

/// Where the lists stand once `doc` was visited.
pub open spec fn advance(lists: Seq<Seq<Posting>>, cursors: Seq<int>, doc: DocumentId) -> Seq<
    int,
> {
    Seq::new(cursors.len(), |i: int| cursor_after(lists, cursors, doc, i))
}

/// The number of postings that the first `upto` lists still hold.
pub open spec fn postings_left(lists: Seq<Seq<Posting>>, cursors: Seq<int>, upto: int) -> int
    decreases upto,
{
    if upto <= 0 {
        0
    } else {
        postings_left(lists, cursors, upto - 1) + if head(lists, cursors, upto - 1) is Some {
            lists[upto - 1].len() - cursors[upto - 1]
        } else {
            0
        }
    }
}

/// One stop of the merge: a document, and what each list says of it.
pub ghost struct Visit {
    pub doc: DocumentId,
    pub records: Seq<DocumentTermData>,
}

/// The stops that the merge still makes when the lists stand at `cursors`: it
/// visits the lowest document at which a list stands, moves every list that
/// stands there one further, and goes on until all lists have run out.
pub open spec fn visits_from(lists: Seq<Seq<Posting>>, cursors: Seq<int>) -> Seq<Visit>
    decreases postings_left(lists, cursors, lists.len() as int),
    via visits_from_decreases
{
    match lowest_head(lists, cursors, lists.len() as int) {
        None => Seq::empty(),
        Some(doc) => seq![Visit { doc, records: records_at(lists, cursors, doc) }] + visits_from(
            lists,
            advance(lists, cursors, doc),
        ),
    }
}

#[via_fn]
proof fn visits_from_decreases(lists: Seq<Seq<Posting>>, cursors: Seq<int>) {
    match lowest_head(lists, cursors, lists.len() as int) {
        None => {},
        Some(doc) => {
            lemma_lowest_head(lists, cursors, lists.len() as int);
            lemma_advance_leaves_less(lists, cursors, doc, lists.len() as int);
        },
    }
}

/// The lowest head is the document of some head, and no head is lower.
pub proof fn lemma_lowest_head(lists: Seq<Seq<Posting>>, cursors: Seq<int>, upto: int)
    requires
        upto <= lists.len(),
    ensures
        match lowest_head(lists, cursors, upto) {
            Some(doc) => {
                &&& exists|i: int| 0 <= i < upto && #[trigger] stands_at(lists, cursors, i, doc)
                &&& forall|i: int|
                    0 <= i < upto ==> #[trigger] stands_no_lower(lists, cursors, i, doc)
            },
            None => forall|i: int| 0 <= i < upto ==> #[trigger] head(lists, cursors, i) is None,
        },
    decreases upto,
{
    if upto > 0 {
        lemma_lowest_head(lists, cursors, upto - 1);
        match lowest_head(lists, cursors, upto) {
            Some(doc) => {
                if stands_at(lists, cursors, upto - 1, doc) {
                } else {
                    let i = choose|i: int|
                        0 <= i < upto - 1 && #[trigger] stands_at(lists, cursors, i, doc);
                    assert(0 <= i < upto && stands_at(lists, cursors, i, doc));
                }
                assert forall|i: int| 0 <= i < upto implies #[trigger] stands_no_lower(
                    lists,
                    cursors,
                    i,
                    doc,
                ) by {
                    if i < upto - 1 {
                        match lowest_head(lists, cursors, upto - 1) {
                            Some(before) => {
                                assert(stands_no_lower(lists, cursors, i, before));
                            },
                            None => {
                                assert(head(lists, cursors, i) is None);
                            },
                        }
                    }
                }
            },
            None => {},
        }
    }
}

/// Visiting a document leaves no more postings than there were, and fewer
/// where a list stood at the document.
pub proof fn lemma_advance_leaves_less(
    lists: Seq<Seq<Posting>>,
    cursors: Seq<int>,
    doc: DocumentId,
    upto: int,
)
    requires
        0 <= upto <= lists.len(),
    ensures
        0 <= postings_left(lists, advance(lists, cursors, doc), upto) <= postings_left(
            lists,
            cursors,
            upto,
        ),
        (exists|i: int| 0 <= i < upto && #[trigger] stands_at(lists, cursors, i, doc))
            ==> postings_left(lists, advance(lists, cursors, doc), upto) < postings_left(
            lists,
            cursors,
            upto,
        ),
    decreases upto,
{
    if upto > 0 {
        lemma_advance_leaves_less(lists, cursors, doc, upto - 1);
        if exists|i: int| 0 <= i < upto && #[trigger] stands_at(lists, cursors, i, doc) {
            let i = choose|i: int| 0 <= i < upto && #[trigger] stands_at(lists, cursors, i, doc);
            if i < upto - 1 {
                assert(0 <= i < upto - 1 && stands_at(lists, cursors, i, doc));
            }
        }
    }
}

/// The stops of the merge over `lists`, in order.
pub open spec fn visits(lists: Seq<Seq<Posting>>) -> Seq<Visit> {
    visits_from(lists, Seq::new(lists.len(), |i: int| 0int))
}

/// One term of a query, with what the index holds for it.
pub struct QueryTerm {
    /// The term.
    pub term: String,
    /// The record of the term, if the index has one.
    pub data: Option<TermData>,
    /// The posting list of the term.
    pub postings: Vec<Posting>,
}

/// The posting lists of a query, in the order of its terms.
pub open spec fn lists_of(query: Seq<QueryTerm>) -> Seq<Seq<Posting>> {
    Seq::new(query.len(), |i: int| query[i].postings@)
}

/// The terms of a query.
pub open spec fn terms_of(query: Seq<QueryTerm>) -> Seq<Seq<char>> {
    Seq::new(query.len(), |i: int| query[i].term@)
}

/// The records of the terms of a query, with the zero record for a term
/// that the index does not know.
pub open spec fn term_data_of(query: Seq<QueryTerm>) -> Seq<TermData> {
    Seq::new(
        query.len(),
        |i: int|
            match query[i].data {
                Some(data) => data,
                None => zero_term(),
            },
    )
}

/// The positions that `cursors` stand for.
pub open spec fn positions(cursors: Seq<usize>) -> Seq<int> {
    Seq::new(cursors.len(), |i: int| cursors[i] as int)
}

/// The record of `doc` in `documents`, or the zero record where there is none.
pub open spec fn document_for(documents: Map<DocumentId, DocumentData>, doc: DocumentId) -> Document {
    if documents.contains_key(doc) {
        documents[doc]@
    } else {
        zero_document()
    }
}

/// The documents that are kept once the stops have been scored, in order,
/// under a limit on their number.
pub open spec fn kept(stops: Seq<Visit>, scores: Seq<Score>, limit: nat) -> Map<DocumentId, Score>
    decreases stops.len(),
{
    if stops.len() == 0 {
        Map::empty()
    } else {
        kept_after(
            kept(stops.drop_last(), scores.drop_last(), limit),
            stops.last().doc,
            scores.last(),
            limit,
        )
    }
}

/// The result of a search whose stops got `scores`: the documents that are
/// kept, the best first.
pub open spec fn ranking(stops: Seq<Visit>, scores: Seq<Score>, limit: nat) -> Seq<DocumentId> {
    best_first(kept(stops, scores, limit))
}

/// Whether `scores` may be what `scorer` gave at the stops of the merge over
/// `query`, one score for each stop.
pub open spec fn scored<S: Scorer>(
    scorer: S,
    query: Seq<QueryTerm>,
    documents: Map<DocumentId, DocumentData>,
    scores: Seq<Score>,
) -> bool {
    let stops = visits(lists_of(query));
    &&& scores.len() == stops.len()
    &&& forall|j: int|
        0 <= j < stops.len() ==> scorer.admits(
            stops[j].doc,
            document_for(documents, stops[j].doc),
            terms_of(query),
            term_data_of(query),
            stops[j].records,
            #[trigger] scores[j],
        )
}

/// The lowest document at which a posting list of `query` stands, if one of
/// them has not run out.
pub fn lowest_document(query: &Vec<QueryTerm>, cursors: &Vec<usize>) -> (lowest: Option<DocumentId>)
    ensures
        lowest == lowest_head(lists_of(query@), positions(cursors@), query.len() as int),
{
    let mut lowest: Option<DocumentId> = None;
    let mut i: usize = 0;
    while i < query.len()
        invariant
            0 <= i <= query.len(),
            lowest == lowest_head(lists_of(query@), positions(cursors@), i as int),
        decreases query.len() - i,
    {
        if i < cursors.len() && cursors[i] < query[i].postings.len() {
            let doc = query[i].postings[cursors[i]].0;
            lowest = match lowest {
                None => Some(doc),
                Some(before) => if doc < before {
                    Some(doc)
                } else {
                    Some(before)
                },
            };
        }
        i = i + 1;
    }
    lowest
}

/// Takes what each posting list of `query` says of `doc`, and moves every
/// list that stands at `doc` one further.
pub fn take_records(query: &Vec<QueryTerm>, cursors: &mut Vec<usize>, doc: DocumentId) -> (records:
    Vec<DocumentTermData>)
    ensures
        records@ == records_at(lists_of(query@), positions(old(cursors)@), doc),
        positions(final(cursors)@) == advance(lists_of(query@), positions(old(cursors)@), doc),
{
    let mut records: Vec<DocumentTermData> = Vec::new();
    let ghost lists = lists_of(query@);
    let ghost before = positions(cursors@);
    let mut i: usize = 0;
    while i < query.len()
        invariant
            0 <= i <= query.len(),
            lists == lists_of(query@),
            before == positions(old(cursors)@),
            cursors.len() == old(cursors).len(),
            records@.len() == i,
            forall|k: int| 0 <= k < i ==> records@[k] == record_at(lists, before, doc, k),
            forall|k: int|
                0 <= k < cursors.len() ==> cursors@[k] as int == if k < i {
                    cursor_after(lists, before, doc, k)
                } else {
                    before[k]
                },
        decreases query.len() - i,
    {
        let mut record = DocumentTermData::default();
        if i < cursors.len() && cursors[i] < query[i].postings.len() {
            let posting = query[i].postings[cursors[i]];
            if posting.0 == doc {
                record = posting.1;
                let next = cursors[i] + 1;
                cursors.set(i, next);
            }
        }
        records.push(record);
        i = i + 1;
    }
    assert(records@ =~= records_at(lists, before, doc));
    assert(positions(cursors@) =~= advance(lists, before, doc));
    records
}

/// Searches for the documents in which a term of `query` occurs.
///
/// The posting lists are merged: each document that stands in one of them is
/// visited, the lowest first, with what every list says of it. `scorer` gives
/// the document a score, and the `max_docs` documents with the best scores are
/// returned, the best first.
pub fn search<S: Scorer>(
    query: &Vec<QueryTerm>,
    documents: &HashMap<DocumentId, DocumentData>,
    scorer: S,
    max_docs: i32,
) -> (results: Vec<DocumentId>)
    ensures
        exists|scores: Seq<Score>| #[trigger]
            scored(scorer, query@, documents@, scores) && results@ == ranking(
                visits(lists_of(query@)),
                scores,
                limit_of(max_docs),
            ),
        results@.len() <= limit_of(max_docs),
        query@.len() == 0 ==> results@.len() == 0,
        forall|x: int| 0 <= x < results@.len() ==> listed(lists_of(query@), #[trigger] results@[x]),
{
    let n = query.len();
    let ghost lists = lists_of(query@);
    let mut terms: Vec<String> = Vec::new();
    let mut term_data: Vec<TermData> = Vec::new();
    let mut cursors: Vec<usize> = Vec::new();
    let mut i: usize = 0;
    while i < n
        invariant
            n == query.len(),
            0 <= i <= n,
            terms@.len() == i,
            term_data@.len() == i,
            cursors@.len() == i,
            forall|k: int| 0 <= k < i ==> terms@[k]@ == query@[k].term@,
            forall|k: int| 0 <= k < i ==> term_data@[k] == term_data_of(query@)[k],
            forall|k: int| 0 <= k < i ==> cursors@[k] == 0,
        decreases n - i,
    {
        terms.push(query[i].term.clone());
        term_data.push(
            match query[i].data {
                Some(data) => data,
                None => TermData::default(),
            },
        );
        cursors.push(0);
        i = i + 1;
    }
    assert(term_texts(terms@) =~= terms_of(query@));
    assert(term_data@ =~= term_data_of(query@));
    assert(positions(cursors@) =~= Seq::new(lists.len(), |i: int| 0int));
    let zero = DocumentData::default();
    let mut top = TopDocs::new(max_docs);
    let ghost mut done: Seq<Visit> = Seq::empty();
    let ghost mut scores: Seq<Score> = Seq::empty();
    loop
        invariant
            n == query.len(),
            lists == lists_of(query@),
            cursors@.len() == n,
            terms@.len() == n,
            term_data@.len() == n,
            term_texts(terms@) == terms_of(query@),
            term_data@ == term_data_of(query@),
            zero@ == zero_document(),
            top.wf(),
            top.limit() == limit_of(max_docs),
            top.scores() == kept(done, scores, limit_of(max_docs)),
            done + visits_from(lists, positions(cursors@)) == visits(lists),
            scores.len() == done.len(),
            forall|j: int|
                0 <= j < done.len() ==> scorer.admits(
                    done[j].doc,
                    document_for(documents@, done[j].doc),
                    terms_of(query@),
                    term_data_of(query@),
                    done[j].records,
                    #[trigger] scores[j],
                ),
        ensures
            top.wf(),
            top.scores() == kept(done, scores, limit_of(max_docs)),
            done == visits(lists),
            scored(scorer, query@, documents@, scores),
        decreases postings_left(lists, positions(cursors@), n as int),
    {
        let ghost before = positions(cursors@);
        match lowest_document(query, &cursors) {
            None => {
                assert(done + Seq::<Visit>::empty() =~= done);
                break ;
            },
            Some(doc) => {
                proof {
                    lemma_lowest_head(lists, before, n as int);
                    lemma_advance_leaves_less(lists, before, doc, n as int);
                }
                let records = take_records(query, &mut cursors, doc);
                let doc_data = match documents.get(&doc) {
                    Some(data) => data,
                    None => &zero,
                };
                let score = scorer.score(
                    doc,
                    doc_data,
                    terms.as_slice(),
                    term_data.as_slice(),
                    records.as_slice(),
                );
                top.push(doc, score);
                proof {
                    let stop = Visit { doc, records: records@ };
                    let rest = visits_from(lists, positions(cursors@));
                    assert(done.push(stop) + rest =~= done + (seq![stop] + rest));
                    assert(done.push(stop).drop_last() =~= done);
                    assert(scores.push(score).drop_last() =~= scores);
                    done = done.push(stop);
                    scores = scores.push(score);
                }
            },
        }
    }
    let results = top.into_sorted();
    proof {
        lemma_results_within_limit(done, scores, limit_of(max_docs));
        if n == 0 {
            lemma_no_terms_no_visits(lists);
            lemma_no_visits_no_results(scores, limit_of(max_docs));
        }
        assert forall|x: int| 0 <= x < results@.len() implies listed(
            lists,
            #[trigger] results@[x],
        ) by {
            lemma_results_are_listed(lists, scores, limit_of(max_docs), x);
        }
    }
    results
}

} // verus!
