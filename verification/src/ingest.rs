//! Counting the terms of one document.
use crate::index::zero_document_term;
use crate::index::zero_term;
use crate::index::DocumentData;
use crate::index::DocumentId;
use crate::index::DocumentTermData;
use crate::index::TermData;
use crate::parse::fed;
use crate::parse::parse_text;
use crate::parse::run_of;
use crate::parse::tokens_of;
use crate::parse::Token;
use crate::parse::TokenProcessor;
use crate::parse::TokenSlice;
use vstd::prelude::*;

verus! {

/// One more, or the greatest number where there is no more.
pub open spec fn one_more(count: u64) -> u64 {
    if count < u64::MAX {
        (count + 1) as u64
    } else {
        count
    }
}

fn increment(count: u64) -> (more: u64)
    ensures
        more == one_more(count),
{
    if count < u64::MAX {
        count + 1
    } else {
        count
    }
}

/// The record of a term that was seen once more.
pub open spec fn counted(data: TermData) -> TermData {
    TermData { count: one_more(data.count), document_count: 1 }
}

/// The record of a term that was seen once more in a document: in its path,
/// or in its text.
pub open spec fn counted_in(data: DocumentTermData, in_path: bool) -> DocumentTermData {
    if in_path {
        DocumentTermData { body_count: data.body_count, path_count: one_more(data.path_count) }
    } else {
        DocumentTermData { body_count: one_more(data.body_count), path_count: data.path_count }
    }
}

/// What has been counted of a document so far.
pub ghost struct Counts {
    /// The document.
    pub id: DocumentId,
    /// Its path.
    pub path: Seq<char>,
    /// Whether the tokens that come are tokens of the path.
    pub in_path: bool,
    /// The number of words that came since the path or the text began.
    pub position: u64,
    /// The greatest number of words that came in the path or in the text.
    pub length: u64,
    /// The terms that came, in the order in which they came first.
    pub names: Seq<Seq<char>>,
    /// The record of each term.
    pub terms: Seq<TermData>,
    /// The record of each term in this document.
    pub doc_terms: Seq<DocumentTermData>,
}

impl Counts {
    /// Whether there is one record of each kind for each term, and no term twice.
    pub open spec fn wf(self) -> bool {
        &&& self.names.len() == self.terms.len()
        &&& self.names.len() == self.doc_terms.len()
        &&& forall|i: int, j: int|
            0 <= i < j < self.names.len() ==> self.names[i] != self.names[j]
    }

    /// Whether `text` came before.
    pub open spec fn knows(self, text: Seq<char>) -> bool {
        exists|i: int| 0 <= i < self.names.len() && self.names[i] == text
    }

    /// Where `text` stands among the terms.
    pub open spec fn slot(self, text: Seq<char>) -> int {
        choose|i: int| 0 <= i < self.names.len() && self.names[i] == text
    }

    /// The counts when nothing has come yet.
    pub open spec fn start(id: DocumentId, path: Seq<char>) -> Counts {
        Counts {
            id,
            path,
            in_path: false,
            position: 0,
            length: 0,
            names: Seq::empty(),
            terms: Seq::empty(),
            doc_terms: Seq::empty(),
        }
    }

    /// The counts when the path begins, or the text.
    pub open spec fn entering(self, in_path: bool) -> Counts {
        Counts { in_path, position: 0, ..self }
    }

    /// The counts once `token` has come: its term is counted once more, and a
    /// whole word makes the document one word longer.
    pub open spec fn step(self, token: Token) -> Counts {
        let position = if token.partial {
            self.position
        } else {
            one_more(self.position)
        };
        let length = if !token.partial && self.length < position {
            position
        } else {
            self.length
        };
        if self.knows(token.text) {
            let i = self.slot(token.text);
            Counts {
                position,
                length,
                terms: self.terms.update(i, counted(self.terms[i])),
                doc_terms: self.doc_terms.update(i, counted_in(self.doc_terms[i], self.in_path)),
                ..self
            }
        } else {
            Counts {
                position,
                length,
                names: self.names.push(token.text),
                terms: self.terms.push(counted(zero_term())),
                doc_terms: self.doc_terms.push(counted_in(zero_document_term(), self.in_path)),
                ..self
            }
        }
    }

    /// The counts once `tokens` have come, one after the other.
    pub open spec fn feed(self, tokens: Seq<Token>) -> Counts
        decreases tokens.len(),
    {
        if tokens.len() == 0 {
            self
        } else {
            self.feed(tokens.drop_last()).step(tokens.last())
        }
    }

    /// The counts of a document with the path `path` and the text `text`.
    pub open spec fn of_document(id: DocumentId, path: Seq<char>, text: Seq<char>) -> Counts {
        Counts::start(id, path).entering(true).feed(tokens_of(path)).entering(false).feed(
            tokens_of(text),
        )
    }
}

/// A step keeps the counts in order.
pub proof fn lemma_step_keeps_wf(counts: Counts, token: Token)
    requires
        counts.wf(),
    ensures
        counts.step(token).wf(),
{
    if counts.knows(token.text) {
    } else {
        let after = counts.step(token);
        assert forall|i: int, j: int| 0 <= i < j < after.names.len() implies after.names[i]
            != after.names[j] by {
            if j == counts.names.len() {
                if after.names[i] == after.names[j] {
                    assert(counts.names[i] == token.text);
                }
            }
        }
    }
}

/// Counts the terms of one document as its tokens come.
pub struct DocProcessor {
    id: DocumentId,
    path: String,
    in_path: bool,
    position: u64,
    length: u64,
    names: Vec<String>,
    terms: Vec<TermData>,
    doc_terms: Vec<DocumentTermData>,
}

impl View for DocProcessor {
    type V = Counts;

    closed spec fn view(&self) -> Counts {
        Counts {
            id: self.id,
            path: self.path@,
            in_path: self.in_path,
            position: self.position,
            length: self.length,
            names: Seq::new(self.names@.len(), |i: int| self.names@[i]@),
            terms: self.terms@,
            doc_terms: self.doc_terms@,
        }
    }
}

/// What is to be written for a document: its record, the record of each of
/// its terms, and the record of each of its terms in it.
pub struct DocumentWrites {
    /// The document.
    pub id: DocumentId,
    /// Its record.
    pub document: DocumentData,
    /// Its terms, in the order in which they came first.
    pub names: Vec<String>,
    /// The record of each term.
    pub terms: Vec<TermData>,
    /// The record of each term in the document.
    pub doc_terms: Vec<DocumentTermData>,
}

impl DocProcessor {
    /// Nothing has come yet of the document `id` with the path `path`.
    pub fn new(id: DocumentId, path: &str) -> (processor: DocProcessor)
        ensures
            processor@ == Counts::start(id, path@),
    {
        let processor = DocProcessor {
            id,
            path: path.to_owned(),
            in_path: false,
            position: 0,
            length: 0,
            names: Vec::new(),
            terms: Vec::new(),
            doc_terms: Vec::new(),
        };
        assert(processor@.names =~= Seq::<Seq<char>>::empty());
        processor
    }

    /// The path begins, or the text.
    pub fn set_in_path(&mut self, in_path: bool)
        ensures
            final(self)@ == old(self)@.entering(in_path),
    {
        self.in_path = in_path;
        self.position = 0;
    }

    /// What is to be written for the document.
    pub fn finalize(&self) -> (writes: DocumentWrites)
        ensures
            writes.id == self@.id,
            writes.document@.path == self@.path,
            writes.document@.length == self@.length,
            writes.names@.len() == self@.names.len(),
            forall|i: int| 0 <= i < self@.names.len() ==> writes.names@[i]@ == self@.names[i],
            writes.terms@ == self@.terms,
            writes.doc_terms@ == self@.doc_terms,
    {
        let mut names: Vec<String> = Vec::new();
        let mut i: usize = 0;
        while i < self.names.len()
            invariant
                0 <= i <= self.names.len(),
                names@.len() == i,
                forall|k: int| 0 <= k < i ==> names@[k]@ == self.names@[k]@,
            decreases self.names.len() - i,
        {
            names.push(self.names[i].clone());
            i = i + 1;
        }
        DocumentWrites {
            id: self.id,
            document: DocumentData { path: self.path.clone(), length: self.length },
            names,
            terms: self.terms.clone(),
            doc_terms: self.doc_terms.clone(),
        }
    }
}

impl TokenProcessor for DocProcessor {
    open spec fn follows(&self, before: &Self, token: Token) -> bool {
        before@.wf() ==> self@.wf() && self@ == before@.step(token)
    }

    fn process_token(&mut self, token: &TokenSlice) {
        let ghost before = self@;
        let text = token.token.to_owned();
        let n = self.names.len();
        let mut i: usize = 0;
        while i < n && !(self.names[i] == text)
            invariant
                n == self.names.len(),
                0 <= i <= n,
                forall|k: int| 0 <= k < i ==> self.names@[k]@ != text@,
            decreases n - i,
        {
            i = i + 1;
        }
        if !token.partial {
            self.position = increment(self.position);
            if self.length < self.position {
                self.length = self.position;
            }
        }
        if i < n {
            if i < self.terms.len() && i < self.doc_terms.len() {
                let term = self.terms[i];
                self.terms.set(
                    i,
                    TermData { count: increment(term.count), document_count: 1 },
                );
                let doc_term = self.doc_terms[i];
                if self.in_path {
                    self.doc_terms.set(
                        i,
                        DocumentTermData {
                            body_count: doc_term.body_count,
                            path_count: increment(doc_term.path_count),
                        },
                    );
                } else {
                    self.doc_terms.set(
                        i,
                        DocumentTermData {
                            body_count: increment(doc_term.body_count),
                            path_count: doc_term.path_count,
                        },
                    );
                }
            }
            proof {
                if before.wf() {
                    assert(before.names[i as int] == token@.text);
                    assert(before.knows(token@.text));
                    assert(before.slot(token@.text) == i);
                    assert(self@.names =~= before.names);
                    lemma_step_keeps_wf(before, token@);
                }
            }
        } else {
            self.names.push(text);
            self.terms.push(TermData { count: 1, document_count: 1 });
            if self.in_path {
                self.doc_terms.push(DocumentTermData { body_count: 0, path_count: 1 });
            } else {
                self.doc_terms.push(DocumentTermData { body_count: 1, path_count: 0 });
            }
            proof {
                if before.wf() {
                    assert(!before.knows(token@.text));
                    assert(self@.names =~= before.names.push(token@.text));
                    lemma_step_keeps_wf(before, token@);
                }
            }
        }
    }
}

proof fn lemma_run_counts(states: Seq<DocProcessor>, tokens: Seq<Token>, upto: int)
    requires
        run_of(states, tokens),
        states[0]@.wf(),
        0 <= upto <= tokens.len(),
    ensures
        states[upto]@.wf(),
        states[upto]@ == states[0]@.feed(tokens.take(upto)),
    decreases upto,
{
    if upto == 0 {
        assert(tokens.take(0) =~= Seq::<Token>::empty());
    } else {
        lemma_run_counts(states, tokens, upto - 1);
        assert(states[upto - 1 + 1].follows(&states[upto - 1], tokens[upto - 1]));
        assert(tokens.take(upto).drop_last() =~= tokens.take(upto - 1));
        assert(tokens.take(upto).last() == tokens[upto - 1]);
    }
}

/// A processor that was given `tokens` holds the counts of `tokens`.
pub proof fn lemma_fed_counts(before: DocProcessor, tokens: Seq<Token>, after: DocProcessor)
    requires
        fed(before, tokens, after),
        before@.wf(),
    ensures
        after@.wf(),
        after@ == before@.feed(tokens),
{
    let states = choose|states: Seq<DocProcessor>|
        #[trigger] run_of(states, tokens) && states.first() == before && states.last() == after;
    lemma_run_counts(states, tokens, tokens.len() as int);
    assert(tokens.take(tokens.len() as int) =~= tokens);
}

/// Counts the terms of the document `id`: those of its path, then those of
/// its text.
pub fn process_document(id: DocumentId, path: &str, text: &str) -> (processor: DocProcessor)
    ensures
        processor@.wf(),
        processor@ == Counts::of_document(id, path@, text@),
{
    let mut processor = DocProcessor::new(id, path);
    processor.set_in_path(true);
    let ghost at_path = processor;
    parse_text(path, &mut processor);
    proof {
        lemma_fed_counts(at_path, tokens_of(path@), processor);
    }
    processor.set_in_path(false);
    let ghost at_text = processor;
    parse_text(text, &mut processor);
    proof {
        lemma_fed_counts(at_text, tokens_of(text@), processor);
    }
    processor
}

} // verus!
