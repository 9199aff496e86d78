//! The documents with the best scores, kept in a bounded queue.
use crate::index::DocumentId;
use crate::index::Score;
use priority_queue::PriorityQueue;
use std::collections::hash_map::RandomState;
use vstd::prelude::*;

verus! {

/// The rank under which a document waits in the queue. The queue hands out its
/// greatest rank first, and the document that is to leave first is the one
/// with the lowest score and, among equal scores, the lowest identifier: so
/// the rank holds both counted down from their greatest value.
pub type Rank = (u64, u128);

/// `priority_queue::PriorityQueue`, a queue of items, each under a priority,
/// that hands out the item of the greatest priority first. What it holds is
/// known as `queue_ranks`.
#[verifier::external_type_specification]
#[verifier::external_body]
#[verifier::reject_recursive_types(I)]
#[verifier::reject_recursive_types(P)]
#[verifier::reject_recursive_types(H)]
pub struct ExPriorityQueue<I, P, H>(PriorityQueue<I, P, H>);

/// The queue of documents by rank.
pub type Queue = PriorityQueue<DocumentId, Rank, RandomState>;

/// The items that a queue holds, each with its rank.
pub uninterp spec fn queue_ranks(queue: Queue) -> Map<DocumentId, Rank>;

/// What a queue holds that holds nothing.
pub open spec fn no_ranks() -> Map<DocumentId, Rank> {
    Map::empty()
}

/// The order of ranks: that of tuples, by the first member and then by the second.
pub open spec fn rank_le(a: Rank, b: Rank) -> bool {
    a.0 < b.0 || (a.0 == b.0 && a.1 <= b.1)
}

/// Calls `PriorityQueue::new`, which makes a queue that holds nothing.
#[verifier::external_body]
fn queue_new() -> (made: Queue)
    ensures
        queue_ranks(made) == no_ranks(),
{
    PriorityQueue::new()
}

/// Calls `PriorityQueue::len`: the number of items in the queue.
#[verifier::external_body]
fn queue_len(queue: &Queue) -> (len: usize)
    ensures
        len == queue_ranks(*queue).len(),
{
    queue.len()
}

/// Calls `PriorityQueue::push`, which puts `item` into the queue under `rank`;
/// an item that is in the queue already is kept once, under the new rank.
#[verifier::external_body]
fn queue_push(queue: &mut Queue, item: DocumentId, rank: Rank)
    ensures
        queue_ranks(*final(queue)) == queue_ranks(*old(queue)).insert(item, rank),
{
    queue.push(item, rank);
}

/// Calls `PriorityQueue::pop`, which takes an item of the greatest rank out
/// of the queue and returns it with its rank, or returns `None` and leaves
/// the queue as it is where the queue holds nothing.
#[verifier::external_body]
fn queue_pop(queue: &mut Queue) -> (popped: Option<(DocumentId, Rank)>)
    ensures
        match popped {
            Some((item, rank)) => {
                &&& queue_ranks(*old(queue)).contains_pair(item, rank)
                &&& forall|other: DocumentId| #[trigger]
                    queue_ranks(*old(queue)).contains_key(other) ==> rank_le(
                        queue_ranks(*old(queue))[other],
                        rank,
                    )
                &&& queue_ranks(*final(queue)) == queue_ranks(*old(queue)).remove(item)
            },
            None => {
                &&& queue_ranks(*old(queue)) == no_ranks()
                &&& queue_ranks(*final(queue)) == queue_ranks(*old(queue))
            },
        },
{
    queue.pop()
}

/// The rank under which `doc` waits when its score is `score`.
pub open spec fn rank_of(doc: DocumentId, score: Score) -> Rank {
    ((u64::MAX - score) as u64, (u128::MAX - doc) as u128)
}

/// The scores that stand behind `ranks`.
pub open spec fn scores_of(ranks: Map<DocumentId, Rank>) -> Map<DocumentId, Score> {
    Map::new(
        |doc: DocumentId| ranks.contains_key(doc),
        |doc: DocumentId| (u64::MAX - ranks[doc].0) as u64,
    )
}

/// Whether `a` stands no higher than `b` among the documents of `scores`:
/// its score is lower, or the same with an identifier that is no greater.
pub open spec fn no_better(scores: Map<DocumentId, Score>, a: DocumentId, b: DocumentId) -> bool {
    scores[a] < scores[b] || (scores[a] == scores[b] && a <= b)
}

/// Whether `doc` is the document of `scores` that stands lowest.
pub open spec fn is_worst(scores: Map<DocumentId, Score>, doc: DocumentId) -> bool {
    &&& scores.contains_key(doc)
    &&& forall|other: DocumentId| #[trigger]
        scores.contains_key(other) ==> no_better(scores, doc, other)
}

/// The document of `scores` that stands lowest.
pub open spec fn worst(scores: Map<DocumentId, Score>) -> DocumentId {
    choose|doc: DocumentId| is_worst(scores, doc)
}

/// The most documents that a limit of `max_docs` lets stay.
pub open spec fn limit_of(max_docs: i32) -> nat {
    if max_docs < 0 {
        0
    } else {
        max_docs as nat
    }
}

/// The documents that stay when `doc` comes with `score`: all of them, or,
/// where that is more than `limit`, all but the one that stands lowest.
pub open spec fn kept_after(
    scores: Map<DocumentId, Score>,
    doc: DocumentId,
    score: Score,
    limit: nat,
) -> Map<DocumentId, Score> {
    let all = scores.insert(doc, score);
    if all.len() > limit {
        all.remove(worst(all))
    } else {
        all
    }
}

/// The documents of `scores` from the one that stands lowest to the one that
/// stands highest.
pub open spec fn worst_first(scores: Map<DocumentId, Score>) -> Seq<DocumentId>
    decreases scores.len(),
    when scores.dom().finite()
{
    if scores.len() == 0 || !scores.contains_key(worst(scores)) {
        Seq::empty()
    } else {
        seq![worst(scores)] + worst_first(scores.remove(worst(scores)))
    }
}

/// The documents of `scores` from the one that stands highest to the one
/// that stands lowest.
pub open spec fn best_first(scores: Map<DocumentId, Score>) -> Seq<DocumentId> {
    worst_first(scores).reverse()
}

/// No two documents stand lowest.
pub proof fn lemma_worst_is_unique(scores: Map<DocumentId, Score>, doc: DocumentId)
    requires
        is_worst(scores, doc),
    ensures
        worst(scores) == doc,
{
    let chosen = worst(scores);
    assert(is_worst(scores, chosen));
    assert(scores.contains_key(chosen));
    assert(no_better(scores, doc, chosen));
    assert(no_better(scores, chosen, doc));
}

/// The documents with the best scores among those seen, at most as many as a
/// limit allows.
pub struct TopDocs {
    queue: Queue,
    max_docs: i32,
}

impl TopDocs {
    /// Whether the queue is in order: it holds finitely many documents, each
    /// under a rank that is made from its identifier.
    pub closed spec fn wf(self) -> bool {
        &&& queue_ranks(self.queue).dom().finite()
        &&& forall|doc: DocumentId| #[trigger]
            queue_ranks(self.queue).contains_key(doc) ==> queue_ranks(self.queue)[doc]
                == rank_of(doc, scores_of(queue_ranks(self.queue))[doc])
    }

    /// The documents that are kept, each with its score.
    pub closed spec fn scores(self) -> Map<DocumentId, Score> {
        scores_of(queue_ranks(self.queue))
    }

    /// The most documents that are kept.
    pub closed spec fn limit(self) -> nat {
        limit_of(self.max_docs)
    }

    /// Keeps nothing yet, and will keep at most `max_docs` documents.
    pub fn new(max_docs: i32) -> (top: TopDocs)
        ensures
            top.wf(),
            top.scores() == Map::<DocumentId, Score>::empty(),
            top.limit() == limit_of(max_docs),
    {
        let top = TopDocs { queue: queue_new(), max_docs };
        assert(top.scores() =~= Map::<DocumentId, Score>::empty());
        top
    }

    /// Takes `doc` in with `score`, and lets the document that stands lowest
    /// go where that makes more documents than the limit allows.
    pub fn push(&mut self, doc: DocumentId, score: Score)
        requires
            old(self).wf(),
        ensures
            final(self).wf(),
            final(self).scores() == kept_after(old(self).scores(), doc, score, old(self).limit()),
            final(self).limit() == old(self).limit(),
    {
        let ghost before = self.scores();
        queue_push(&mut self.queue, doc, (u64::MAX - score, u128::MAX - doc));
        let ghost all = self.scores();
        assert(all =~= before.insert(doc, score));
        let len = queue_len(&self.queue);
        assert(all.dom() =~= queue_ranks(self.queue).dom());
        if self.max_docs < 0 || len > self.max_docs as usize {
            let popped = queue_pop(&mut self.queue);
            proof {
                let (gone, rank) = popped->0;
                assert(all.contains_key(gone));
                assert forall|other: DocumentId| #[trigger] all.contains_key(other) implies no_better(
                    all,
                    gone,
                    other,
                ) by {
                    assert(queue_ranks(old(self).queue).insert(
                        doc,
                        rank_of(doc, score),
                    ).contains_key(other));
                }
                lemma_worst_is_unique(all, gone);
                assert(self.scores() =~= all.remove(gone));
            }
        }
    }

    /// The documents that are kept, from the one that stands highest to the
    /// one that stands lowest.
    pub fn into_sorted(self) -> (docs: Vec<DocumentId>)
        requires
            self.wf(),
        ensures
            docs@ == best_first(self.scores()),
    {
        let ghost scores = self.scores();
        let mut queue = self.queue;
        let mut rising: Vec<DocumentId> = Vec::new();
        assert(scores.dom() =~= queue_ranks(queue).dom());
        loop
            invariant
                scores.dom().finite(),
                queue_ranks(queue).dom().finite(),
                forall|doc: DocumentId| #[trigger]
                    queue_ranks(queue).contains_key(doc) ==> queue_ranks(queue)[doc] == rank_of(
                        doc,
                        scores_of(queue_ranks(queue))[doc],
                    ),
                rising@ + worst_first(scores_of(queue_ranks(queue))) == worst_first(scores),
            ensures
                rising@ == worst_first(scores),
            decreases queue_ranks(queue).len(),
        {
            let ghost now = scores_of(queue_ranks(queue));
            let ghost ranks = queue_ranks(queue);
            assert(now.dom() =~= ranks.dom());
            match queue_pop(&mut queue) {
                None => {
                    assert(now.len() == 0);
                    assert(rising@ + Seq::<DocumentId>::empty() =~= rising@);
                    break ;
                },
                Some((doc, rank)) => {
                    proof {
                        assert(now.contains_key(doc));
                        assert forall|other: DocumentId| #[trigger]
                            now.contains_key(other) implies no_better(now, doc, other) by {
                            assert(ranks.contains_key(other));
                        }
                        lemma_worst_is_unique(now, doc);
                        assert(scores_of(queue_ranks(queue)) =~= now.remove(doc));
                        assert(now.len() > 0);
                        assert(rising@.push(doc) + worst_first(now.remove(doc)) =~= rising@ + (
                        seq![doc] + worst_first(now.remove(doc))));
                    }
                    rising.push(doc);
                },
            }
        }
        let mut docs: Vec<DocumentId> = Vec::new();
        let mut left = rising.len();
        while left > 0
            invariant
                left <= rising.len(),
                docs@.len() == rising.len() - left,
                forall|i: int| 0 <= i < docs@.len() ==> docs@[i] == rising@[rising.len() - 1 - i],
            decreases left,
        {
            left = left - 1;
            docs.push(rising[left]);
        }
        assert(docs@ =~= rising@.reverse());
        docs
    }
}

} // verus!
