//! What holds of every search.
use crate::index::advance;
use crate::index::record_at;
use crate::index::records_at;
use crate::index::zero_document_term;
use crate::index::head;
use crate::index::kept;
use crate::index::lemma_lowest_head;
use crate::index::lowest_head;
use crate::index::postings_left;
use crate::index::ranking;
use crate::index::stands_at;
use crate::index::stands_no_lower;
use crate::index::visits;
use crate::index::visits_from;
use crate::index::DocumentId;
use crate::index::Posting;
use crate::index::Score;
use crate::index::DocumentTermData;
use crate::index::Visit;
use crate::top_docs::best_first;
use crate::top_docs::is_worst;
use crate::top_docs::no_better;
use crate::top_docs::worst;
use crate::top_docs::worst_first;
use vstd::prelude::*;

verus! {

/// Whether each document of `order` stands no higher than those that follow
/// it, and none is there twice.
pub open spec fn rises(scores: Map<DocumentId, Score>, order: Seq<DocumentId>) -> bool {
    forall|i: int, j: int|
        #![trigger order[i], order[j]]
        0 <= i < j < order.len() ==> order[i] != order[j] && no_better(scores, order[i], order[j])
}

/// Whether each document of `order` stands no lower than those that follow
/// it, and none is there twice.
pub open spec fn falls(scores: Map<DocumentId, Score>, order: Seq<DocumentId>) -> bool {
    forall|i: int, j: int|
        #![trigger order[i], order[j]]
        0 <= i < j < order.len() ==> order[i] != order[j] && no_better(scores, order[j], order[i])
}

/// Among finitely many documents, and at least one, one stands lowest.
pub proof fn lemma_worst_exists(scores: Map<DocumentId, Score>)
    requires
        scores.dom().finite(),
        scores.len() > 0,
    ensures
        is_worst(scores, worst(scores)),
    decreases scores.len(),
{
    let one = scores.dom().choose();
    assert(scores.contains_key(one));
    let rest = scores.remove(one);
    if rest.len() == 0 {
        assert forall|other: DocumentId| #[trigger] scores.contains_key(other) implies no_better(
            scores,
            one,
            other,
        ) by {
            if other != one {
                assert(rest.contains_key(other));
                assert(rest.dom().contains(other));
            }
        }
        assert(is_worst(scores, one));
    } else {
        lemma_worst_exists(rest);
        let low = worst(rest);
        assert(rest.contains_key(low));
        let lowest = if no_better(scores, one, low) {
            one
        } else {
            low
        };
        assert forall|other: DocumentId| #[trigger] scores.contains_key(other) implies no_better(
            scores,
            lowest,
            other,
        ) by {
            if other != one {
                assert(rest.contains_key(other));
                assert(no_better(rest, low, other));
            }
        }
        assert(is_worst(scores, lowest));
    }
}

/// The documents from the lowest to the highest are all the documents, each
/// once, and each stands no higher than those that follow it.
pub proof fn lemma_worst_first(scores: Map<DocumentId, Score>)
    requires
        scores.dom().finite(),
    ensures
        worst_first(scores).len() == scores.len(),
        forall|doc: DocumentId| scores.contains_key(doc) <==> worst_first(scores).contains(doc),
        rises(scores, worst_first(scores)),
    decreases scores.len(),
{
    let all = worst_first(scores);
    if scores.len() == 0 {
        assert forall|doc: DocumentId| scores.contains_key(doc) implies false by {
            assert(scores.dom().contains(doc));
        }
    } else {
        lemma_worst_exists(scores);
        let low = worst(scores);
        let rest = scores.remove(low);
        lemma_worst_first(rest);
        let tail = worst_first(rest);
        assert(all =~= seq![low] + tail);
        assert forall|doc: DocumentId| scores.contains_key(doc) <==> all.contains(doc) by {
            if scores.contains_key(doc) {
                if doc == low {
                    assert(all[0] == doc);
                } else {
                    assert(rest.contains_key(doc));
                    let k = choose|k: int| 0 <= k < tail.len() && tail[k] == doc;
                    assert(all[k + 1] == doc);
                }
            }
            if all.contains(doc) {
                let k = choose|k: int| 0 <= k < all.len() && all[k] == doc;
                if k > 0 {
                    assert(tail[k - 1] == doc);
                    assert(tail.contains(doc));
                }
            }
        }
        assert forall|i: int, j: int|
            #![trigger all[i], all[j]]
            0 <= i < j < all.len() implies all[i] != all[j] && no_better(scores, all[i], all[j]) by {
            assert(tail[j - 1] == all[j]);
            assert(tail.contains(all[j]));
            assert(rest.contains_key(all[j]));
            if i > 0 {
                assert(tail[i - 1] == all[i]);
                assert(tail.contains(all[i]));
                assert(rest.contains_key(all[i]));
                assert(no_better(rest, tail[i - 1], tail[j - 1]));
            }
        }
    }
}

/// The documents from the highest to the lowest are all the documents, each
/// once, and each stands no lower than those that follow it.
pub proof fn lemma_best_first(scores: Map<DocumentId, Score>)
    requires
        scores.dom().finite(),
    ensures
        best_first(scores).len() == scores.len(),
        forall|doc: DocumentId| scores.contains_key(doc) <==> best_first(scores).contains(doc),
        falls(scores, best_first(scores)),
{
    lemma_worst_first(scores);
    let up = worst_first(scores);
    let down = best_first(scores);
    assert forall|i: int, j: int|
        #![trigger down[i], down[j]]
        0 <= i < j < down.len() implies down[i] != down[j] && no_better(scores, down[j], down[i]) by {
        assert(down[i] == up[up.len() - 1 - i]);
        assert(down[j] == up[up.len() - 1 - j]);
    }
    assert forall|doc: DocumentId| scores.contains_key(doc) <==> down.contains(doc) by {
        if up.contains(doc) {
            let k = choose|k: int| 0 <= k < up.len() && up[k] == doc;
            assert(down[up.len() - 1 - k] == doc);
        }
        if down.contains(doc) {
            let k = choose|k: int| 0 <= k < down.len() && down[k] == doc;
            assert(up[up.len() - 1 - k] == doc);
        }
    }
}

/// Whether no document is visited twice.
pub open spec fn visited_once(stops: Seq<Visit>) -> bool {
    forall|i: int, j: int|
        #![trigger stops[i], stops[j]]
        0 <= i < j < stops.len() ==> stops[i].doc != stops[j].doc
}

/// Whether a document with the score `score` stands lower than another one.
pub open spec fn below(
    score: Score,
    doc: DocumentId,
    other_score: Score,
    other: DocumentId,
) -> bool {
    score < other_score || (score == other_score && doc < other)
}

/// Whether `scores` holds `doc` with the score that it got at one of the stops.
pub open spec fn scored_at_stop(
    stops: Seq<Visit>,
    scores: Seq<Score>,
    doc: DocumentId,
    score: Score,
) -> bool {
    exists|k: int| 0 <= k < stops.len() && #[trigger] stops[k].doc == doc && scores[k] == score
}

/// What holds of the documents that are kept.
pub open spec fn keeps_the_best(
    stops: Seq<Visit>,
    scores: Seq<Score>,
    limit: nat,
    held: Map<DocumentId, Score>,
) -> bool {
    &&& held.dom().finite()
    &&& held.len() <= limit
    &&& held.len() <= stops.len()
    &&& (held.len() == limit || held.len() == stops.len())
    &&& (held.len() == stops.len() ==> forall|k: int|
        0 <= k < stops.len() ==> held.contains_key(#[trigger] stops[k].doc))
    &&& forall|doc: DocumentId| #[trigger]
        held.contains_key(doc) ==> scored_at_stop(stops, scores, doc, held[doc])
    &&& forall|k: int, doc: DocumentId|
        0 <= k < stops.len() && !held.contains_key(#[trigger] stops[k].doc)
            && #[trigger] held.contains_key(doc) ==> below(
            scores[k],
            stops[k].doc,
            held[doc],
            doc,
        )
}

/// Where no document is visited twice, the documents that are kept are the
/// best of those that were visited, as many as the limit allows, each with
/// the score that it got.
pub proof fn lemma_kept_are_the_best(stops: Seq<Visit>, scores: Seq<Score>, limit: nat)
    requires
        visited_once(stops),
        scores.len() == stops.len(),
    ensures
        keeps_the_best(stops, scores, limit, kept(stops, scores, limit)),
    decreases stops.len(),
{
    let held = kept(stops, scores, limit);
    if stops.len() == 0 {
        assert(held.dom() =~= Set::<DocumentId>::empty());
    } else {
        let before = stops.drop_last();
        let before_scores = scores.drop_last();
        let last = stops.len() - 1;
        let doc = stops[last].doc;
        let score = scores[last];
        assert forall|i: int, j: int|
            #![trigger before[i], before[j]]
            0 <= i < j < before.len() implies before[i].doc != before[j].doc by {
            assert(stops[i].doc != stops[j].doc);
        }
        lemma_kept_are_the_best(before, before_scores, limit);
        let old = kept(before, before_scores, limit);
        assert(!old.contains_key(doc)) by {
            if old.contains_key(doc) {
                assert(scored_at_stop(before, before_scores, doc, old[doc]));
                let k = choose|k: int|
                    0 <= k < before.len() && #[trigger] before[k].doc == doc && before_scores[k]
                        == old[doc];
                assert(stops[k].doc != stops[last].doc);
            }
        }
        let all = old.insert(doc, score);
        assert(all.len() == old.len() + 1);
        assert forall|other: DocumentId| #[trigger] all.contains_key(other) implies scored_at_stop(
            stops,
            scores,
            other,
            all[other],
        ) by {
            if other == doc {
                assert(stops[last].doc == doc && scores[last] == score);
            } else {
                assert(old.contains_key(other));
                let k = choose|k: int|
                    0 <= k < before.len() && #[trigger] before[k].doc == other && before_scores[k]
                        == old[other];
                assert(stops[k].doc == other && scores[k] == all[other]);
            }
        }
        if all.len() > limit {
            lemma_worst_exists(all);
            let low = worst(all);
            assert(held == all.remove(low));
            assert(held.len() == limit);
            assert forall|k: int, other: DocumentId|
                0 <= k < stops.len() && !held.contains_key(#[trigger] stops[k].doc)
                    && #[trigger] held.contains_key(other) implies below(
                scores[k],
                stops[k].doc,
                held[other],
                other,
            ) by {
                assert(all.contains_key(other));
                assert(no_better(all, low, other));
                if stops[k].doc == low {
                    if k < last {
                        assert(before[k].doc == low);
                        assert(scored_at_stop(before, before_scores, low, old[low]));
                        let at = choose|at: int|
                            0 <= at < before.len() && #[trigger] before[at].doc == low
                                && before_scores[at] == old[low];
                        if at != k {
                            if at < k {
                                assert(before[at].doc != before[k].doc);
                            } else {
                                assert(before[k].doc != before[at].doc);
                            }
                        }
                    }
                } else {
                    assert(k < last);
                    assert(before[k].doc == stops[k].doc);
                    assert(!old.contains_key(before[k].doc));
                    assert(old.contains_key(low) || low == doc);
                    if low == doc {
                        assert(old.contains_key(other));
                    } else {
                        assert(below(before_scores[k], before[k].doc, old[low], low));
                    }
                }
            }
        } else {
            assert(held == all);
            assert(old.len() < limit);
            assert forall|k: int| 0 <= k < stops.len() implies held.contains_key(
                #[trigger] stops[k].doc,
            ) by {
                if k < last {
                    assert(old.contains_key(before[k].doc));
                }
            }
        }
    }
}

/// Where no document is visited twice, the result holds the best of the
/// documents that were visited, the best first: as many as the limit allows,
/// each once, and all of them where the limit allows that.
pub proof fn lemma_ranking_is_the_best(stops: Seq<Visit>, scores: Seq<Score>, limit: nat)
    requires
        visited_once(stops),
        scores.len() == stops.len(),
    ensures
        ranking(stops, scores, limit).len() == if limit <= stops.len() {
            limit
        } else {
            stops.len()
        },
        falls(kept(stops, scores, limit), ranking(stops, scores, limit)),
        forall|x: int|
            0 <= x < ranking(stops, scores, limit).len() ==> scored_at_stop(
                stops,
                scores,
                #[trigger] ranking(stops, scores, limit)[x],
                kept(stops, scores, limit)[ranking(stops, scores, limit)[x]],
            ),
        forall|k: int, x: int|
            0 <= k < stops.len() && !ranking(stops, scores, limit).contains(
                #[trigger] stops[k].doc,
            ) && 0 <= x < ranking(stops, scores, limit).len() ==> below(
                scores[k],
                stops[k].doc,
                kept(stops, scores, limit)[#[trigger] ranking(stops, scores, limit)[x]],
                ranking(stops, scores, limit)[x],
            ),
        limit >= stops.len() ==> forall|k: int|
            0 <= k < stops.len() ==> ranking(stops, scores, limit).contains(
                #[trigger] stops[k].doc,
            ),
{
    let held = kept(stops, scores, limit);
    let result = ranking(stops, scores, limit);
    lemma_kept_are_the_best(stops, scores, limit);
    lemma_best_first(held);
    assert forall|x: int| 0 <= x < result.len() implies scored_at_stop(
        stops,
        scores,
        #[trigger] result[x],
        held[result[x]],
    ) by {
        assert(result.contains(result[x]));
        assert(held.contains_key(result[x]));
    }
    assert forall|k: int, x: int|
        0 <= k < stops.len() && !result.contains(#[trigger] stops[k].doc) && 0 <= x
            < result.len() implies below(
        scores[k],
        stops[k].doc,
        held[#[trigger] result[x]],
        result[x],
    ) by {
        assert(result.contains(result[x]));
        assert(held.contains_key(result[x]));
        assert(!held.contains_key(stops[k].doc));
    }
}

/// Every document that is kept was visited.
pub proof fn lemma_kept_were_visited(stops: Seq<Visit>, scores: Seq<Score>, limit: nat)
    ensures
        kept(stops, scores, limit).dom().finite(),
        kept(stops, scores, limit).len() <= limit,
        forall|doc: DocumentId| #[trigger]
            kept(stops, scores, limit).contains_key(doc) ==> exists|k: int|
                0 <= k < stops.len() && #[trigger] stops[k].doc == doc,
    decreases stops.len(),
{
    let held = kept(stops, scores, limit);
    if stops.len() == 0 {
        assert(held.dom() =~= Set::<DocumentId>::empty());
    } else {
        let before = stops.drop_last();
        lemma_kept_were_visited(before, scores.drop_last(), limit);
        let old = kept(before, scores.drop_last(), limit);
        let last = stops.len() - 1;
        let all = old.insert(stops[last].doc, scores.last());
        assert(all.len() <= old.len() + 1);
        if all.len() > limit {
            lemma_worst_exists(all);
        }
        assert forall|doc: DocumentId| #[trigger] held.contains_key(doc) implies exists|k: int|
            0 <= k < stops.len() && #[trigger] stops[k].doc == doc by {
            assert(all.contains_key(doc));
            if doc == stops[last].doc {
            } else {
                assert(old.contains_key(doc));
                let k = choose|k: int| 0 <= k < before.len() && #[trigger] before[k].doc == doc;
                assert(stops[k].doc == doc);
            }
        }
    }
}

/// Whether `doc` stands in one of the posting lists.
pub open spec fn listed(lists: Seq<Seq<Posting>>, doc: DocumentId) -> bool {
    exists|i: int, j: int|
        0 <= i < lists.len() && 0 <= j < lists[i].len() && (#[trigger] lists[i][j]).0 == doc
}

/// Every document that the merge visits stands in one of the posting lists.
pub proof fn lemma_visited_are_listed(lists: Seq<Seq<Posting>>, cursors: Seq<int>, k: int)
    requires
        0 <= k < visits_from(lists, cursors).len(),
    ensures
        listed(lists, visits_from(lists, cursors)[k].doc),
    decreases postings_left(lists, cursors, lists.len() as int),
{
    lemma_lowest_head(lists, cursors, lists.len() as int);
    match lowest_head(lists, cursors, lists.len() as int) {
        None => {},
        Some(doc) => {
            if k == 0 {
                let i = choose|i: int|
                    0 <= i < lists.len() && #[trigger] stands_at(lists, cursors, i, doc);
                assert(lists[i][cursors[i]].0 == doc);
            } else {
                crate::index::lemma_advance_leaves_less(lists, cursors, doc, lists.len() as int);
                lemma_visited_are_listed(lists, advance(lists, cursors, doc), k - 1);
            }
        },
    }
}

/// Every document of a result stands in one of the posting lists, whatever
/// the scores were.
pub proof fn lemma_results_are_listed(
    lists: Seq<Seq<Posting>>,
    scores: Seq<Score>,
    limit: nat,
    x: int,
)
    requires
        0 <= x < ranking(visits(lists), scores, limit).len(),
    ensures
        listed(lists, ranking(visits(lists), scores, limit)[x]),
{
    let stops = visits(lists);
    let held = kept(stops, scores, limit);
    let result = ranking(stops, scores, limit);
    lemma_kept_were_visited(stops, scores, limit);
    lemma_best_first(held);
    assert(result.contains(result[x]));
    assert(held.contains_key(result[x]));
    let k = choose|k: int| 0 <= k < stops.len() && #[trigger] stops[k].doc == result[x];
    lemma_visited_are_listed(lists, Seq::new(lists.len(), |i: int| 0int), k);
}

/// A result holds no more documents than the limit allows, and none twice.
pub proof fn lemma_results_within_limit(stops: Seq<Visit>, scores: Seq<Score>, limit: nat)
    ensures
        ranking(stops, scores, limit).len() <= limit,
        ranking(stops, scores, limit).no_duplicates(),
{
    let held = kept(stops, scores, limit);
    lemma_kept_were_visited(stops, scores, limit);
    lemma_best_first(held);
    let result = ranking(stops, scores, limit);
    assert forall|i: int, j: int| 0 <= i < result.len() && 0 <= j < result.len() && i
        != j implies result[i] != result[j] by {
        if i < j {
            assert(result[i] != result[j]);
        } else {
            assert(result[j] != result[i]);
        }
    }
}

/// A query without terms visits no document.
pub proof fn lemma_no_terms_no_visits(lists: Seq<Seq<Posting>>)
    requires
        lists.len() == 0,
    ensures
        visits(lists) == Seq::<Visit>::empty(),
{
}

/// Where no document is visited, the result is empty.
pub proof fn lemma_no_visits_no_results(scores: Seq<Score>, limit: nat)
    ensures
        ranking(Seq::<Visit>::empty(), scores, limit) == Seq::<DocumentId>::empty(),
{
    let held = kept(Seq::<Visit>::empty(), scores, limit);
    assert(held.dom() =~= Set::<DocumentId>::empty());
    lemma_best_first(held);
    assert(ranking(Seq::<Visit>::empty(), scores, limit) =~= Seq::<DocumentId>::empty());
}

/// Where no document may be kept, the result is empty.
pub proof fn lemma_no_room_no_results(stops: Seq<Visit>, scores: Seq<Score>)
    ensures
        ranking(stops, scores, 0) == Seq::<DocumentId>::empty(),
{
    lemma_results_within_limit(stops, scores, 0);
    assert(ranking(stops, scores, 0) =~= Seq::<DocumentId>::empty());
}

/// Whether the documents of each posting list rise from one posting to the next.
pub open spec fn ascending(lists: Seq<Seq<Posting>>) -> bool {
    forall|i: int, a: int, b: int|
        #![trigger lists[i][a], lists[i][b]]
        0 <= i < lists.len() && 0 <= a < b < lists[i].len() ==> lists[i][a].0 < lists[i][b].0
}

/// Whether there is a cursor for each list, and each stands in its list or
/// at its end.
pub open spec fn in_lists(lists: Seq<Seq<Posting>>, cursors: Seq<int>) -> bool {
    &&& cursors.len() == lists.len()
    &&& forall|i: int| 0 <= i < lists.len() ==> 0 <= #[trigger] cursors[i] <= lists[i].len()
}

/// Whether list `i` has run out or stands at a document above `bound`.
pub open spec fn stands_above(
    lists: Seq<Seq<Posting>>,
    cursors: Seq<int>,
    i: int,
    bound: int,
) -> bool {
    match head(lists, cursors, i) {
        Some(posting) => bound < posting.0,
        None => true,
    }
}

/// Whether the documents of `stops` rise from one stop to the next.
pub open spec fn stops_rise(stops: Seq<Visit>) -> bool {
    forall|a: int, b: int|
        #![trigger stops[a], stops[b]]
        0 <= a < b < stops.len() ==> stops[a].doc < stops[b].doc
}

/// Over ascending lists the merge visits the documents in ascending order,
/// each once.
pub proof fn lemma_visits_rise(lists: Seq<Seq<Posting>>, cursors: Seq<int>, bound: int)
    requires
        ascending(lists),
        in_lists(lists, cursors),
        forall|i: int| 0 <= i < lists.len() ==> #[trigger] stands_above(lists, cursors, i, bound),
    ensures
        forall|k: int|
            0 <= k < visits_from(lists, cursors).len() ==> bound < (#[trigger] visits_from(
                lists,
                cursors,
            )[k]).doc,
        stops_rise(visits_from(lists, cursors)),
    decreases postings_left(lists, cursors, lists.len() as int),
{
    let n = lists.len() as int;
    lemma_lowest_head(lists, cursors, n);
    match lowest_head(lists, cursors, n) {
        None => {},
        Some(doc) => {
            let first = choose|i: int| 0 <= i < n && #[trigger] stands_at(lists, cursors, i, doc);
            assert(stands_above(lists, cursors, first, bound));
            crate::index::lemma_advance_leaves_less(lists, cursors, doc, n);
            let after = advance(lists, cursors, doc);
            assert forall|i: int| 0 <= i < n implies #[trigger] stands_above(
                lists,
                after,
                i,
                doc as int,
            ) by {
                assert(stands_no_lower(lists, cursors, i, doc));
                assert(0 <= cursors[i] <= lists[i].len());
                if stands_at(lists, cursors, i, doc) {
                    if cursors[i] + 1 < lists[i].len() {
                        assert(lists[i][cursors[i]].0 < lists[i][cursors[i] + 1].0);
                    }
                }
            }
            assert(in_lists(lists, after)) by {
                assert forall|i: int| 0 <= i < n implies 0 <= #[trigger] after[i]
                    <= lists[i].len() by {
                    assert(0 <= cursors[i] <= lists[i].len());
                }
            }
            lemma_visits_rise(lists, after, doc as int);
            let all = visits_from(lists, cursors);
            let rest = visits_from(lists, after);
            assert forall|k: int| 0 <= k < all.len() implies bound < (#[trigger] all[k]).doc by {
                if k > 0 {
                    assert(all[k] == rest[k - 1]);
                }
            }
            assert forall|a: int, b: int|
                #![trigger all[a], all[b]]
                0 <= a < b < all.len() implies all[a].doc < all[b].doc by {
                assert(all[b] == rest[b - 1]);
                if a > 0 {
                    assert(all[a] == rest[a - 1]);
                }
            }
        },
    }
}

/// Whether one of the stops is at the document of `posting`, with the record
/// of `posting` as what list `i` says.
pub open spec fn visited(stops: Seq<Visit>, i: int, posting: Posting) -> bool {
    exists|k: int|
        0 <= k < stops.len() && (#[trigger] stops[k]).doc == posting.0 && stops[k].records[i]
            == posting.1
}

/// Over ascending lists the merge visits every posting that a list still holds.
pub proof fn lemma_postings_are_visited(
    lists: Seq<Seq<Posting>>,
    cursors: Seq<int>,
    i: int,
    j: int,
)
    requires
        ascending(lists),
        in_lists(lists, cursors),
        0 <= i < lists.len(),
        cursors[i] <= j < lists[i].len(),
    ensures
        visited(visits_from(lists, cursors), i, lists[i][j]),
    decreases postings_left(lists, cursors, lists.len() as int),
{
    let n = lists.len() as int;
    lemma_lowest_head(lists, cursors, n);
    assert(head(lists, cursors, i) is Some);
    match lowest_head(lists, cursors, n) {
        None => {},
        Some(doc) => {
            let all = visits_from(lists, cursors);
            if stands_at(lists, cursors, i, doc) && j == cursors[i] {
                assert(all[0].doc == lists[i][j].0);
                assert(all[0].records[i] == record_at(lists, cursors, doc, i));
            } else {
                crate::index::lemma_advance_leaves_less(lists, cursors, doc, n);
                let after = advance(lists, cursors, doc);
                assert(in_lists(lists, after)) by {
                    assert forall|l: int| 0 <= l < n implies 0 <= #[trigger] after[l]
                        <= lists[l].len() by {
                        assert(0 <= cursors[l] <= lists[l].len());
                    }
                }
                lemma_postings_are_visited(lists, after, i, j);
                let rest = visits_from(lists, after);
                let k = choose|k: int|
                    0 <= k < rest.len() && (#[trigger] rest[k]).doc == lists[i][j].0
                        && rest[k].records[i] == lists[i][j].1;
                assert(all[k + 1] == rest[k]);
            }
        },
    }
}

/// What a list that holds no posting says at every stop is the zero record.
pub proof fn lemma_empty_list_says_nothing(
    lists: Seq<Seq<Posting>>,
    cursors: Seq<int>,
    i: int,
    k: int,
)
    requires
        0 <= i < lists.len(),
        lists[i].len() == 0,
        0 <= k < visits_from(lists, cursors).len(),
    ensures
        visits_from(lists, cursors)[k].records.len() == lists.len(),
        visits_from(lists, cursors)[k].records[i] == zero_document_term(),
    decreases postings_left(lists, cursors, lists.len() as int),
{
    let n = lists.len() as int;
    lemma_lowest_head(lists, cursors, n);
    match lowest_head(lists, cursors, n) {
        None => {},
        Some(doc) => {
            if k > 0 {
                crate::index::lemma_advance_leaves_less(lists, cursors, doc, n);
                lemma_empty_list_says_nothing(lists, advance(lists, cursors, doc), i, k - 1);
            }
        },
    }
}

/// Over ascending lists the merge visits the documents in ascending order,
/// each once, and visits every posting.
pub proof fn lemma_merge_of_ascending_lists(lists: Seq<Seq<Posting>>)
    requires
        ascending(lists),
    ensures
        stops_rise(visits(lists)),
        visited_once(visits(lists)),
        forall|i: int, j: int|
            0 <= i < lists.len() && 0 <= j < lists[i].len() ==> visited(
                visits(lists),
                i,
                #[trigger] lists[i][j],
            ),
{
    let start = Seq::new(lists.len(), |i: int| 0int);
    let stops = visits(lists);
    assert(in_lists(lists, start));
    assert forall|i: int| 0 <= i < lists.len() implies #[trigger] stands_above(
        lists,
        start,
        i,
        -1,
    ) by {}
    lemma_visits_rise(lists, start, -1);
    assert forall|i: int, j: int|
        #![trigger stops[i], stops[j]]
        0 <= i < j < stops.len() implies stops[i].doc != stops[j].doc by {
        assert(stops[i].doc < stops[j].doc);
    }
    assert forall|i: int, j: int| 0 <= i < lists.len() && 0 <= j < lists[i].len() implies visited(
        stops,
        i,
        #[trigger] lists[i][j],
    ) by {
        lemma_postings_are_visited(lists, start, i, j);
    }
}

/// `all` without its entry `i`.
pub open spec fn without<A>(all: Seq<A>, i: int) -> Seq<A> {
    Seq::new(
        (all.len() - 1) as nat,
        |j: int|
            if j < i {
                all[j]
            } else {
                all[j + 1]
            },
    )
}

/// `records` with the zero record put in as entry `i`.
pub open spec fn with_nothing_at(records: Seq<DocumentTermData>, i: int) -> Seq<DocumentTermData> {
    Seq::new(
        records.len() + 1,
        |j: int|
            if j < i {
                records[j]
            } else if j == i {
                zero_document_term()
            } else {
                records[j - 1]
            },
    )
}

/// Whether the stops `with` are the stops `lacking`, with the zero record
/// put in as what list `i` says.
pub open spec fn same_stops_but_for(with: Seq<Visit>, lacking: Seq<Visit>, i: int) -> bool {
    &&& with.len() == lacking.len()
    &&& forall|k: int|
        0 <= k < with.len() ==> (#[trigger] with[k]).doc == lacking[k].doc && with[k].records
            == with_nothing_at(lacking[k].records, i)
}

proof fn lemma_lowest_head_is(lists: Seq<Seq<Posting>>, cursors: Seq<int>, doc: DocumentId)
    requires
        exists|i: int| 0 <= i < lists.len() && #[trigger] stands_at(lists, cursors, i, doc),
        forall|i: int| 0 <= i < lists.len() ==> #[trigger] stands_no_lower(lists, cursors, i, doc),
    ensures
        lowest_head(lists, cursors, lists.len() as int) == Some(doc),
{
    lemma_lowest_head(lists, cursors, lists.len() as int);
    let at = choose|i: int| 0 <= i < lists.len() && #[trigger] stands_at(lists, cursors, i, doc);
    match lowest_head(lists, cursors, lists.len() as int) {
        Some(found) => {
            assert(stands_no_lower(lists, cursors, at, found));
            let there = choose|i: int|
                0 <= i < lists.len() && #[trigger] stands_at(lists, cursors, i, found);
            assert(stands_no_lower(lists, cursors, there, doc));
        },
        None => {
            assert(head(lists, cursors, at) is None);
        },
    }
}

/// A list that holds no posting changes nothing but what it says itself:
/// the merge stops at the same documents, and the other lists say the same.
pub proof fn lemma_empty_list_changes_no_stop(lists: Seq<Seq<Posting>>, cursors: Seq<int>, i: int)
    requires
        0 <= i < lists.len(),
        lists[i].len() == 0,
        cursors.len() == lists.len(),
    ensures
        same_stops_but_for(
            visits_from(lists, cursors),
            visits_from(without(lists, i), without(cursors, i)),
            i,
        ),
    decreases postings_left(lists, cursors, lists.len() as int),
{
    let n = lists.len() as int;
    let others = without(lists, i);
    let fewer = without(cursors, i);
    assert forall|j: int| 0 <= j < n - 1 implies #[trigger] head(others, fewer, j) == head(
        lists,
        cursors,
        if j < i {
            j
        } else {
            j + 1
        },
    ) by {}
    lemma_lowest_head(lists, cursors, n);
    lemma_lowest_head(others, fewer, n - 1);
    match lowest_head(lists, cursors, n) {
        None => {
            match lowest_head(others, fewer, n - 1) {
                Some(doc) => {
                    let j = choose|j: int|
                        0 <= j < n - 1 && #[trigger] stands_at(others, fewer, j, doc);
                    assert(head(others, fewer, j) is Some);
                    assert(head(lists, cursors, if j < i {
                        j
                    } else {
                        j + 1
                    }) is None);
                },
                None => {},
            }
        },
        Some(doc) => {
            let at = choose|j: int| 0 <= j < n && #[trigger] stands_at(lists, cursors, j, doc);
            assert(at != i);
            let there = if at < i {
                at
            } else {
                at - 1
            };
            assert(head(others, fewer, there) == head(lists, cursors, at));
            assert(stands_at(others, fewer, there, doc));
            assert forall|j: int| 0 <= j < n - 1 implies #[trigger] stands_no_lower(
                others,
                fewer,
                j,
                doc,
            ) by {
                assert(stands_no_lower(lists, cursors, if j < i {
                    j
                } else {
                    j + 1
                }, doc));
            }
            lemma_lowest_head_is(others, fewer, doc);
            crate::index::lemma_advance_leaves_less(lists, cursors, doc, n);
            let after = advance(lists, cursors, doc);
            assert(without(after, i) =~= advance(others, fewer, doc));
            lemma_empty_list_changes_no_stop(lists, after, i);
            assert(records_at(lists, cursors, doc) =~= with_nothing_at(
                records_at(others, fewer, doc),
                i,
            ));
            let with = visits_from(lists, cursors);
            let lacking = visits_from(others, fewer);
            let with_rest = visits_from(lists, after);
            let lacking_rest = visits_from(others, advance(others, fewer, doc));
            assert forall|k: int| 0 <= k < with.len() implies (#[trigger] with[k]).doc
                == lacking[k].doc && with[k].records == with_nothing_at(lacking[k].records, i) by {
                if k > 0 {
                    assert(with[k] == with_rest[k - 1]);
                    assert(lacking[k] == lacking_rest[k - 1]);
                }
            }
        },
    }
}

/// A term without postings changes nothing of a search but what is said of
/// that term: the zero record, at every stop.
pub proof fn lemma_term_without_postings(lists: Seq<Seq<Posting>>, i: int)
    requires
        0 <= i < lists.len(),
        lists[i].len() == 0,
    ensures
        same_stops_but_for(visits(lists), visits(without(lists, i)), i),
{
    let start = Seq::new(lists.len(), |j: int| 0int);
    lemma_empty_list_changes_no_stop(lists, start, i);
    assert(without(start, i) =~= Seq::new(without(lists, i).len(), |j: int| 0int));
}

/// A search over ascending lists, whatever the scores were: the result holds
/// as many documents as the limit allows, each once and each from a list,
/// the best first; no document that it lacks stands higher than one that it
/// holds; and where the limit allows, it holds every document of every list.
pub proof fn lemma_search_of_ascending_lists(
    lists: Seq<Seq<Posting>>,
    scores: Seq<Score>,
    limit: nat,
)
    requires
        ascending(lists),
        scores.len() == visits(lists).len(),
    ensures
        ranking(visits(lists), scores, limit).len() == if limit <= visits(lists).len() {
            limit
        } else {
            visits(lists).len()
        },
        ranking(visits(lists), scores, limit).no_duplicates(),
        falls(kept(visits(lists), scores, limit), ranking(visits(lists), scores, limit)),
        forall|x: int|
            0 <= x < ranking(visits(lists), scores, limit).len() ==> listed(
                lists,
                #[trigger] ranking(visits(lists), scores, limit)[x],
            ),
        forall|k: int, x: int|
            0 <= k < visits(lists).len() && !ranking(visits(lists), scores, limit).contains(
                (#[trigger] visits(lists)[k]).doc,
            ) && 0 <= x < ranking(visits(lists), scores, limit).len() ==> below(
                scores[k],
                visits(lists)[k].doc,
                kept(visits(lists), scores, limit)[#[trigger] ranking(
                    visits(lists),
                    scores,
                    limit,
                )[x]],
                ranking(visits(lists), scores, limit)[x],
            ),
        limit >= visits(lists).len() ==> forall|i: int, j: int|
            0 <= i < lists.len() && 0 <= j < lists[i].len() ==> ranking(
                visits(lists),
                scores,
                limit,
            ).contains((#[trigger] lists[i][j]).0),
{
    let stops = visits(lists);
    let result = ranking(stops, scores, limit);
    lemma_merge_of_ascending_lists(lists);
    lemma_ranking_is_the_best(stops, scores, limit);
    lemma_results_within_limit(stops, scores, limit);
    assert forall|x: int| 0 <= x < result.len() implies listed(lists, #[trigger] result[x]) by {
        lemma_results_are_listed(lists, scores, limit, x);
    }
    if limit >= stops.len() {
        assert forall|i: int, j: int|
            0 <= i < lists.len() && 0 <= j < lists[i].len() implies result.contains(
            (#[trigger] lists[i][j]).0,
        ) by {
            assert(visited(stops, i, lists[i][j]));
            let k = choose|k: int|
                0 <= k < stops.len() && (#[trigger] stops[k]).doc == lists[i][j].0
                    && stops[k].records[i] == lists[i][j].1;
            assert(result.contains(stops[k].doc));
        }
    }
}

} // verus!
