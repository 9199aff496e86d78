//! What holds of the tokens of every text.
use crate::parse::infos_of;
use crate::utf8::lemma_encode_concat;
use crate::parse::lemma_offset_is_encoded_len;
use crate::parse::lemma_parts_bounds;
use crate::parse::lemma_word_end_bounds;
use crate::parse::lemma_words_bounds;
use crate::parse::offset_at;
use crate::parse::parts;
use crate::parse::part_tokens;
use crate::parse::starts_word;
use crate::parse::tokens_of;
use crate::parse::tokens_of_words;
use crate::parse::unicode_alphanumeric;
use crate::parse::word_end;
use crate::parse::word_token;
use crate::parse::words;
use crate::parse::words_from;
use crate::parse::CharInfo;
use crate::parse::Token;
use vstd::prelude::*;
use vstd::utf8::encode_utf8;

verus! {

/// Whether a code point belongs to a word.
pub open spec fn word_char() -> spec_fn(char) -> bool {
    |c: char| unicode_alphanumeric(c)
}

/// Whether a token is a whole word.
pub open spec fn whole_word() -> spec_fn(Token) -> bool {
    |t: Token| !t.partial
}

/// The texts of `tokens`, one after the other.
pub open spec fn joined(tokens: Seq<Token>) -> Seq<char>
    decreases tokens.len(),
{
    if tokens.len() == 0 {
        Seq::empty()
    } else {
        joined(tokens.drop_last()) + tokens.last().text
    }
}

/// The tokens of the words that take the positions `ranges` of `text`.
pub open spec fn tokens_at(text: Seq<char>, ranges: Seq<(int, int)>) -> Seq<Token> {
    Seq::new(ranges.len(), |k: int| word_token(text, ranges[k]))
}

/// An empty text has no tokens.
pub proof fn lemma_empty_text_has_no_tokens(text: Seq<char>)
    requires
        text.len() == 0,
    ensures
        tokens_of(text) == Seq::<Token>::empty(),
{
    assert(infos_of(text).len() == 0);
    assert(words(infos_of(text)).len() == 0);
}

proof fn lemma_filter_none<A>(s: Seq<A>, pred: spec_fn(A) -> bool)
    requires
        forall|i: int| 0 <= i < s.len() ==> !pred(#[trigger] s[i]),
    ensures
        s.filter(pred) == Seq::<A>::empty(),
    decreases s.len(),
{
    reveal(Seq::filter);
    if s.len() > 0 {
        lemma_filter_none(s.drop_last(), pred);
    }
}

proof fn lemma_filter_all<A>(s: Seq<A>, pred: spec_fn(A) -> bool)
    requires
        forall|i: int| 0 <= i < s.len() ==> pred(#[trigger] s[i]),
    ensures
        s.filter(pred) == s,
    decreases s.len(),
{
    reveal(Seq::filter);
    if s.len() > 0 {
        lemma_filter_all(s.drop_last(), pred);
        assert(s.drop_last().push(s.last()) =~= s);
    }
}

proof fn lemma_joined_concat(a: Seq<Token>, b: Seq<Token>)
    ensures
        joined(a + b) == joined(a) + joined(b),
    decreases b.len(),
{
    if b.len() == 0 {
        assert(a + b =~= a);
        assert(joined(a) + joined(b) =~= joined(a));
    } else {
        assert((a + b).drop_last() =~= a + b.drop_last());
        lemma_joined_concat(a, b.drop_last());
        assert(joined(a + b) =~= joined(a) + joined(b));
    }
}

proof fn lemma_whole_words_of_first(text: Seq<char>, count: int)
    requires
        0 <= count <= words(infos_of(text)).len(),
    ensures
        tokens_of_words(text, count).filter(whole_word()) == tokens_at(
            text,
            words(infos_of(text)).take(count),
        ),
    decreases count,
{
    let all = words(infos_of(text));
    if count <= 0 {
        lemma_filter_none(Seq::<Token>::empty(), whole_word());
        assert(tokens_at(text, all.take(0)) =~= Seq::<Token>::empty());
    } else {
        lemma_whole_words_of_first(text, count - 1);
        let word = word_token(text, all[count - 1]);
        let before = tokens_of_words(text, count - 1);
        Seq::filter_distributes_over_add(before + seq![word], part_tokens(word), whole_word());
        Seq::filter_distributes_over_add(before, seq![word], whole_word());
        lemma_filter_none(part_tokens(word), whole_word());
        lemma_filter_all(seq![word], whole_word());
        assert(tokens_at(text, all.take(count)) =~= tokens_at(text, all.take(count - 1)) + seq![
            word,
        ]);
        assert(tokens_of_words(text, count).filter(whole_word()) =~= tokens_at(
            text,
            all.take(count),
        ));
    }
}

/// The whole-word tokens of a text are the tokens of its words, in order.
pub proof fn lemma_whole_words_are_the_words(text: Seq<char>)
    ensures
        tokens_of(text).filter(whole_word()) == tokens_at(text, words(infos_of(text))),
{
    let all = words(infos_of(text));
    lemma_whole_words_of_first(text, all.len() as int);
    assert(all.take(all.len() as int) =~= all);
}

/// Where the words that begin at `i` or later leave off reading: at `i`, or,
/// where `i` is inside a word, at the end of that word.
spec fn resume(infos: Seq<CharInfo>, i: int) -> int {
    if i > 0 && infos[i - 1].alphanumeric {
        word_end(infos, i)
    } else {
        i
    }
}

proof fn lemma_join_from(text: Seq<char>, i: int)
    requires
        0 <= i <= text.len(),
    ensures
        joined(tokens_at(text, words_from(infos_of(text), i))) == text.skip(
            resume(infos_of(text), i),
        ).filter(word_char()),
        i <= resume(infos_of(text), i) <= text.len(),
    decreases text.len() - i,
{
    let infos = infos_of(text);
    let pred = word_char();
    lemma_word_end_bounds(infos, i);
    if i >= text.len() {
        assert(tokens_at(text, words_from(infos, i)) =~= Seq::<Token>::empty());
        assert(text.skip(resume(infos, i)) =~= Seq::<char>::empty());
        lemma_filter_none(Seq::<char>::empty(), pred);
    } else {
        lemma_join_from(text, i + 1);
        lemma_word_end_bounds(infos, i + 1);
        let rest = words_from(infos, i + 1);
        if starts_word(infos, i) {
            let end = word_end(infos, i);
            let word = word_token(text, (i, end));
            assert(tokens_at(text, words_from(infos, i)) =~= seq![word] + tokens_at(text, rest));
            lemma_joined_concat(seq![word], tokens_at(text, rest));
            assert(seq![word].drop_last() =~= Seq::<Token>::empty());
            assert(joined(seq![word]) =~= word.text) by {
                reveal_with_fuel(joined, 2);
            }
            assert(text.skip(i) =~= text.subrange(i, end) + text.skip(end));
            Seq::filter_distributes_over_add(text.subrange(i, end), text.skip(end), pred);
            assert forall|k: int| 0 <= k < text.subrange(i, end).len() implies pred(
                #[trigger] text.subrange(i, end)[k],
            ) by {
                assert(infos[i + k].alphanumeric);
            }
            lemma_filter_all(text.subrange(i, end), pred);
        } else if infos[i].alphanumeric {
        } else {
            assert(text.skip(i) =~= seq![text[i]] + text.skip(i + 1));
            Seq::filter_distributes_over_add(seq![text[i]], text.skip(i + 1), pred);
            lemma_filter_none(seq![text[i]], pred);
            assert(text.skip(i).filter(pred) =~= text.skip(i + 1).filter(pred));
        }
    }
}

/// The whole-word tokens of a text, joined, are the code points of the text
/// that belong to a word, in order.
pub proof fn lemma_whole_words_join_to_word_chars(text: Seq<char>)
    ensures
        joined(tokens_of(text).filter(whole_word())) == text.filter(word_char()),
{
    lemma_whole_words_are_the_words(text);
    lemma_join_from(text, 0);
    assert(text.skip(0) =~= text);
}

/// Each word is a run of code points that belong to a word, with none before
/// it and none after it, and the words follow each other in the text.
pub proof fn lemma_words_are_maximal_runs(infos: Seq<CharInfo>, k: int)
    requires
        0 <= k < words(infos).len(),
    ensures
        0 <= words(infos)[k].0 < words(infos)[k].1 <= infos.len(),
        forall|i: int| words(infos)[k].0 <= i < words(infos)[k].1 ==> infos[i].alphanumeric,
        words(infos)[k].0 == 0 || !infos[words(infos)[k].0 - 1].alphanumeric,
        words(infos)[k].1 == infos.len() || !infos[words(infos)[k].1].alphanumeric,
        k > 0 ==> words(infos)[k - 1].1 < words(infos)[k].0,
{
    lemma_runs_from(infos, 0, k);
    if k > 0 {
        lemma_runs_from(infos, 0, k - 1);
        lemma_order_from(infos, 0, k);
    }
}

proof fn lemma_runs_from(infos: Seq<CharInfo>, from: int, k: int)
    requires
        0 <= from,
        0 <= k < words_from(infos, from).len(),
    ensures
        from <= words_from(infos, from)[k].0 < words_from(infos, from)[k].1 <= infos.len(),
        starts_word(infos, words_from(infos, from)[k].0),
        words_from(infos, from)[k].1 == word_end(infos, words_from(infos, from)[k].0),
        forall|i: int|
            words_from(infos, from)[k].0 <= i < words_from(infos, from)[k].1
                ==> infos[i].alphanumeric,
        words_from(infos, from)[k].1 == infos.len() || !infos[words_from(
            infos,
            from,
        )[k].1].alphanumeric,
    decreases infos.len() - from,
{
    if from >= infos.len() {
    } else if starts_word(infos, from) {
        if k > 0 {
            lemma_runs_from(infos, from + 1, k - 1);
        } else {
            lemma_word_end_bounds(infos, from);
            lemma_word_end_bounds(infos, from);
        }
    } else {
        lemma_runs_from(infos, from + 1, k);
    }
}

proof fn lemma_order_from(infos: Seq<CharInfo>, from: int, k: int)
    requires
        0 <= from,
        0 < k < words_from(infos, from).len(),
    ensures
        words_from(infos, from)[k - 1].1 < words_from(infos, from)[k].0,
    decreases infos.len() - from,
{
    if from >= infos.len() {
    } else if starts_word(infos, from) {
        if k > 1 {
            lemma_order_from(infos, from + 1, k - 1);
        } else {
            // The word that begins at `from` ends before the next one begins.
            let end = word_end(infos, from);
            lemma_word_end_bounds(infos, from);
            lemma_word_end_bounds(infos, from);
            lemma_runs_from(infos, from + 1, 0);
            let next = words_from(infos, from + 1)[0].0;
            if next <= end {
                if next < end {
                    assert(infos[next - 1].alphanumeric);
                } else {
                    assert(!infos[end].alphanumeric);
                }
            }
        }
    } else {
        lemma_order_from(infos, from + 1, k);
    }
}

/// Whether the bytes of `text` from the offset of `token` on are the text of
/// `token`.
pub open spec fn stands_at_its_offset(text: Seq<char>, token: Token) -> bool {
    &&& token.offset + encode_utf8(token.text).len() <= encode_utf8(text).len()
    &&& encode_utf8(text).subrange(
        token.offset as int,
        (token.offset + encode_utf8(token.text).len()) as int,
    ) == encode_utf8(token.text)
}

proof fn lemma_range_stands_at_its_offset(text: Seq<char>, from: int, to: int)
    requires
        0 <= from <= to <= text.len(),
    ensures
        offset_at(infos_of(text), from) + encode_utf8(text.subrange(from, to)).len()
            <= encode_utf8(text).len(),
        0 <= offset_at(infos_of(text), from),
        encode_utf8(text).subrange(
            offset_at(infos_of(text), from),
            offset_at(infos_of(text), from) + encode_utf8(text.subrange(from, to)).len(),
        ) == encode_utf8(text.subrange(from, to)),
{
    let head = text.take(from);
    let body = text.subrange(from, to);
    let tail = text.skip(to);
    lemma_offset_is_encoded_len(text, from);
    assert(text =~= head + body + tail);
    lemma_encode_concat(head + body, tail);
    lemma_encode_concat(head, body);
    assert(encode_utf8(text).subrange(
        encode_utf8(head).len() as int,
        (encode_utf8(head).len() + encode_utf8(body).len()) as int,
    ) =~= encode_utf8(body));
}

/// Every whole-word token stands at its offset, and so does every partial
/// token of it.
pub proof fn lemma_tokens_of_word_stand_at_their_offsets(text: Seq<char>, k: int)
    requires
        0 <= k < words(infos_of(text)).len(),
    ensures
        stands_at_its_offset(text, word_token(text, words(infos_of(text))[k])),
        forall|p: int|
            0 <= p < part_tokens(word_token(text, words(infos_of(text))[k])).len()
                ==> stands_at_its_offset(
                text,
                #[trigger] part_tokens(word_token(text, words(infos_of(text))[k]))[p],
            ),
{
    let infos = infos_of(text);
    let range = words(infos)[k];
    let word = word_token(text, range);
    lemma_words_bounds(infos, 0, k);
    lemma_range_stands_at_its_offset(text, range.0, range.1);
    let inner = infos_of(word.text);
    assert forall|p: int| 0 <= p < part_tokens(word).len() implies stands_at_its_offset(
        text,
        #[trigger] part_tokens(word)[p],
    ) by {
        let part = parts(inner)[p];
        assert(inner.len() > 0);
        lemma_parts_bounds(inner, 0, 1, p);
        lemma_range_stands_at_its_offset(text, range.0 + part.0, range.0 + part.1);
        assert(word.text.subrange(part.0, part.1) =~= text.subrange(
            range.0 + part.0,
            range.0 + part.1,
        ));
        lemma_offset_is_encoded_len(text, range.0 + part.0);
        lemma_offset_is_encoded_len(text, range.0);
        lemma_offset_is_encoded_len(word.text, part.0);
        assert(text.take(range.0 + part.0) =~= text.take(range.0) + word.text.take(part.0));
        lemma_encode_concat(text.take(range.0), word.text.take(part.0));
    }
}

/// Whether `token` is the token of a word of `text` or a partial token of one.
pub open spec fn of_a_word(text: Seq<char>, token: Token) -> bool {
    exists|k: int|
        0 <= k < words(infos_of(text)).len() && {
            ||| token == #[trigger] word_token(text, words(infos_of(text))[k])
            ||| part_tokens(word_token(text, words(infos_of(text))[k])).contains(token)
        }
}

proof fn lemma_tokens_of_first_words(text: Seq<char>, count: int, i: int)
    requires
        0 <= count <= words(infos_of(text)).len(),
        0 <= i < tokens_of_words(text, count).len(),
    ensures
        of_a_word(text, tokens_of_words(text, count)[i]),
    decreases count,
{
    if count > 0 {
        let before = tokens_of_words(text, count - 1);
        let word = word_token(text, words(infos_of(text))[count - 1]);
        if i < before.len() {
            lemma_tokens_of_first_words(text, count - 1, i);
        } else if i == before.len() {
            assert(tokens_of_words(text, count)[i] == word);
        } else {
            let p = i - before.len() - 1;
            assert(tokens_of_words(text, count)[i] == part_tokens(word)[p]);
            assert(part_tokens(word).contains(part_tokens(word)[p]));
        }
    }
}

/// Every token of a text stands at its offset in the text.
pub proof fn lemma_tokens_stand_at_their_offsets(text: Seq<char>, i: int)
    requires
        0 <= i < tokens_of(text).len(),
    ensures
        stands_at_its_offset(text, tokens_of(text)[i]),
{
    let token = tokens_of(text)[i];
    lemma_tokens_of_first_words(text, words(infos_of(text)).len() as int, i);
    let k = choose|k: int|
        0 <= k < words(infos_of(text)).len() && {
            ||| token == #[trigger] word_token(text, words(infos_of(text))[k])
            ||| part_tokens(word_token(text, words(infos_of(text))[k])).contains(token)
        };
    lemma_tokens_of_word_stand_at_their_offsets(text, k);
    let word = word_token(text, words(infos_of(text))[k]);
    if token != word {
        let p = choose|p: int| 0 <= p < part_tokens(word).len() && part_tokens(word)[p] == token;
        assert(stands_at_its_offset(text, part_tokens(word)[p]));
    }
}

} // verus!
