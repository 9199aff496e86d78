use crate::utf8::lemma_encode_concat;
use crate::utf8::lemma_encode_injective;
use crate::utf8::lemma_encode_single;
use crate::utf8::lemma_prefix_is_boundary;
use vstd::prelude::*;
use vstd::utf8::encode_scalar;
use vstd::utf8::encode_utf8;
use vstd::string::StringSliceAdditionalSpecFns;

verus! {

/// What `char::is_alphanumeric` answers for `c`.
pub uninterp spec fn unicode_alphanumeric(c: char) -> bool;

/// What `char::is_numeric` answers for `c`.
pub uninterp spec fn unicode_numeric(c: char) -> bool;

/// What `char::is_lowercase` answers for `c`.
pub uninterp spec fn unicode_lowercase(c: char) -> bool;

/// What `char::is_uppercase` answers for `c`.
pub uninterp spec fn unicode_uppercase(c: char) -> bool;

/// Calls `char::is_alphanumeric`, which looks `c` up in the Unicode tables of
/// the standard library. The answer depends on `c` alone; it is known here only
/// under the name `unicode_alphanumeric`.
#[verifier::external_body]
fn is_alphanumeric(c: char) -> (b: bool)
    ensures
        b == unicode_alphanumeric(c),
{
    c.is_alphanumeric()
}

/// Calls `char::is_numeric`; the answer is known only as `unicode_numeric(c)`.
#[verifier::external_body]
fn is_numeric(c: char) -> (b: bool)
    ensures
        b == unicode_numeric(c),
{
    c.is_numeric()
}

/// Calls `char::is_lowercase`; the answer is known only as `unicode_lowercase(c)`.
#[verifier::external_body]
fn is_lowercase(c: char) -> (b: bool)
    ensures
        b == unicode_lowercase(c),
{
    c.is_lowercase()
}

/// Calls `char::is_uppercase`; the answer is known only as `unicode_uppercase(c)`.
#[verifier::external_body]
fn is_uppercase(c: char) -> (b: bool)
    ensures
        b == unicode_uppercase(c),
{
    c.is_uppercase()
}

/// Calls `char::len_utf8`: the number of bytes that `c` takes when encoded as
/// UTF-8, which is the length of `encode_scalar` of its scalar value.
#[verifier::external_body]
fn len_utf8(c: char) -> (n: usize)
    ensures
        n == encode_scalar(c as u32).len(),
        1 <= n <= 4,
{
    c.len_utf8()
}

/// The class of a code point inside a word.
#[derive(Clone, Copy, Debug, PartialEq, Eq, Structural)]
pub enum CharClass {
    Digits,
    Uppercase,
    Lowercase,
    /// Alphabetic, neither upper nor lower case.
    Nocase,
}

/// What the tokenizer needs to know of one code point.
#[derive(Clone, Copy, Debug, PartialEq, Eq, Structural)]
pub struct CharInfo {
    /// Whether the code point belongs to a word.
    pub alphanumeric: bool,
    /// Whether the code point is a line feed.
    pub newline: bool,
    /// Its class, for splitting a word into parts.
    pub class: CharClass,
    /// Its length in bytes.
    pub width: usize,
}

/// The class of `c`: numeric comes first, then lower case, then upper case.
pub open spec fn class_of(c: char) -> CharClass {
    if unicode_numeric(c) {
        CharClass::Digits
    } else if unicode_lowercase(c) {
        CharClass::Lowercase
    } else if unicode_uppercase(c) {
        CharClass::Uppercase
    } else {
        CharClass::Nocase
    }
}

/// The description of `c` that `classify` produces.
pub open spec fn info_of(c: char) -> CharInfo {
    CharInfo {
        alphanumeric: unicode_alphanumeric(c),
        newline: c == '\n',
        class: class_of(c),
        width: encode_scalar(c as u32).len() as usize,
    }
}

/// The descriptions of the code points of `text`, in order.
pub open spec fn infos_of(text: Seq<char>) -> Seq<CharInfo> {
    Seq::new(text.len(), |i: int| info_of(text[i]))
}

/// Describes one code point.
pub fn classify_char(c: char) -> (info: CharInfo)
    ensures
        info == info_of(c),
{
    let class = if is_numeric(c) {
        CharClass::Digits
    } else if is_lowercase(c) {
        CharClass::Lowercase
    } else if is_uppercase(c) {
        CharClass::Uppercase
    } else {
        CharClass::Nocase
    };
    CharInfo { alphanumeric: is_alphanumeric(c), newline: c == '\n', class, width: len_utf8(c) }
}

/// Describes every code point of `text`.
pub fn classify(text: &str) -> (infos: Vec<CharInfo>)
    ensures
        infos@ == infos_of(text@),
{
    let mut infos: Vec<CharInfo> = Vec::new();
    for c in it: text.chars()
        invariant
            it.seq() == text@,
            infos@ == infos_of(text@.take(it.index())),
    {
        infos.push(classify_char(c));
        assert(infos@ =~= infos_of(text@.take(it.index() + 1)));
    }
    assert(text@.take(text@.len() as int) =~= text@);
    infos
}

/// The bytes that the first `i` code points take.
pub open spec fn offset_at(infos: Seq<CharInfo>, i: int) -> int
    decreases i,
{
    if i <= 0 {
        0
    } else {
        offset_at(infos, i - 1) + infos[i - 1].width
    }
}

/// Whether position `k` of a word is where a new part begins.
///
/// A part begins where the class changes, except between one upper case code
/// point and the lower case code points after it. Where a run of two or more
/// upper case code points is followed by lower case, the part begins at the
/// last code point of the run.
pub open spec fn is_break(infos: Seq<CharInfo>, k: int) -> bool {
    &&& 0 < k < infos.len()
    &&& {
        let before = infos[k - 1].class;
        let here = infos[k].class;
        ||| (before != here && !(before == CharClass::Uppercase && here == CharClass::Lowercase))
        ||| (before == CharClass::Uppercase && here == CharClass::Uppercase && k + 1 < infos.len()
            && infos[k + 1].class == CharClass::Lowercase)
    }
}

/// The parts of a word that remain from position `k` on, where the part that
/// is open began at `start`. A word without a break has no parts.
pub open spec fn parts_from(infos: Seq<CharInfo>, start: int, k: int) -> Seq<(int, int)>
    decreases infos.len() - k,
{
    if k >= infos.len() {
        if start <= 0 {
            Seq::empty()
        } else {
            seq![(start, infos.len() as int)]
        }
    } else if is_break(infos, k) {
        seq![(start, k)] + parts_from(infos, k, k + 1)
    } else {
        parts_from(infos, start, k + 1)
    }
}

/// The parts of a word, as ranges of code point positions, in order.
pub open spec fn parts(infos: Seq<CharInfo>) -> Seq<(int, int)> {
    parts_from(infos, 0, 1)
}

/// A range of bytes: `start` is its first byte, `end` the byte after its last.
#[derive(Clone, Copy, Debug, PartialEq, Eq, Structural)]
pub struct ByteRange {
    pub start: usize,
    pub end: usize,
}

/// The bytes that the code points `range.0 .. range.1` take.
pub open spec fn byte_range(infos: Seq<CharInfo>, range: (int, int)) -> ByteRange {
    ByteRange {
        start: offset_at(infos, range.0) as usize,
        end: offset_at(infos, range.1) as usize,
    }
}

/// The parts of a word as byte ranges.
pub open spec fn part_ranges(infos: Seq<CharInfo>) -> Seq<ByteRange> {
    Seq::new(parts(infos).len(), |i: int| byte_range(infos, parts(infos)[i]))
}

/// The bytes before a position are no more than the bytes before a later one.
pub proof fn lemma_offset_monotonic(infos: Seq<CharInfo>, i: int, j: int)
    requires
        i <= j,
    ensures
        0 <= offset_at(infos, i) <= offset_at(infos, j),
    decreases j - i,
{
    lemma_offset_nonnegative(infos, i);
    if i < j {
        lemma_offset_monotonic(infos, i, j - 1);
    }
}

proof fn lemma_offset_nonnegative(infos: Seq<CharInfo>, i: int)
    ensures
        0 <= offset_at(infos, i),
    decreases i,
{
    if i > 0 {
        lemma_offset_nonnegative(infos, i - 1);
    }
}

fn breaks_at(infos: &Vec<CharInfo>, k: usize) -> (b: bool)
    requires
        0 < k < infos.len(),
    ensures
        b == is_break(infos@, k as int),
{
    let before = infos[k - 1].class;
    let here = infos[k].class;
    if before == CharClass::Uppercase && here == CharClass::Lowercase {
        false
    } else if before != here {
        true
    } else {
        before == CharClass::Uppercase && k + 1 < infos.len() && infos[k + 1].class
            == CharClass::Lowercase
    }
}

/// Splits a word, given by the descriptions of its code points, into its parts.
pub fn split_word(infos: &Vec<CharInfo>) -> (ranges: Vec<ByteRange>)
    requires
        offset_at(infos@, infos.len() as int) <= usize::MAX,
    ensures
        ranges@ == part_ranges(infos@),
{
    let n = infos.len();
    let mut ranges: Vec<ByteRange> = Vec::new();
    if n == 0 {
        assert(ranges@ =~= part_ranges(infos@));
        return ranges;
    }
    let mut start: usize = 0;
    let mut start_byte: usize = 0;
    let mut offset: usize = infos[0].width;
    let mut k: usize = 1;
    let ghost mut done: Seq<(int, int)> = Seq::empty();
    proof {
        lemma_offset_monotonic(infos@, 1, n as int);
        assert(offset_at(infos@, 0) == 0);
    }
    while k < n
        invariant
            n == infos.len(),
            1 <= k <= n,
            0 <= start < k,
            offset_at(infos@, n as int) <= usize::MAX,
            offset == offset_at(infos@, k as int),
            start_byte == offset_at(infos@, start as int),
            done + parts_from(infos@, start as int, k as int) == parts(infos@),
            ranges@.len() == done.len(),
            forall|i: int| 0 <= i < done.len() ==> ranges@[i] == byte_range(infos@, #[trigger] done[i]),
        decreases n - k,
    {
        proof {
            lemma_offset_monotonic(infos@, k as int + 1, n as int);
        }
        if breaks_at(infos, k) {
            ranges.push(ByteRange { start: start_byte, end: offset });
            proof {
                let rest = parts_from(infos@, k as int, k as int + 1);
                assert(done.push((start as int, k as int)) + rest =~= done + (seq![
                    (start as int, k as int),
                ] + rest));
                done = done.push((start as int, k as int));
            }
            start = k;
            start_byte = offset;
        }
        offset = offset + infos[k].width;
        k = k + 1;
    }
    if start > 0 {
        ranges.push(ByteRange { start: start_byte, end: offset });
        proof {
            assert(done.push((start as int, n as int)) =~= done + seq![(start as int, n as int)]);
            done = done.push((start as int, n as int));
        }
    } else {
        assert(done + Seq::<(int, int)>::empty() =~= done);
    }
    assert(ranges@ =~= part_ranges(infos@));
    ranges
}

/// Whether the code point ends a line: a line feed that belongs to no word.
pub open spec fn ends_line(info: CharInfo) -> bool {
    info.newline && !info.alphanumeric
}

/// The number of lines that end before position `i`.
pub open spec fn line_at(infos: Seq<CharInfo>, i: int) -> int
    decreases i,
{
    if i <= 0 {
        0
    } else if ends_line(infos[i - 1]) {
        line_at(infos, i - 1) + 1
    } else {
        line_at(infos, i - 1)
    }
}

/// The number of code points between the start of its line and position `i`.
pub open spec fn column_at(infos: Seq<CharInfo>, i: int) -> int
    decreases i,
{
    if i <= 0 || ends_line(infos[i - 1]) {
        0
    } else {
        column_at(infos, i - 1) + 1
    }
}

/// Whether a word begins at position `i`: the code point there belongs to a
/// word and the one before it, if there is one, does not.
pub open spec fn starts_word(infos: Seq<CharInfo>, i: int) -> bool {
    &&& 0 <= i < infos.len()
    &&& infos[i].alphanumeric
    &&& (i == 0 || !infos[i - 1].alphanumeric)
}

/// The first position from `i` on that belongs to no word.
pub open spec fn word_end(infos: Seq<CharInfo>, i: int) -> int
    decreases infos.len() - i,
{
    if i < 0 || i >= infos.len() || !infos[i].alphanumeric {
        i
    } else {
        word_end(infos, i + 1)
    }
}

/// The words that begin at position `i` or later, in order.
pub open spec fn words_from(infos: Seq<CharInfo>, i: int) -> Seq<(int, int)>
    decreases infos.len() - i,
{
    if i < 0 || i >= infos.len() {
        Seq::empty()
    } else if starts_word(infos, i) {
        seq![(i, word_end(infos, i))] + words_from(infos, i + 1)
    } else {
        words_from(infos, i + 1)
    }
}

/// The words of a text: its maximal runs of code points that belong to a
/// word, as ranges of positions, in order.
pub open spec fn words(infos: Seq<CharInfo>) -> Seq<(int, int)> {
    words_from(infos, 0)
}

/// Where a word stands in its text.
#[derive(Clone, Copy, Debug, PartialEq, Eq, Structural)]
pub struct Word {
    /// Its first byte.
    pub start: usize,
    /// The byte after its last.
    pub end: usize,
    /// The number of lines before it.
    pub line: usize,
    /// The number of code points before it on its line.
    pub column: usize,
}

/// The place of the word that takes the positions `range.0 .. range.1`.
pub open spec fn word_at(infos: Seq<CharInfo>, range: (int, int)) -> Word {
    Word {
        start: offset_at(infos, range.0) as usize,
        end: offset_at(infos, range.1) as usize,
        line: line_at(infos, range.0) as usize,
        column: column_at(infos, range.0) as usize,
    }
}

/// The places of the words of a text, in order.
pub open spec fn word_places(infos: Seq<CharInfo>) -> Seq<Word> {
    Seq::new(words(infos).len(), |i: int| word_at(infos, words(infos)[i]))
}

proof fn lemma_line_column_bounds(infos: Seq<CharInfo>, i: int)
    requires
        0 <= i,
    ensures
        0 <= line_at(infos, i) <= i,
        0 <= column_at(infos, i) <= i,
    decreases i,
{
    if i > 0 {
        lemma_line_column_bounds(infos, i - 1);
    }
}

proof fn lemma_word_end(infos: Seq<CharInfo>, i: int, j: int)
    requires
        0 <= i <= j <= infos.len(),
        forall|k: int| i <= k < j ==> infos[k].alphanumeric,
        j == infos.len() || !infos[j].alphanumeric,
    ensures
        word_end(infos, i) == j,
    decreases j - i,
{
    if i < j {
        lemma_word_end(infos, i + 1, j);
    }
}

proof fn lemma_no_word_inside(infos: Seq<CharInfo>, i: int, j: int)
    requires
        0 < i <= j <= infos.len(),
        forall|k: int| i - 1 <= k < j ==> infos[k].alphanumeric,
    ensures
        words_from(infos, i) == words_from(infos, j),
    decreases j - i,
{
    if i < j {
        lemma_no_word_inside(infos, i + 1, j);
    }
}

/// Finds the words of a text, given by the descriptions of its code points.
pub fn find_words(infos: &Vec<CharInfo>) -> (found: Vec<Word>)
    requires
        offset_at(infos@, infos.len() as int) <= usize::MAX,
    ensures
        found@ == word_places(infos@),
{
    let n = infos.len();
    let mut found: Vec<Word> = Vec::new();
    let mut i: usize = 0;
    let mut offset: usize = 0;
    let mut line: usize = 0;
    let mut column: usize = 0;
    let ghost mut done: Seq<(int, int)> = Seq::empty();
    while i < n
        invariant
            n == infos.len(),
            0 <= i <= n,
            offset_at(infos@, n as int) <= usize::MAX,
            offset == offset_at(infos@, i as int),
            line == line_at(infos@, i as int),
            column == column_at(infos@, i as int),
            i == 0 || i == n || !infos@[i - 1].alphanumeric,
            done + words_from(infos@, i as int) == words(infos@),
            found@.len() == done.len(),
            forall|k: int| 0 <= k < done.len() ==> found@[k] == word_at(infos@, #[trigger] done[k]),
        decreases n - i,
    {
        proof {
            lemma_offset_monotonic(infos@, i as int + 1, n as int);
            lemma_line_column_bounds(infos@, i as int);
        }
        if infos[i].alphanumeric {
            let start = offset;
            let mut j: usize = i;
            while j < n && infos[j].alphanumeric
                invariant
                    n == infos.len(),
                    i <= j <= n,
                    offset_at(infos@, n as int) <= usize::MAX,
                    offset == offset_at(infos@, j as int),
                    forall|k: int| i <= k < j ==> infos@[k].alphanumeric,
                decreases n - j,
            {
                proof {
                    lemma_offset_monotonic(infos@, j as int + 1, n as int);
                }
                offset = offset + infos[j].width;
                j = j + 1;
            }
            found.push(Word { start, end: offset, line, column });
            proof {
                lemma_word_end(infos@, i as int, j as int);
                lemma_no_word_inside(infos@, i as int + 1, j as int);
                let rest = words_from(infos@, j as int);
                assert(done.push((i as int, j as int)) + rest =~= done + (seq![(i as int, j as int)]
                    + rest));
                done = done.push((i as int, j as int));
                lemma_line_column_bounds(infos@, j as int);
            }
            if j < n {
                proof {
                    lemma_offset_monotonic(infos@, j as int + 1, n as int);
                    lemma_column_in_word(infos@, i as int, j as int);
                    lemma_line_column_bounds(infos@, j as int + 1);
                }
                offset = offset + infos[j].width;
                if infos[j].newline {
                    line = line + 1;
                    column = 0;
                } else {
                    column = column + (j - i) + 1;
                }
                i = j + 1;
            } else {
                proof {
                    lemma_column_in_word(infos@, i as int, j as int);
                }
                column = column + (j - i);
                i = j;
            }
        } else {
            proof {
                lemma_line_column_bounds(infos@, i as int + 1);
            }
            offset = offset + infos[i].width;
            if infos[i].newline {
                line = line + 1;
                column = 0;
            } else {
                column = column + 1;
            }
            i = i + 1;
        }
    }
    assert(done + Seq::<(int, int)>::empty() =~= done);
    assert(found@ =~= word_places(infos@));
    found
}

proof fn lemma_column_in_word(infos: Seq<CharInfo>, i: int, j: int)
    requires
        0 <= i <= j <= infos.len(),
        forall|k: int| i <= k < j ==> infos[k].alphanumeric,
    ensures
        column_at(infos, j) == column_at(infos, i) + (j - i),
        line_at(infos, j) == line_at(infos, i),
    decreases j - i,
{
    if i < j {
        lemma_column_in_word(infos, i, j - 1);
    }
}

/// A token as the tokenizer hands it out.
pub struct TokenSlice<'a> {
    /// The text of the token, a slice of the text it was found in.
    pub token: &'a str,
    /// The number of lines before the word that the token belongs to.
    pub line: usize,
    /// The number of code points before that word on its line.
    pub column: usize,
    /// The number of bytes before the token.
    pub offset: usize,
    /// Whether the token is a part of a word rather than a whole word.
    pub partial: bool,
}

/// What a `TokenSlice` stands for.
pub ghost struct Token {
    pub text: Seq<char>,
    pub line: nat,
    pub column: nat,
    pub offset: nat,
    pub partial: bool,
}

impl<'a> View for TokenSlice<'a> {
    type V = Token;

    open spec fn view(&self) -> Token {
        Token {
            text: self.token@,
            line: self.line as nat,
            column: self.column as nat,
            offset: self.offset as nat,
            partial: self.partial,
        }
    }
}

/// Something that takes the tokens of a text, one after the other.
pub trait TokenProcessor: Sized {
    /// How the processor may change when it is given `token`: `self` is the
    /// processor after the call, `before` the processor before it. A
    /// processor that says nothing of itself admits every change.
    open spec fn follows(&self, before: &Self, token: Token) -> bool {
        true
    }

    fn process_token(&mut self, token: &TokenSlice)
        ensures
            final(self).follows(old(self), token@),
    ;
}

/// Whether `states` are the states that a processor goes through while it is
/// given `tokens`, one at a time and in order.
pub open spec fn run_of<P: TokenProcessor>(states: Seq<P>, tokens: Seq<Token>) -> bool {
    &&& states.len() == tokens.len() + 1
    &&& forall|i: int|
        0 <= i < tokens.len() ==> states[i + 1].follows(&states[i], #[trigger] tokens[i])
}

/// Whether a processor that was `before` has become `after` by being given
/// `tokens`, one at a time and in order.
pub open spec fn fed<P: TokenProcessor>(before: P, tokens: Seq<Token>, after: P) -> bool {
    exists|states: Seq<P>|
        #[trigger] run_of(states, tokens) && states.first() == before && states.last() == after
}

/// A processor that is given nothing stays as it is.
pub proof fn lemma_fed_nothing<P: TokenProcessor>(before: P)
    ensures
        fed(before, Seq::<Token>::empty(), before),
{
    let states = seq![before];
    assert(run_of(states, Seq::<Token>::empty()));
}

/// Feeding one more token.
pub proof fn lemma_fed_push<P: TokenProcessor>(
    before: P,
    tokens: Seq<Token>,
    mid: P,
    token: Token,
    after: P,
)
    requires
        fed(before, tokens, mid),
        after.follows(&mid, token),
    ensures
        fed(before, tokens.push(token), after),
{
    let states = choose|states: Seq<P>|
        #[trigger] run_of(states, tokens) && states.first() == before && states.last() == mid;
    let longer = states.push(after);
    let all = tokens.push(token);
    assert forall|i: int| 0 <= i < all.len() implies longer[i + 1].follows(
        &longer[i],
        #[trigger] all[i],
    ) by {
        if i < tokens.len() {
            assert(all[i] == tokens[i]);
        }
    }
    assert(run_of(longer, all));
}

/// Feeding `first` and then `second` is feeding `first + second`.
pub proof fn lemma_fed_concat<P: TokenProcessor>(
    before: P,
    first: Seq<Token>,
    mid: P,
    second: Seq<Token>,
    after: P,
)
    requires
        fed(before, first, mid),
        fed(mid, second, after),
    ensures
        fed(before, first + second, after),
{
    let head = choose|states: Seq<P>|
        #[trigger] run_of(states, first) && states.first() == before && states.last() == mid;
    let tail = choose|states: Seq<P>|
        #[trigger] run_of(states, second) && states.first() == mid && states.last() == after;
    let states = head + tail.drop_first();
    let all = first + second;
    assert forall|i: int| 0 <= i < all.len() implies states[i + 1].follows(
        &states[i],
        #[trigger] all[i],
    ) by {
        if i < first.len() {
            assert(all[i] == first[i]);
        } else {
            let k = i - first.len();
            assert(all[i] == second[k]);
            assert(states[i + 1] == tail[k + 1]);
            assert(states[i] == tail[k]);
        }
    }
    assert(run_of(states, all));
}

/// The bytes before position `i` of a text are the encoding of its first `i`
/// code points.
pub proof fn lemma_offset_is_encoded_len(text: Seq<char>, i: int)
    requires
        0 <= i <= text.len(),
    ensures
        offset_at(infos_of(text), i) == encode_utf8(text.take(i)).len(),
    decreases i,
{
    if i > 0 {
        lemma_offset_is_encoded_len(text, i - 1);
        assert(text.take(i) =~= text.take(i - 1) + seq![text[i - 1]]);
        lemma_encode_concat(text.take(i - 1), seq![text[i - 1]]);
        lemma_encode_single(text[i - 1]);
    } else {
        assert(text.take(0) =~= Seq::<char>::empty());
    }
}

/// The slice of `text` that holds the code points `from .. to`, which take
/// the bytes `start .. end`.
fn substring<'a>(
    text: &'a str,
    start: usize,
    end: usize,
    Ghost(from): Ghost<int>,
    Ghost(to): Ghost<int>,
) -> (part: &'a str)
    requires
        0 <= from <= to <= text@.len(),
        start == offset_at(infos_of(text@), from),
        end == offset_at(infos_of(text@), to),
    ensures
        part@ == text@.subrange(from, to),
{
    proof {
        lemma_offset_is_encoded_len(text@, to);
        lemma_prefix_is_boundary(text@, to);
    }
    let head = text.split_at(end).0;
    proof {
        lemma_encode_injective(head@, text@.take(to));
        lemma_offset_is_encoded_len(text@.take(to), from);
        lemma_prefix_is_boundary(text@.take(to), from);
        assert(text@.take(to).take(from) =~= text@.take(from));
        lemma_offset_is_encoded_len(text@, from);
    }
    let part = head.split_at(start).1;
    proof {
        assert(text@.take(to).skip(from) =~= text@.subrange(from, to));
        lemma_encode_injective(part@, text@.subrange(from, to));
    }
    part
}

/// The partial tokens of a word: one for each of its parts, in order, on the
/// line and column of the word.
pub open spec fn part_tokens(word: Token) -> Seq<Token> {
    let infos = infos_of(word.text);
    Seq::new(
        parts(infos).len(),
        |i: int|
            Token {
                text: word.text.subrange(parts(infos)[i].0, parts(infos)[i].1),
                line: word.line,
                column: word.column,
                offset: (word.offset + offset_at(infos, parts(infos)[i].0)) as nat,
                partial: true,
            },
    )
}

/// The token of the word that takes the positions `range.0 .. range.1` of `text`.
pub open spec fn word_token(text: Seq<char>, range: (int, int)) -> Token {
    Token {
        text: text.subrange(range.0, range.1),
        line: line_at(infos_of(text), range.0) as nat,
        column: column_at(infos_of(text), range.0) as nat,
        offset: offset_at(infos_of(text), range.0) as nat,
        partial: false,
    }
}

/// The tokens of the first `count` words of `text`: each word, followed by
/// its partial tokens.
pub open spec fn tokens_of_words(text: Seq<char>, count: int) -> Seq<Token>
    decreases count,
{
    if count <= 0 {
        Seq::empty()
    } else {
        let word = word_token(text, words(infos_of(text))[count - 1]);
        tokens_of_words(text, count - 1) + seq![word] + part_tokens(word)
    }
}

/// The tokens of `text`, in the order in which `parse_text` hands them out.
pub open spec fn tokens_of(text: Seq<char>) -> Seq<Token> {
    tokens_of_words(text, words(infos_of(text)).len() as int)
}

/// Each part of a word is a stretch of the word that is not empty.
pub proof fn lemma_parts_bounds(infos: Seq<CharInfo>, start: int, k: int, i: int)
    requires
        0 <= start < k,
        start < infos.len(),
        0 <= i < parts_from(infos, start, k).len(),
    ensures
        start <= parts_from(infos, start, k)[i].0 < parts_from(infos, start, k)[i].1 <= infos.len(),
    decreases infos.len() - k,
{
    if k >= infos.len() {
    } else if is_break(infos, k) {
        if i > 0 {
            lemma_parts_bounds(infos, k, k + 1, i - 1);
        }
    } else {
        lemma_parts_bounds(infos, start, k + 1, i);
    }
}

/// Each word is a stretch of the text that is not empty: it begins where a
/// word begins and ends where that word ends.
pub proof fn lemma_words_bounds(infos: Seq<CharInfo>, from: int, i: int)
    requires
        0 <= from,
        0 <= i < words_from(infos, from).len(),
    ensures
        from <= words_from(infos, from)[i].0 < words_from(infos, from)[i].1 <= infos.len(),
        starts_word(infos, words_from(infos, from)[i].0),
        word_end(infos, words_from(infos, from)[i].0) == words_from(infos, from)[i].1,
    decreases infos.len() - from,
{
    if from >= infos.len() {
    } else if starts_word(infos, from) {
        if i > 0 {
            lemma_words_bounds(infos, from + 1, i - 1);
        } else {
            lemma_word_end_bounds(infos, from);
        }
    } else {
        lemma_words_bounds(infos, from + 1, i);
    }
}

/// A word ends behind its first position: every position from there to its
/// end belongs to it, and the one at its end, if there is one, does not.
pub proof fn lemma_word_end_bounds(infos: Seq<CharInfo>, i: int)
    requires
        0 <= i <= infos.len(),
    ensures
        i <= word_end(infos, i) <= infos.len(),
        i < infos.len() && infos[i].alphanumeric ==> i < word_end(infos, i),
        forall|k: int| i <= k < word_end(infos, i) ==> infos[k].alphanumeric,
        word_end(infos, i) == infos.len() || !infos[word_end(infos, i)].alphanumeric,
    decreases infos.len() - i,
{
    if i < infos.len() && infos[i].alphanumeric {
        lemma_word_end_bounds(infos, i + 1);
    }
}

/// Hands `indexer` the partial tokens of `token`, a word.
pub fn split_token<P: TokenProcessor>(token: &TokenSlice, indexer: &mut P)
    requires
        token.offset + token.token.spec_bytes().len() <= usize::MAX,
    ensures
        fed(*old(indexer), part_tokens(token@), *final(indexer)),
{
    let infos = classify(token.token);
    proof {
        lemma_offset_is_encoded_len(token.token@, infos@.len() as int);
        assert(token.token@.take(infos@.len() as int) =~= token.token@);
    }
    let ranges = split_word(&infos);
    let ghost model = part_tokens(token@);
    let n = ranges.len();
    let mut k: usize = 0;
    proof {
        lemma_fed_nothing(*indexer);
        assert(model.take(0) =~= Seq::<Token>::empty());
    }
    while k < n
        invariant
            0 <= k <= n,
            n == ranges.len(),
            infos@ == infos_of(token.token@),
            ranges@ == part_ranges(infos@),
            model == part_tokens(token@),
            offset_at(infos@, infos@.len() as int) == token.token.spec_bytes().len(),
            token.offset + token.token.spec_bytes().len() <= usize::MAX,
            fed(*old(indexer), model.take(k as int), *indexer),
        decreases n - k,
    {
        let range = ranges[k];
        let ghost part = parts(infos@)[k as int];
        proof {
            assert(infos@.len() > 0);
            lemma_parts_bounds(infos@, 0, 1, k as int);
            lemma_offset_monotonic(infos@, part.0, infos@.len() as int);
            lemma_offset_monotonic(infos@, part.1, infos@.len() as int);
        }
        let slice = substring(token.token, range.start, range.end, Ghost(part.0), Ghost(part.1));
        let partial = TokenSlice {
            token: slice,
            line: token.line,
            column: token.column,
            offset: token.offset + range.start,
            partial: true,
        };
        let ghost before = *indexer;
        indexer.process_token(&partial);
        proof {
            assert(partial@ == model[k as int]);
            lemma_fed_push(*old(indexer), model.take(k as int), before, partial@, *indexer);
            assert(model.take(k as int).push(model[k as int]) =~= model.take(k as int + 1));
        }
        k = k + 1;
    }
    assert(model.take(n as int) =~= model);
}

/// The bytes of a stretch of a text are those between the bytes before its
/// first and before its last position.
pub proof fn lemma_subrange_encoded_len(text: Seq<char>, i: int, j: int)
    requires
        0 <= i <= j <= text.len(),
    ensures
        encode_utf8(text.subrange(i, j)).len() == offset_at(infos_of(text), j) - offset_at(
            infos_of(text),
            i,
        ),
{
    lemma_offset_is_encoded_len(text, i);
    lemma_offset_is_encoded_len(text, j);
    assert(text.take(j) =~= text.take(i) + text.subrange(i, j));
    lemma_encode_concat(text.take(i), text.subrange(i, j));
}

/// Hands `indexer` the tokens of `text`: each word, followed by its partial
/// tokens.
pub fn parse_text<P: TokenProcessor>(text: &str, indexer: &mut P)
    ensures
        fed(*old(indexer), tokens_of(text@), *final(indexer)),
{
    let infos = classify(text);
    let total = text.as_bytes().len();
    proof {
        lemma_offset_is_encoded_len(text@, infos@.len() as int);
        assert(text@.take(infos@.len() as int) =~= text@);
        lemma_fed_nothing(*indexer);
    }
    let found = find_words(&infos);
    let n = found.len();
    let mut k: usize = 0;
    while k < n
        invariant
            0 <= k <= n,
            n == found.len(),
            infos@ == infos_of(text@),
            found@ == word_places(infos@),
            total == offset_at(infos@, infos@.len() as int),
            fed(*old(indexer), tokens_of_words(text@, k as int), *indexer),
        decreases n - k,
    {
        let place = found[k];
        let ghost range = words(infos@)[k as int];
        proof {
            lemma_words_bounds(infos@, 0, k as int);
            lemma_offset_monotonic(infos@, range.0, range.1);
            lemma_offset_monotonic(infos@, range.1, infos@.len() as int);
            lemma_line_column_bounds(infos@, range.0);
            lemma_subrange_encoded_len(text@, range.0, range.1);
        }
        let slice = substring(text, place.start, place.end, Ghost(range.0), Ghost(range.1));
        let token = TokenSlice {
            token: slice,
            line: place.line,
            column: place.column,
            offset: place.start,
            partial: false,
        };
        let ghost before = *indexer;
        indexer.process_token(&token);
        let ghost between = *indexer;
        split_token(&token, indexer);
        proof {
            let sofar = tokens_of_words(text@, k as int);
            assert(token@ == word_token(text@, range));
            lemma_fed_push(*old(indexer), sofar, before, token@, between);
            lemma_fed_concat(
                *old(indexer),
                sofar.push(token@),
                between,
                part_tokens(token@),
                *indexer,
            );
            assert(sofar.push(token@) + part_tokens(token@) =~= sofar + seq![token@] + part_tokens(
                token@,
            ));
        }
        k = k + 1;
    }
}

} // verus!
