//! What holds of the keys of postings.
use crate::index::DocumentId;
use crate::store::be_bytes;
use crate::store::be_value;
use crate::store::doc_part;
use crate::store::is_posting_key;
use crate::store::lemma_be_bytes_len;
use crate::store::posting_key;
use crate::store::pow256;
use crate::store::posting_prefix;
use crate::store::term_part;
use vstd::prelude::*;
use vstd::utf8::decode_utf8;
use vstd::utf8::encode_scalar;
use vstd::utf8::encode_utf8;

verus! {

/// Whether `a` comes before `b` in the order of keys: byte by byte, and a
/// key before every key that it begins.
pub open spec fn key_less(a: Seq<u8>, b: Seq<u8>) -> bool
    decreases a.len(),
{
    if b.len() == 0 {
        false
    } else if a.len() == 0 {
        true
    } else {
        a[0] < b[0] || (a[0] == b[0] && key_less(a.drop_first(), b.drop_first()))
    }
}

/// Whether `key` begins with `prefix`.
pub open spec fn begins_with(key: Seq<u8>, prefix: Seq<u8>) -> bool {
    prefix.len() <= key.len() && key.subrange(0, prefix.len() as int) == prefix
}

/// Whether `term` holds no code point zero.
pub open spec fn nul_free(term: Seq<char>) -> bool {
    forall|i: int| 0 <= i < term.len() ==> term[i] != '\0'
}

/// A number that fits in `width` bytes is read back from its bytes.
pub proof fn lemma_be_round_trip(value: nat, width: nat)
    requires
        value < pow256(width),
    ensures
        be_value(be_bytes(value, width)) == value,
    decreases width,
{
    if width > 0 {
        let high = be_bytes(value / 256, (width - 1) as nat);
        lemma_be_round_trip(value / 256, (width - 1) as nat);
        assert(high.push((value % 256) as u8).drop_last() =~= high);
    }
}

/// Every document identifier fits in 16 bytes.
pub proof fn lemma_document_fits(doc: DocumentId)
    ensures
        doc < pow256(16),
{
    reveal_with_fuel(pow256, 17);
}

/// The key that is made of `term` and `doc` is a posting key, and `term` and
/// `doc` are what is read from it.
pub proof fn lemma_key_round_trip(term: Seq<char>, doc: DocumentId)
    ensures
        is_posting_key(posting_key(term, doc)),
        decode_utf8(term_part(posting_key(term, doc))) == term,
        be_value(doc_part(posting_key(term, doc))) == doc,
{
    let key = posting_key(term, doc);
    lemma_be_bytes_len(doc as nat, 16);
    assert(term_part(key) =~= encode_utf8(term));
    assert(doc_part(key) =~= be_bytes(doc as nat, 16));
    vstd::utf8::encode_utf8_valid_utf8(term);
    vstd::utf8::encode_utf8_decode_utf8(term);
    lemma_document_fits(doc);
    lemma_be_round_trip(doc as nat, 16);
}

proof fn lemma_key_less_behind_prefix(prefix: Seq<u8>, a: Seq<u8>, b: Seq<u8>)
    ensures
        key_less(prefix + a, prefix + b) == key_less(a, b),
    decreases prefix.len(),
{
    if prefix.len() == 0 {
        assert(prefix + a =~= a);
        assert(prefix + b =~= b);
    } else {
        assert((prefix + a).drop_first() =~= prefix.drop_first() + a);
        assert((prefix + b).drop_first() =~= prefix.drop_first() + b);
        lemma_key_less_behind_prefix(prefix.drop_first(), a, b);
    }
}

proof fn lemma_key_less_push(a: Seq<u8>, b: Seq<u8>, p: u8, q: u8)
    requires
        a.len() == b.len(),
    ensures
        key_less(a.push(p), b.push(q)) == (key_less(a, b) || (a == b && p < q)),
    decreases a.len(),
{
    if a.len() == 0 {
        assert(a =~= b);
        assert(a.push(p).drop_first() =~= Seq::<u8>::empty());
        assert(b.push(q).drop_first() =~= Seq::<u8>::empty());
        reveal_with_fuel(key_less, 2);
    } else {
        assert(a.push(p).drop_first() =~= a.drop_first().push(p));
        assert(b.push(q).drop_first() =~= b.drop_first().push(q));
        lemma_key_less_push(a.drop_first(), b.drop_first(), p, q);
        if a == b {
            assert(a.drop_first() == b.drop_first());
        }
        if a[0] == b[0] && a.drop_first() == b.drop_first() {
            assert forall|i: int| 0 <= i < a.len() implies a[i] == b[i] by {
                if i > 0 {
                    assert(a[i] == a.drop_first()[i - 1]);
                    assert(b[i] == b.drop_first()[i - 1]);
                }
            }
            assert(a =~= b);
        }
    }
}

proof fn lemma_be_bytes_order(a: nat, b: nat, width: nat)
    requires
        a < pow256(width),
        b < pow256(width),
    ensures
        key_less(be_bytes(a, width), be_bytes(b, width)) == (a < b),
        (be_bytes(a, width) == be_bytes(b, width)) == (a == b),
    decreases width,
{
    lemma_be_round_trip(a, width);
    lemma_be_round_trip(b, width);
    if width > 0 {
        let rest = (width - 1) as nat;
        lemma_be_bytes_order(a / 256, b / 256, rest);
        lemma_be_bytes_len(a / 256, rest);
        lemma_be_bytes_len(b / 256, rest);
        lemma_key_less_push(
            be_bytes(a / 256, rest),
            be_bytes(b / 256, rest),
            (a % 256) as u8,
            (b % 256) as u8,
        );
    }
}

/// The keys of the postings of one term stand in the order of their documents.
pub proof fn lemma_keys_order_by_document(term: Seq<char>, a: DocumentId, b: DocumentId)
    ensures
        key_less(posting_key(term, a), posting_key(term, b)) == (a < b),
{
    lemma_document_fits(a);
    lemma_document_fits(b);
    lemma_be_bytes_order(a as nat, b as nat, 16);
    lemma_key_less_behind_prefix(
        encode_utf8(term) + seq![0u8],
        be_bytes(a as nat, 16),
        be_bytes(b as nat, 16),
    );
}

/// Different postings have different keys.
pub proof fn lemma_keys_differ(term: Seq<char>, a: DocumentId, other: Seq<char>, b: DocumentId)
    requires
        posting_key(term, a) == posting_key(other, b),
    ensures
        term == other,
        a == b,
{
    lemma_key_round_trip(term, a);
    lemma_key_round_trip(other, b);
}

proof fn lemma_scalar_has_no_zero(text: Seq<char>)
    requires
        text.len() > 0,
        text[0] != '\0',
    ensures
        forall|i: int| 0 <= i < encode_scalar(text[0] as u32).len() ==> encode_utf8(text)[i] != 0,
{
    let bytes = encode_utf8(text);
    vstd::utf8::encode_utf8_first_scalar(text);
    let first = bytes[0];
    assert(vstd::utf8::valid_leading_and_continuation_bytes_first_codepoint(bytes));
    assert(vstd::utf8::length_of_first_codepoint(bytes) == encode_scalar(text[0] as u32).len());
    assert(vstd::utf8::decode_first_codepoint(bytes) == text[0] as u32);
    if text[0] as u32 == 0 {
        vstd::utf8::char_u32_cast(text[0], 0u32);
        vstd::utf8::char_u32_cast('\0', 0u32);
    }
    let len = encode_scalar(text[0] as u32).len() as int;
    assert forall|i: int| 0 <= i < len implies bytes[i] != 0 by {
        if vstd::utf8::is_leading_byte_width_1(first) {
            if first == 0 {
                assert(first & 0x7F == 0) by (bit_vector)
                    requires
                        first == 0,
                ;
            }
        } else if vstd::utf8::is_leading_byte_width_2(first) {
            assert(vstd::utf8::is_continuation_byte(bytes[1]));
        } else if vstd::utf8::is_leading_byte_width_3(first) {
            assert(vstd::utf8::is_continuation_byte(bytes[1]));
            assert(vstd::utf8::is_continuation_byte(bytes[2]));
        } else {
            assert(vstd::utf8::is_continuation_byte(bytes[1]));
            assert(vstd::utf8::is_continuation_byte(bytes[2]));
            assert(vstd::utf8::is_continuation_byte(bytes[3]));
        }
    }
}

/// The bytes of a term without a code point zero hold no zero byte.
pub proof fn lemma_nul_free_bytes(term: Seq<char>)
    requires
        nul_free(term),
    ensures
        forall|i: int| 0 <= i < encode_utf8(term).len() ==> encode_utf8(term)[i] != 0,
    decreases term.len(),
{
    if term.len() > 0 {
        lemma_scalar_has_no_zero(term);
        lemma_nul_free_bytes(term.drop_first());
        let first = encode_scalar(term[0] as u32);
        let rest = encode_utf8(term.drop_first());
        assert forall|i: int| 0 <= i < encode_utf8(term).len() implies encode_utf8(term)[i]
            != 0 by {
            if i >= first.len() {
                assert(encode_utf8(term)[i] == rest[i - first.len()]);
            }
        }
    }
}

/// Among the keys of postings, those that begin with the prefix of a term
/// are the keys of the postings of that term.
pub proof fn lemma_prefix_selects_term(term: Seq<char>, other: Seq<char>, doc: DocumentId)
    requires
        nul_free(term),
        nul_free(other),
    ensures
        begins_with(posting_key(other, doc), posting_prefix(term)) == (other == term),
{
    let key = posting_key(other, doc);
    let prefix = posting_prefix(term);
    let mine = encode_utf8(term);
    let theirs = encode_utf8(other);
    lemma_be_bytes_len(doc as nat, 16);
    lemma_nul_free_bytes(term);
    lemma_nul_free_bytes(other);
    if other == term {
        assert(key.subrange(0, prefix.len() as int) =~= prefix);
    }
    if begins_with(key, prefix) {
        let sub = key.subrange(0, prefix.len() as int);
        if mine.len() < theirs.len() {
            assert(sub[mine.len() as int] == theirs[mine.len() as int]);
            assert(prefix[mine.len() as int] == 0);
        } else if mine.len() > theirs.len() {
            assert(sub[theirs.len() as int] == 0);
            assert(prefix[theirs.len() as int] == mine[theirs.len() as int]);
        } else {
            assert forall|i: int| 0 <= i < mine.len() implies mine[i] == theirs[i] by {
                assert(sub[i] == theirs[i]);
                assert(prefix[i] == mine[i]);
            }
            assert(mine =~= theirs);
            vstd::utf8::encode_utf8_decode_utf8(term);
            vstd::utf8::encode_utf8_decode_utf8(other);
        }
    }
}

/// One write to the partition of postings: a term, a document, and the
/// bytes of a record.
pub type Put = (Seq<char>, DocumentId, Seq<u8>);

/// What a partition of postings holds once `puts` were written, one after the
/// other: under each key the bytes that were written last.
pub open spec fn stored(puts: Seq<Put>) -> Map<Seq<u8>, Seq<u8>>
    decreases puts.len(),
{
    if puts.len() == 0 {
        Map::empty()
    } else {
        stored(puts.drop_last()).insert(posting_key(puts.last().0, puts.last().1), puts.last().2)
    }
}

/// Whether `i` is the last write of `puts` for `term` and `doc`.
pub open spec fn last_put(puts: Seq<Put>, term: Seq<char>, doc: DocumentId, i: int) -> bool {
    &&& 0 <= i < puts.len()
    &&& puts[i].0 == term
    &&& puts[i].1 == doc
    &&& forall|j: int| i < j < puts.len() ==> !(#[trigger] puts[j].0 == term && puts[j].1 == doc)
}

/// Whether all terms of `puts` are without a code point zero.
pub open spec fn all_nul_free(puts: Seq<Put>) -> bool {
    forall|i: int| 0 <= i < puts.len() ==> nul_free(#[trigger] puts[i].0)
}

/// A key stands in the partition where its posting was written, with the
/// bytes that were written last.
pub proof fn lemma_stored_is_what_was_put(puts: Seq<Put>, key: Seq<u8>)
    ensures
        stored(puts).contains_key(key) <==> exists|i: int|
            0 <= i < puts.len() && key == posting_key((#[trigger] puts[i]).0, puts[i].1),
        forall|i: int|
            last_put(puts, puts[i].0, puts[i].1, i) && key == posting_key(
                (#[trigger] puts[i]).0,
                puts[i].1,
            ) ==> stored(puts)[key] == puts[i].2,
    decreases puts.len(),
{
    if puts.len() > 0 {
        let before = puts.drop_last();
        let last = puts.last();
        lemma_stored_is_what_was_put(before, key);
        if stored(puts).contains_key(key) {
            if key == posting_key(last.0, last.1) {
                assert(key == posting_key(puts[puts.len() - 1].0, puts[puts.len() - 1].1));
            } else {
                let i = choose|i: int|
                    0 <= i < before.len() && key == posting_key((#[trigger] before[i]).0, before[i].1);
                assert(key == posting_key(puts[i].0, puts[i].1));
            }
        }
        if exists|i: int|
            0 <= i < puts.len() && key == posting_key((#[trigger] puts[i]).0, puts[i].1) {
            let i = choose|i: int|
                0 <= i < puts.len() && key == posting_key((#[trigger] puts[i]).0, puts[i].1);
            if i < before.len() {
                assert(key == posting_key(before[i].0, before[i].1));
            }
        }
        assert forall|i: int|
            last_put(puts, puts[i].0, puts[i].1, i) && key == posting_key(
                (#[trigger] puts[i]).0,
                puts[i].1,
            ) implies stored(puts)[key] == puts[i].2 by {
            if i < before.len() {
                if key == posting_key(last.0, last.1) {
                    lemma_keys_differ(puts[i].0, puts[i].1, last.0, last.1);
                    assert(puts[puts.len() - 1].0 == puts[i].0 && puts[puts.len() - 1].1
                        == puts[i].1);
                }
                assert(before[i] == puts[i]);
                assert(last_put(before, before[i].0, before[i].1, i)) by {
                    assert forall|j: int| i < j < before.len() implies !(#[trigger] before[j].0
                        == before[i].0 && before[j].1 == before[i].1) by {
                        assert(before[j] == puts[j]);
                    }
                }
            }
        }
    }
}

/// Reading the postings of a term gives what was written for it: a key that
/// begins with the prefix of `term` stands in the partition where, and only
/// where, a posting of `term` was written, it holds the bytes that were
/// written last for its document, and the keys of the term stand in the
/// order of their documents.
pub proof fn lemma_postings_of_term(puts: Seq<Put>, term: Seq<char>, key: Seq<u8>)
    requires
        all_nul_free(puts),
        nul_free(term),
    ensures
        (stored(puts).contains_key(key) && begins_with(key, posting_prefix(term))) <==> exists|
            i: int,
        |
            0 <= i < puts.len() && (#[trigger] puts[i]).0 == term && key == posting_key(
                term,
                puts[i].1,
            ),
        forall|i: int|
            last_put(puts, term, puts[i].1, i) && key == posting_key(term, (#[trigger] puts[i]).1)
                ==> stored(puts)[key] == puts[i].2,
        forall|a: DocumentId, b: DocumentId|
            key_less(#[trigger] posting_key(term, a), #[trigger] posting_key(term, b)) == (a < b),
{
    lemma_stored_is_what_was_put(puts, key);
    if stored(puts).contains_key(key) && begins_with(key, posting_prefix(term)) {
        let i = choose|i: int|
            0 <= i < puts.len() && key == posting_key((#[trigger] puts[i]).0, puts[i].1);
        lemma_prefix_selects_term(term, puts[i].0, puts[i].1);
    }
    if exists|i: int|
        0 <= i < puts.len() && (#[trigger] puts[i]).0 == term && key == posting_key(
            term,
            puts[i].1,
        ) {
        let i = choose|i: int|
            0 <= i < puts.len() && (#[trigger] puts[i]).0 == term && key == posting_key(
                term,
                puts[i].1,
            );
        lemma_prefix_selects_term(term, term, puts[i].1);
        assert(key == posting_key(puts[i].0, puts[i].1));
    }
    assert forall|a: DocumentId, b: DocumentId|
        key_less(#[trigger] posting_key(term, a), #[trigger] posting_key(term, b)) == (a
            < b) by {
        lemma_keys_order_by_document(term, a, b);
    }
}

} // verus!
