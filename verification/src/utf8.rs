//! What holds of the UTF-8 encoding of texts, and reading UTF-8 from bytes.
use std::str::Utf8Error;
use vstd::prelude::*;
use vstd::string::StringSliceAdditionalSpecFns;
use vstd::utf8::encode_scalar;
use vstd::utf8::encode_utf8;
use vstd::utf8::is_char_boundary;
use vstd::utf8::pop_first_scalar;
use vstd::utf8::valid_utf8;

verus! {

/// Calls `str::from_utf8`, which accepts the bytes that are UTF-8 and hands
/// them back as a string.
#[verifier::external_body]
pub(crate) fn from_utf8(bytes: &[u8]) -> (text: Result<&str, Utf8Error>)
    ensures
        text is Ok <==> valid_utf8(bytes@),
        text is Ok ==> text->Ok_0.spec_bytes() == bytes@,
{
    std::str::from_utf8(bytes)
}

/// The encoding of two texts, one after the other, is the encoding of the
/// first and then that of the second.
pub proof fn lemma_encode_concat(a: Seq<char>, b: Seq<char>)
    ensures
        encode_utf8(a + b) == encode_utf8(a) + encode_utf8(b),
    decreases a.len(),
{
    if a.len() == 0 {
        assert(a + b =~= b);
        assert(encode_utf8(a) + encode_utf8(b) =~= encode_utf8(b));
    } else {
        assert((a + b).drop_first() =~= a.drop_first() + b);
        lemma_encode_concat(a.drop_first(), b);
        assert(encode_utf8(a + b) =~= encode_utf8(a) + encode_utf8(b));
    }
}

/// The encoding of one code point is that of its scalar value, in one to
/// four bytes.
pub proof fn lemma_encode_single(c: char)
    ensures
        encode_utf8(seq![c]) == encode_scalar(c as u32),
        1 <= encode_scalar(c as u32).len() <= 4,
{
    let s = seq![c];
    assert(s.drop_first() =~= Seq::<char>::empty());
    assert(encode_utf8(s.drop_first()) =~= Seq::<u8>::empty());
    assert(encode_utf8(s) =~= encode_scalar(c as u32));
}

/// The encoding of a text splits, where the encoding of its first `i` code
/// points ends, into that encoding and the encoding of the rest.
pub proof fn lemma_prefix_is_boundary(text: Seq<char>, i: int)
    requires
        0 <= i <= text.len(),
    ensures
        is_char_boundary(encode_utf8(text), encode_utf8(text.take(i)).len() as int),
        encode_utf8(text.take(i)).len() <= encode_utf8(text).len(),
        encode_utf8(text).subrange(0, encode_utf8(text.take(i)).len() as int) == encode_utf8(
            text.take(i),
        ),
        encode_utf8(text).subrange(
            encode_utf8(text.take(i)).len() as int,
            encode_utf8(text).len() as int,
        ) == encode_utf8(text.skip(i)),
    decreases i,
{
    let bytes = encode_utf8(text);
    vstd::utf8::encode_utf8_valid_utf8(text);
    assert(text =~= text.take(i) + text.skip(i));
    lemma_encode_concat(text.take(i), text.skip(i));
    assert(bytes.subrange(0, encode_utf8(text.take(i)).len() as int) =~= encode_utf8(text.take(i)));
    assert(bytes.subrange(encode_utf8(text.take(i)).len() as int, bytes.len() as int)
        =~= encode_utf8(text.skip(i)));
    if i == 0 {
        assert(text.take(0) =~= Seq::<char>::empty());
    } else {
        vstd::utf8::encode_utf8_first_scalar(text);
        let rest = text.drop_first();
        assert(pop_first_scalar(bytes) =~= encode_utf8(rest));
        lemma_prefix_is_boundary(rest, i - 1);
        assert(text.take(i).drop_first() =~= rest.take(i - 1));
        assert(text.take(i)[0] == text[0]);
        lemma_encode_single(text[0]);
    }
}

/// Texts with the same encoding are the same.
pub proof fn lemma_encode_injective(a: Seq<char>, b: Seq<char>)
    requires
        encode_utf8(a) == encode_utf8(b),
    ensures
        a == b,
{
    vstd::utf8::encode_utf8_decode_utf8(a);
    vstd::utf8::encode_utf8_decode_utf8(b);
}

} // verus!
