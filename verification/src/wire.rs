//! The wire format of records: fields, each a number under which it is
//! known, a kind, and a payload.
use crate::store::pow256;
use brotopuf::ProtoType;
use brotopuf::Serialize;
use vstd::prelude::*;
use vstd::string::StringSliceAdditionalSpecFns;
use vstd::utf8::encode_utf8;

verus! {

/// The bytes of `n` as a variable-length number: seven bits to a byte, the
/// lowest first, and every byte but the last marked by its highest bit.
pub open spec fn uvarint(n: nat) -> Seq<u8>
    decreases n,
{
    if n < 128 {
        seq![n as u8]
    } else {
        seq![(n % 128 + 128) as u8] + uvarint(n / 128)
    }
}

/// The variable-length number that `bytes` begin with, and the number of
/// bytes that it takes, if `bytes` hold all of it.
pub open spec fn uvarint_at(bytes: Seq<u8>) -> Option<(nat, int)>
    decreases bytes.len(),
{
    if bytes.len() == 0 {
        None
    } else if bytes[0] < 128 {
        Some((bytes[0] as nat, 1))
    } else {
        match uvarint_at(bytes.drop_first()) {
            Some((value, taken)) => Some(((bytes[0] - 128 + 128 * value) as nat, taken + 1)),
            None => None,
        }
    }
}

/// The number that `bytes` begin with, if it takes no more than ten bytes and
/// fits in 64 bits.
pub open spec fn number_at(bytes: Seq<u8>) -> Option<(u64, int)> {
    match uvarint_at(bytes) {
        Some((value, taken)) => if taken <= 10 && value <= u64::MAX {
            Some((value as u64, taken))
        } else {
            None
        },
        None => None,
    }
}

/// The number that `bytes` stand for, the least significant byte first.
pub open spec fn le_value(bytes: Seq<u8>) -> nat
    decreases bytes.len(),
{
    if bytes.len() == 0 {
        0
    } else {
        bytes[0] as nat + 256 * le_value(bytes.drop_first())
    }
}

/// A variable-length number is read back from its bytes, whatever follows them.
pub proof fn lemma_uvarint_round_trip(n: nat, rest: Seq<u8>)
    ensures
        uvarint_at(uvarint(n) + rest) == Some((n, uvarint(n).len() as int)),
    decreases n,
{
    let bytes = uvarint(n) + rest;
    if n < 128 {
        assert(bytes[0] == n as u8);
    } else {
        assert(bytes[0] == (n % 128 + 128) as u8);
        assert(bytes.drop_first() =~= uvarint(n / 128) + rest);
        lemma_uvarint_round_trip(n / 128, rest);
    }
}

/// 128 to the power of `k`.
pub open spec fn pow128(k: nat) -> nat
    decreases k,
{
    if k == 0 {
        1
    } else {
        128 * pow128((k - 1) as nat)
    }
}

/// A number below 128 to the power of `k` takes at most `k` bytes.
pub proof fn lemma_uvarint_len(n: nat, k: nat)
    requires
        k >= 1,
        n < pow128(k),
    ensures
        1 <= uvarint(n).len() <= k,
    decreases k,
{
    if n >= 128 {
        assert(k > 1) by {
            reveal_with_fuel(pow128, 2);
        }
        lemma_uvarint_len(n / 128, (k - 1) as nat);
    }
}

/// A number of 64 bits takes at most ten bytes.
pub proof fn lemma_uvarint_of_u64(n: u64)
    ensures
        1 <= uvarint(n as nat).len() <= 10,
        number_at(uvarint(n as nat)) == Some((n, uvarint(n as nat).len() as int)),
{
    assert(n < pow128(10)) by {
        reveal_with_fuel(pow128, 11);
    }
    lemma_uvarint_len(n as nat, 10);
    lemma_uvarint_round_trip(n as nat, Seq::empty());
    assert(uvarint(n as nat) + Seq::<u8>::empty() =~= uvarint(n as nat));
}

/// Reads the variable-length number that begins at `at`, and tells where the
/// bytes behind it begin.
pub fn read_number(input: &[u8], at: usize) -> (read: Option<(u64, usize)>)
    requires
        at <= input@.len(),
    ensures
        match read {
            Some((value, next)) => {
                &&& number_at(input@.skip(at as int)) == Some((value, next - at))
                &&& at < next <= input@.len()
            },
            None => number_at(input@.skip(at as int)) is None,
        },
{
    let ghost bytes = input@.skip(at as int);
    let len = input.len();
    let mut value: u128 = 0;
    let mut scale: u128 = 1;
    let mut i: usize = 0;
    assert(bytes.skip(0) =~= bytes);
    while i < 10
        invariant
            0 <= i <= 10,
            len == input@.len(),
            at + i <= len,
            bytes == input@.skip(at as int),
            scale == pow128(i as nat),
            value < scale,
            forall|k: int| 0 <= k < i ==> bytes[k] >= 128,
            uvarint_at(bytes) == match uvarint_at(bytes.skip(i as int)) {
                Some((rest, taken)) => Some(((value + scale * rest) as nat, taken + i)),
                None => None,
            },
        decreases 10 - i,
    {
        if at + i >= len {
            assert(bytes.skip(i as int).len() == 0);
            return None;
        }
        let byte = input[at + i];
        proof {
            let here = bytes.skip(i as int);
            assert(here[0] == byte);
            assert(here.drop_first() =~= bytes.skip(i + 1));
            assert(pow128((i + 1) as nat) == 128 * pow128(i as nat));
            assert(scale <= pow128(9)) by {
                lemma_pow128_rises(i as nat, 9);
            }
            assert(pow128(9) * 128 == pow128(10));
            assert(pow128(10) < 0x1_0000_0000_0000_0000_0000) by {
                reveal_with_fuel(pow128, 11);
            }
        }
        if byte < 128 {
            assert(scale * byte <= scale * 127) by (nonlinear_arith)
                requires
                    byte <= 127,
                    scale >= 0,
            ;
            let total = value + scale * (byte as u128);
            if total > u64::MAX as u128 {
                return None;
            }
            return Some((total as u64, at + i + 1));
        }
        assert(scale * (byte - 128) <= scale * 127) by (nonlinear_arith)
            requires
                128 <= byte <= 255,
                scale >= 0,
        ;
        let ghost before = value;
        value = value + scale * ((byte - 128) as u128);
        proof {
            match uvarint_at(bytes.skip(i + 1)) {
                Some((rest, taken)) => {
                    assert(before + scale * (byte - 128 + 128 * rest) == value + (scale * 128)
                        * rest) by (nonlinear_arith)
                        requires
                            value == before + scale * (byte - 128),
                    ;
                },
                None => {},
            }
        }
        scale = scale * 128;
        i = i + 1;
    }
    proof {
        lemma_long_number(bytes, 10);
    }
    None
}

proof fn lemma_pow128_rises(i: nat, j: nat)
    requires
        i <= j,
    ensures
        pow128(i) <= pow128(j),
        pow128(i) >= 1,
    decreases j,
{
    if i < j {
        lemma_pow128_rises(i, (j - 1) as nat);
    } else if i > 0 {
        lemma_pow128_rises((i - 1) as nat, (i - 1) as nat);
    }
}

proof fn lemma_long_number(bytes: Seq<u8>, marked: int)
    requires
        0 <= marked <= bytes.len(),
        forall|k: int| 0 <= k < marked ==> bytes[k] >= 128,
    ensures
        match uvarint_at(bytes) {
            Some((value, taken)) => taken > marked,
            None => true,
        },
    decreases marked,
{
    if marked > 0 {
        let rest = bytes.drop_first();
        assert forall|k: int| 0 <= k < marked - 1 implies rest[k] >= 128 by {
            assert(rest[k] == bytes[k + 1]);
        }
        lemma_long_number(rest, marked - 1);
    } else {
        lemma_taken_is_positive(bytes);
    }
}

/// A variable-length number takes at least one byte, and no more bytes than
/// there are.
pub proof fn lemma_taken_is_positive(bytes: Seq<u8>)
    ensures
        match uvarint_at(bytes) {
            Some((value, taken)) => 1 <= taken <= bytes.len(),
            None => true,
        },
    decreases bytes.len(),
{
    if bytes.len() > 0 && bytes[0] >= 128 {
        lemma_taken_is_positive(bytes.drop_first());
    }
}

/// A variable-length number of 64 bits is read back from its bytes, whatever
/// follows them.
pub proof fn lemma_number_round_trip(n: u64, rest: Seq<u8>)
    ensures
        number_at(uvarint(n as nat) + rest) == Some((n, uvarint(n as nat).len() as int)),
        1 <= uvarint(n as nat).len() <= 10,
{
    lemma_uvarint_of_u64(n);
    lemma_uvarint_round_trip(n as nat, rest);
}

proof fn lemma_le_value_bound(bytes: Seq<u8>)
    ensures
        le_value(bytes) < pow256(bytes.len()),
    decreases bytes.len(),
{
    if bytes.len() > 0 {
        lemma_le_value_bound(bytes.drop_first());
    }
}

/// Reads the `width` bytes that begin at `at` as a number, the least
/// significant byte first.
pub fn read_fixed(input: &[u8], at: usize, width: usize) -> (value: u64)
    requires
        width <= 8,
        at + width <= input@.len(),
    ensures
        value == le_value(input@.subrange(at as int, at + width)),
{
    let ghost bytes = input@.subrange(at as int, at + width);
    let len = input.len();
    let mut value: u128 = 0;
    let mut i: usize = width;
    assert(bytes.skip(width as int) =~= Seq::<u8>::empty());
    while i > 0
        invariant
            0 <= i <= width <= 8,
            len == input@.len(),
            at + width <= len,
            bytes == input@.subrange(at as int, at + width),
            value == le_value(bytes.skip(i as int)),
        decreases i,
    {
        proof {
            lemma_le_value_bound(bytes.skip(i as int));
            assert(bytes.skip(i as int).len() == width - i);
            assert(pow256((width - i) as nat) <= pow256(8)) by {
                lemma_pow256_rises((width - i) as nat, 8);
            }
            assert(pow256(8) == 0x1_0000_0000_0000_0000) by {
                reveal_with_fuel(pow256, 9);
            }
            assert(bytes.skip(i - 1).drop_first() =~= bytes.skip(i as int));
            assert(bytes.skip(i - 1)[0] == input@[at + i - 1]);
        }
        i = i - 1;
        value = value * 256 + input[at + i] as u128;
    }
    proof {
        assert(bytes.skip(0) =~= bytes);
        lemma_le_value_bound(bytes);
        lemma_pow256_rises(width as nat, 8);
        assert(pow256(8) == 0x1_0000_0000_0000_0000) by {
            reveal_with_fuel(pow256, 9);
        }
    }
    value as u64
}

proof fn lemma_pow256_rises(i: nat, j: nat)
    requires
        i <= j,
    ensures
        pow256(i) <= pow256(j),
        pow256(i) >= 1,
    decreases j,
{
    if i < j {
        lemma_pow256_rises(i, (j - 1) as nat);
    } else if i > 0 {
        lemma_pow256_rises((i - 1) as nat, (i - 1) as nat);
    }
}

/// What a field holds: a number, or a run of bytes.
pub ghost enum Payload {
    Number(u64),
    Bytes(Seq<u8>),
}

/// The field that `bytes` begin with: the number under which it is known,
/// what it holds, and the number of bytes that it takes. The field begins
/// with a tag, a variable-length number that holds the number of the field
/// and, in its lowest three bits, the kind of the payload: a variable-length
/// number, eight bytes, a run of bytes behind its length, or four bytes.
pub open spec fn field_at(bytes: Seq<u8>) -> Option<(u64, Payload, int)> {
    match number_at(bytes) {
        None => None,
        Some((tag, taken)) => {
            let id = tag / 8;
            let kind = tag % 8;
            let rest = bytes.skip(taken);
            if kind == 0 {
                match number_at(rest) {
                    Some((value, more)) => Some((id, Payload::Number(value), taken + more)),
                    None => None,
                }
            } else if kind == 1 {
                if rest.len() >= 8 {
                    Some((id, Payload::Number(le_value(rest.take(8)) as u64), taken + 8))
                } else {
                    None
                }
            } else if kind == 5 {
                if rest.len() >= 4 {
                    Some((id, Payload::Number(le_value(rest.take(4)) as u64), taken + 4))
                } else {
                    None
                }
            } else if kind == 2 {
                match number_at(rest) {
                    Some((len, more)) => if len <= rest.len() - more {
                        Some((id, Payload::Bytes(rest.subrange(more, more + len)), taken + more + len))
                    } else {
                        None
                    },
                    None => None,
                }
            } else {
                None
            }
        },
    }
}

/// What a field holds, as it was read: a number, or the place of a run of
/// bytes in the input.
#[derive(Clone, Copy, Debug, PartialEq, Eq, Structural)]
pub enum FieldValue {
    Number(u64),
    Bytes { start: usize, end: usize },
}

/// A field as it was read.
#[derive(Clone, Copy, Debug, PartialEq, Eq, Structural)]
pub struct Field {
    /// The number under which the field is known.
    pub id: u64,
    /// What the field holds.
    pub value: FieldValue,
    /// Where the bytes behind the field begin.
    pub next: usize,
}

/// What `value` stands for in `input`.
pub open spec fn payload_of(input: Seq<u8>, value: FieldValue) -> Payload {
    match value {
        FieldValue::Number(number) => Payload::Number(number),
        FieldValue::Bytes { start, end } => Payload::Bytes(input.subrange(start as int, end as int)),
    }
}

/// Reads the field that begins at `at`. Nothing is read where the input ends
/// inside the field, where a number in it is too long or too large, and where
/// the kind of its payload is not known.
pub fn read_field(input: &[u8], at: usize) -> (read: Option<Field>)
    requires
        at <= input@.len(),
    ensures
        match read {
            Some(field) => {
                &&& field_at(input@.skip(at as int)) == Some(
                    (field.id, payload_of(input@, field.value), field.next - at),
                )
                &&& at < field.next <= input@.len()
                &&& match field.value {
                    FieldValue::Number(_) => true,
                    FieldValue::Bytes { start, end } => at <= start <= end <= field.next,
                }
            },
            None => field_at(input@.skip(at as int)) is None,
        },
{
    let len = input.len();
    let ghost bytes = input@.skip(at as int);
    let (tag, body) = match read_number(input, at) {
        Some(read) => read,
        None => {
            return None;
        },
    };
    let id = tag / 8;
    let kind = tag % 8;
    let ghost rest = bytes.skip(body - at);
    assert(rest =~= input@.skip(body as int));
    if kind == 0 {
        match read_number(input, body) {
            Some((value, next)) => Some(Field { id, value: FieldValue::Number(value), next }),
            None => None,
        }
    } else if kind == 1 {
        if len - body >= 8 {
            assert(rest.take(8) =~= input@.subrange(body as int, body + 8));
            let value = read_fixed(input, body, 8);
            Some(Field { id, value: FieldValue::Number(value), next: body + 8 })
        } else {
            None
        }
    } else if kind == 5 {
        if len - body >= 4 {
            assert(rest.take(4) =~= input@.subrange(body as int, body + 4));
            let value = read_fixed(input, body, 4);
            Some(Field { id, value: FieldValue::Number(value), next: body + 4 })
        } else {
            None
        }
    } else if kind == 2 {
        match read_number(input, body) {
            Some((size, start)) => {
                if size <= (len - start) as u64 {
                    let end = start + size as usize;
                    assert(rest.subrange(start - body, start - body + size) =~= input@.subrange(
                        start as int,
                        end as int,
                    ));
                    Some(Field { id, value: FieldValue::Bytes { start, end }, next: end })
                } else {
                    None
                }
            },
            None => None,
        }
    } else {
        None
    }
}

/// A field takes at least one byte, and no more bytes than there are.
pub proof fn lemma_field_is_taken(bytes: Seq<u8>)
    ensures
        match field_at(bytes) {
            Some((id, payload, taken)) => 1 <= taken <= bytes.len(),
            None => true,
        },
{
    lemma_taken_is_positive(bytes);
    match number_at(bytes) {
        Some((tag, taken)) => {
            lemma_taken_is_positive(bytes.skip(taken));
        },
        None => {},
    }
}

/// The greatest number under which a field can be known.
pub const MAX_FIELD_ID: u64 = 0x1FFF_FFFF_FFFF_FFFF;

/// The bytes of the field `id` that holds the number `value`.
pub open spec fn number_field(id: u64, value: u64) -> Seq<u8> {
    uvarint((id * 8) as nat) + uvarint(value as nat)
}

/// The bytes of the field `id` that holds `text`.
pub open spec fn text_field(id: u64, text: Seq<char>) -> Seq<u8> {
    uvarint((id * 8 + 2) as nat) + uvarint(encode_utf8(text).len()) + encode_utf8(text)
}

/// Calls `Serialize::serialize_field` of brotopuf for a `u64`, which writes
/// the tag of the field, of the kind of variable-length numbers, and then the
/// value, both as variable-length numbers. The tag is `id` shifted left by
/// three bits, so `id` must leave three bits free.
#[verifier::external_body]
pub(crate) fn put_number_field(out: &mut Vec<u8>, id: u64, value: u64)
    requires
        id <= MAX_FIELD_ID,
    ensures
        final(out)@ == old(out)@ + number_field(id, value),
{
    value.serialize_field(id, ProtoType::UInt64, out).unwrap();
}

/// Calls `Serialize::serialize_field` of brotopuf for a `String`, which writes
/// the tag of the field, of the kind of runs of bytes, then the number of
/// bytes of the text as a variable-length number, then the bytes.
#[verifier::external_body]
pub(crate) fn put_text_field(out: &mut Vec<u8>, id: u64, text: &String)
    requires
        id <= MAX_FIELD_ID,
    ensures
        final(out)@ == old(out)@ + text_field(id, text@),
{
    text.serialize_field(id, ProtoType::String, out).unwrap();
}

/// A field that holds a number is read back from its bytes, whatever follows
/// them.
pub proof fn lemma_number_field_round_trip(id: u64, value: u64, rest: Seq<u8>)
    requires
        id <= MAX_FIELD_ID,
    ensures
        field_at(number_field(id, value) + rest) == Some(
            (id, Payload::Number(value), number_field(id, value).len() as int),
        ),
        (number_field(id, value) + rest).skip(number_field(id, value).len() as int) == rest,
{
    let tag = (id * 8) as u64;
    let head = uvarint(tag as nat);
    let body = uvarint(value as nat);
    let bytes = number_field(id, value) + rest;
    assert(bytes =~= head + (body + rest));
    lemma_number_round_trip(tag, body + rest);
    assert(bytes.skip(head.len() as int) =~= body + rest);
    lemma_number_round_trip(value, rest);
    assert(bytes.skip(number_field(id, value).len() as int) =~= rest);
}

/// A field that holds a text is read back from its bytes, whatever follows
/// them.
pub proof fn lemma_text_field_round_trip(id: u64, text: Seq<char>, rest: Seq<u8>)
    requires
        id <= MAX_FIELD_ID,
        encode_utf8(text).len() <= u64::MAX,
    ensures
        field_at(text_field(id, text) + rest) == Some(
            (id, Payload::Bytes(encode_utf8(text)), text_field(id, text).len() as int),
        ),
        (text_field(id, text) + rest).skip(text_field(id, text).len() as int) == rest,
{
    let tag = (id * 8 + 2) as u64;
    let head = uvarint(tag as nat);
    let size = encode_utf8(text).len() as u64;
    let middle = uvarint(size as nat);
    let body = encode_utf8(text);
    let bytes = text_field(id, text) + rest;
    assert(bytes =~= head + (middle + body + rest));
    lemma_number_round_trip(tag, middle + body + rest);
    let behind = bytes.skip(head.len() as int);
    assert(behind =~= middle + (body + rest));
    lemma_number_round_trip(size, body + rest);
    assert(behind.subrange(middle.len() as int, middle.len() + size) =~= body);
    assert(bytes.skip(text_field(id, text).len() as int) =~= rest);
}

} // verus!
