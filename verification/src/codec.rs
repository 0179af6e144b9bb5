//! The payload codec: the fields of one instruction as bytes, and back.
//!
//! A payload is the encodings of its fields, one after the other, with
//! nothing between them and no length in front. Every encoding delimits
//! itself: integers are variable-length, text and byte strings carry their
//! length in front. Decoding a payload from a longer span therefore takes
//! exactly the bytes that encoding produced and leaves the rest untouched.
//!
//! The format is the wire format of the `postcard` crate for these types, so
//! a structure written with `serde` and `postcard` reads as the payload of its
//! fields.

use crate::error::DecodeError;
use crate::varint::{
    lemma_parse_varint_bounds, lemma_parse_varint_of_varint, parse_varint, pow128, push_varint,
    take_varint, varint, varint_limit,
};
use vstd::prelude::*;
use vstd::slice::slice_subrange;
use vstd::string::{StringExecFns, StringSliceAdditionalSpecFns};
use vstd::utf8::{decode_utf8, encode_utf8, encode_utf8_decode_utf8, encode_utf8_valid_utf8, valid_utf8};

verus! {

/// The type of one field of a payload.
#[derive(Debug, Clone, Copy, PartialEq, Eq)]
pub enum FieldKind {
    /// A truth value, in one byte that is 0 or 1.
    Bool,
    /// One byte, as it is.
    U8,
    /// An unsigned 32-bit integer, variable-length, in at most 5 bytes.
    U32,
    /// An unsigned 64-bit integer, variable-length, in at most 10 bytes.
    U64,
    /// A signed 32-bit integer, folded to an unsigned one.
    I32,
    /// A signed 64-bit integer, folded to an unsigned one.
    I64,
    /// Text: its length in bytes as a `U64`, then its UTF-8 bytes.
    Str,
    /// A byte string: its length as a `U64`, then its bytes.
    Bytes,
}

/// One field of a payload.
#[derive(Debug, PartialEq, Eq)]
pub enum Field {
    /// A truth value.
    Bool(bool),
    /// One byte.
    U8(u8),
    /// An unsigned 32-bit integer.
    U32(u32),
    /// An unsigned 64-bit integer.
    U64(u64),
    /// A signed 32-bit integer.
    I32(i32),
    /// A signed 64-bit integer.
    I64(i64),
    /// Text.
    Str(String),
    /// A byte string.
    Bytes(Vec<u8>),
}

/// What a field holds, as a mathematical value.
pub ghost enum FieldValue {
    /// A truth value.
    Bool(bool),
    /// One byte.
    U8(u8),
    /// An unsigned 32-bit integer.
    U32(u32),
    /// An unsigned 64-bit integer.
    U64(u64),
    /// A signed 32-bit integer.
    I32(i32),
    /// A signed 64-bit integer.
    I64(i64),
    /// The characters of a text.
    Str(Seq<char>),
    /// The bytes of a byte string.
    Bytes(Seq<u8>),
}

impl View for Field {
    type V = FieldValue;

    open spec fn view(&self) -> FieldValue {
        match *self {
            Field::Bool(b) => FieldValue::Bool(b),
            Field::U8(n) => FieldValue::U8(n),
            Field::U32(n) => FieldValue::U32(n),
            Field::U64(n) => FieldValue::U64(n),
            Field::I32(n) => FieldValue::I32(n),
            Field::I64(n) => FieldValue::I64(n),
            Field::Str(s) => FieldValue::Str(s@),
            Field::Bytes(b) => FieldValue::Bytes(b@),
        }
    }
}

/// The values that a sequence of fields holds.
pub open spec fn values_of(fields: Seq<Field>) -> Seq<FieldValue> {
    Seq::new(fields.len(), |i: int| fields[i]@)
}

/// The type of a value.
pub open spec fn kind_of(value: FieldValue) -> FieldKind {
    match value {
        FieldValue::Bool(_) => FieldKind::Bool,
        FieldValue::U8(_) => FieldKind::U8,
        FieldValue::U32(_) => FieldKind::U32,
        FieldValue::U64(_) => FieldKind::U64,
        FieldValue::I32(_) => FieldKind::I32,
        FieldValue::I64(_) => FieldKind::I64,
        FieldValue::Str(_) => FieldKind::Str,
        FieldValue::Bytes(_) => FieldKind::Bytes,
    }
}

/// The layout of a payload with these values: the type of each.
pub open spec fn kinds_of(values: Seq<FieldValue>) -> Seq<FieldKind> {
    Seq::new(values.len(), |i: int| kind_of(values[i]))
}

/// A value that can be encoded: one whose length, where it has one, fits
/// the 64 bits of the length in front of it. Every value held by a
/// [`Field`] is one.
pub open spec fn encodable(value: FieldValue) -> bool {
    match value {
        FieldValue::Str(s) => encode_utf8(s).len() <= u64::MAX,
        FieldValue::Bytes(b) => b.len() <= u64::MAX,
        _ => true,
    }
}

/// Every value of the sequence can be encoded.
pub open spec fn all_encodable(values: Seq<FieldValue>) -> bool {
    forall|i: int| 0 <= i < values.len() ==> encodable(#[trigger] values[i])
}

/// A signed integer folded to an unsigned one: 0, -1, 1, -2, 2 become
/// 0, 1, 2, 3, 4.
pub open spec fn zigzag(n: int) -> nat {
    if n >= 0 {
        (2 * n) as nat
    } else {
        (-2 * n - 1) as nat
    }
}

/// The signed integer that folds to `z`.
pub open spec fn unzigzag(z: nat) -> int {
    if z % 2 == 0 {
        z as int / 2
    } else {
        -(z as int / 2) - 1
    }
}

/// The bytes of one value.
pub open spec fn encode_value(value: FieldValue) -> Seq<u8> {
    match value {
        FieldValue::Bool(b) => seq![if b { 1u8 } else { 0u8 }],
        FieldValue::U8(n) => seq![n],
        FieldValue::U32(n) => varint(n as nat),
        FieldValue::U64(n) => varint(n as nat),
        FieldValue::I32(n) => varint(zigzag(n as int)),
        FieldValue::I64(n) => varint(zigzag(n as int)),
        FieldValue::Str(s) => varint(encode_utf8(s).len()) + encode_utf8(s),
        FieldValue::Bytes(b) => varint(b.len()) + b,
    }
}

/// The bytes of a payload: those of its values, in order.
pub open spec fn encode_values(values: Seq<FieldValue>) -> Seq<u8>
    decreases values.len(),
{
    if values.len() == 0 {
        Seq::empty()
    } else {
        encode_value(values[0]) + encode_values(values.drop_first())
    }
}

/// The bytes that follow a length read from the front of `bytes`, where
/// there are that many: the length took `used` bytes and said `len`.
pub open spec fn counted(bytes: Seq<u8>, used: nat, len: nat) -> Option<Seq<u8>> {
    if used + len <= bytes.len() {
        Some(bytes.subrange(used as int, (used + len) as int))
    } else {
        None
    }
}

/// The value of type `kind` at the front of `bytes`, and the number of
/// bytes it takes up; `None` where `bytes` is too short or malformed.
pub open spec fn decode_value(kind: FieldKind, bytes: Seq<u8>) -> Option<(FieldValue, nat)> {
    match kind {
        FieldKind::Bool => if bytes.len() > 0 && bytes[0] <= 1 {
            Some((FieldValue::Bool(bytes[0] == 1), 1nat))
        } else {
            None
        },
        FieldKind::U8 => if bytes.len() > 0 {
            Some((FieldValue::U8(bytes[0]), 1nat))
        } else {
            None
        },
        FieldKind::U32 => match parse_varint(bytes, 5, 15) {
            Some((n, used)) => Some((FieldValue::U32(n as u32), used)),
            None => None,
        },
        FieldKind::U64 => match parse_varint(bytes, 10, 1) {
            Some((n, used)) => Some((FieldValue::U64(n as u64), used)),
            None => None,
        },
        FieldKind::I32 => match parse_varint(bytes, 5, 15) {
            Some((n, used)) => Some((FieldValue::I32(unzigzag(n) as i32), used)),
            None => None,
        },
        FieldKind::I64 => match parse_varint(bytes, 10, 1) {
            Some((n, used)) => Some((FieldValue::I64(unzigzag(n) as i64), used)),
            None => None,
        },
        FieldKind::Str => match parse_varint(bytes, 10, 1) {
            Some((len, used)) => match counted(bytes, used, len) {
                Some(body) => if valid_utf8(body) {
                    Some((FieldValue::Str(decode_utf8(body)), used + len))
                } else {
                    None
                },
                None => None,
            },
            None => None,
        },
        FieldKind::Bytes => match parse_varint(bytes, 10, 1) {
            Some((len, used)) => match counted(bytes, used, len) {
                Some(body) => Some((FieldValue::Bytes(body), used + len)),
                None => None,
            },
            None => None,
        },
    }
}

/// The values of a payload with layout `kinds` at the front of `bytes`, and
/// the number of bytes they take up; `None` where a field cannot be decoded.
pub open spec fn decode_values(kinds: Seq<FieldKind>, bytes: Seq<u8>) -> Option<
    (Seq<FieldValue>, nat),
>
    decreases kinds.len(),
{
    if kinds.len() == 0 {
        Some((Seq::empty(), 0nat))
    } else {
        match decode_value(kinds[0], bytes) {
            Some((value, used)) => match decode_values(kinds.drop_first(), bytes.skip(used as int)) {
                Some((values, more)) => Some((seq![value] + values, used + more)),
                None => None,
            },
            None => None,
        }
    }
}

/// The readers of 32-bit and of 64-bit integers find exactly the numbers of
/// their width.
pub proof fn lemma_varint_limits()
    ensures
        varint_limit(5, 15) == 0x1_0000_0000,
        varint_limit(10, 1) == 0x1_0000_0000_0000_0000,
{
    assert(pow128(0) == 1);
    assert(pow128(1) == 128);
    assert(pow128(2) == 128 * pow128(1));
    assert(pow128(3) == 128 * pow128(2));
    assert(pow128(4) == 128 * pow128(3));
    assert(pow128(5) == 128 * pow128(4));
    assert(pow128(6) == 128 * pow128(5));
    assert(pow128(7) == 128 * pow128(6));
    assert(pow128(8) == 128 * pow128(7));
    assert(pow128(9) == 128 * pow128(8));
    assert(pow128(4) == 0x1000_0000);
    assert(pow128(9) == 0x8000_0000_0000_0000);
    assert(varint_limit(5, 15) == pow128(4) * 16);
    assert(varint_limit(10, 1) == pow128(9) * 2);
}

/// One value, encoded and followed by anything, decodes to itself and to
/// the number of bytes that its encoding has.
pub proof fn lemma_decode_encode_value(value: FieldValue, rest: Seq<u8>)
    requires
        encodable(value),
    ensures
        decode_value(kind_of(value), encode_value(value) + rest) == Some(
            (value, encode_value(value).len()),
        ),
{
    lemma_varint_limits();
    let bytes = encode_value(value) + rest;
    match value {
        FieldValue::Bool(b) => {
            assert(bytes[0] == if b { 1u8 } else { 0u8 });
        },
        FieldValue::U8(n) => {
            assert(bytes[0] == n);
        },
        FieldValue::U32(n) => {
            lemma_parse_varint_of_varint(n as nat, rest, 5, 15);
        },
        FieldValue::U64(n) => {
            lemma_parse_varint_of_varint(n as nat, rest, 10, 1);
        },
        FieldValue::I32(n) => {
            lemma_parse_varint_of_varint(zigzag(n as int), rest, 5, 15);
        },
        FieldValue::I64(n) => {
            lemma_parse_varint_of_varint(zigzag(n as int), rest, 10, 1);
        },
        FieldValue::Str(s) => {
            let body = encode_utf8(s);
            let head = varint(body.len());
            assert(bytes =~= head + (body + rest));
            lemma_parse_varint_of_varint(body.len(), body + rest, 10, 1);
            assert(bytes.subrange(head.len() as int, (head.len() + body.len()) as int) =~= body);
            encode_utf8_valid_utf8(s);
            encode_utf8_decode_utf8(s);
        },
        FieldValue::Bytes(body) => {
            let head = varint(body.len());
            assert(bytes =~= head + (body + rest));
            lemma_parse_varint_of_varint(body.len(), body + rest, 10, 1);
            assert(bytes.subrange(head.len() as int, (head.len() + body.len()) as int) =~= body);
        },
    }
}

/// A payload, encoded and followed by anything, decodes to its own values
/// and to the number of bytes that its encoding has: what follows is left
/// untouched.
pub proof fn lemma_decode_encode(values: Seq<FieldValue>, rest: Seq<u8>)
    requires
        all_encodable(values),
    ensures
        decode_values(kinds_of(values), encode_values(values) + rest) == Some(
            (values, encode_values(values).len()),
        ),
    decreases values.len(),
{
    let kinds = kinds_of(values);
    if values.len() == 0 {
        assert(values =~= Seq::<FieldValue>::empty());
    } else {
        let head = encode_value(values[0]);
        let tail = encode_values(values.drop_first());
        let bytes = encode_values(values) + rest;
        assert(bytes =~= head + (tail + rest));
        lemma_decode_encode_value(values[0], tail + rest);
        assert(bytes.skip(head.len() as int) =~= tail + rest);
        assert(kinds.drop_first() =~= kinds_of(values.drop_first()));
        lemma_decode_encode(values.drop_first(), rest);
        assert(seq![values[0]] + values.drop_first() =~= values);
    }
}

/// Round trip: decoding the encoding of a payload gives its values back and
/// leaves nothing over.
pub proof fn lemma_round_trip(values: Seq<FieldValue>)
    requires
        all_encodable(values),
    ensures
        decode_values(kinds_of(values), encode_values(values)) == Some(
            (values, encode_values(values).len()),
        ),
{
    lemma_decode_encode(values, Seq::empty());
    assert(encode_values(values) + Seq::<u8>::empty() =~= encode_values(values));
}

/// Self-delimiting: decoding once from the encoding of `first` followed by
/// the encoding of `second` gives the values of `first`, and what is left is
/// exactly the encoding of `second`.
pub proof fn lemma_self_delimiting(first: Seq<FieldValue>, second: Seq<FieldValue>)
    requires
        all_encodable(first),
    ensures
        decode_values(kinds_of(first), encode_values(first) + encode_values(second)) == Some(
            (first, encode_values(first).len()),
        ),
        (encode_values(first) + encode_values(second)).skip(encode_values(first).len() as int)
            == encode_values(second),
{
    lemma_decode_encode(first, encode_values(second));
    assert((encode_values(first) + encode_values(second)).skip(encode_values(first).len() as int)
        =~= encode_values(second));
}

/// Calls `core::str::from_utf8` of the standard library. Taken on trust, not
/// proved: it accepts `bytes` exactly where they are valid UTF-8, and the
/// text it returns then has these very bytes.
#[verifier::external_body]
fn utf8_text<'a>(bytes: &'a [u8]) -> (text: Option<&'a str>)
    ensures
        text is Some <==> valid_utf8(bytes@),
        text matches Some(s) ==> s.spec_bytes() == bytes@,
{
    match core::str::from_utf8(bytes) {
        Ok(s) => Some(s),
        Err(_) => None,
    }
}

/// The fold of a signed 32-bit integer.
pub fn fold_i32(n: i32) -> (z: u32)
    ensures
        z == zigzag(n as int),
{
    if n >= 0 {
        2 * (n as u32)
    } else {
        2 * ((-(n + 1)) as u32) + 1
    }
}

/// The fold of a signed 64-bit integer.
pub fn fold_i64(n: i64) -> (z: u64)
    ensures
        z == zigzag(n as int),
{
    if n >= 0 {
        2 * (n as u64)
    } else {
        2 * ((-(n + 1)) as u64) + 1
    }
}

/// The signed integer that folds to `z`.
pub fn unfold_i64(z: u64) -> (n: i64)
    ensures
        n == unzigzag(z as nat),
{
    if z % 2 == 0 {
        (z / 2) as i64
    } else {
        -((z / 2) as i64) - 1
    }
}

/// Appends the encoding of `field` to `out`.
pub fn encode_field(out: &mut Vec<u8>, field: &Field)
    ensures
        final(out)@ == old(out)@ + encode_value(field@),
{
    match field {
        Field::Bool(b) => {
            out.push(if *b { 1u8 } else { 0u8 });
        },
        Field::U8(n) => {
            out.push(*n);
        },
        Field::U32(n) => {
            push_varint(out, *n as u64);
        },
        Field::U64(n) => {
            push_varint(out, *n);
        },
        Field::I32(n) => {
            push_varint(out, fold_i32(*n) as u64);
        },
        Field::I64(n) => {
            push_varint(out, fold_i64(*n));
        },
        Field::Str(s) => {
            let body = s.as_str().as_bytes();
            push_varint(out, body.len() as u64);
            out.extend_from_slice(body);
            assert(out@ =~= old(out)@ + encode_value(field@));
        },
        Field::Bytes(b) => {
            push_varint(out, b.len() as u64);
            out.extend_from_slice(b.as_slice());
            assert(out@ =~= old(out)@ + encode_value(field@));
        },
    }
}

/// The payload of these fields.
pub fn encode(fields: &Vec<Field>) -> (bytes: Vec<u8>)
    ensures
        bytes@ == encode_values(values_of(fields@)),
{
    let ghost values = values_of(fields@);
    let mut bytes: Vec<u8> = Vec::new();
    let mut i: usize = 0;
    assert(values.skip(0) =~= values);
    while i < fields.len()
        invariant
            i <= fields@.len(),
            values == values_of(fields@),
            bytes@ + encode_values(values.skip(i as int)) == encode_values(values),
        decreases fields@.len() - i,
    {
        proof {
            let rest = values.skip(i as int);
            assert(rest[0] == fields@[i as int]@);
            assert(rest.drop_first() =~= values.skip(i as int + 1));
        }
        let ghost before = bytes@;
        encode_field(&mut bytes, &fields[i]);
        assert(bytes@ + encode_values(values.skip(i as int + 1)) =~= before + encode_values(
            values.skip(i as int),
        ));
        i = i + 1;
    }
    assert(bytes@ + Seq::<u8>::empty() =~= bytes@);
    bytes
}

/// Reads one field of type `kind` from `bytes`, from offset `start` on.
/// Returns the field and the offset behind it.
pub fn decode_field(kind: FieldKind, bytes: &[u8], start: usize) -> (taken: Result<
    (Field, usize),
    DecodeError,
>)
    requires
        start <= bytes@.len(),
    ensures
        match taken {
            Ok((field, end)) => decode_value(kind, bytes@.skip(start as int)) == Some(
                (field@, (end - start) as nat),
            ) && start < end <= bytes@.len(),
            Err(_) => decode_value(kind, bytes@.skip(start as int)) is None,
        },
{
    let ghost input = bytes@.skip(start as int);
    proof {
        lemma_varint_limits();
        lemma_parse_varint_bounds(input, 5, 15);
        lemma_parse_varint_bounds(input, 10, 1);
    }
    match kind {
        FieldKind::Bool => {
            if start < bytes.len() && bytes[start] <= 1 {
                assert(input[0] == bytes@[start as int]);
                Ok((Field::Bool(bytes[start] == 1), start + 1))
            } else {
                assert(input.len() > 0 ==> input[0] == bytes@[start as int]);
                Err(DecodeError)
            }
        },
        FieldKind::U8 => {
            if start < bytes.len() {
                assert(input[0] == bytes@[start as int]);
                Ok((Field::U8(bytes[start]), start + 1))
            } else {
                Err(DecodeError)
            }
        },
        FieldKind::U32 => match take_varint(bytes, start, 5, 15) {
            Ok((n, end)) => Ok((Field::U32(n as u32), end)),
            Err(e) => Err(e),
        },
        FieldKind::U64 => match take_varint(bytes, start, 10, 1) {
            Ok((n, end)) => Ok((Field::U64(n), end)),
            Err(e) => Err(e),
        },
        FieldKind::I32 => match take_varint(bytes, start, 5, 15) {
            Ok((n, end)) => Ok((Field::I32(unfold_i64(n) as i32), end)),
            Err(e) => Err(e),
        },
        FieldKind::I64 => match take_varint(bytes, start, 10, 1) {
            Ok((n, end)) => Ok((Field::I64(unfold_i64(n)), end)),
            Err(e) => Err(e),
        },
        FieldKind::Str => match take_varint(bytes, start, 10, 1) {
            Ok((len, at)) => {
                if len > (bytes.len() - at) as u64 {
                    return Err(DecodeError);
                }
                let end = at + len as usize;
                let body = slice_subrange(bytes, at, end);
                assert(body@ =~= input.subrange(at - start, end - start));
                match utf8_text(body) {
                    Some(text) => {
                        proof {
                            encode_utf8_decode_utf8(text@);
                        }
                        Ok((Field::Str(String::from_str(text)), end))
                    },
                    None => Err(DecodeError),
                }
            },
            Err(e) => Err(e),
        },
        FieldKind::Bytes => match take_varint(bytes, start, 10, 1) {
            Ok((len, at)) => {
                if len > (bytes.len() - at) as u64 {
                    return Err(DecodeError);
                }
                let end = at + len as usize;
                let body = slice_subrange(bytes, at, end);
                assert(body@ =~= input.subrange(at - start, end - start));
                Ok((Field::Bytes(vstd::slice::slice_to_vec(body)), end))
            },
            Err(e) => Err(e),
        },
    }
}

/// Reads a payload with the given layout from the front of `bytes`. Returns
/// its fields and the bytes that it did not consume.
///
/// It fails where `bytes` ends before the layout does, where a length in
/// front of a text or a byte string claims more bytes than there are, and
/// where a field is malformed.
pub fn decode<'a>(layout: &Vec<FieldKind>, bytes: &'a [u8]) -> (decoded: Result<
    (Vec<Field>, &'a [u8]),
    DecodeError,
>)
    ensures
        match decoded {
            Ok((fields, rest)) => decode_values(layout@, bytes@) == Some(
                (values_of(fields@), (bytes@.len() - rest@.len()) as nat),
            ) && rest@.len() <= bytes@.len() && rest@ == bytes@.skip(bytes@.len() - rest@.len()),
            Err(_) => decode_values(layout@, bytes@) is None,
        },
{
    let mut fields: Vec<Field> = Vec::new();
    let mut at: usize = 0;
    let mut i: usize = 0;
    assert(layout@.skip(0) =~= layout@);
    assert(bytes@.skip(0) =~= bytes@);
    while i < layout.len()
        invariant
            i <= layout@.len(),
            at <= bytes@.len(),
            fields@.len() == i,
            decode_values(layout@, bytes@) == match decode_values(
                layout@.skip(i as int),
                bytes@.skip(at as int),
            ) {
                Some((values, used)) => Some((values_of(fields@) + values, (at + used) as nat)),
                None => None,
            },
        decreases layout@.len() - i,
    {
        let ghost kinds = layout@.skip(i as int);
        let ghost input = bytes@.skip(at as int);
        let ghost done = values_of(fields@);
        proof {
            assert(kinds[0] == layout@[i as int]);
            assert(kinds.drop_first() =~= layout@.skip(i as int + 1));
        }
        match decode_field(layout[i], bytes, at) {
            Ok((field, end)) => {
                proof {
                    assert(input.skip(end - at) =~= bytes@.skip(end as int));
                    let after = decode_values(layout@.skip(i as int + 1), bytes@.skip(end as int));
                    assert(values_of(fields@.push(field)) =~= done.push(field@));
                    if let Some((values, _)) = after {
                        assert(done + (seq![field@] + values) =~= done.push(field@) + values);
                    }
                }
                fields.push(field);
                at = end;
            },
            Err(e) => {
                return Err(e);
            },
        }
        i = i + 1;
    }
    let rest = slice_subrange(bytes, at, bytes.len());
    proof {
        assert(layout@.skip(i as int) =~= Seq::<FieldKind>::empty());
        assert(values_of(fields@) + Seq::<FieldValue>::empty() =~= values_of(fields@));
        assert(rest@ =~= bytes@.skip(at as int));
    }
    Ok((fields, rest))
}

} // verus!
