//! Variable-length integers: seven bits to a byte, least significant group
//! first, the top bit of a byte set while more bytes follow.

use crate::error::DecodeError;
use vstd::prelude::*;

verus! {

/// The bytes of `n` as a variable-length integer, in the shortest form.
pub open spec fn varint(n: nat) -> Seq<u8>
    decreases n,
{
    if n < 128 {
        seq![n as u8]
    } else {
        seq![(n % 128 + 128) as u8] + varint(n / 128)
    }
}

/// 128 to the power of `k`.
pub open spec fn pow128(k: nat) -> nat
    decreases k,
{
    if k == 0 {
        1
    } else {
        128 * pow128((k - 1) as nat)
    }
}

/// The number a reader finds at the front of `bytes`, and how many bytes it
/// takes up, when it reads at most `room` bytes and lets the last of them
/// be at most `last_max`.
///
/// The reader takes the first byte, and goes on while the top bit is set. It
/// gives up where the bytes end early, where the top bit is still set in
/// byte `room`, and where byte `room` is more than `last_max`. Padded forms,
/// with groups of zeros at the end, are read as the number they stand for.
pub open spec fn parse_varint(bytes: Seq<u8>, room: nat, last_max: nat) -> Option<(nat, nat)>
    decreases room,
{
    if room == 0 || bytes.len() == 0 {
        None
    } else if bytes[0] < 128 {
        if room == 1 && bytes[0] > last_max {
            None
        } else {
            Some((bytes[0] as nat, 1nat))
        }
    } else {
        match parse_varint(bytes.drop_first(), (room - 1) as nat, last_max) {
            Some((value, used)) => Some((((bytes[0] - 128) + 128 * value) as nat, used + 1)),
            None => None,
        }
    }
}

/// The numbers that a reader with this room can find: those below this
/// limit.
pub open spec fn varint_limit(room: nat, last_max: nat) -> nat {
    if room == 0 {
        0
    } else {
        pow128((room - 1) as nat) * (last_max + 1)
    }
}

/// What a reader finds takes up at least one byte and no more than there
/// are, and is below the limit of its room.
pub proof fn lemma_parse_varint_bounds(bytes: Seq<u8>, room: nat, last_max: nat)
    requires
        last_max < 128,
    ensures
        parse_varint(bytes, room, last_max) matches Some((value, used)) ==> 1 <= used <= room
            && used <= bytes.len() && value < varint_limit(room, last_max),
    decreases room,
{
    if room == 0 || bytes.len() == 0 {
    } else if bytes[0] < 128 {
        if room > 1 {
            lemma_pow128_grows((room - 2) as nat);
            let p = pow128((room - 1) as nat);
            assert(p >= 128);
            assert(p * (last_max + 1) >= 128) by (nonlinear_arith)
                requires
                    p >= 128,
            ;
        } else {
            let p = pow128((room - 1) as nat);
            assert(p == 1);
            assert(p * (last_max + 1) == last_max + 1) by (nonlinear_arith)
                requires
                    p == 1,
            ;
        }
    } else {
        let tail = bytes.drop_first();
        lemma_parse_varint_bounds(tail, (room - 1) as nat, last_max);
        match parse_varint(tail, (room - 1) as nat, last_max) {
            Some((value, used)) => {
                assert(room >= 2);
                let q = pow128((room - 2) as nat);
                let inner = q * (last_max + 1);
                assert(varint_limit((room - 1) as nat, last_max) == inner);
                assert(value < inner);
                assert(pow128((room - 1) as nat) == 128 * q);
                assert((128 * q) * (last_max + 1) == 128 * (q * (last_max + 1)))
                    by (nonlinear_arith);
                assert(varint_limit(room, last_max) == 128 * inner);
                assert(parse_varint(bytes, room, last_max) == Some(
                    (((bytes[0] - 128) + 128 * value) as nat, used + 1),
                ));
                assert(used + 1 <= bytes.len());
            },
            None => {
                assert(parse_varint(bytes, room, last_max) is None);
            },
        }
    }
}

/// A reader with room for one byte finds the numbers up to `last_max`.
pub proof fn lemma_limit_of_one(last_max: nat)
    ensures
        varint_limit(1, last_max) == last_max + 1,
{
    let p = pow128(0);
    assert(p == 1);
    assert(p * (last_max + 1) == last_max + 1) by (nonlinear_arith)
        requires
            p == 1,
    ;
}

/// A power of 128 above the zeroth is at least 128.
pub proof fn lemma_pow128_grows(k: nat)
    ensures
        pow128(k + 1) >= 128,
        pow128(k) >= 1,
    decreases k,
{
    assert(pow128(k + 1) == 128 * pow128(k));
    if k > 0 {
        lemma_pow128_grows((k - 1) as nat);
    }
}

/// A number below the limit of a reader's room is read back from its
/// shortest form, whatever follows it.
pub proof fn lemma_parse_varint_of_varint(n: nat, rest: Seq<u8>, room: nat, last_max: nat)
    requires
        last_max < 128,
        n < varint_limit(room, last_max),
    ensures
        parse_varint(varint(n) + rest, room, last_max) == Some((n, varint(n).len())),
    decreases n,
{
    let bytes = varint(n) + rest;
    assert(room >= 1);
    if n < 128 {
        assert(bytes[0] == n as u8);
        if room == 1 {
            lemma_limit_of_one(last_max);
        }
    } else {
        let tail = varint(n / 128);
        assert(bytes[0] == (n % 128 + 128) as u8);
        assert(bytes.drop_first() =~= tail + rest);
        if room == 1 {
            lemma_limit_of_one(last_max);
        }
        assert(room >= 2);
        assert(pow128((room - 1) as nat) == 128 * pow128((room - 2) as nat));
        assert(n / 128 < pow128((room - 2) as nat) * (last_max + 1)) by (nonlinear_arith)
            requires
                n < pow128((room - 1) as nat) * (last_max + 1),
                pow128((room - 1) as nat) == 128 * pow128((room - 2) as nat),
        ;
        lemma_parse_varint_of_varint(n / 128, rest, (room - 1) as nat, last_max);
        assert(varint(n).len() == tail.len() + 1);
        assert(((n % 128 + 128) as u8 - 128) + 128 * (n / 128) == n);
    }
}

/// Appends `value` as a variable-length integer to `out`.
pub fn push_varint(out: &mut Vec<u8>, value: u64)
    ensures
        final(out)@ == old(out)@ + varint(value as nat),
    decreases value,
{
    if value < 128 {
        out.push(value as u8);
    } else {
        out.push((value % 128 + 128) as u8);
        push_varint(out, value / 128);
    }
}

/// Reads a variable-length integer from `bytes`, from offset `start` on,
/// taking at most `room` bytes and letting the last of them be at most
/// `last_max`. Returns the number and the offset behind it.
pub fn take_varint(bytes: &[u8], start: usize, room: u8, last_max: u8) -> (taken: Result<
    (u64, usize),
    DecodeError,
>)
    requires
        start <= bytes@.len(),
        last_max < 128,
        varint_limit(room as nat, last_max as nat) <= u64::MAX + 1,
    ensures
        match taken {
            Ok((value, end)) => parse_varint(bytes@.skip(start as int), room as nat, last_max as nat)
                == Some((value as nat, (end - start) as nat)) && start < end <= bytes@.len(),
            Err(_) => parse_varint(bytes@.skip(start as int), room as nat, last_max as nat) is None,
        },
    decreases room,
{
    let ghost input = bytes@.skip(start as int);
    if room == 0 || start >= bytes.len() {
        return Err(DecodeError);
    }
    let byte = bytes[start];
    assert(input[0] == byte);
    if byte < 128 {
        if room == 1 && byte > last_max {
            Err(DecodeError)
        } else {
            Ok((byte as u64, start + 1))
        }
    } else {
        proof {
            assert(input.drop_first() =~= bytes@.skip(start as int + 1));
            lemma_parse_varint_bounds(input.drop_first(), (room - 1) as nat, last_max as nat);
            if room >= 2 {
                assert(pow128((room - 1) as nat) == 128 * pow128((room - 2) as nat));
                assert(varint_limit(room as nat, last_max as nat) == 128 * varint_limit(
                    (room - 1) as nat,
                    last_max as nat,
                )) by (nonlinear_arith)
                    requires
                        room >= 2,
                        varint_limit(room as nat, last_max as nat) == pow128((room - 1) as nat) * (
                        last_max + 1),
                        varint_limit((room - 1) as nat, last_max as nat) == pow128(
                            (room - 2) as nat,
                        ) * (last_max + 1),
                        pow128((room - 1) as nat) == 128 * pow128((room - 2) as nat),
                ;
            }
        }
        match take_varint(bytes, start + 1, room - 1, last_max) {
            Ok((value, end)) => {
                assert(128 * value + 127 <= u64::MAX);
                Ok(((byte - 128) as u64 + 128 * value, end))
            },
            Err(e) => Err(e),
        }
    }
}

} // verus!
