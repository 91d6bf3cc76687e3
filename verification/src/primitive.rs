//! The formats of the values that are no integers: booleans and tags,
//! floating-point numbers, characters; and integers read at a given width.

use vstd::prelude::*;
use vstd::arithmetic::power2::pow2;
use vstd::arithmetic::power2::lemma2_to64;
use vstd::utf8::is_scalar;
use crate::big_endian::be_bytes;
use crate::big_endian::be_value;
use crate::big_endian::lemma_be_bytes_len;
use crate::big_endian::lemma_be_bytes_lt;
use crate::big_endian::lemma_be_value_of_bytes;
use crate::error::Error;
use crate::order::byte_lt;
use crate::order::lemma_byte_lt_first;
use crate::varint::spec_decode_sint;
use crate::varint::spec_decode_uint;
use crate::varint::spec_encode_sint;
use crate::varint::spec_encode_uint;
use crate::varint::lemma_offset_bound;
use crate::varint_laws::lemma_sint_round_trip;
use crate::varint_laws::lemma_uint_order;
use crate::varint_laws::lemma_uint_round_trip;

verus! {

// ── Booleans and tags ──────────────────────────────────────────────────

/// The byte of the tag that says no: `false`, none, the end of a sequence.
pub const TAG_NO: u8 = 0x00;

/// The byte of the tag that says yes: `true`, some, one more element.
pub const TAG_YES: u8 = 0x01;

/// A boolean or a tag is one byte.
pub open spec fn spec_encode_bool(v: bool) -> Seq<u8> {
    seq![if v {
        TAG_YES
    } else {
        TAG_NO
    }]
}

/// The boolean or tag at the start of `input`. `Eof` where there is no
/// byte, `InvalidEncoding` where the byte is neither tag.
pub open spec fn spec_decode_bool(input: Seq<u8>) -> Result<(bool, nat), Error> {
    if input.len() == 0 {
        Err(Error::Eof)
    } else if input[0] == TAG_NO {
        Ok((false, 1))
    } else if input[0] == TAG_YES {
        Ok((true, 1))
    } else {
        Err(Error::InvalidEncoding)
    }
}

/// Round trip of a boolean or tag.
pub proof fn lemma_bool_round_trip(v: bool, rest: Seq<u8>)
    ensures
        spec_decode_bool(spec_encode_bool(v) + rest) == Ok::<(bool, nat), Error>((v, 1)),
{
}

/// `false` sorts before `true`, none before some, the end of a sequence
/// before one more element.
pub proof fn lemma_bool_order(a: bool, b: bool)
    requires
        !a && b,
    ensures
        byte_lt(spec_encode_bool(a), spec_encode_bool(b)),
{
    lemma_byte_lt_first(spec_encode_bool(a), spec_encode_bool(b));
}

// ── Integers at a width ────────────────────────────────────────────────

/// The unsigned integer at the start of `input`, read for a type that holds
/// values up to `max`: `IntegerOverflow` where the value is larger.
pub open spec fn spec_read_uint(input: Seq<u8>, max: nat) -> Result<(nat, nat), Error> {
    match spec_decode_uint(input) {
        None => Err(Error::Eof),
        Some((v, n)) => if v <= max {
            Ok((v, n))
        } else {
            Err(Error::IntegerOverflow)
        },
    }
}

/// The signed integer at the start of `input`, read for a type that holds
/// the values from `min` to `max`: `IntegerOverflow` where the value is
/// outside.
pub open spec fn spec_read_sint(input: Seq<u8>, min: int, max: int) -> Result<(int, nat), Error> {
    match spec_decode_sint(input) {
        None => Err(Error::Eof),
        Some((v, n)) => if min <= v <= max {
            Ok((v, n))
        } else {
            Err(Error::IntegerOverflow)
        },
    }
}

/// Round trip and overflow rejection, unsigned: an encoded value is read
/// back at every width that holds it, and refused with `IntegerOverflow` at
/// every width that does not.
pub proof fn lemma_read_uint(v: nat, max: nat, rest: Seq<u8>)
    requires
        v <= u128::MAX,
    ensures
        v <= max ==> spec_read_uint(spec_encode_uint(v) + rest, max) == Ok::<(nat, nat), Error>(
            (v, spec_encode_uint(v).len()),
        ),
        v > max ==> spec_read_uint(spec_encode_uint(v) + rest, max) == Err::<(nat, nat), Error>(
            Error::IntegerOverflow,
        ),
{
    lemma_offset_bound(false, 0);
    lemma_uint_round_trip(v, rest);
}

/// Round trip and overflow rejection, signed: an encoded value is read back
/// at every width that holds it, and refused with `IntegerOverflow` at every
/// width that does not.
pub proof fn lemma_read_sint(v: int, min: int, max: int, rest: Seq<u8>)
    requires
        i128::MIN <= v <= i128::MAX,
    ensures
        min <= v <= max ==> spec_read_sint(spec_encode_sint(v) + rest, min, max) == Ok::<
            (int, nat),
            Error,
        >((v, spec_encode_sint(v).len())),
        !(min <= v <= max) ==> spec_read_sint(spec_encode_sint(v) + rest, min, max) == Err::<
            (int, nat),
            Error,
        >(Error::IntegerOverflow),
{
    lemma_offset_bound(true, 0);
    lemma_sint_round_trip(v, rest);
}

// ── Floating-point numbers ─────────────────────────────────────────────

/// The number that is written for a float of `width` bits (32 or 64) with
/// the IEEE-754 bit pattern `bits`: the sign bit is set where it was clear,
/// and all bits are complemented where it was set.
pub open spec fn float_key(bits: nat, width: nat) -> nat {
    let sign = pow2((width - 1) as nat);
    if bits < sign {
        bits + sign
    } else {
        (2 * sign - 1 - bits) as nat
    }
}

/// The bit pattern that `key` was written for.
pub open spec fn float_bits(key: nat, width: nat) -> nat {
    let sign = pow2((width - 1) as nat);
    if key >= sign {
        (key - sign) as nat
    } else {
        (2 * sign - 1 - key) as nat
    }
}

/// Where a bit pattern stands among the floats: its magnitude, taken
/// negative where the sign bit is set. Of two floats of which neither is a
/// NaN the smaller has the lower rank; `+0` and `-0` have the same.
pub open spec fn float_rank(bits: nat, width: nat) -> int {
    let sign = pow2((width - 1) as nat);
    if bits < sign {
        bits as int
    } else {
        -((bits - sign) as int)
    }
}

/// A 32-bit float is written as the four bytes of its key.
pub open spec fn spec_encode_f32(bits: u32) -> Seq<u8> {
    be_bytes(float_key(bits as nat, 32), 4)
}

/// A 64-bit float is written as the eight bytes of its key.
pub open spec fn spec_encode_f64(bits: u64) -> Seq<u8> {
    be_bytes(float_key(bits as nat, 64), 8)
}

/// The bit pattern of the float of `width` bits at the start of `input`.
pub open spec fn spec_decode_float(input: Seq<u8>, width: nat) -> Result<(nat, nat), Error> {
    let n = width / 8;
    if input.len() < n {
        Err(Error::Eof)
    } else {
        Ok((float_bits(be_value(input.take(n as int)), width), n))
    }
}

/// Round trip of a 32-bit pattern, NaNs and both zeros included.
pub proof fn lemma_f32_round_trip(bits: u32, rest: Seq<u8>)
    ensures
        spec_decode_float(spec_encode_f32(bits) + rest, 32) == Ok::<(nat, nat), Error>(
            (bits as nat, 4),
        ),
        spec_encode_f32(bits).len() == 4,
{
    lemma2_to64();
    let key = float_key(bits as nat, 32);
    lemma_be_bytes_len(key, 4);
    lemma_be_value_of_bytes(key, 4);
    assert(pow2(8 * 4) == 0x1_0000_0000);
    assert(key < 0x1_0000_0000);
    assert((spec_encode_f32(bits) + rest).take(4) =~= spec_encode_f32(bits));
    assert(float_bits(key, 32) == bits);
}

/// Round trip of a 64-bit pattern, NaNs and both zeros included.
pub proof fn lemma_f64_round_trip(bits: u64, rest: Seq<u8>)
    ensures
        spec_decode_float(spec_encode_f64(bits) + rest, 64) == Ok::<(nat, nat), Error>(
            (bits as nat, 8),
        ),
        spec_encode_f64(bits).len() == 8,
{
    lemma2_to64();
    vstd::arithmetic::power2::lemma2_to64_rest();
    let key = float_key(bits as nat, 64);
    lemma_be_bytes_len(key, 8);
    lemma_be_value_of_bytes(key, 8);
    assert(pow2(8 * 8) == 0x1_0000_0000_0000_0000);
    assert(key < 0x1_0000_0000_0000_0000);
    assert((spec_encode_f64(bits) + rest).take(8) =~= spec_encode_f64(bits));
    assert(float_bits(key, 64) == bits);
}

/// Order preservation for 32-bit floats: the lower rank has the encoding
/// that sorts first.
pub proof fn lemma_f32_order(a: u32, b: u32)
    requires
        float_rank(a as nat, 32) < float_rank(b as nat, 32),
    ensures
        byte_lt(spec_encode_f32(a), spec_encode_f32(b)),
{
    lemma2_to64();
    lemma_be_bytes_lt(float_key(a as nat, 32), float_key(b as nat, 32), 4);
}

/// Order preservation for 64-bit floats: the lower rank has the encoding
/// that sorts first.
pub proof fn lemma_f64_order(a: u64, b: u64)
    requires
        float_rank(a as nat, 64) < float_rank(b as nat, 64),
    ensures
        byte_lt(spec_encode_f64(a), spec_encode_f64(b)),
{
    lemma2_to64();
    vstd::arithmetic::power2::lemma2_to64_rest();
    lemma_be_bytes_lt(float_key(a as nat, 64), float_key(b as nat, 64), 8);
}

// ── Characters ─────────────────────────────────────────────────────────

/// A character is written as its scalar value, an unsigned integer.
pub open spec fn spec_encode_char(c: char) -> Seq<u8> {
    spec_encode_uint(c as nat)
}

/// The character at the start of `input`: `IntegerOverflow` where the
/// number does not fit 32 bits, `InvalidEncoding` where it is no Unicode
/// scalar value.
pub open spec fn spec_decode_char(input: Seq<u8>) -> Result<(char, nat), Error> {
    match spec_read_uint(input, u32::MAX as nat) {
        Err(e) => Err(e),
        Ok((v, n)) => if is_scalar(v as u32) {
            Ok(((v as u32) as char, n))
        } else {
            Err(Error::InvalidEncoding)
        },
    }
}

/// Round trip of a character.
pub proof fn lemma_char_round_trip(c: char, rest: Seq<u8>)
    ensures
        spec_decode_char(spec_encode_char(c) + rest) == Ok::<(char, nat), Error>(
            (c, spec_encode_char(c).len()),
        ),
{
    lemma_read_uint(c as nat, u32::MAX as nat, rest);
    vstd::utf8::char_is_scalar(c);
    vstd::utf8::char_u32_cast(c, c as u32);
}

/// Order preservation for characters: they sort by their scalar values.
pub proof fn lemma_char_order(a: char, b: char)
    requires
        a < b,
    ensures
        byte_lt(spec_encode_char(a), spec_encode_char(b)),
{
    lemma_offset_bound(false, 0);
    lemma_uint_order(a as nat, b as nat);
}

} // verus!
