//! The decoder: a cursor over the input and the operations that read one
//! value or one frame mark from it and move on.

use vstd::prelude::*;
use vstd::utf8::decode_utf8;
use vstd::utf8::is_scalar;
use vstd::utf8::valid_utf8;
use crate::error::Error;
use crate::fixed_bytes::FIXED_BYTES_NAME;
use crate::fixed_bytes::str_equal;
use crate::framing::after;
use crate::framing::lemma_after_after;
use crate::framing::unframe;
use crate::framing::ESCAPE;
use crate::framing::TERMINATOR;
use crate::primitive::float_bits;
use crate::primitive::spec_decode_bool;
use crate::primitive::spec_decode_char;
use crate::primitive::spec_decode_float;
use crate::primitive::spec_read_sint;
use crate::primitive::spec_read_uint;
use crate::primitive::TAG_NO;
use crate::primitive::TAG_YES;
use crate::ser::BYTES_SENTINEL;
use crate::ser::STR_SENTINEL;
use crate::varint::assemble_be;
use crate::varint::decode_sint;
use crate::varint::decode_uint;

verus! {

/// The message of the error for a string that is not UTF-8.
pub const INVALID_UTF8: &'static str = "Invalid UTF-8 string";

/// `char::from_u32`: the character with the scalar value `code`, or `None`
/// where `code` is no Unicode scalar value.
#[verifier::external_body]
fn char_from_u32(code: u32) -> (r: Option<char>)
    ensures
        r == (if is_scalar(code) {
            Some(code as char)
        } else {
            None::<char>
        }),
{
    char::from_u32(code)
}

/// `String::from_utf8`: the string whose UTF-8 encoding `bytes` is, or
/// `None` where `bytes` is not UTF-8.
#[verifier::external_body]
fn string_from_utf8(bytes: Vec<u8>) -> (r: Option<String>)
    ensures
        r is Some <==> valid_utf8(bytes@),
        r matches Some(s) ==> s@ == decode_utf8(bytes@),
{
    String::from_utf8(bytes).ok()
}

/// What an 8-bit unsigned read finds at the start of `input`: the byte
/// itself inside a block of raw bytes, a variable-length integer of at most
/// 255 outside.
pub open spec fn spec_decode_u8(input: Seq<u8>, raw: bool) -> Result<(nat, nat), Error> {
    if !raw {
        spec_read_uint(input, u8::MAX as nat)
    } else if input.len() == 0 {
        Err(Error::Eof)
    } else {
        Ok((input[0] as nat, 1))
    }
}

/// The decoder's state: the input not yet read, and whether a block of raw
/// bytes is open.
pub struct Deserializer<'de> {
    input: &'de [u8],
    raw_byte_mode: bool,
}

/// The countdown over the fields of a tuple, a struct or a variant's payload:
/// their number comes from the shape, not from the input.
pub struct TupleAccess {
    remaining: usize,
}

impl TupleAccess {
    /// How many fields are still to be read.
    pub closed spec fn remaining(&self) -> nat {
        self.remaining as nat
    }

    /// Whether one more field is to be read; it is then counted as read.
    pub fn next_element(&mut self) -> (more: bool)
        ensures
            more == (old(self).remaining() > 0),
            final(self).remaining() == (if more {
                old(self).remaining() - 1
            } else {
                0
            }),
    {
        if self.remaining == 0 {
            return false;
        }
        self.remaining -= 1;
        true
    }
}

impl<'de> Deserializer<'de> {
    /// The input not yet read.
    pub closed spec fn remaining(&self) -> Seq<u8> {
        self.input@
    }

    /// Whether a block of raw bytes is open: an unsigned 8-bit value is then
    /// read as one byte.
    pub closed spec fn raw(&self) -> bool {
        self.raw_byte_mode
    }

    /// Since `before`, exactly `n` bytes were read, and the mode is the same.
    pub open spec fn took(&self, before: &Deserializer<'de>, n: nat) -> bool {
        &&& n <= before.remaining().len()
        &&& self.remaining() == before.remaining().skip(n as int)
        &&& self.raw() == before.raw()
    }

    /// A decoder at the start of `input`.
    pub fn from_bytes(input: &'de [u8]) -> (d: Self)
        ensures
            d.remaining() == input@,
            !d.raw(),
    {
        Deserializer { input, raw_byte_mode: false }
    }

    /// The input not yet read. What follows a decoded value is the caller's
    /// concern.
    pub fn remainder(&self) -> (rest: &'de [u8])
        ensures
            rest@ == self.remaining(),
    {
        self.input
    }

    /// Whether a block of raw bytes is open.
    pub fn in_raw_byte_mode(&self) -> (r: bool)
        ensures
            r == self.raw(),
    {
        self.raw_byte_mode
    }

    /// Go back to where `rest` was what was left, outside any block of raw
    /// bytes.
    pub(crate) fn rewind(&mut self, rest: &'de [u8])
        ensures
            final(self).remaining() == rest@,
            !final(self).raw(),
    {
        self.input = rest;
        self.raw_byte_mode = false;
    }

    /// Move the cursor `n` bytes on.
    fn advance(&mut self, n: usize)
        requires
            n <= old(self).remaining().len(),
        ensures
            final(self).took(old(self), n as nat),
    {
        self.input = vstd::slice::slice_subrange(self.input, n, self.input.len());
    }

    /// Decoding without a shape is not supported.
    pub fn deserialize_any(&mut self) -> (r: Result<(), Error>)
        ensures
            r == Err::<(), Error>(Error::Unsupported),
            *final(self) == *old(self),
    {
        Err(Error::Unsupported)
    }

    /// A boolean: one byte, `0x00` or `0x01`.
    pub fn deserialize_bool(&mut self) -> (r: Result<bool, Error>)
        ensures
            match spec_decode_bool(old(self).remaining()) {
                Ok((v, n)) => r == Ok::<bool, Error>(v) && final(self).took(old(self), n),
                Err(e) => r == Err::<bool, Error>(e) && *final(self) == *old(self),
            },
    {
        if self.input.len() == 0 {
            return Err(Error::Eof);
        }
        let byte: u8 = self.input[0];
        if byte == TAG_NO {
            self.advance(1);
            Ok(false)
        } else if byte == TAG_YES {
            self.advance(1);
            Ok(true)
        } else {
            Err(Error::InvalidEncoding)
        }
    }

    /// Read a signed integer that must lie between `min` and `max`.
    fn read_sint(&mut self, min: i128, max: i128) -> (r: Result<i128, Error>)
        ensures
            match spec_read_sint(old(self).remaining(), min as int, max as int) {
                Ok((v, n)) => r == Ok::<i128, Error>(v as i128) && final(self).took(old(self), n),
                Err(e) => r == Err::<i128, Error>(e) && *final(self) == *old(self),
            },
    {
        match decode_sint(self.input) {
            Ok((v, n)) => {
                if v < min || v > max {
                    Err(Error::IntegerOverflow)
                } else {
                    self.advance(n);
                    Ok(v)
                }
            },
            Err(e) => Err(e),
        }
    }

    /// Read an unsigned integer that must not be above `max`.
    fn read_uint(&mut self, max: u128) -> (r: Result<u128, Error>)
        ensures
            match spec_read_uint(old(self).remaining(), max as nat) {
                Ok((v, n)) => r == Ok::<u128, Error>(v as u128) && final(self).took(old(self), n),
                Err(e) => r == Err::<u128, Error>(e) && *final(self) == *old(self),
            },
    {
        match decode_uint(self.input) {
            Ok((v, n)) => {
                if v > max {
                    Err(Error::IntegerOverflow)
                } else {
                    self.advance(n);
                    Ok(v)
                }
            },
            Err(e) => Err(e),
        }
    }

    /// A signed variable-length integer that fits 8 bits.
    pub fn deserialize_i8(&mut self) -> (r: Result<i8, Error>)
        ensures
            match spec_read_sint(old(self).remaining(), i8::MIN as int, i8::MAX as int) {
                Ok((v, n)) => r == Ok::<i8, Error>(v as i8) && final(self).took(old(self), n),
                Err(e) => r == Err::<i8, Error>(e) && *final(self) == *old(self),
            },
    {
        match self.read_sint(i8::MIN as i128, i8::MAX as i128) {
            Ok(v) => Ok(v as i8),
            Err(e) => Err(e),
        }
    }

    /// A signed variable-length integer that fits 16 bits.
    pub fn deserialize_i16(&mut self) -> (r: Result<i16, Error>)
        ensures
            match spec_read_sint(old(self).remaining(), i16::MIN as int, i16::MAX as int) {
                Ok((v, n)) => r == Ok::<i16, Error>(v as i16) && final(self).took(old(self), n),
                Err(e) => r == Err::<i16, Error>(e) && *final(self) == *old(self),
            },
    {
        match self.read_sint(i16::MIN as i128, i16::MAX as i128) {
            Ok(v) => Ok(v as i16),
            Err(e) => Err(e),
        }
    }

    /// A signed variable-length integer that fits 32 bits.
    pub fn deserialize_i32(&mut self) -> (r: Result<i32, Error>)
        ensures
            match spec_read_sint(old(self).remaining(), i32::MIN as int, i32::MAX as int) {
                Ok((v, n)) => r == Ok::<i32, Error>(v as i32) && final(self).took(old(self), n),
                Err(e) => r == Err::<i32, Error>(e) && *final(self) == *old(self),
            },
    {
        match self.read_sint(i32::MIN as i128, i32::MAX as i128) {
            Ok(v) => Ok(v as i32),
            Err(e) => Err(e),
        }
    }

    /// A signed variable-length integer that fits 64 bits.
    pub fn deserialize_i64(&mut self) -> (r: Result<i64, Error>)
        ensures
            match spec_read_sint(old(self).remaining(), i64::MIN as int, i64::MAX as int) {
                Ok((v, n)) => r == Ok::<i64, Error>(v as i64) && final(self).took(old(self), n),
                Err(e) => r == Err::<i64, Error>(e) && *final(self) == *old(self),
            },
    {
        match self.read_sint(i64::MIN as i128, i64::MAX as i128) {
            Ok(v) => Ok(v as i64),
            Err(e) => Err(e),
        }
    }

    /// A signed variable-length integer that fits 128 bits.
    pub fn deserialize_i128(&mut self) -> (r: Result<i128, Error>)
        ensures
            match spec_read_sint(old(self).remaining(), i128::MIN as int, i128::MAX as int) {
                Ok((v, n)) => r == Ok::<i128, Error>(v as i128) && final(self).took(old(self), n),
                Err(e) => r == Err::<i128, Error>(e) && *final(self) == *old(self),
            },
    {
        self.read_sint(i128::MIN, i128::MAX)
    }

    /// An unsigned 8-bit value: a variable-length integer, or one byte as it
    /// is inside a block of raw bytes.
    pub fn deserialize_u8(&mut self) -> (r: Result<u8, Error>)
        ensures
            match spec_decode_u8(old(self).remaining(), old(self).raw()) {
                Ok((v, n)) => r == Ok::<u8, Error>(v as u8) && final(self).took(old(self), n),
                Err(e) => r == Err::<u8, Error>(e) && *final(self) == *old(self),
            },
    {
        if self.raw_byte_mode {
            if self.input.len() == 0 {
                return Err(Error::Eof);
            }
            let byte: u8 = self.input[0];
            self.advance(1);
            Ok(byte)
        } else {
            match self.read_uint(u8::MAX as u128) {
                Ok(v) => Ok(v as u8),
                Err(e) => Err(e),
            }
        }
    }

    /// An unsigned variable-length integer that fits 16 bits.
    pub fn deserialize_u16(&mut self) -> (r: Result<u16, Error>)
        ensures
            match spec_read_uint(old(self).remaining(), u16::MAX as nat) {
                Ok((v, n)) => r == Ok::<u16, Error>(v as u16) && final(self).took(old(self), n),
                Err(e) => r == Err::<u16, Error>(e) && *final(self) == *old(self),
            },
    {
        match self.read_uint(u16::MAX as u128) {
            Ok(v) => Ok(v as u16),
            Err(e) => Err(e),
        }
    }

    /// An unsigned variable-length integer that fits 32 bits.
    pub fn deserialize_u32(&mut self) -> (r: Result<u32, Error>)
        ensures
            match spec_read_uint(old(self).remaining(), u32::MAX as nat) {
                Ok((v, n)) => r == Ok::<u32, Error>(v as u32) && final(self).took(old(self), n),
                Err(e) => r == Err::<u32, Error>(e) && *final(self) == *old(self),
            },
    {
        match self.read_uint(u32::MAX as u128) {
            Ok(v) => Ok(v as u32),
            Err(e) => Err(e),
        }
    }

    /// An unsigned variable-length integer that fits 64 bits.
    pub fn deserialize_u64(&mut self) -> (r: Result<u64, Error>)
        ensures
            match spec_read_uint(old(self).remaining(), u64::MAX as nat) {
                Ok((v, n)) => r == Ok::<u64, Error>(v as u64) && final(self).took(old(self), n),
                Err(e) => r == Err::<u64, Error>(e) && *final(self) == *old(self),
            },
    {
        match self.read_uint(u64::MAX as u128) {
            Ok(v) => Ok(v as u64),
            Err(e) => Err(e),
        }
    }

    /// An unsigned variable-length integer that fits 128 bits.
    pub fn deserialize_u128(&mut self) -> (r: Result<u128, Error>)
        ensures
            match spec_read_uint(old(self).remaining(), u128::MAX as nat) {
                Ok((v, n)) => r == Ok::<u128, Error>(v as u128) && final(self).took(old(self), n),
                Err(e) => r == Err::<u128, Error>(e) && *final(self) == *old(self),
            },
    {
        self.read_uint(u128::MAX)
    }

    /// Read the key of a float of `n` bytes.
    fn read_key(&mut self, n: usize) -> (r: Result<u128, Error>)
        requires
            n <= 16,
        ensures
            old(self).remaining().len() < n ==> r == Err::<u128, Error>(Error::Eof) && *final(self)
                == *old(self),
            old(self).remaining().len() >= n ==> r == Ok::<u128, Error>(
                crate::big_endian::be_value(old(self).remaining().take(n as int)) as u128,
            ) && final(self).took(old(self), n as nat) && crate::big_endian::be_value(
                old(self).remaining().take(n as int),
            ) < vstd::arithmetic::power2::pow2(8 * n as nat) <= u128::MAX + 1,
    {
        if self.input.len() < n {
            return Err(Error::Eof);
        }
        let bytes = vstd::slice::slice_subrange(self.input, 0, n);
        proof {
            assert(bytes@ =~= self.input@.take(n as int));
            vstd::arithmetic::power2::lemma2_to64();
            crate::bits::lemma_pow2_128((128 - 8 * n) as nat);
            crate::bits::lemma_pow2_128(8 * n as nat);
            vstd::arithmetic::power2::lemma_pow2_pos((128 - 8 * n) as nat);
            crate::big_endian::lemma_be_value_bound(bytes@);
            assert(0 * vstd::arithmetic::power2::pow2(8 * n as nat) == 0);
        }
        let key: u128 = assemble_be(0, bytes);
        self.advance(n);
        Ok(key)
    }

    /// A 32-bit float, as its IEEE-754 bit pattern.
    pub fn deserialize_f32(&mut self) -> (r: Result<u32, Error>)
        ensures
            match spec_decode_float(old(self).remaining(), 32) {
                Ok((bits, n)) => r == Ok::<u32, Error>(bits as u32) && final(self).took(
                    old(self),
                    n,
                ),
                Err(e) => r == Err::<u32, Error>(e) && *final(self) == *old(self),
            },
    {
        let key: u32 = match self.read_key(4) {
            Ok(k) => {
                proof {
                    vstd::arithmetic::power2::lemma2_to64();
                }
                k as u32
            },
            Err(e) => {
                return Err(e);
            },
        };
        let sign_mask: u32 = 0x8000_0000;
        proof {
            vstd::arithmetic::power2::lemma2_to64();
            assert((key & 0x8000_0000u32 == 0) <==> key < 0x8000_0000u32) by (bit_vector);
            assert(!key == 0xFFFF_FFFFu32 - key) by (bit_vector);
            assert(key >= 0x8000_0000u32 ==> key ^ 0x8000_0000u32 == key - 0x8000_0000u32)
                by (bit_vector);
        }
        let bits: u32 = if (key & sign_mask) == 0 {
            !key
        } else {
            key ^ sign_mask
        };
        assert(bits == float_bits(key as nat, 32));
        Ok(bits)
    }

    /// A 64-bit float, as its IEEE-754 bit pattern.
    pub fn deserialize_f64(&mut self) -> (r: Result<u64, Error>)
        ensures
            match spec_decode_float(old(self).remaining(), 64) {
                Ok((bits, n)) => r == Ok::<u64, Error>(bits as u64) && final(self).took(
                    old(self),
                    n,
                ),
                Err(e) => r == Err::<u64, Error>(e) && *final(self) == *old(self),
            },
    {
        let key: u64 = match self.read_key(8) {
            Ok(k) => {
                proof {
                    vstd::arithmetic::power2::lemma2_to64();
                }
                k as u64
            },
            Err(e) => {
                return Err(e);
            },
        };
        let sign_mask: u64 = 0x8000_0000_0000_0000;
        proof {
            vstd::arithmetic::power2::lemma2_to64();
            vstd::arithmetic::power2::lemma2_to64_rest();
            assert((key & 0x8000_0000_0000_0000u64 == 0) <==> key < 0x8000_0000_0000_0000u64)
                by (bit_vector);
            assert(!key == 0xFFFF_FFFF_FFFF_FFFFu64 - key) by (bit_vector);
            assert(key >= 0x8000_0000_0000_0000u64 ==> key ^ 0x8000_0000_0000_0000u64 == key
                - 0x8000_0000_0000_0000u64) by (bit_vector);
        }
        let bits: u64 = if (key & sign_mask) == 0 {
            !key
        } else {
            key ^ sign_mask
        };
        assert(bits == float_bits(key as nat, 64));
        Ok(bits)
    }

    /// A character: an unsigned variable-length integer that is a Unicode
    /// scalar value.
    pub fn deserialize_char(&mut self) -> (r: Result<char, Error>)
        ensures
            match spec_decode_char(old(self).remaining()) {
                Ok((c, n)) => r == Ok::<char, Error>(c) && final(self).took(old(self), n),
                Err(e) => r == Err::<char, Error>(e) && *final(self) == *old(self),
            },
    {
        let (code, n) = match decode_uint(self.input) {
            Ok(pair) => pair,
            Err(e) => {
                return Err(e);
            },
        };
        if code > u32::MAX as u128 {
            return Err(Error::IntegerOverflow);
        }
        match char_from_u32(code as u32) {
            Some(c) => {
                self.advance(n);
                Ok(c)
            },
            None => Err(Error::InvalidEncoding),
        }
    }

    /// A string: a field framed with the sentinel `0x00` whose content is
    /// UTF-8. Content that is not fails with the message `INVALID_UTF8`.
    pub fn deserialize_str(&mut self) -> (r: Result<String, Error>)
        ensures
            match unframe(old(self).remaining(), STR_SENTINEL) {
                Ok((data, n)) => if valid_utf8(data) {
                    &&& r matches Ok(s)
                    &&& s@ == decode_utf8(data)
                    &&& final(self).took(old(self), n)
                } else {
                    &&& r matches Err(Error::Message(m))
                    &&& m@ == INVALID_UTF8@
                    &&& *final(self) == *old(self)
                },
                Err(e) => r == Err::<String, Error>(e) && *final(self) == *old(self),
            },
    {
        let start = self.input;
        let bytes: Vec<u8> = match self.deserialize_with_sentinel(STR_SENTINEL) {
            Ok(b) => b,
            Err(e) => {
                return Err(e);
            },
        };
        match string_from_utf8(bytes) {
            Some(s) => Ok(s),
            None => {
                self.input = start;
                Err(Error::Message(INVALID_UTF8.to_string()))
            },
        }
    }

    /// The same as `deserialize_str`.
    pub fn deserialize_string(&mut self) -> (r: Result<String, Error>)
        ensures
            match unframe(old(self).remaining(), STR_SENTINEL) {
                Ok((data, n)) => if valid_utf8(data) {
                    &&& r matches Ok(s)
                    &&& s@ == decode_utf8(data)
                    &&& final(self).took(old(self), n)
                } else {
                    &&& r matches Err(Error::Message(m))
                    &&& m@ == INVALID_UTF8@
                    &&& *final(self) == *old(self)
                },
                Err(e) => r == Err::<String, Error>(e) && *final(self) == *old(self),
            },
    {
        self.deserialize_str()
    }

    /// A byte string: a field framed with the sentinel `0x7F`.
    pub fn deserialize_bytes(&mut self) -> (r: Result<Vec<u8>, Error>)
        ensures
            match unframe(old(self).remaining(), BYTES_SENTINEL) {
                Ok((data, n)) => r matches Ok(bytes) && bytes@ == data && final(self).took(
                    old(self),
                    n,
                ),
                Err(e) => r == Err::<Vec<u8>, Error>(e) && *final(self) == *old(self),
            },
    {
        self.deserialize_with_sentinel(BYTES_SENTINEL)
    }

    /// The same as `deserialize_bytes`.
    pub fn deserialize_byte_buf(&mut self) -> (r: Result<Vec<u8>, Error>)
        ensures
            match unframe(old(self).remaining(), BYTES_SENTINEL) {
                Ok((data, n)) => r matches Ok(bytes) && bytes@ == data && final(self).took(
                    old(self),
                    n,
                ),
                Err(e) => r == Err::<Vec<u8>, Error>(e) && *final(self) == *old(self),
            },
    {
        self.deserialize_bytes()
    }

    /// The tag of an option: whether a value follows.
    pub fn deserialize_option(&mut self) -> (r: Result<bool, Error>)
        ensures
            match spec_decode_bool(old(self).remaining()) {
                Ok((v, n)) => r == Ok::<bool, Error>(v) && final(self).took(old(self), n),
                Err(e) => r == Err::<bool, Error>(e) && *final(self) == *old(self),
            },
    {
        self.deserialize_bool()
    }

    /// The unit value takes no bytes.
    pub fn deserialize_unit(&mut self) -> (r: Result<(), Error>)
        ensures
            r is Ok,
            *final(self) == *old(self),
    {
        Ok(())
    }

    /// A struct without fields takes no bytes.
    pub fn deserialize_unit_struct(&mut self, _name: &str) -> (r: Result<(), Error>)
        ensures
            r is Ok,
            *final(self) == *old(self),
    {
        self.deserialize_unit()
    }

    /// A struct of one field is that field and nothing else.
    pub fn deserialize_newtype_struct(&mut self, _name: &str) -> (r: Result<(), Error>)
        ensures
            r is Ok,
            *final(self) == *old(self),
    {
        Ok(())
    }

    /// A sequence starts with nothing: `next_element` reads the tag in
    /// front of each element and the one that ends the sequence.
    pub fn deserialize_seq(&mut self) -> (r: Result<(), Error>)
        ensures
            r is Ok,
            *final(self) == *old(self),
    {
        Ok(())
    }

    /// The tag in front of the next element of a sequence: whether there is
    /// one.
    pub fn next_element(&mut self) -> (r: Result<bool, Error>)
        ensures
            match spec_decode_bool(old(self).remaining()) {
                Ok((v, n)) => r == Ok::<bool, Error>(v) && final(self).took(old(self), n),
                Err(e) => r == Err::<bool, Error>(e) && *final(self) == *old(self),
            },
    {
        self.deserialize_bool()
    }

    /// A tuple of `len` fields: the fields follow one another.
    pub fn deserialize_tuple(&mut self, len: usize) -> (access: TupleAccess)
        ensures
            access.remaining() == len,
            *final(self) == *old(self),
    {
        TupleAccess { remaining: len }
    }

    /// A tuple struct of `len` fields. Under the reserved name it is a block
    /// of raw bytes, which this call opens.
    pub fn deserialize_tuple_struct(&mut self, name: &str, len: usize) -> (access: TupleAccess)
        ensures
            access.remaining() == len,
            final(self).remaining() == old(self).remaining(),
            final(self).raw() == (old(self).raw() || name@ == FIXED_BYTES_NAME@),
    {
        if str_equal(name, FIXED_BYTES_NAME) {
            self.raw_byte_mode = true;
        }
        self.deserialize_tuple(len)
    }

    /// The end of a tuple struct closes the block of raw bytes, if one was
    /// open.
    pub fn end_tuple_struct(&mut self)
        ensures
            final(self).remaining() == old(self).remaining(),
            !final(self).raw(),
    {
        self.raw_byte_mode = false;
    }

    /// A map starts with nothing: `next_key` reads the tag in front of each
    /// entry and the one that ends the map.
    pub fn deserialize_map(&mut self) -> (r: Result<(), Error>)
        ensures
            r is Ok,
            *final(self) == *old(self),
    {
        Ok(())
    }

    /// The tag in front of the next entry of a map: whether there is one.
    pub fn next_key(&mut self) -> (r: Result<bool, Error>)
        ensures
            match spec_decode_bool(old(self).remaining()) {
                Ok((v, n)) => r == Ok::<bool, Error>(v) && final(self).took(old(self), n),
                Err(e) => r == Err::<bool, Error>(e) && *final(self) == *old(self),
            },
    {
        self.deserialize_bool()
    }

    /// A struct with the given fields: the fields follow one another.
    pub fn deserialize_struct(&mut self, _name: &str, fields: &[&str]) -> (access: TupleAccess)
        ensures
            access.remaining() == fields@.len(),
            *final(self) == *old(self),
    {
        TupleAccess { remaining: fields.len() }
    }

    /// A variant: its index comes first.
    pub fn deserialize_enum(&mut self, _name: &str, _variants: &[&str]) -> (r: Result<
        u32,
        Error,
    >)
        ensures
            match spec_read_uint(old(self).remaining(), u32::MAX as nat) {
                Ok((v, n)) => r == Ok::<u32, Error>(v as u32) && final(self).took(old(self), n),
                Err(e) => r == Err::<u32, Error>(e) && *final(self) == *old(self),
            },
    {
        self.deserialize_u32()
    }

    /// A variant without payload takes no bytes after its index.
    pub fn unit_variant(&mut self) -> (r: Result<(), Error>)
        ensures
            r is Ok,
            *final(self) == *old(self),
    {
        Ok(())
    }

    /// The payload of a variant with a tuple of `len` fields.
    pub fn tuple_variant(&mut self, len: usize) -> (access: TupleAccess)
        ensures
            access.remaining() == len,
            *final(self) == *old(self),
    {
        TupleAccess { remaining: len }
    }

    /// The payload of a variant with the given named fields.
    pub fn struct_variant(&mut self, fields: &[&str]) -> (access: TupleAccess)
        ensures
            access.remaining() == fields@.len(),
            *final(self) == *old(self),
    {
        TupleAccess { remaining: fields.len() }
    }

    /// A value that is not wanted takes no bytes: the format cannot skip
    /// what it has no shape for.
    pub fn deserialize_ignored_any(&mut self) -> (r: Result<(), Error>)
        ensures
            r is Ok,
            *final(self) == *old(self),
    {
        Ok(())
    }

    /// The format holds no names: decoding an identifier is not supported.
    pub fn deserialize_identifier(&mut self) -> (r: Result<(), Error>)
        ensures
            r == Err::<(), Error>(Error::Unsupported),
            *final(self) == *old(self),
    {
        Err(Error::Unsupported)
    }

    /// Read a field framed by `sentinel` and give its content.
    pub fn deserialize_with_sentinel(&mut self, sentinel: u8) -> (r: Result<Vec<u8>, Error>)
        ensures
            match unframe(old(self).remaining(), sentinel) {
                Ok((data, n)) => r matches Ok(bytes) && bytes@ == data && final(self).took(
                    old(self),
                    n,
                ),
                Err(e) => r == Err::<Vec<u8>, Error>(e) && *final(self) == *old(self),
            },
    {
        let input = self.input;
        let mut bytes: Vec<u8> = Vec::new();
        let mut pos: usize = 0;
        proof {
            assert(input@.skip(0) =~= input@);
            let r = unframe(input@, sentinel);
            if let Ok((data, n)) = r {
                assert(bytes@ + data =~= data);
            }
        }
        loop
            invariant
                pos <= input.len(),
                input == old(self).input,
                *self == *old(self),
                unframe(input@, sentinel) == after(
                    bytes@,
                    pos as nat,
                    unframe(input@.skip(pos as int), sentinel),
                ),
            decreases input.len() - pos,
        {
            let ghost here = input@.skip(pos as int);
            if pos >= input.len() {
                return Err(Error::Eof);
            }
            let byte: u8 = input[pos];
            assert(here[0] == byte);
            if byte == sentinel {
                if pos + 1 >= input.len() {
                    return Err(Error::Eof);
                }
                let next_byte: u8 = input[pos + 1];
                assert(here[1] == next_byte);
                if next_byte == TERMINATOR {
                    proof {
                        assert(bytes@ + Seq::<u8>::empty() =~= bytes@);
                    }
                    self.advance(pos + 2);
                    return Ok(bytes);
                } else if next_byte == ESCAPE {
                    proof {
                        assert(here.skip(2) =~= input@.skip(pos + 2));
                        lemma_after_after(
                            bytes@,
                            pos as nat,
                            seq![sentinel],
                            2,
                            unframe(input@.skip(pos + 2), sentinel),
                        );
                        assert(bytes@.push(sentinel) =~= bytes@ + seq![sentinel]);
                    }
                    bytes.push(sentinel);
                    pos += 2;
                } else {
                    return Err(Error::InvalidEncoding);
                }
            } else {
                proof {
                    assert(here.skip(1) =~= input@.skip(pos + 1));
                    lemma_after_after(
                        bytes@,
                        pos as nat,
                        seq![byte],
                        1,
                        unframe(input@.skip(pos + 1), sentinel),
                    );
                    assert(bytes@.push(byte) =~= bytes@ + seq![byte]);
                }
                bytes.push(byte);
                pos += 1;
            }
        }
    }
}

} // verus!
