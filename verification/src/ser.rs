//! The encoder: a growing byte buffer and the operations that append one
//! value or one frame mark to it.

use vstd::prelude::*;
use vstd::utf8::encode_utf8;
use crate::error::Error;
use crate::fixed_bytes::FIXED_BYTES_NAME;
use crate::fixed_bytes::str_equal;
use crate::framing::escape;
use crate::framing::framed;
use crate::framing::lemma_escape_push;
use crate::framing::ESCAPE;
use crate::framing::TERMINATOR;
use crate::primitive::float_key;
use crate::primitive::spec_encode_bool;
use crate::primitive::spec_encode_char;
use crate::primitive::spec_encode_f32;
use crate::primitive::spec_encode_f64;
use crate::primitive::TAG_NO;
use crate::primitive::TAG_YES;
use crate::varint::encode_sint;
use crate::varint::encode_uint;
use crate::varint::spec_encode_sint;
use crate::varint::spec_encode_uint;
use crate::varint::write_be_tail;

verus! {

/// The sentinel that ends a string.
pub const STR_SENTINEL: u8 = 0x00;

/// The sentinel that ends a byte string.
pub const BYTES_SENTINEL: u8 = 0x7F;

/// The encoder's state: the bytes written so far, and whether a block of raw
/// bytes is open.
pub struct Serializer {
    output: Vec<u8>,
    raw_byte_mode: bool,
}

impl Serializer {
    /// The bytes written so far.
    pub closed spec fn bytes(&self) -> Seq<u8> {
        self.output@
    }

    /// Whether a block of raw bytes is open: an unsigned 8-bit value is then
    /// written as it is.
    pub closed spec fn raw(&self) -> bool {
        self.raw_byte_mode
    }

    /// Since `before`, exactly `bytes` were appended, and the mode is the
    /// same.
    pub open spec fn wrote(&self, before: &Serializer, bytes: Seq<u8>) -> bool {
        &&& self.bytes() == before.bytes() + bytes
        &&& self.raw() == before.raw()
    }

    /// An encoder that has written nothing.
    pub fn new() -> (s: Self)
        ensures
            s.bytes() == Seq::<u8>::empty(),
            !s.raw(),
    {
        Serializer { output: Vec::new(), raw_byte_mode: false }
    }

    /// The bytes written, handed over.
    pub fn into_bytes(self) -> (out: Vec<u8>)
        ensures
            out@ == self.bytes(),
    {
        self.output
    }

    /// Whether a block of raw bytes is open.
    pub fn in_raw_byte_mode(&self) -> (r: bool)
        ensures
            r == self.raw(),
    {
        self.raw_byte_mode
    }

    /// A boolean: one byte, `0x00` or `0x01`.
    pub fn serialize_bool(&mut self, v: bool) -> (r: Result<(), Error>)
        ensures
            r is Ok,
            final(self).wrote(old(self), spec_encode_bool(v)),
    {
        self.output.push(if v {
            TAG_YES
        } else {
            TAG_NO
        });
        assert(self.output@ =~= old(self).output@ + spec_encode_bool(v));
        Ok(())
    }

    /// A signed 8-bit value: a signed variable-length integer.
    pub fn serialize_i8(&mut self, v: i8) -> (r: Result<(), Error>)
        ensures
            r is Ok,
            final(self).wrote(old(self), spec_encode_sint(v as int)),
    {
        encode_sint(v as i128, &mut self.output);
        Ok(())
    }

    /// A signed 16-bit value: a signed variable-length integer.
    pub fn serialize_i16(&mut self, v: i16) -> (r: Result<(), Error>)
        ensures
            r is Ok,
            final(self).wrote(old(self), spec_encode_sint(v as int)),
    {
        encode_sint(v as i128, &mut self.output);
        Ok(())
    }

    /// A signed 32-bit value: a signed variable-length integer.
    pub fn serialize_i32(&mut self, v: i32) -> (r: Result<(), Error>)
        ensures
            r is Ok,
            final(self).wrote(old(self), spec_encode_sint(v as int)),
    {
        encode_sint(v as i128, &mut self.output);
        Ok(())
    }

    /// A signed 64-bit value: a signed variable-length integer.
    pub fn serialize_i64(&mut self, v: i64) -> (r: Result<(), Error>)
        ensures
            r is Ok,
            final(self).wrote(old(self), spec_encode_sint(v as int)),
    {
        encode_sint(v as i128, &mut self.output);
        Ok(())
    }

    /// A signed 128-bit value: a signed variable-length integer.
    pub fn serialize_i128(&mut self, v: i128) -> (r: Result<(), Error>)
        ensures
            r is Ok,
            final(self).wrote(old(self), spec_encode_sint(v as int)),
    {
        encode_sint(v, &mut self.output);
        Ok(())
    }

    /// An unsigned 8-bit value: a variable-length integer, or the byte
    /// itself inside a block of raw bytes.
    pub fn serialize_u8(&mut self, v: u8) -> (r: Result<(), Error>)
        ensures
            r is Ok,
            final(self).wrote(
                old(self),
                if old(self).raw() {
                    seq![v]
                } else {
                    spec_encode_uint(v as nat)
                },
            ),
    {
        if self.raw_byte_mode {
            self.output.push(v);
            assert(self.output@ =~= old(self).output@ + seq![v]);
        } else {
            encode_uint(v as u128, &mut self.output);
        }
        Ok(())
    }

    /// An unsigned 16-bit value: an unsigned variable-length integer.
    pub fn serialize_u16(&mut self, v: u16) -> (r: Result<(), Error>)
        ensures
            r is Ok,
            final(self).wrote(old(self), spec_encode_uint(v as nat)),
    {
        encode_uint(v as u128, &mut self.output);
        Ok(())
    }

    /// An unsigned 32-bit value: an unsigned variable-length integer.
    pub fn serialize_u32(&mut self, v: u32) -> (r: Result<(), Error>)
        ensures
            r is Ok,
            final(self).wrote(old(self), spec_encode_uint(v as nat)),
    {
        encode_uint(v as u128, &mut self.output);
        Ok(())
    }

    /// An unsigned 64-bit value: an unsigned variable-length integer.
    pub fn serialize_u64(&mut self, v: u64) -> (r: Result<(), Error>)
        ensures
            r is Ok,
            final(self).wrote(old(self), spec_encode_uint(v as nat)),
    {
        encode_uint(v as u128, &mut self.output);
        Ok(())
    }

    /// An unsigned 128-bit value: an unsigned variable-length integer.
    pub fn serialize_u128(&mut self, v: u128) -> (r: Result<(), Error>)
        ensures
            r is Ok,
            final(self).wrote(old(self), spec_encode_uint(v as nat)),
    {
        encode_uint(v, &mut self.output);
        Ok(())
    }

    /// A 32-bit float, given by its IEEE-754 bit pattern.
    pub fn serialize_f32(&mut self, bits: u32) -> (r: Result<(), Error>)
        ensures
            r is Ok,
            final(self).wrote(old(self), spec_encode_f32(bits)),
    {
        let sign_mask: u32 = 0x8000_0000;
        proof {
            vstd::arithmetic::power2::lemma2_to64();
            assert((bits & 0x8000_0000u32 != 0) <==> bits >= 0x8000_0000u32) by (bit_vector);
            assert(!bits == 0xFFFF_FFFFu32 - bits) by (bit_vector);
            assert(bits < 0x8000_0000u32 ==> bits ^ 0x8000_0000u32 == bits + 0x8000_0000u32)
                by (bit_vector);
        }
        let key: u32 = if (bits & sign_mask) != 0 {
            // Negative number: flip all bits
            !bits
        } else {
            // Positive number: flip sign bit
            bits ^ sign_mask
        };
        assert(key == float_key(bits as nat, 32));
        write_be_tail(key as u128, 4, &mut self.output);
        Ok(())
    }

    /// A 64-bit float, given by its IEEE-754 bit pattern.
    pub fn serialize_f64(&mut self, bits: u64) -> (r: Result<(), Error>)
        ensures
            r is Ok,
            final(self).wrote(old(self), spec_encode_f64(bits)),
    {
        let sign_mask: u64 = 0x8000_0000_0000_0000;
        proof {
            vstd::arithmetic::power2::lemma2_to64();
            vstd::arithmetic::power2::lemma2_to64_rest();
            assert((bits & 0x8000_0000_0000_0000u64 != 0) <==> bits >= 0x8000_0000_0000_0000u64)
                by (bit_vector);
            assert(!bits == 0xFFFF_FFFF_FFFF_FFFFu64 - bits) by (bit_vector);
            assert(bits < 0x8000_0000_0000_0000u64 ==> bits ^ 0x8000_0000_0000_0000u64 == bits
                + 0x8000_0000_0000_0000u64) by (bit_vector);
        }
        let key: u64 = if (bits & sign_mask) != 0 {
            // Negative number: flip all bits
            !bits
        } else {
            // Positive number: flip sign bit
            bits ^ sign_mask
        };
        assert(key == float_key(bits as nat, 64));
        write_be_tail(key as u128, 8, &mut self.output);
        Ok(())
    }

    /// A character: its scalar value as an unsigned variable-length integer.
    pub fn serialize_char(&mut self, c: char) -> (r: Result<(), Error>)
        ensures
            r is Ok,
            final(self).wrote(old(self), spec_encode_char(c)),
    {
        encode_uint(c as u128, &mut self.output);
        Ok(())
    }

    /// A string: its UTF-8 bytes, framed with the sentinel `0x00`.
    pub fn serialize_str(&mut self, v: &str) -> (r: Result<(), Error>)
        ensures
            r is Ok,
            final(self).wrote(old(self), framed(encode_utf8(v@), STR_SENTINEL)),
    {
        self.serialize_with_sentinel(v.as_bytes(), STR_SENTINEL)
    }

    /// A byte string: its bytes, framed with the sentinel `0x7F`.
    pub fn serialize_bytes(&mut self, v: &[u8]) -> (r: Result<(), Error>)
        ensures
            r is Ok,
            final(self).wrote(old(self), framed(v@, BYTES_SENTINEL)),
    {
        self.serialize_with_sentinel(v, BYTES_SENTINEL)
    }

    /// The tag of an option that holds nothing.
    pub fn serialize_none(&mut self) -> (r: Result<(), Error>)
        ensures
            r is Ok,
            final(self).wrote(old(self), spec_encode_bool(false)),
    {
        self.output.push(TAG_NO);
        assert(self.output@ =~= old(self).output@ + spec_encode_bool(false));
        Ok(())
    }

    /// The tag of an option that holds a value; the value follows.
    pub fn serialize_some(&mut self) -> (r: Result<(), Error>)
        ensures
            r is Ok,
            final(self).wrote(old(self), spec_encode_bool(true)),
    {
        self.output.push(TAG_YES);
        assert(self.output@ =~= old(self).output@ + spec_encode_bool(true));
        Ok(())
    }

    /// The unit value takes no bytes.
    pub fn serialize_unit(&mut self) -> (r: Result<(), Error>)
        ensures
            r is Ok,
            *final(self) == *old(self),
    {
        Ok(())
    }

    /// A struct without fields takes no bytes.
    pub fn serialize_unit_struct(&mut self, _name: &str) -> (r: Result<(), Error>)
        ensures
            r is Ok,
            *final(self) == *old(self),
    {
        Ok(())
    }

    /// A variant without payload is its index.
    pub fn serialize_unit_variant(
        &mut self,
        _name: &str,
        variant_index: u32,
        _variant: &str,
    ) -> (r: Result<(), Error>)
        ensures
            r is Ok,
            final(self).wrote(old(self), spec_encode_uint(variant_index as nat)),
    {
        self.serialize_u32(variant_index)
    }

    /// A struct of one field is that field and nothing else.
    pub fn serialize_newtype_struct(&mut self, _name: &str) -> (r: Result<(), Error>)
        ensures
            r is Ok,
            *final(self) == *old(self),
    {
        Ok(())
    }

    /// A variant of one field is its index; the field follows.
    pub fn serialize_newtype_variant(
        &mut self,
        _name: &str,
        variant_index: u32,
        _variant: &str,
    ) -> (r: Result<(), Error>)
        ensures
            r is Ok,
            final(self).wrote(old(self), spec_encode_uint(variant_index as nat)),
    {
        self.serialize_u32(variant_index)
    }

    /// A sequence starts with nothing: each element brings its own tag.
    pub fn serialize_seq(&mut self, _len: Option<usize>) -> (r: Result<(), Error>)
        ensures
            r is Ok,
            *final(self) == *old(self),
    {
        Ok(())
    }

    /// The tag in front of each element of a sequence.
    pub fn serialize_seq_element(&mut self) -> (r: Result<(), Error>)
        ensures
            r is Ok,
            final(self).wrote(old(self), spec_encode_bool(true)),
    {
        self.output.push(TAG_YES);  // Element separator
        assert(self.output@ =~= old(self).output@ + spec_encode_bool(true));
        Ok(())
    }

    /// The tag that ends a sequence.
    pub fn end_seq(&mut self) -> (r: Result<(), Error>)
        ensures
            r is Ok,
            final(self).wrote(old(self), spec_encode_bool(false)),
    {
        self.output.push(TAG_NO);  // End of sequence
        assert(self.output@ =~= old(self).output@ + spec_encode_bool(false));
        Ok(())
    }

    /// A tuple is its fields, one after the other.
    pub fn serialize_tuple(&mut self, _len: usize) -> (r: Result<(), Error>)
        ensures
            r is Ok,
            *final(self) == *old(self),
    {
        Ok(())
    }

    /// A tuple struct is its fields, one after the other. Under the reserved
    /// name it is a block of raw bytes, which this call opens.
    pub fn serialize_tuple_struct(&mut self, name: &str, _len: usize) -> (r: Result<(), Error>)
        ensures
            r is Ok,
            final(self).bytes() == old(self).bytes(),
            final(self).raw() == (old(self).raw() || name@ == FIXED_BYTES_NAME@),
    {
        if str_equal(name, FIXED_BYTES_NAME) {
            self.raw_byte_mode = true;
        }
        Ok(())
    }

    /// The end of a tuple struct closes the block of raw bytes, if one was
    /// open.
    pub fn end_tuple_struct(&mut self) -> (r: Result<(), Error>)
        ensures
            r is Ok,
            final(self).bytes() == old(self).bytes(),
            !final(self).raw(),
    {
        self.raw_byte_mode = false;
        Ok(())
    }

    /// A variant with a tuple as payload is its index; the fields follow.
    pub fn serialize_tuple_variant(
        &mut self,
        _name: &str,
        variant_index: u32,
        _variant: &str,
        _len: usize,
    ) -> (r: Result<(), Error>)
        ensures
            r is Ok,
            final(self).wrote(old(self), spec_encode_uint(variant_index as nat)),
    {
        self.serialize_u32(variant_index)
    }

    /// A map starts with nothing: each entry brings its own tag.
    pub fn serialize_map(&mut self, _len: Option<usize>) -> (r: Result<(), Error>)
        ensures
            r is Ok,
            *final(self) == *old(self),
    {
        Ok(())
    }

    /// The tag in front of each entry of a map; key and value follow.
    pub fn serialize_map_key(&mut self) -> (r: Result<(), Error>)
        ensures
            r is Ok,
            final(self).wrote(old(self), spec_encode_bool(true)),
    {
        self.output.push(TAG_YES);  // Key separator
        assert(self.output@ =~= old(self).output@ + spec_encode_bool(true));
        Ok(())
    }

    /// The tag that ends a map.
    pub fn end_map(&mut self) -> (r: Result<(), Error>)
        ensures
            r is Ok,
            final(self).wrote(old(self), spec_encode_bool(false)),
    {
        self.output.push(TAG_NO);  // End of map
        assert(self.output@ =~= old(self).output@ + spec_encode_bool(false));
        Ok(())
    }

    /// A struct is its fields, one after the other.
    pub fn serialize_struct(&mut self, _name: &str, _len: usize) -> (r: Result<(), Error>)
        ensures
            r is Ok,
            *final(self) == *old(self),
    {
        Ok(())
    }

    /// A variant with named fields is its index; the fields follow.
    pub fn serialize_struct_variant(
        &mut self,
        _name: &str,
        variant_index: u32,
        _variant: &str,
        _len: usize,
    ) -> (r: Result<(), Error>)
        ensures
            r is Ok,
            final(self).wrote(old(self), spec_encode_uint(variant_index as nat)),
    {
        self.serialize_u32(variant_index)
    }

    /// Write `data` framed by `sentinel`: each sentinel in it is followed by
    /// the escape byte, and the sentinel and the terminator close the field.
    pub fn serialize_with_sentinel(&mut self, data: &[u8], sentinel: u8) -> (r: Result<(), Error>)
        ensures
            r is Ok,
            final(self).wrote(old(self), framed(data@, sentinel)),
    {
        let mut i: usize = 0;
        assert(data@.take(0) =~= Seq::<u8>::empty());
        assert(self.output@ =~= old(self).output@ + escape(data@.take(0), sentinel));
        while i < data.len()
            invariant
                i <= data.len(),
                self.raw_byte_mode == old(self).raw_byte_mode,
                self.output@ == old(self).output@ + escape(data@.take(i as int), sentinel),
            decreases data.len() - i,
        {
            let byte: u8 = data[i];
            proof {
                lemma_escape_push(data@.take(i as int), byte, sentinel);
                assert(data@.take(i + 1) =~= data@.take(i as int).push(byte));
            }
            let ghost before = self.output@;
            self.output.push(byte);
            if byte == sentinel {
                self.output.push(ESCAPE);
            }
            assert(self.output@ =~= old(self).output@ + escape(data@.take(i + 1), sentinel));
            i += 1;
        }
        assert(data@.take(data.len() as int) =~= data@);
        self.output.push(sentinel);
        self.output.push(TERMINATOR);
        assert(self.output@ =~= old(self).output@ + framed(data@, sentinel));
        Ok(())
    }
}

} // verus!
