//! A block of bytes of a fixed length, written as it is.

use vstd::prelude::*;
use vstd::utf8::encode_utf8;
use vstd::std_specs::convert::FromSpecImpl;
use crate::de::Deserializer;
use crate::error::Error;
use crate::ser::Serializer;

verus! {

/// The name of the tuple struct that stands for a block of raw bytes.
pub const FIXED_BYTES_NAME: &'static str = "lexcode::FixedBytes";

/// Whether two strings are the same.
pub fn str_equal(a: &str, b: &str) -> (r: bool)
    ensures
        r == (a@ == b@),
{
    let x = a.as_bytes();
    let y = b.as_bytes();
    proof {
        vstd::utf8::encode_utf8_decode_utf8(a@);
        vstd::utf8::encode_utf8_decode_utf8(b@);
    }
    if x.len() != y.len() {
        return false;
    }
    let mut i: usize = 0;
    while i < x.len()
        invariant
            i <= x.len(),
            x.len() == y.len(),
            x@ == encode_utf8(a@),
            y@ == encode_utf8(b@),
            forall|j: int| 0 <= j < i ==> x[j] == y[j],
        decreases x.len() - i,
    {
        if x[i] != y[i] {
            return false;
        }
        i += 1;
    }
    assert(x@ =~= y@);
    true
}

/// A fixed-size byte array that is written as raw bytes with zero overhead.
///
/// Unlike `[u8; N]`, whose elements are each a variable-length integer,
/// `FixedBytes<N>` writes each byte as it is: exactly `N` bytes of output,
/// with no framing or escaping, which compare as the arrays do.
#[derive(Debug, Clone, Copy, PartialEq, Eq, PartialOrd, Ord, Hash)]
pub struct FixedBytes<const N: usize>(pub [u8; N]);

impl<const N: usize> View for FixedBytes<N> {
    type V = Seq<u8>;

    open spec fn view(&self) -> Seq<u8> {
        self.0@
    }
}

impl<const N: usize> From<[u8; N]> for FixedBytes<N> {
    /// The block that holds the bytes of `arr`.
    fn from(arr: [u8; N]) -> (fb: Self) {
        FixedBytes(arr)
    }
}

impl<const N: usize> FromSpecImpl<[u8; N]> for FixedBytes<N> {
    open spec fn obeys_from_spec() -> bool {
        true
    }

    open spec fn from_spec(arr: [u8; N]) -> Self {
        FixedBytes(arr)
    }
}

impl<const N: usize> From<FixedBytes<N>> for [u8; N] {
    /// The bytes of the block.
    fn from(fb: FixedBytes<N>) -> (arr: Self) {
        fb.0
    }
}

impl<const N: usize> FromSpecImpl<FixedBytes<N>> for [u8; N] {
    open spec fn obeys_from_spec() -> bool {
        true
    }

    open spec fn from_spec(fb: FixedBytes<N>) -> Self {
        fb.0
    }
}

impl<const N: usize> AsRef<[u8]> for FixedBytes<N> {
    /// The bytes of the block.
    fn as_ref(&self) -> (bytes: &[u8])
        ensures
            bytes@ == self@,
    {
        self.0.as_slice()
    }
}

impl<const N: usize> FixedBytes<N> {

    /// Write the block: its `N` bytes as they are. A block of raw bytes is
    /// opened under the reserved name, each byte is written as an unsigned
    /// 8-bit value, and the block is closed.
    pub fn serialize(&self, serializer: &mut Serializer) -> (r: Result<(), Error>)
        ensures
            r is Ok,
            final(serializer).bytes() == old(serializer).bytes() + self@,
            !final(serializer).raw(),
    {
        match serializer.serialize_tuple_struct(FIXED_BYTES_NAME, N) {
            Ok(()) => {},
            Err(e) => {
                return Err(e);
            },
        }
        let mut i: usize = 0;
        assert(self@.take(0) =~= Seq::<u8>::empty());
        assert(serializer.bytes() =~= old(serializer).bytes() + self@.take(0));
        while i < N
            invariant
                i <= N,
                self@.len() == N,
                serializer.raw(),
                serializer.bytes() == old(serializer).bytes() + self@.take(i as int),
            decreases N - i,
        {
            let byte: u8 = self.0[i];
            let ghost before = serializer.bytes();
            match serializer.serialize_u8(byte) {
                Ok(()) => {},
                Err(e) => {
                    return Err(e);
                },
            }
            proof {
                assert(self@.take(i + 1) =~= self@.take(i as int).push(byte));
                assert(serializer.bytes() =~= old(serializer).bytes() + self@.take(i + 1));
            }
            i += 1;
        }
        assert(self@.take(N as int) =~= self@);
        serializer.end_tuple_struct()
    }

    /// Read a block: the next `N` bytes as they are. `Eof` where fewer are
    /// left; the decoder is then as it was.
    pub fn deserialize(deserializer: &mut Deserializer) -> (r: Result<Self, Error>)
        ensures
            old(deserializer).remaining().len() < N ==> r == Err::<Self, Error>(Error::Eof)
                && *final(deserializer) == *old(deserializer),
            old(deserializer).remaining().len() >= N ==> {
                &&& r matches Ok(fb)
                &&& fb@ == old(deserializer).remaining().take(N as int)
                &&& final(deserializer).remaining() == old(deserializer).remaining().skip(N as int)
                &&& !final(deserializer).raw()
            },
    {
        if deserializer.remainder().len() < N {
            return Err(Error::Eof);
        }
        let mut access = deserializer.deserialize_tuple_struct(FIXED_BYTES_NAME, N);
        let mut arr: [u8; N] = [0u8; N];
        let mut i: usize = 0;
        let ghost input = old(deserializer).remaining();
        assert(deserializer.remaining() =~= input.skip(0));
        while i < N
            invariant
                i <= N <= input.len(),
                arr@.len() == N,
                access.remaining() == N - i,
                deserializer.raw(),
                deserializer.remaining() == input.skip(i as int),
                forall|j: int| 0 <= j < i ==> arr@[j] == input[j],
            decreases N - i,
        {
            let more: bool = access.next_element();
            assert(more);
            let byte: u8 = match deserializer.deserialize_u8() {
                Ok(b) => b,
                Err(e) => {
                    return Err(e);
                },
            };
            proof {
                assert(input.skip(i as int)[0] == input[i as int]);
                assert(input.skip(i as int).skip(1) =~= input.skip(i + 1));
            }
            arr[i] = byte;
            i += 1;
        }
        deserializer.end_tuple_struct();
        let fb = FixedBytes(arr);
        assert(fb@ =~= input.take(N as int));
        Ok(fb)
    }
}

} // verus!
