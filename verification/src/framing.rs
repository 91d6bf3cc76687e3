//! Sentinel framing: a byte string of any length and content, closed by a
//! sentinel byte, with the sentinel escaped where the content holds it.

use vstd::prelude::*;
use crate::error::Error;
use crate::order::byte_lt;
use crate::order::differ_at;
use crate::order::lex_lt;
use crate::order::proper_prefix;
use crate::order::lemma_byte_lt_prepend;

verus! {

/// The byte that follows a sentinel which stands for itself.
pub const ESCAPE: u8 = 0x01;

/// The byte that follows the sentinel which ends the field.
pub const TERMINATOR: u8 = 0x00;

/// One content byte as it is written: the sentinel is followed by the escape
/// byte, every other byte stands alone.
pub open spec fn escape_byte(b: u8, sentinel: u8) -> Seq<u8> {
    if b == sentinel {
        seq![sentinel, ESCAPE]
    } else {
        seq![b]
    }
}

/// The content as it is written, byte by byte.
pub open spec fn escape(data: Seq<u8>, sentinel: u8) -> Seq<u8>
    decreases data.len(),
{
    if data.len() == 0 {
        Seq::empty()
    } else {
        escape_byte(data[0], sentinel) + escape(data.skip(1), sentinel)
    }
}

/// The whole field: the escaped content, then the sentinel and the
/// terminator.
pub open spec fn framed(data: Seq<u8>, sentinel: u8) -> Seq<u8> {
    escape(data, sentinel) + seq![sentinel, TERMINATOR]
}

/// The content of the field at the start of `input` and the number of bytes
/// the field takes. `Eof` where `input` ends before the field does,
/// `InvalidEncoding` where a sentinel is followed by anything but the
/// terminator or the escape byte.
pub open spec fn unframe(input: Seq<u8>, sentinel: u8) -> Result<(Seq<u8>, nat), Error>
    decreases input.len(),
{
    if input.len() == 0 {
        Err(Error::Eof)
    } else if input[0] != sentinel {
        after(seq![input[0]], 1, unframe(input.skip(1), sentinel))
    } else if input.len() < 2 {
        Err(Error::Eof)
    } else if input[1] == TERMINATOR {
        Ok((Seq::empty(), 2))
    } else if input[1] == ESCAPE {
        after(seq![sentinel], 2, unframe(input.skip(2), sentinel))
    } else {
        Err(Error::InvalidEncoding)
    }
}

/// The result `r` of reading on, behind content `done` that took `taken`
/// bytes.
pub open spec fn after(done: Seq<u8>, taken: nat, r: Result<(Seq<u8>, nat), Error>) -> Result<
    (Seq<u8>, nat),
    Error,
> {
    match r {
        Ok((data, n)) => Ok((done + data, taken + n)),
        Err(e) => Err(e),
    }
}

/// How often `b` occurs in `data`.
pub open spec fn count(data: Seq<u8>, b: u8) -> nat
    decreases data.len(),
{
    if data.len() == 0 {
        0
    } else {
        (if data[0] == b {
            1nat
        } else {
            0nat
        }) + count(data.skip(1), b)
    }
}

/// How often the pair `first`, `second` occurs in `bytes`, at places that do
/// not overlap, counted from the front.
pub open spec fn count_pairs(bytes: Seq<u8>, first: u8, second: u8) -> nat
    decreases bytes.len(),
{
    if bytes.len() < 2 {
        0
    } else if bytes[0] == first && bytes[1] == second {
        1 + count_pairs(bytes.skip(2), first, second)
    } else {
        count_pairs(bytes.skip(1), first, second)
    }
}

// ── Facts ──────────────────────────────────────────────────────────────

/// Escaping goes byte by byte: the parts of a string may be escaped apart.
pub proof fn lemma_escape_concat(a: Seq<u8>, b: Seq<u8>, sentinel: u8)
    ensures
        escape(a + b, sentinel) == escape(a, sentinel) + escape(b, sentinel),
    decreases a.len(),
{
    if a.len() == 0 {
        assert(a + b =~= b);
        assert(escape(a, sentinel) + escape(b, sentinel) =~= escape(b, sentinel));
    } else {
        lemma_escape_concat(a.skip(1), b, sentinel);
        assert((a + b).skip(1) =~= a.skip(1) + b);
        assert(escape(a + b, sentinel) =~= escape(a, sentinel) + escape(b, sentinel));
    }
}

/// One more byte of content is one more escaped byte at the end.
pub proof fn lemma_escape_push(data: Seq<u8>, b: u8, sentinel: u8)
    ensures
        escape(data.push(b), sentinel) == escape(data, sentinel) + escape_byte(b, sentinel),
{
    lemma_escape_concat(data, seq![b], sentinel);
    assert(data.push(b) =~= data + seq![b]);
    assert(seq![b].skip(1) =~= Seq::<u8>::empty());
    assert(escape(seq![b], sentinel) =~= escape_byte(b, sentinel)) by {
        reveal_with_fuel(escape, 2);
    }
}

/// Reading on behind what was read: the contents and the counts add up.
pub proof fn lemma_after_after(
    a: Seq<u8>,
    m: nat,
    b: Seq<u8>,
    n: nat,
    r: Result<(Seq<u8>, nat), Error>,
)
    ensures
        after(a, m, after(b, n, r)) == after(a + b, m + n, r),
{
    if let Ok((data, k)) = r {
        assert(a + (b + data) =~= (a + b) + data);
    }
}

/// Round trip: from a framed field, whatever follows it, the content is read
/// back, and the bytes taken are those of the field.
pub proof fn lemma_unframe_framed(data: Seq<u8>, sentinel: u8, rest: Seq<u8>)
    ensures
        unframe(framed(data, sentinel) + rest, sentinel) == Ok::<(Seq<u8>, nat), Error>(
            (data, framed(data, sentinel).len()),
        ),
    decreases data.len(),
{
    let input = framed(data, sentinel) + rest;
    if data.len() == 0 {
        assert(framed(data, sentinel) =~= seq![sentinel, TERMINATOR]);
        assert(data =~= Seq::<u8>::empty());
    } else {
        let tail = data.skip(1);
        lemma_unframe_framed(tail, sentinel, rest);
        let next = framed(tail, sentinel) + rest;
        assert(framed(data, sentinel) =~= escape_byte(data[0], sentinel) + framed(tail, sentinel));
        if data[0] == sentinel {
            assert(input.skip(2) =~= next);
            assert(seq![sentinel] + tail =~= data);
        } else {
            assert(input.skip(1) =~= next);
            assert(seq![data[0]] + tail =~= data);
        }
    }
}

/// Every sentinel of the content makes one escape pair in the field, and
/// nothing else does.
pub proof fn lemma_escape_pairs(data: Seq<u8>, sentinel: u8)
    ensures
        count_pairs(framed(data, sentinel), sentinel, ESCAPE) == count(data, sentinel),
    decreases data.len(),
{
    let bytes = framed(data, sentinel);
    if data.len() == 0 {
        assert(bytes =~= seq![sentinel, TERMINATOR]);
        assert(bytes.skip(1) =~= seq![TERMINATOR]);
        reveal_with_fuel(count_pairs, 2);
    } else {
        let tail = data.skip(1);
        lemma_escape_pairs(tail, sentinel);
        assert(bytes =~= escape_byte(data[0], sentinel) + framed(tail, sentinel));
        if data[0] == sentinel {
            assert(bytes.skip(2) =~= framed(tail, sentinel));
        } else {
            assert(bytes.skip(1) =~= framed(tail, sentinel));
        }
    }
}

/// Order preservation: of two contents the one that sorts first has the
/// field that sorts first, and the two fields differ in a byte. Left out is
/// the one case in which the fields sort the other way round: a content that
/// is continued by a byte below the sentinel. With the sentinel `0x00` there
/// is no such byte.
pub proof fn lemma_framed_order(a: Seq<u8>, b: Seq<u8>, sentinel: u8)
    requires
        lex_lt(a, b),
        !(proper_prefix(a, b) && b[a.len() as int] < sentinel),
    ensures
        byte_lt(framed(a, sentinel), framed(b, sentinel)),
    decreases a.len(),
{
    let fa = framed(a, sentinel);
    let fb = framed(b, sentinel);
    if a.len() == 0 {
        assert(proper_prefix(a, b)) by {
            if byte_lt(a, b) {
                let i = choose|i: int| differ_at(a, b, i);
            }
        }
        assert(fa =~= seq![sentinel, TERMINATOR]);
        assert(fb =~= escape_byte(b[0], sentinel) + framed(b.skip(1), sentinel));
        if b[0] == sentinel {
            assert(differ_at(fa, fb, 1));
        } else {
            assert(differ_at(fa, fb, 0));
        }
    } else {
        assert(b.len() > 0 && a[0] <= b[0]) by {
            if byte_lt(a, b) {
                let i = choose|i: int| differ_at(a, b, i);
                if i > 0 {
                    assert(a[0] == b[0]);
                }
            }
        }
        assert(fa =~= escape_byte(a[0], sentinel) + framed(a.skip(1), sentinel));
        assert(fb =~= escape_byte(b[0], sentinel) + framed(b.skip(1), sentinel));
        if a[0] < b[0] {
            assert(differ_at(fa, fb, 0));
        } else {
            let ta = a.skip(1);
            let tb = b.skip(1);
            if byte_lt(a, b) {
                let i = choose|i: int| differ_at(a, b, i);
                assert forall|j: int| 0 <= j < i - 1 implies ta[j] == tb[j] by {
                    assert(a[j + 1] == b[j + 1]);
                }
                assert(differ_at(ta, tb, i - 1));
                crate::order::lemma_differ_at_excludes(ta, tb, i - 1);
            } else {
                assert forall|j: int| 0 <= j < ta.len() implies ta[j] == tb[j] by {
                    assert(a[j + 1] == b[j + 1]);
                }
                assert(proper_prefix(ta, tb));
                assert(tb[ta.len() as int] == b[a.len() as int]);
            }
            lemma_framed_order(ta, tb, sentinel);
            lemma_byte_lt_prepend(
                escape_byte(a[0], sentinel),
                framed(ta, sentinel),
                framed(tb, sentinel),
            );
        }
    }
}

} // verus!
