//! The values that the format holds, as mathematics: what a value is, which
//! shape it has, what its bytes are, what is read back from bytes for a
//! shape, and which of two values comes first.

use vstd::prelude::*;
use vstd::utf8::decode_utf8;
use vstd::utf8::encode_utf8;
use vstd::utf8::valid_utf8;
use crate::de::INVALID_UTF8;
use crate::error::Error;
use crate::framing::framed;
use crate::framing::unframe;
use crate::order::lex_lt;
use crate::order::proper_prefix;
use crate::primitive::float_rank;
use crate::primitive::spec_decode_bool;
use crate::primitive::spec_decode_char;
use crate::primitive::spec_decode_float;
use crate::primitive::spec_encode_bool;
use crate::primitive::spec_encode_char;
use crate::primitive::spec_encode_f32;
use crate::primitive::spec_encode_f64;
use crate::primitive::spec_read_sint;
use crate::primitive::spec_read_uint;
use crate::ser::BYTES_SENTINEL;
use crate::ser::STR_SENTINEL;
use crate::varint::spec_encode_sint;
use crate::varint::spec_encode_uint;

verus! {

/// The message of the error for a variant index that the shape does not
/// have.
pub const UNKNOWN_VARIANT: &'static str = "unknown variant index";

/// The width of an integer type.
#[derive(Debug, Clone, Copy, PartialEq, Eq, Structural)]
pub enum Width {
    W8,
    W16,
    W32,
    W64,
    W128,
}

impl Width {
    /// The largest unsigned value of the width.
    pub open spec fn greatest_unsigned(self) -> nat {
        match self {
            Width::W8 => 0xFF,
            Width::W16 => 0xFFFF,
            Width::W32 => 0xFFFF_FFFF,
            Width::W64 => 0xFFFF_FFFF_FFFF_FFFF,
            Width::W128 => 0xFFFF_FFFF_FFFF_FFFF_FFFF_FFFF_FFFF_FFFF,
        }
    }

    /// The largest signed value of the width.
    pub open spec fn greatest_signed(self) -> int {
        match self {
            Width::W8 => 0x7F,
            Width::W16 => 0x7FFF,
            Width::W32 => 0x7FFF_FFFF,
            Width::W64 => 0x7FFF_FFFF_FFFF_FFFF,
            Width::W128 => 0x7FFF_FFFF_FFFF_FFFF_FFFF_FFFF_FFFF_FFFF,
        }
    }

    /// The smallest signed value of the width.
    pub open spec fn least_signed(self) -> int {
        -self.greatest_signed() - 1
    }
}

/// A value of the format.
pub enum ValueView {
    Unit,
    Bool(bool),
    /// An unsigned integer of a type of the given width.
    UInt(Width, nat),
    /// A signed integer of a type of the given width.
    SInt(Width, int),
    /// A 32-bit float, as its IEEE-754 bit pattern.
    F32(u32),
    /// A 64-bit float, as its IEEE-754 bit pattern.
    F64(u64),
    Char(char),
    Str(Seq<char>),
    Bytes(Seq<u8>),
    Optional(Option<Box<ValueView>>),
    /// A sequence of any length. A map is the sequence of its entries, each
    /// the tuple of a key and a value, in the order of the keys.
    Sequence(Seq<ValueView>),
    /// A tuple or a struct: its fields in their order.
    Tuple(Seq<ValueView>),
    /// One of the variants of an enum: its index and the fields of its
    /// payload.
    Variant(u32, Seq<ValueView>),
    /// A block of raw bytes of a length that the shape fixes.
    FixedBytes(Seq<u8>),
}

/// The shape of a value: what a decoder has to know, since the bytes do not
/// say it.
pub enum ShapeView {
    Unit,
    Bool,
    UInt(Width),
    SInt(Width),
    F32,
    F64,
    Char,
    Str,
    Bytes,
    Optional(Box<ShapeView>),
    Sequence(Box<ShapeView>),
    Tuple(Seq<ShapeView>),
    /// An enum: for each variant the shapes of the fields of its payload.
    Enum(Seq<Seq<ShapeView>>),
    FixedBytes(nat),
}

/// Why a decoding failed: the error, with its message as mathematics.
pub enum Failure {
    Eof,
    InvalidEncoding,
    IntegerOverflow,
    Unsupported,
    Message(Seq<char>),
}

impl View for Error {
    type V = Failure;

    open spec fn view(&self) -> Failure {
        match self {
            Error::Eof => Failure::Eof,
            Error::InvalidEncoding => Failure::InvalidEncoding,
            Error::IntegerOverflow => Failure::IntegerOverflow,
            Error::Unsupported => Failure::Unsupported,
            Error::Message(m) => Failure::Message(m@),
        }
    }
}

// ── Shapes ─────────────────────────────────────────────────────────────

/// `v` is a value of the shape `s`.
pub open spec fn has_shape(v: ValueView, s: ShapeView) -> bool
    decreases v,
{
    match (v, s) {
        (ValueView::Unit, ShapeView::Unit) => true,
        (ValueView::Bool(_), ShapeView::Bool) => true,
        (ValueView::UInt(w, n), ShapeView::UInt(sw)) => w == sw && n <= w.greatest_unsigned(),
        (ValueView::SInt(w, n), ShapeView::SInt(sw)) => w == sw && w.least_signed() <= n
            <= w.greatest_signed(),
        (ValueView::F32(_), ShapeView::F32) => true,
        (ValueView::F64(_), ShapeView::F64) => true,
        (ValueView::Char(_), ShapeView::Char) => true,
        (ValueView::Str(_), ShapeView::Str) => true,
        (ValueView::Bytes(_), ShapeView::Bytes) => true,
        (ValueView::Optional(None), ShapeView::Optional(_)) => true,
        (ValueView::Optional(Some(x)), ShapeView::Optional(inner)) => has_shape(*x, *inner),
        (ValueView::Sequence(items), ShapeView::Sequence(element)) => all_have_shape(
            items,
            *element,
        ),
        (ValueView::Tuple(fields), ShapeView::Tuple(shapes)) => have_shapes(fields, shapes),
        (ValueView::Variant(index, fields), ShapeView::Enum(variants)) => index < variants.len()
            && have_shapes(fields, variants[index as int]),
        (ValueView::FixedBytes(bytes), ShapeView::FixedBytes(n)) => bytes.len() == n,
        _ => false,
    }
}

/// Every one of `items` has the shape `element`.
pub open spec fn all_have_shape(items: Seq<ValueView>, element: ShapeView) -> bool
    decreases items,
{
    items.len() > 0 ==> has_shape(items[0], element) && all_have_shape(items.skip(1), element)
}

/// There are as many `fields` as `shapes`, and each field has its shape.
pub open spec fn have_shapes(fields: Seq<ValueView>, shapes: Seq<ShapeView>) -> bool
    decreases fields,
{
    if fields.len() == 0 {
        shapes.len() == 0
    } else {
        shapes.len() > 0 && has_shape(fields[0], shapes[0]) && have_shapes(
            fields.skip(1),
            shapes.skip(1),
        )
    }
}

// ── Encoding ───────────────────────────────────────────────────────────

/// The bytes of a value.
pub open spec fn spec_encode(v: ValueView) -> Seq<u8>
    decreases v,
{
    match v {
        ValueView::Unit => Seq::empty(),
        ValueView::Bool(b) => spec_encode_bool(b),
        ValueView::UInt(_, n) => spec_encode_uint(n),
        ValueView::SInt(_, n) => spec_encode_sint(n),
        ValueView::F32(bits) => spec_encode_f32(bits),
        ValueView::F64(bits) => spec_encode_f64(bits),
        ValueView::Char(c) => spec_encode_char(c),
        ValueView::Str(s) => framed(encode_utf8(s), STR_SENTINEL),
        ValueView::Bytes(b) => framed(b, BYTES_SENTINEL),
        ValueView::Optional(None) => spec_encode_bool(false),
        ValueView::Optional(Some(x)) => spec_encode_bool(true) + spec_encode(*x),
        ValueView::Sequence(items) => encode_elements(items) + spec_encode_bool(false),
        ValueView::Tuple(fields) => encode_fields(fields),
        ValueView::Variant(index, fields) => spec_encode_uint(index as nat) + encode_fields(
            fields,
        ),
        ValueView::FixedBytes(bytes) => bytes,
    }
}

/// The bytes of the fields of a tuple, a struct or a variant: one field
/// after the other, with nothing between them.
pub open spec fn encode_fields(fields: Seq<ValueView>) -> Seq<u8>
    decreases fields,
{
    if fields.len() == 0 {
        Seq::empty()
    } else {
        spec_encode(fields[0]) + encode_fields(fields.skip(1))
    }
}

/// The bytes of the elements of a sequence, each behind the tag that says
/// that one more element follows.
pub open spec fn encode_elements(items: Seq<ValueView>) -> Seq<u8>
    decreases items,
{
    if items.len() == 0 {
        Seq::empty()
    } else {
        spec_encode_bool(true) + spec_encode(items[0]) + encode_elements(items.skip(1))
    }
}

// ── Decoding ───────────────────────────────────────────────────────────

/// The failure that stands for an error of the parts.
pub open spec fn failure_of(e: Error) -> Failure {
    e@
}

/// The value of the shape `shape` at the start of `input`, and the number of
/// bytes it takes; or why there is none.
pub open spec fn spec_decode(input: Seq<u8>, shape: ShapeView) -> Result<(ValueView, nat), Failure>
    decreases shape, 0nat,
{
    match shape {
        ShapeView::Unit => Ok((ValueView::Unit, 0)),
        ShapeView::Bool => match spec_decode_bool(input) {
            Ok((b, n)) => Ok((ValueView::Bool(b), n)),
            Err(e) => Err(failure_of(e)),
        },
        ShapeView::UInt(w) => match spec_read_uint(input, w.greatest_unsigned()) {
            Ok((v, n)) => Ok((ValueView::UInt(w, v), n)),
            Err(e) => Err(failure_of(e)),
        },
        ShapeView::SInt(w) => match spec_read_sint(input, w.least_signed(), w.greatest_signed()) {
            Ok((v, n)) => Ok((ValueView::SInt(w, v), n)),
            Err(e) => Err(failure_of(e)),
        },
        ShapeView::F32 => match spec_decode_float(input, 32) {
            Ok((bits, n)) => Ok((ValueView::F32(bits as u32), n)),
            Err(e) => Err(failure_of(e)),
        },
        ShapeView::F64 => match spec_decode_float(input, 64) {
            Ok((bits, n)) => Ok((ValueView::F64(bits as u64), n)),
            Err(e) => Err(failure_of(e)),
        },
        ShapeView::Char => match spec_decode_char(input) {
            Ok((c, n)) => Ok((ValueView::Char(c), n)),
            Err(e) => Err(failure_of(e)),
        },
        ShapeView::Str => match unframe(input, STR_SENTINEL) {
            Ok((data, n)) => if valid_utf8(data) {
                Ok((ValueView::Str(decode_utf8(data)), n))
            } else {
                Err(Failure::Message(INVALID_UTF8@))
            },
            Err(e) => Err(failure_of(e)),
        },
        ShapeView::Bytes => match unframe(input, BYTES_SENTINEL) {
            Ok((data, n)) => Ok((ValueView::Bytes(data), n)),
            Err(e) => Err(failure_of(e)),
        },
        ShapeView::Optional(inner) => match spec_decode_bool(input) {
            Ok((false, n)) => Ok((ValueView::Optional(None), n)),
            Ok((true, n)) => match spec_decode(input.skip(n as int), *inner) {
                Ok((v, m)) => Ok((ValueView::Optional(Some(Box::new(v))), n + m)),
                Err(f) => Err(f),
            },
            Err(e) => Err(failure_of(e)),
        },
        ShapeView::Sequence(element) => match decode_elements(input, *element) {
            Ok((items, n)) => Ok((ValueView::Sequence(items), n)),
            Err(f) => Err(f),
        },
        ShapeView::Tuple(shapes) => match decode_fields(input, shapes) {
            Ok((fields, n)) => Ok((ValueView::Tuple(fields), n)),
            Err(f) => Err(f),
        },
        ShapeView::Enum(variants) => match spec_read_uint(input, u32::MAX as nat) {
            Ok((index, n)) => if index < variants.len() {
                match decode_fields(input.skip(n as int), variants[index as int]) {
                    Ok((fields, m)) => Ok((ValueView::Variant(index as u32, fields), n + m)),
                    Err(f) => Err(f),
                }
            } else {
                Err(Failure::Message(UNKNOWN_VARIANT@))
            },
            Err(e) => Err(failure_of(e)),
        },
        ShapeView::FixedBytes(n) => if input.len() < n {
            Err(Failure::Eof)
        } else {
            Ok((ValueView::FixedBytes(input.take(n as int)), n))
        },
    }
}

/// The fields of the shapes `shapes` at the start of `input`, one after the
/// other.
pub open spec fn decode_fields(input: Seq<u8>, shapes: Seq<ShapeView>) -> Result<
    (Seq<ValueView>, nat),
    Failure,
>
    decreases shapes, 0nat,
{
    if shapes.len() == 0 {
        Ok((Seq::empty(), 0))
    } else {
        match spec_decode(input, shapes[0]) {
            Ok((v, n)) => match decode_fields(input.skip(n as int), shapes.skip(1)) {
                Ok((fields, m)) => Ok((seq![v] + fields, n + m)),
                Err(f) => Err(f),
            },
            Err(f) => Err(f),
        }
    }
}

/// The elements of the shape `element` at the start of `input`, each behind
/// its tag, up to the tag that ends the sequence, which is counted too.
pub open spec fn decode_elements(input: Seq<u8>, element: ShapeView) -> Result<
    (Seq<ValueView>, nat),
    Failure,
>
    decreases element, input.len(),
{
    match spec_decode_bool(input) {
        Ok((false, n)) => Ok((Seq::empty(), n)),
        Ok((true, n)) => match spec_decode(input.skip(1), element) {
            Ok((v, m)) => if 1 + m <= input.len() {
                match decode_elements(input.skip(1 + m as int), element) {
                    Ok((items, k)) => Ok((seq![v] + items, 1 + m + k)),
                    Err(f) => Err(f),
                }
            } else {
                Err(Failure::Eof)
            },
            Err(f) => Err(f),
        },
        Err(e) => Err(failure_of(e)),
    }
}

/// The result `r` of reading on, behind the items `done` that took `taken`
/// bytes.
pub open spec fn behind(
    done: Seq<ValueView>,
    taken: nat,
    r: Result<(Seq<ValueView>, nat), Failure>,
) -> Result<(Seq<ValueView>, nat), Failure> {
    match r {
        Ok((items, n)) => Ok((done + items, taken + n)),
        Err(f) => Err(f),
    }
}

// ── Order ──────────────────────────────────────────────────────────────

/// The natural order of two values of one shape: `a` comes before `b`.
/// Integers, characters and booleans compare as such, floats by their rank,
/// strings and byte strings as their bytes do; none comes before some;
/// tuples and variants compare field by field, sequences element by element,
/// a sequence before each that continues it; variants compare by their index
/// first. One pair is left out, which the format sorts the other way round:
/// a byte string and one that continues it with a byte below `0x7F`.
pub open spec fn sorts_before(a: ValueView, b: ValueView) -> bool
    decreases a,
{
    match (a, b) {
        (ValueView::Bool(x), ValueView::Bool(y)) => !x && y,
        (ValueView::UInt(_, x), ValueView::UInt(_, y)) => x < y,
        (ValueView::SInt(_, x), ValueView::SInt(_, y)) => x < y,
        (ValueView::F32(x), ValueView::F32(y)) => float_rank(x as nat, 32) < float_rank(
            y as nat,
            32,
        ),
        (ValueView::F64(x), ValueView::F64(y)) => float_rank(x as nat, 64) < float_rank(
            y as nat,
            64,
        ),
        (ValueView::Char(x), ValueView::Char(y)) => (x as u32) < (y as u32),
        (ValueView::Str(x), ValueView::Str(y)) => lex_lt(encode_utf8(x), encode_utf8(y)),
        (ValueView::Bytes(x), ValueView::Bytes(y)) => lex_lt(x, y) && !(proper_prefix(x, y)
            && y[x.len() as int] < BYTES_SENTINEL),
        (ValueView::Optional(None), ValueView::Optional(Some(_))) => true,
        (ValueView::Optional(Some(x)), ValueView::Optional(Some(y))) => sorts_before(*x, *y),
        (ValueView::Sequence(x), ValueView::Sequence(y)) => elements_before(x, y),
        (ValueView::Tuple(x), ValueView::Tuple(y)) => fields_before(x, y),
        (ValueView::Variant(i, x), ValueView::Variant(j, y)) => i < j || (i == j
            && fields_before(x, y)),
        (ValueView::FixedBytes(x), ValueView::FixedBytes(y)) => x.len() == y.len() && lex_lt(
            x,
            y,
        ),
        _ => false,
    }
}

/// The fields `x` come before the fields `y`: the first field in which they
/// differ decides.
pub open spec fn fields_before(x: Seq<ValueView>, y: Seq<ValueView>) -> bool
    decreases x,
{
    x.len() > 0 && y.len() > 0 && (sorts_before(x[0], y[0]) || (x[0] == y[0] && fields_before(
        x.skip(1),
        y.skip(1),
    )))
}

/// The elements `x` come before the elements `y`: the first element in
/// which they differ decides, and where there is none, `x` is the shorter.
pub open spec fn elements_before(x: Seq<ValueView>, y: Seq<ValueView>) -> bool
    decreases x,
{
    if x.len() == 0 {
        y.len() > 0
    } else {
        y.len() > 0 && (sorts_before(x[0], y[0]) || (x[0] == y[0] && elements_before(
            x.skip(1),
            y.skip(1),
        )))
    }
}

/// The integers of a value fit 128 bits.
pub open spec fn representable(v: ValueView) -> bool
    decreases v,
{
    match v {
        ValueView::UInt(_, n) => n <= u128::MAX,
        ValueView::SInt(_, n) => i128::MIN <= n <= i128::MAX,
        ValueView::Optional(Some(x)) => representable(*x),
        ValueView::Sequence(items) => all_representable(items),
        ValueView::Tuple(fields) => all_representable(fields),
        ValueView::Variant(_, fields) => all_representable(fields),
        _ => true,
    }
}

/// The integers of all of `items` fit 128 bits.
pub open spec fn all_representable(items: Seq<ValueView>) -> bool
    decreases items,
{
    items.len() > 0 ==> representable(items[0]) && all_representable(items.skip(1))
}

} // verus!
