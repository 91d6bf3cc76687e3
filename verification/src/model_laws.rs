//! What holds of every value: decoding undoes encoding, and the encodings
//! sort as the values do.

use vstd::prelude::*;
use vstd::utf8::encode_utf8;
use crate::framing::lemma_framed_order;
use crate::framing::lemma_unframe_framed;
use crate::model::all_have_shape;
use crate::model::all_representable;
use crate::model::decode_elements;
use crate::model::decode_fields;
use crate::model::elements_before;
use crate::model::encode_elements;
use crate::model::encode_fields;
use crate::model::fields_before;
use crate::model::has_shape;
use crate::model::have_shapes;
use crate::model::representable;
use crate::model::sorts_before;
use crate::model::spec_decode;
use crate::model::spec_encode;
use crate::model::Failure;
use crate::model::ShapeView;
use crate::model::ValueView;
use crate::model::Width;
use crate::order::byte_lt;
use crate::order::lex_lt;
use crate::order::lemma_byte_lt_append;
use crate::order::lemma_byte_lt_first;
use crate::order::lemma_byte_lt_prepend;
use crate::primitive::lemma_bool_order;
use crate::primitive::lemma_bool_round_trip;
use crate::primitive::lemma_char_order;
use crate::primitive::lemma_char_round_trip;
use crate::primitive::lemma_f32_order;
use crate::primitive::lemma_f32_round_trip;
use crate::primitive::lemma_f64_order;
use crate::primitive::lemma_f64_round_trip;
use crate::primitive::lemma_read_sint;
use crate::primitive::lemma_read_uint;
use crate::primitive::spec_encode_bool;
use crate::ser::BYTES_SENTINEL;
use crate::ser::STR_SENTINEL;
use crate::varint::spec_encode_uint;
use crate::varint::lemma_offset_bound;
use crate::varint_laws::lemma_sint_order;
use crate::varint_laws::lemma_uint_order;

verus! {

// ── Decoding undoes encoding ───────────────────────────────────────────

/// Round trip: from the bytes of a value, whatever follows them, the value
/// is read back for its shape, and the bytes taken are those of the value.
pub proof fn lemma_round_trip(v: ValueView, shape: ShapeView, rest: Seq<u8>)
    requires
        has_shape(v, shape),
    ensures
        spec_decode(spec_encode(v) + rest, shape) == Ok::<(ValueView, nat), Failure>(
            (v, spec_encode(v).len()),
        ),
    decreases v,
{
    match v {
        ValueView::Optional(Some(x)) => {
            lemma_round_trip(*x, *shape->Optional_0, rest);
            lemma_some_round_trip(*x, *shape->Optional_0, rest);
        },
        ValueView::Sequence(items) => {
            lemma_elements_round_trip(items, *shape->Sequence_0, rest);
            assert(spec_encode(v) + rest =~= encode_elements(items) + (spec_encode_bool(false)
                + rest));
        },
        ValueView::Tuple(fields) => {
            lemma_fields_round_trip(fields, shape->Tuple_0, rest);
        },
        ValueView::Variant(index, fields) => {
            lemma_fields_round_trip(fields, shape->Enum_0[index as int], rest);
            lemma_variant_round_trip(index, fields, shape->Enum_0, rest);
        },
        ValueView::UInt(_, _) | ValueView::SInt(_, _) => {
            lemma_integer_round_trip(v, shape, rest);
        },
        ValueView::Str(_) | ValueView::Bytes(_) | ValueView::FixedBytes(_) => {
            lemma_string_round_trip(v, shape, rest);
        },
        _ => {
            lemma_plain_round_trip(v, shape, rest);
        },
    }
}

/// Round trip of the values of one byte or none, of floats and of
/// characters.
proof fn lemma_plain_round_trip(v: ValueView, shape: ShapeView, rest: Seq<u8>)
    requires
        has_shape(v, shape),
        v is Unit || v is Bool || v is F32 || v is F64 || v is Char || v == ValueView::Optional(
            None,
        ),
    ensures
        spec_decode(spec_encode(v) + rest, shape) == Ok::<(ValueView, nat), Failure>(
            (v, spec_encode(v).len()),
        ),
{
    match v {
        ValueView::Bool(b) => {
            lemma_bool_round_trip(b, rest);
        },
        ValueView::F32(bits) => {
            lemma_f32_round_trip(bits, rest);
        },
        ValueView::F64(bits) => {
            lemma_f64_round_trip(bits, rest);
        },
        ValueView::Char(c) => {
            lemma_char_round_trip(c, rest);
        },
        ValueView::Optional(_) => {
            lemma_bool_round_trip(false, rest);
        },
        _ => {},
    }
}

/// Round trip of the integers.
proof fn lemma_integer_round_trip(v: ValueView, shape: ShapeView, rest: Seq<u8>)
    requires
        has_shape(v, shape),
        v is UInt || v is SInt,
    ensures
        spec_decode(spec_encode(v) + rest, shape) == Ok::<(ValueView, nat), Failure>(
            (v, spec_encode(v).len()),
        ),
{
    match v {
        ValueView::UInt(w, n) => {
            lemma_read_uint(n, w.greatest_unsigned(), rest);
        },
        ValueView::SInt(w, n) => {
            lemma_read_sint(n, w.least_signed(), w.greatest_signed(), rest);
        },
        _ => {},
    }
}

/// Round trip of strings, byte strings and blocks of raw bytes.
proof fn lemma_string_round_trip(v: ValueView, shape: ShapeView, rest: Seq<u8>)
    requires
        has_shape(v, shape),
        v is Str || v is Bytes || v is FixedBytes,
    ensures
        spec_decode(spec_encode(v) + rest, shape) == Ok::<(ValueView, nat), Failure>(
            (v, spec_encode(v).len()),
        ),
{
    match v {
        ValueView::Str(s) => {
            lemma_unframe_framed(encode_utf8(s), STR_SENTINEL, rest);
            vstd::utf8::encode_utf8_valid_utf8(s);
            vstd::utf8::encode_utf8_decode_utf8(s);
        },
        ValueView::Bytes(b) => {
            lemma_unframe_framed(b, BYTES_SENTINEL, rest);
        },
        ValueView::FixedBytes(b) => {
            assert((b + rest).take(b.len() as int) =~= b);
        },
        _ => {},
    }
}

/// Round trip of an option that holds a value, from that of the value.
proof fn lemma_some_round_trip(x: ValueView, inner: ShapeView, rest: Seq<u8>)
    requires
        spec_decode(spec_encode(x) + rest, inner) == Ok::<(ValueView, nat), Failure>(
            (x, spec_encode(x).len()),
        ),
    ensures
        spec_decode(
            spec_encode(ValueView::Optional(Some(Box::new(x)))) + rest,
            ShapeView::Optional(Box::new(inner)),
        ) == Ok::<(ValueView, nat), Failure>(
            (
                ValueView::Optional(Some(Box::new(x))),
                spec_encode(ValueView::Optional(Some(Box::new(x)))).len(),
            ),
        ),
{
    let input = spec_encode(ValueView::Optional(Some(Box::new(x)))) + rest;
    lemma_bool_round_trip(true, spec_encode(x) + rest);
    assert(input =~= spec_encode_bool(true) + (spec_encode(x) + rest));
    assert(input.skip(1) =~= spec_encode(x) + rest);
}

/// Round trip of a variant, from that of its fields.
proof fn lemma_variant_round_trip(
    index: u32,
    fields: Seq<ValueView>,
    variants: Seq<Seq<ShapeView>>,
    rest: Seq<u8>,
)
    requires
        index < variants.len(),
        decode_fields(encode_fields(fields) + rest, variants[index as int]) == Ok::<
            (Seq<ValueView>, nat),
            Failure,
        >((fields, encode_fields(fields).len())),
    ensures
        spec_decode(
            spec_encode(ValueView::Variant(index, fields)) + rest,
            ShapeView::Enum(variants),
        ) == Ok::<(ValueView, nat), Failure>(
            (
                ValueView::Variant(index, fields),
                spec_encode(ValueView::Variant(index, fields)).len(),
            ),
        ),
{
    let input = spec_encode(ValueView::Variant(index, fields)) + rest;
    let head = spec_encode_uint(index as nat);
    let after = encode_fields(fields) + rest;
    lemma_read_uint(index as nat, u32::MAX as nat, after);
    assert(input =~= head + after);
    assert(input.skip(head.len() as int) =~= after);
}

/// Round trip of the fields of a tuple, a struct or a variant.
pub proof fn lemma_fields_round_trip(
    fields: Seq<ValueView>,
    shapes: Seq<ShapeView>,
    rest: Seq<u8>,
)
    requires
        have_shapes(fields, shapes),
    ensures
        decode_fields(encode_fields(fields) + rest, shapes) == Ok::<(Seq<ValueView>, nat), Failure>(
            (fields, encode_fields(fields).len()),
        ),
    decreases fields,
{
    let input = encode_fields(fields) + rest;
    if fields.len() == 0 {
        assert(fields =~= Seq::<ValueView>::empty());
    } else {
        let first = spec_encode(fields[0]);
        let others = encode_fields(fields.skip(1));
        lemma_round_trip(fields[0], shapes[0], others + rest);
        assert(input =~= first + (others + rest));
        assert(input.skip(first.len() as int) =~= others + rest);
        lemma_fields_round_trip(fields.skip(1), shapes.skip(1), rest);
        assert(seq![fields[0]] + fields.skip(1) =~= fields);
    }
}

/// Round trip of the elements of a sequence, with the tag that ends them.
pub proof fn lemma_elements_round_trip(items: Seq<ValueView>, element: ShapeView, rest: Seq<u8>)
    requires
        all_have_shape(items, element),
    ensures
        decode_elements(encode_elements(items) + (spec_encode_bool(false) + rest), element) == Ok::<
            (Seq<ValueView>, nat),
            Failure,
        >((items, encode_elements(items).len() + 1)),
    decreases items,
{
    let input = encode_elements(items) + (spec_encode_bool(false) + rest);
    if items.len() == 0 {
        assert(items =~= Seq::<ValueView>::empty());
        lemma_bool_round_trip(false, rest);
        assert(input =~= spec_encode_bool(false) + rest);
    } else {
        let first = spec_encode(items[0]);
        let others = encode_elements(items.skip(1)) + (spec_encode_bool(false) + rest);
        lemma_bool_round_trip(true, first + others);
        assert(input =~= spec_encode_bool(true) + (first + others));
        assert(input.skip(1) =~= first + others);
        lemma_round_trip(items[0], element, others);
        assert(input.skip(1 + first.len() as int) =~= others);
        lemma_elements_round_trip(items.skip(1), element, rest);
        assert(seq![items[0]] + items.skip(1) =~= items);
    }
}

/// No value's bytes are the start of another's: where the bytes of one
/// value of a shape begin with those of another value of the shape, the two
/// values are the same. So a value can be followed by anything, and its end
/// is still found.
pub proof fn lemma_prefix_free(a: ValueView, b: ValueView, shape: ShapeView)
    requires
        has_shape(a, shape),
        has_shape(b, shape),
        spec_encode(a).len() <= spec_encode(b).len(),
        spec_encode(b).take(spec_encode(a).len() as int) == spec_encode(a),
    ensures
        a == b,
{
    let rest = spec_encode(b).skip(spec_encode(a).len() as int);
    assert(spec_encode(b) =~= spec_encode(a) + rest);
    lemma_round_trip(a, shape, rest);
    lemma_round_trip(b, shape, Seq::empty());
    assert(spec_encode(b) + Seq::<u8>::empty() =~= spec_encode(b));
}

// ── The encodings sort as the values ───────────────────────────────────

/// Of two byte strings of one length the one that sorts first differs from
/// the other in a byte.
pub proof fn lemma_same_length_order(a: Seq<u8>, b: Seq<u8>)
    requires
        a.len() == b.len(),
        lex_lt(a, b),
    ensures
        byte_lt(a, b),
{
}

/// Order preservation: the value that comes first has the bytes that sort
/// first, and the two encodings differ in a byte, so that the order stays
/// whatever is appended to them.
pub proof fn lemma_order(a: ValueView, b: ValueView)
    requires
        sorts_before(a, b),
        representable(a),
        representable(b),
    ensures
        byte_lt(spec_encode(a), spec_encode(b)),
    decreases a,
{
    lemma_offset_bound(false, 0);
    lemma_offset_bound(true, 0);
    match (a, b) {
        (ValueView::Bool(x), ValueView::Bool(y)) => {
            lemma_bool_order(x, y);
        },
        (ValueView::UInt(_, x), ValueView::UInt(_, y)) => {
            lemma_uint_order(x, y);
        },
        (ValueView::SInt(_, x), ValueView::SInt(_, y)) => {
            lemma_sint_order(x, y);
        },
        (ValueView::F32(x), ValueView::F32(y)) => {
            lemma_f32_order(x, y);
        },
        (ValueView::F64(x), ValueView::F64(y)) => {
            lemma_f64_order(x, y);
        },
        (ValueView::Char(x), ValueView::Char(y)) => {
            lemma_char_order(x, y);
        },
        (ValueView::Str(x), ValueView::Str(y)) => {
            lemma_framed_order(encode_utf8(x), encode_utf8(y), STR_SENTINEL);
        },
        (ValueView::Bytes(x), ValueView::Bytes(y)) => {
            lemma_framed_order(x, y, BYTES_SENTINEL);
        },
        (ValueView::Optional(None), ValueView::Optional(Some(_))) => {
            lemma_byte_lt_first(spec_encode(a), spec_encode(b));
        },
        (ValueView::Optional(Some(x)), ValueView::Optional(Some(y))) => {
            lemma_order(*x, *y);
            lemma_byte_lt_prepend(spec_encode_bool(true), spec_encode(*x), spec_encode(*y));
        },
        (ValueView::Sequence(x), ValueView::Sequence(y)) => {
            lemma_elements_order(x, y);
        },
        (ValueView::Tuple(x), ValueView::Tuple(y)) => {
            lemma_fields_order(x, y);
        },
        (ValueView::Variant(i, x), ValueView::Variant(j, y)) => {
            if i < j {
                lemma_uint_order(i as nat, j as nat);
                lemma_byte_lt_append(
                    spec_encode_uint(i as nat),
                    spec_encode_uint(j as nat),
                    encode_fields(x),
                    encode_fields(y),
                );
            } else {
                lemma_fields_order(x, y);
                lemma_byte_lt_prepend(
                    spec_encode_uint(i as nat),
                    encode_fields(x),
                    encode_fields(y),
                );
            }
        },
        (ValueView::FixedBytes(x), ValueView::FixedBytes(y)) => {
            lemma_same_length_order(x, y);
        },
        _ => {},
    }
}

/// Order preservation for the fields of a tuple, a struct or a variant.
pub proof fn lemma_fields_order(x: Seq<ValueView>, y: Seq<ValueView>)
    requires
        fields_before(x, y),
        all_representable(x),
        all_representable(y),
    ensures
        byte_lt(encode_fields(x), encode_fields(y)),
    decreases x,
{
    if sorts_before(x[0], y[0]) {
        lemma_order(x[0], y[0]);
        lemma_byte_lt_append(
            spec_encode(x[0]),
            spec_encode(y[0]),
            encode_fields(x.skip(1)),
            encode_fields(y.skip(1)),
        );
    } else {
        lemma_fields_order(x.skip(1), y.skip(1));
        lemma_byte_lt_prepend(
            spec_encode(x[0]),
            encode_fields(x.skip(1)),
            encode_fields(y.skip(1)),
        );
    }
}

/// Order preservation for the elements of a sequence, with the tag that ends
/// them.
pub proof fn lemma_elements_order(x: Seq<ValueView>, y: Seq<ValueView>)
    requires
        elements_before(x, y),
        all_representable(x),
        all_representable(y),
    ensures
        byte_lt(
            encode_elements(x) + spec_encode_bool(false),
            encode_elements(y) + spec_encode_bool(false),
        ),
    decreases x,
{
    let no = spec_encode_bool(false);
    let yes = spec_encode_bool(true);
    let ex = encode_elements(x) + no;
    let ey = encode_elements(y) + no;
    if x.len() == 0 {
        lemma_byte_lt_first(ex, ey);
    } else {
        let tx = encode_elements(x.skip(1)) + no;
        let ty = encode_elements(y.skip(1)) + no;
        assert(ex =~= yes + (spec_encode(x[0]) + tx));
        assert(ey =~= yes + (spec_encode(y[0]) + ty));
        if sorts_before(x[0], y[0]) {
            lemma_order(x[0], y[0]);
            lemma_byte_lt_append(spec_encode(x[0]), spec_encode(y[0]), tx, ty);
        } else {
            lemma_elements_order(x.skip(1), y.skip(1));
            lemma_byte_lt_prepend(spec_encode(x[0]), tx, ty);
        }
        lemma_byte_lt_prepend(yes, spec_encode(x[0]) + tx, spec_encode(y[0]) + ty);
    }
}

/// The order of the bytes is the order of the values, both ways: where one
/// of two values comes before the other, their encodings compare as they
/// do.
pub proof fn lemma_order_agrees(a: ValueView, b: ValueView)
    requires
        sorts_before(a, b) || sorts_before(b, a) || a == b,
        representable(a),
        representable(b),
    ensures
        sorts_before(a, b) <==> lex_lt(spec_encode(a), spec_encode(b)),
        sorts_before(b, a) <==> lex_lt(spec_encode(b), spec_encode(a)),
        a == b ==> spec_encode(a) == spec_encode(b),
{
    if sorts_before(a, b) {
        lemma_order(a, b);
        crate::order::lemma_lex_lt_asymmetric(spec_encode(a), spec_encode(b));
    }
    if sorts_before(b, a) {
        lemma_order(b, a);
        crate::order::lemma_lex_lt_asymmetric(spec_encode(b), spec_encode(a));
    }
    if a == b && lex_lt(spec_encode(a), spec_encode(b)) {
        crate::order::lemma_lex_lt_asymmetric(spec_encode(a), spec_encode(b));
    }
}

// ── Integers of different widths ───────────────────────────────────────

/// Cross-width equivalence: an integer has the same bytes at every width
/// that holds it.
pub proof fn lemma_cross_width_equivalence(narrow: Width, wide: Width, u: nat, s: int)
    ensures
        spec_encode(ValueView::UInt(narrow, u)) == spec_encode(ValueView::UInt(wide, u)),
        spec_encode(ValueView::SInt(narrow, s)) == spec_encode(ValueView::SInt(wide, s)),
{
}

/// Cross-width ordering: two unsigned integers of any two widths have
/// encodings that compare as the integers do.
pub proof fn lemma_cross_width_order_unsigned(wa: Width, a: nat, wb: Width, b: nat)
    requires
        a <= wa.greatest_unsigned(),
        b <= wb.greatest_unsigned(),
    ensures
        a < b <==> lex_lt(spec_encode(ValueView::UInt(wa, a)), spec_encode(ValueView::UInt(wb, b))),
        a == b <==> spec_encode(ValueView::UInt(wa, a)) == spec_encode(ValueView::UInt(wb, b)),
{
    lemma_offset_bound(false, 0);
    crate::varint_laws::lemma_uint_order_agrees(a, b);
}

/// Cross-width ordering: two signed integers of any two widths have
/// encodings that compare as the integers do.
pub proof fn lemma_cross_width_order_signed(wa: Width, a: int, wb: Width, b: int)
    requires
        wa.least_signed() <= a <= wa.greatest_signed(),
        wb.least_signed() <= b <= wb.greatest_signed(),
    ensures
        a < b <==> lex_lt(spec_encode(ValueView::SInt(wa, a)), spec_encode(ValueView::SInt(wb, b))),
        a == b <==> spec_encode(ValueView::SInt(wa, a)) == spec_encode(ValueView::SInt(wb, b)),
{
    lemma_offset_bound(true, 0);
    crate::varint_laws::lemma_sint_order_agrees(a, b);
}

/// Overflow rejection: an integer that is read at a width which does not
/// hold it is refused with `IntegerOverflow`.
pub proof fn lemma_overflow_rejected(from: Width, to: Width, u: nat, s: int, rest: Seq<u8>)
    requires
        u <= from.greatest_unsigned(),
        from.least_signed() <= s <= from.greatest_signed(),
    ensures
        u > to.greatest_unsigned() ==> spec_decode(
            spec_encode(ValueView::UInt(from, u)) + rest,
            ShapeView::UInt(to),
        ) == Err::<(ValueView, nat), Failure>(Failure::IntegerOverflow),
        !(to.least_signed() <= s <= to.greatest_signed()) ==> spec_decode(
            spec_encode(ValueView::SInt(from, s)) + rest,
            ShapeView::SInt(to),
        ) == Err::<(ValueView, nat), Failure>(Failure::IntegerOverflow),
{
    lemma_read_uint(u, to.greatest_unsigned(), rest);
    lemma_read_sint(s, to.least_signed(), to.greatest_signed(), rest);
}

// ── Blocks of raw bytes ────────────────────────────────────────────────

/// A block of raw bytes is written as it is, and read back as it is.
pub proof fn lemma_fixed_bytes(bytes: Seq<u8>, rest: Seq<u8>)
    ensures
        spec_encode(ValueView::FixedBytes(bytes)) == bytes,
        spec_decode(bytes + rest, ShapeView::FixedBytes(bytes.len())) == Ok::<
            (ValueView, nat),
            Failure,
        >((ValueView::FixedBytes(bytes), bytes.len())),
{
    lemma_round_trip(ValueView::FixedBytes(bytes), ShapeView::FixedBytes(bytes.len()), rest);
}

// ── Lists, one item at a time ──────────────────────────────────────────

/// One more field at the end is its bytes at the end.
pub proof fn lemma_encode_fields_push(fields: Seq<ValueView>, last: ValueView)
    ensures
        encode_fields(fields.push(last)) == encode_fields(fields) + spec_encode(last),
    decreases fields.len(),
{
    let all = fields.push(last);
    if fields.len() == 0 {
        assert(all.skip(1) =~= Seq::<ValueView>::empty());
        assert(encode_fields(all.skip(1)) =~= Seq::<u8>::empty());
        assert(encode_fields(all) =~= spec_encode(last));
        assert(encode_fields(fields) + spec_encode(last) =~= spec_encode(last));
    } else {
        lemma_encode_fields_push(fields.skip(1), last);
        assert(all.skip(1) =~= fields.skip(1).push(last));
        assert(encode_fields(all) =~= encode_fields(fields) + spec_encode(last));
    }
}

/// One more element at the end is its tag and its bytes at the end.
pub proof fn lemma_encode_elements_push(items: Seq<ValueView>, last: ValueView)
    ensures
        encode_elements(items.push(last)) == encode_elements(items) + (spec_encode_bool(true)
            + spec_encode(last)),
    decreases items.len(),
{
    let all = items.push(last);
    let piece = spec_encode_bool(true) + spec_encode(last);
    if items.len() == 0 {
        assert(all.skip(1) =~= Seq::<ValueView>::empty());
        assert(encode_elements(all.skip(1)) =~= Seq::<u8>::empty());
        assert(encode_elements(all) =~= piece);
        assert(encode_elements(items) + piece =~= piece);
    } else {
        lemma_encode_elements_push(items.skip(1), last);
        assert(all.skip(1) =~= items.skip(1).push(last));
        assert(encode_elements(all) =~= encode_elements(items) + piece);
    }
}

} // verus!
