//! Values and shapes as data: any value of the format can be built, encoded
//! and decoded without a type of its own.

use vstd::prelude::*;
use crate::de::Deserializer;
use crate::de::TupleAccess;
use crate::error::Error;
use crate::fixed_bytes::FIXED_BYTES_NAME;
use crate::model::behind;
use crate::model::decode_elements;
use crate::model::decode_fields;
use crate::model::encode_elements;
use crate::model::encode_fields;
use crate::model::spec_decode;
use crate::model::spec_encode;
use crate::model::Failure;
use crate::model::ShapeView;
use crate::model::ValueView;
use crate::model::Width;
use crate::model::UNKNOWN_VARIANT;
use crate::ser::Serializer;

verus! {

/// A value of the format.
#[derive(Debug, PartialEq, Eq)]
pub enum Value {
    Unit,
    Bool(bool),
    /// An unsigned integer of a type of the given width.
    UInt(Width, u128),
    /// A signed integer of a type of the given width.
    SInt(Width, i128),
    /// A 32-bit float, as its IEEE-754 bit pattern.
    F32(u32),
    /// A 64-bit float, as its IEEE-754 bit pattern.
    F64(u64),
    Char(char),
    Str(String),
    Bytes(Vec<u8>),
    Optional(Option<Box<Value>>),
    /// A sequence of any length. A map is the sequence of its entries, each
    /// the tuple of a key and a value, in the order of the keys.
    Sequence(Vec<Value>),
    /// A tuple or a struct: its fields in their order.
    Tuple(Vec<Value>),
    /// One of the variants of an enum: its index and the fields of its
    /// payload.
    Variant(u32, Vec<Value>),
    /// A block of raw bytes of a length that the shape fixes.
    FixedBytes(Vec<u8>),
}

/// The shape of a value: what a decoder has to know, since the bytes do not
/// say it.
#[derive(Debug, PartialEq, Eq)]
pub enum Shape {
    Unit,
    Bool,
    UInt(Width),
    SInt(Width),
    F32,
    F64,
    Char,
    Str,
    Bytes,
    Optional(Box<Shape>),
    Sequence(Box<Shape>),
    Tuple(Vec<Shape>),
    /// An enum: for each variant the shapes of the fields of its payload.
    Enum(Vec<Vec<Shape>>),
    FixedBytes(usize),
}

// ── Views ──────────────────────────────────────────────────────────────

/// The value that `v` holds.
pub open spec fn value_view(v: Value) -> ValueView
    decreases v,
{
    match v {
        Value::Unit => ValueView::Unit,
        Value::Bool(b) => ValueView::Bool(b),
        Value::UInt(w, n) => ValueView::UInt(w, n as nat),
        Value::SInt(w, n) => ValueView::SInt(w, n as int),
        Value::F32(bits) => ValueView::F32(bits),
        Value::F64(bits) => ValueView::F64(bits),
        Value::Char(c) => ValueView::Char(c),
        Value::Str(s) => ValueView::Str(s@),
        Value::Bytes(b) => ValueView::Bytes(b@),
        Value::Optional(None) => ValueView::Optional(None),
        Value::Optional(Some(x)) => ValueView::Optional(Some(Box::new(value_view(*x)))),
        Value::Sequence(items) => ValueView::Sequence(value_views(items@)),
        Value::Tuple(fields) => ValueView::Tuple(value_views(fields@)),
        Value::Variant(index, fields) => ValueView::Variant(index, value_views(fields@)),
        Value::FixedBytes(b) => ValueView::FixedBytes(b@),
    }
}

/// The values that `items` hold.
pub open spec fn value_views(items: Seq<Value>) -> Seq<ValueView>
    decreases items,
{
    if items.len() == 0 {
        Seq::empty()
    } else {
        value_views(items.drop_last()).push(value_view(items.last()))
    }
}

/// The shape that `s` describes.
pub open spec fn shape_view(s: Shape) -> ShapeView
    decreases s,
{
    match s {
        Shape::Unit => ShapeView::Unit,
        Shape::Bool => ShapeView::Bool,
        Shape::UInt(w) => ShapeView::UInt(w),
        Shape::SInt(w) => ShapeView::SInt(w),
        Shape::F32 => ShapeView::F32,
        Shape::F64 => ShapeView::F64,
        Shape::Char => ShapeView::Char,
        Shape::Str => ShapeView::Str,
        Shape::Bytes => ShapeView::Bytes,
        Shape::Optional(inner) => ShapeView::Optional(Box::new(shape_view(*inner))),
        Shape::Sequence(element) => ShapeView::Sequence(Box::new(shape_view(*element))),
        Shape::Tuple(shapes) => ShapeView::Tuple(shape_views(shapes@)),
        Shape::Enum(variants) => ShapeView::Enum(variant_views(variants@)),
        Shape::FixedBytes(n) => ShapeView::FixedBytes(n as nat),
    }
}

/// The shapes that `shapes` describe.
pub open spec fn shape_views(shapes: Seq<Shape>) -> Seq<ShapeView>
    decreases shapes,
{
    if shapes.len() == 0 {
        Seq::empty()
    } else {
        shape_views(shapes.drop_last()).push(shape_view(shapes.last()))
    }
}

/// The shapes of the payloads that `variants` describe.
pub open spec fn variant_views(variants: Seq<Vec<Shape>>) -> Seq<Seq<ShapeView>>
    decreases variants,
{
    if variants.len() == 0 {
        Seq::empty()
    } else {
        variant_views(variants.drop_last()).push(shape_views(variants.last()@))
    }
}

impl View for Value {
    type V = ValueView;

    open spec fn view(&self) -> ValueView {
        value_view(*self)
    }
}

impl View for Shape {
    type V = ShapeView;

    open spec fn view(&self) -> ShapeView {
        shape_view(*self)
    }
}

/// The views of a list of shapes are the views of its items, one for one.
pub proof fn lemma_shape_views(shapes: Seq<Shape>)
    ensures
        shape_views(shapes).len() == shapes.len(),
        forall|i: int| 0 <= i < shapes.len() ==> #[trigger] shape_views(shapes)[i] == shape_view(shapes[i]),
    decreases shapes.len(),
{
    if shapes.len() > 0 {
        lemma_shape_views(shapes.drop_last());
    }
}

/// The views of a list of variants are the views of its items, one for one.
pub proof fn lemma_variant_views(variants: Seq<Vec<Shape>>)
    ensures
        variant_views(variants).len() == variants.len(),
        forall|i: int| 0 <= i < variants.len() ==> #[trigger] variant_views(variants)[i] == shape_views(variants[i]@),
    decreases variants.len(),
{
    if variants.len() > 0 {
        lemma_variant_views(variants.drop_last());
    }
}

// ── Encoding ───────────────────────────────────────────────────────────

/// Encode `value`.
pub fn to_bytes(value: &Value) -> (r: Result<Vec<u8>, Error>)
    ensures
        r matches Ok(bytes) && bytes@ == spec_encode(value@),
{
    let mut serializer = Serializer::new();
    match value.serialize(&mut serializer) {
        Ok(()) => {},
        Err(e) => {
            return Err(e);
        },
    }
    assert(serializer.bytes() =~= spec_encode(value@));
    Ok(serializer.into_bytes())
}

impl Value {
    /// Append the bytes of the value to what `serializer` has written. No
    /// block of raw bytes may be open.
    pub fn serialize(&self, serializer: &mut Serializer) -> (r: Result<(), Error>)
        requires
            !old(serializer).raw(),
        ensures
            r is Ok,
            final(serializer).wrote(old(serializer), spec_encode(self@)),
        decreases self,
    {
        match self {
            Value::Unit => {
                assert(serializer.bytes() =~= serializer.bytes() + Seq::<u8>::empty());
                serializer.serialize_unit()
            },
            Value::Bool(b) => serializer.serialize_bool(*b),
            Value::UInt(_, n) => serializer.serialize_u128(*n),
            Value::SInt(_, n) => serializer.serialize_i128(*n),
            Value::F32(bits) => serializer.serialize_f32(*bits),
            Value::F64(bits) => serializer.serialize_f64(*bits),
            Value::Char(c) => serializer.serialize_char(*c),
            Value::Str(s) => serializer.serialize_str(s.as_str()),
            Value::Bytes(b) => serializer.serialize_bytes(b.as_slice()),
            Value::Optional(None) => serializer.serialize_none(),
            Value::Optional(Some(x)) => {
                match serializer.serialize_some() {
                    Ok(()) => {},
                    Err(e) => {
                        return Err(e);
                    },
                }
                let r = x.serialize(serializer);
                assert(serializer.bytes() =~= old(serializer).bytes() + spec_encode(self@));
                r
            },
            Value::Sequence(items) => {
                match serializer.serialize_seq(Some(items.len())) {
                    Ok(()) => {},
                    Err(e) => {
                        return Err(e);
                    },
                }
                let mut i: usize = 0;
                assert(items@.take(0) =~= Seq::<Value>::empty());
                assert(serializer.bytes() =~= old(serializer).bytes() + encode_elements(
                    value_views(items@.take(0)),
                ));
                while i < items.len()
                    invariant
                        i <= items.len(),
                        *self == Value::Sequence(*items),
                        !serializer.raw(),
                        serializer.bytes() == old(serializer).bytes() + encode_elements(
                            value_views(items@.take(i as int)),
                        ),
                    decreases items.len() - i,
                {
                    let ghost done = value_views(items@.take(i as int));
                    match serializer.serialize_seq_element() {
                        Ok(()) => {},
                        Err(e) => {
                            return Err(e);
                        },
                    }
                    proof {
                        assert(decreases_to!(*self => self->Sequence_0));
                        assert(decreases_to!(*items => items@));
                        assert(decreases_to!(items@ => items@[i as int]));
                    }
                    match items[i].serialize(serializer) {
                        Ok(()) => {},
                        Err(e) => {
                            return Err(e);
                        },
                    }
                    proof {
                        assert(items@.take(i + 1).drop_last() =~= items@.take(i as int));
                        crate::model_laws::lemma_encode_elements_push(done, items[i as int]@);
                        assert(serializer.bytes() =~= old(serializer).bytes() + encode_elements(
                            value_views(items@.take(i + 1)),
                        ));
                    }
                    i += 1;
                }
                assert(items@.take(items.len() as int) =~= items@);
                let r = serializer.end_seq();
                assert(serializer.bytes() =~= old(serializer).bytes() + spec_encode(self@));
                r
            },
            Value::Tuple(fields) => {
                match serializer.serialize_tuple(fields.len()) {
                    Ok(()) => {},
                    Err(e) => {
                        return Err(e);
                    },
                }
                let mut i: usize = 0;
                assert(fields@.take(0) =~= Seq::<Value>::empty());
                assert(serializer.bytes() =~= old(serializer).bytes() + encode_fields(
                    value_views(fields@.take(0)),
                ));
                while i < fields.len()
                    invariant
                        i <= fields.len(),
                        *self == Value::Tuple(*fields),
                        !serializer.raw(),
                        serializer.bytes() == old(serializer).bytes() + encode_fields(
                            value_views(fields@.take(i as int)),
                        ),
                    decreases fields.len() - i,
                {
                    let ghost done = value_views(fields@.take(i as int));
                    proof {
                        assert(decreases_to!(*self => self->Tuple_0));
                        assert(decreases_to!(*fields => fields@));
                        assert(decreases_to!(fields@ => fields@[i as int]));
                    }
                    match fields[i].serialize(serializer) {
                        Ok(()) => {},
                        Err(e) => {
                            return Err(e);
                        },
                    }
                    proof {
                        assert(fields@.take(i + 1).drop_last() =~= fields@.take(i as int));
                        crate::model_laws::lemma_encode_fields_push(done, fields[i as int]@);
                        assert(serializer.bytes() =~= old(serializer).bytes() + encode_fields(
                            value_views(fields@.take(i + 1)),
                        ));
                    }
                    i += 1;
                }
                assert(fields@.take(fields.len() as int) =~= fields@);
                Ok(())
            },
            Value::Variant(index, fields) => {
                match serializer.serialize_tuple_variant("", *index, "", fields.len()) {
                    Ok(()) => {},
                    Err(e) => {
                        return Err(e);
                    },
                }
                let ghost head = serializer.bytes();
                let mut i: usize = 0;
                assert(fields@.take(0) =~= Seq::<Value>::empty());
                assert(serializer.bytes() =~= head + encode_fields(value_views(fields@.take(0))));
                while i < fields.len()
                    invariant
                        i <= fields.len(),
                        *self == Value::Variant(*index, *fields),
                        !serializer.raw(),
                        serializer.bytes() == head + encode_fields(
                            value_views(fields@.take(i as int)),
                        ),
                    decreases fields.len() - i,
                {
                    let ghost done = value_views(fields@.take(i as int));
                    proof {
                        assert(decreases_to!(*self => self->Variant_1));
                        assert(decreases_to!(*fields => fields@));
                        assert(decreases_to!(fields@ => fields@[i as int]));
                    }
                    match fields[i].serialize(serializer) {
                        Ok(()) => {},
                        Err(e) => {
                            return Err(e);
                        },
                    }
                    proof {
                        assert(fields@.take(i + 1).drop_last() =~= fields@.take(i as int));
                        crate::model_laws::lemma_encode_fields_push(done, fields[i as int]@);
                        assert(serializer.bytes() =~= head + encode_fields(
                            value_views(fields@.take(i + 1)),
                        ));
                    }
                    i += 1;
                }
                assert(fields@.take(fields.len() as int) =~= fields@);
                assert(serializer.bytes() =~= old(serializer).bytes() + spec_encode(self@));
                Ok(())
            },
            Value::FixedBytes(bytes) => {
                match serializer.serialize_tuple_struct(FIXED_BYTES_NAME, bytes.len()) {
                    Ok(()) => {},
                    Err(e) => {
                        return Err(e);
                    },
                }
                let mut i: usize = 0;
                assert(bytes@.take(0) =~= Seq::<u8>::empty());
                assert(serializer.bytes() =~= old(serializer).bytes() + bytes@.take(0));
                while i < bytes.len()
                    invariant
                        i <= bytes.len(),
                        serializer.raw(),
                        serializer.bytes() == old(serializer).bytes() + bytes@.take(i as int),
                    decreases bytes.len() - i,
                {
                    let byte: u8 = bytes[i];
                    match serializer.serialize_u8(byte) {
                        Ok(()) => {},
                        Err(e) => {
                            return Err(e);
                        },
                    }
                    proof {
                        assert(bytes@.take(i + 1) =~= bytes@.take(i as int).push(byte));
                        assert(serializer.bytes() =~= old(serializer).bytes() + bytes@.take(
                            i + 1,
                        ));
                    }
                    i += 1;
                }
                assert(bytes@.take(bytes.len() as int) =~= bytes@);
                serializer.end_tuple_struct()
            },
        }
    }
}

// ── Decoding ───────────────────────────────────────────────────────────

/// Decode a value of the shape `shape` from the start of `input`. What
/// follows the value is not looked at.
pub fn from_bytes(input: &[u8], shape: &Shape) -> (r: Result<Value, Error>)
    ensures
        match spec_decode(input@, shape@) {
            Ok((v, _)) => r matches Ok(value) && value@ == v,
            Err(f) => r matches Err(e) && e@ == f,
        },
{
    let mut deserializer = Deserializer::from_bytes(input);
    Value::deserialize(&mut deserializer, shape)
}

/// Read an unsigned integer of the width `w`.
fn read_unsigned(d: &mut Deserializer, w: Width) -> (r: Result<u128, Error>)
    requires
        !old(d).raw(),
    ensures
        match crate::primitive::spec_read_uint(old(d).remaining(), w.greatest_unsigned()) {
            Ok((v, n)) => r == Ok::<u128, Error>(v as u128) && final(d).took(old(d), n),
            Err(e) => r == Err::<u128, Error>(e) && *final(d) == *old(d),
        },
{
    match w {
        Width::W8 => match d.deserialize_u8() {
            Ok(v) => Ok(v as u128),
            Err(e) => Err(e),
        },
        Width::W16 => match d.deserialize_u16() {
            Ok(v) => Ok(v as u128),
            Err(e) => Err(e),
        },
        Width::W32 => match d.deserialize_u32() {
            Ok(v) => Ok(v as u128),
            Err(e) => Err(e),
        },
        Width::W64 => match d.deserialize_u64() {
            Ok(v) => Ok(v as u128),
            Err(e) => Err(e),
        },
        Width::W128 => d.deserialize_u128(),
    }
}

/// Read a signed integer of the width `w`.
fn read_signed(d: &mut Deserializer, w: Width) -> (r: Result<i128, Error>)
    ensures
        match crate::primitive::spec_read_sint(
            old(d).remaining(),
            w.least_signed(),
            w.greatest_signed(),
        ) {
            Ok((v, n)) => r == Ok::<i128, Error>(v as i128) && final(d).took(old(d), n),
            Err(e) => r == Err::<i128, Error>(e) && *final(d) == *old(d),
        },
{
    match w {
        Width::W8 => match d.deserialize_i8() {
            Ok(v) => Ok(v as i128),
            Err(e) => Err(e),
        },
        Width::W16 => match d.deserialize_i16() {
            Ok(v) => Ok(v as i128),
            Err(e) => Err(e),
        },
        Width::W32 => match d.deserialize_i32() {
            Ok(v) => Ok(v as i128),
            Err(e) => Err(e),
        },
        Width::W64 => match d.deserialize_i64() {
            Ok(v) => Ok(v as i128),
            Err(e) => Err(e),
        },
        Width::W128 => d.deserialize_i128(),
    }
}

/// Reading on behind what was read: the items and the counts add up.
proof fn lemma_behind_behind(
    a: Seq<ValueView>,
    m: nat,
    b: Seq<ValueView>,
    n: nat,
    r: Result<(Seq<ValueView>, nat), Failure>,
)
    ensures
        behind(a, m, behind(b, n, r)) == behind(a + b, m + n, r),
{
    if let Ok((items, k)) = r {
        assert(a + (b + items) =~= (a + b) + items);
    }
}

/// Read the fields of the shapes `shapes`, one after the other. After a
/// failure the decoder is left where it failed.
fn read_fields(d: &mut Deserializer, shapes: &Vec<Shape>, access: TupleAccess) -> (r: Result<
    Vec<Value>,
    Error,
>)
    requires
        !old(d).raw(),
        access.remaining() == shapes@.len(),
    ensures
        match decode_fields(old(d).remaining(), shape_views(shapes@)) {
            Ok((fields, n)) => r matches Ok(values) && value_views(values@) == fields && final(d).took(old(d), n),
            Err(f) => r matches Err(e) && e@ == f,
        },
    decreases shapes, 0nat,
{
    let mut access = access;
    let mut values: Vec<Value> = Vec::new();
    let mut i: usize = 0;
    let ghost input = d.remaining();
    let ghost all = shape_views(shapes@);
    let ghost mut taken: nat = 0;
    proof {
        lemma_shape_views(shapes@);
        assert(input.skip(0) =~= input);
        assert(all.skip(0) =~= all);
        let r = decode_fields(input, all);
        if let Ok((fields, n)) = r {
            assert(Seq::<ValueView>::empty() + fields =~= fields);
        }
    }
    loop
        invariant
            i <= shapes.len(),
            access.remaining() == shapes.len() - i,
            all == shape_views(shapes@),
            all.len() == shapes.len(),
            forall|j: int| 0 <= j < shapes.len() ==> #[trigger] all[j] == shape_view(shapes[j]),
            input == old(d).remaining(),
            !old(d).raw(),
            !d.raw(),
            taken <= input.len(),
            d.remaining() == input.skip(taken as int),
            decode_fields(input, all) == behind(
                value_views(values@),
                taken,
                decode_fields(input.skip(taken as int), all.skip(i as int)),
            ),
        decreases shapes.len() - i,
    {
        let more: bool = access.next_element();
        if !more {
            proof {
                assert(all.skip(i as int).len() == 0);
                assert(value_views(values@) + Seq::<ValueView>::empty() =~= value_views(values@));
            }
            return Ok(values);
        }
        let ghost here = input.skip(taken as int);
        let ghost left = all.skip(i as int);
        proof {
            assert(left[0] == shape_view(shapes[i as int]));
            assert(left.skip(1) =~= all.skip(i + 1));
            assert(decreases_to!(*shapes => shapes@));
            assert(decreases_to!(shapes@ => shapes@[i as int]));
        }
        let value = match Value::deserialize(d, &shapes[i]) {
            Ok(v) => v,
            Err(e) => {
                return Err(e);
            },
        };
        proof {
            let n = spec_decode(here, left[0])->Ok_0.1;
            assert(here.skip(n as int) =~= input.skip((taken + n) as int));
            lemma_behind_behind(
                value_views(values@),
                taken,
                seq![value@],
                n,
                decode_fields(input.skip((taken + n) as int), all.skip(i + 1)),
            );
            assert(values@.push(value).drop_last() =~= values@);
            assert(value_views(values@.push(value)) =~= value_views(values@) + seq![value@]);
            taken = taken + n;
        }
        values.push(value);
        i += 1;
    }
}

/// Read the elements of the shape `element`, each behind its tag, up to the
/// tag that ends the sequence. After a failure the decoder is left where it
/// failed.
fn read_elements(d: &mut Deserializer, element: &Shape) -> (r: Result<Vec<Value>, Error>)
    requires
        !old(d).raw(),
    ensures
        match decode_elements(old(d).remaining(), element@) {
            Ok((items, n)) => r matches Ok(values) && value_views(values@) == items && final(d).took(old(d), n),
            Err(f) => r matches Err(e) && e@ == f,
        },
    decreases element, 1nat,
{
    let mut values: Vec<Value> = Vec::new();
    let ghost input = d.remaining();
    let ghost mut taken: nat = 0;
    proof {
        assert(input.skip(0) =~= input);
        let r = decode_elements(input, element@);
        if let Ok((items, n)) = r {
            assert(Seq::<ValueView>::empty() + items =~= items);
        }
    }
    loop
        invariant
            input == old(d).remaining(),
            !old(d).raw(),
            !d.raw(),
            taken <= input.len(),
            d.remaining() == input.skip(taken as int),
            decode_elements(input, element@) == behind(
                value_views(values@),
                taken,
                decode_elements(input.skip(taken as int), element@),
            ),
        decreases input.len() - taken,
    {
        let ghost here = input.skip(taken as int);
        let more: bool = match d.next_element() {
            Ok(m) => m,
            Err(e) => {
                return Err(e);
            },
        };
        if !more {
            proof {
                assert(value_views(values@) + Seq::<ValueView>::empty() =~= value_views(values@));
                assert(here.skip(1) =~= input.skip((taken + 1) as int));
            }
            return Ok(values);
        }
        let value = match Value::deserialize(d, element) {
            Ok(v) => v,
            Err(e) => {
                return Err(e);
            },
        };
        proof {
            let n = spec_decode(here.skip(1), element@)->Ok_0.1;
            assert(here.skip(1).skip(n as int) =~= input.skip((taken + 1 + n) as int));
            assert(here.skip((1 + n) as int) =~= input.skip((taken + 1 + n) as int));
            lemma_behind_behind(
                value_views(values@),
                taken,
                seq![value@],
                1 + n,
                decode_elements(input.skip((taken + 1 + n) as int), element@),
            );
            assert(values@.push(value).drop_last() =~= values@);
            assert(value_views(values@.push(value)) =~= value_views(values@) + seq![value@]);
            taken = taken + 1 + n;
        }
        values.push(value);
    }
}

/// Read a value that has no parts: unit, a boolean, an integer, a float, a
/// character, a string or a byte string.
fn read_plain(d: &mut Deserializer, shape: &Shape) -> (r: Result<Value, Error>)
    requires
        !old(d).raw(),
        !(shape is Optional || shape is Sequence || shape is Tuple || shape is Enum
            || shape is FixedBytes),
    ensures
        match spec_decode(old(d).remaining(), shape@) {
            Ok((v, n)) => r matches Ok(value) && value@ == v && final(d).took(old(d), n),
            Err(f) => r matches Err(e) && e@ == f && final(d).remaining() == old(d).remaining()
                && !final(d).raw(),
        },
{
    match shape {
        Shape::Bool => match d.deserialize_bool() {
            Ok(b) => Ok(Value::Bool(b)),
            Err(e) => Err(e),
        },
        Shape::UInt(w) => match read_unsigned(d, *w) {
            Ok(v) => Ok(Value::UInt(*w, v)),
            Err(e) => Err(e),
        },
        Shape::SInt(w) => match read_signed(d, *w) {
            Ok(v) => Ok(Value::SInt(*w, v)),
            Err(e) => Err(e),
        },
        Shape::F32 => match d.deserialize_f32() {
            Ok(bits) => Ok(Value::F32(bits)),
            Err(e) => Err(e),
        },
        Shape::F64 => match d.deserialize_f64() {
            Ok(bits) => Ok(Value::F64(bits)),
            Err(e) => Err(e),
        },
        Shape::Char => match d.deserialize_char() {
            Ok(c) => Ok(Value::Char(c)),
            Err(e) => Err(e),
        },
        Shape::Str => match d.deserialize_str() {
            Ok(s) => Ok(Value::Str(s)),
            Err(e) => Err(e),
        },
        Shape::Bytes => match d.deserialize_bytes() {
            Ok(b) => Ok(Value::Bytes(b)),
            Err(e) => Err(e),
        },
        _ => {
            assert(d.remaining().skip(0) =~= d.remaining());
            match d.deserialize_unit() {
                Ok(()) => Ok(Value::Unit),
                Err(e) => Err(e),
            }
        },
    }
}

/// Read a block of `n` raw bytes.
fn read_block(d: &mut Deserializer, n: usize) -> (r: Result<Value, Error>)
    requires
        !old(d).raw(),
    ensures
        match spec_decode(old(d).remaining(), ShapeView::FixedBytes(n as nat)) {
            Ok((v, k)) => r matches Ok(value) && value@ == v && final(d).took(old(d), k),
            Err(f) => r matches Err(e) && e@ == f && final(d).remaining() == old(d).remaining()
                && !final(d).raw(),
        },
{
    if d.remainder().len() < n {
        return Err(Error::Eof);
    }
    let mut access = d.deserialize_tuple_struct(FIXED_BYTES_NAME, n);
    let mut bytes: Vec<u8> = Vec::new();
    let ghost input = old(d).remaining();
    assert(d.remaining() =~= input.skip(0));
    let mut i: usize = 0;
    while i < n
        invariant
            i <= n <= input.len(),
            access.remaining() == n - i,
            d.raw(),
            d.remaining() == input.skip(i as int),
            bytes@ == input.take(i as int),
        decreases n - i,
    {
        let more: bool = access.next_element();
        assert(more);
        let byte: u8 = match d.deserialize_u8() {
            Ok(b) => b,
            Err(e) => {
                return Err(e);
            },
        };
        proof {
            assert(input.skip(i as int)[0] == input[i as int]);
            assert(input.skip(i as int).skip(1) =~= input.skip(i + 1));
            assert(input.take(i + 1) =~= input.take(i as int).push(byte));
        }
        bytes.push(byte);
        i += 1;
    }
    d.end_tuple_struct();
    Ok(Value::FixedBytes(bytes))
}

impl Value {
    /// Read a value of the shape `shape` and move on behind it. No block of
    /// raw bytes may be open. After a failure the decoder is where it was.
    #[verifier::rlimit(30)]
    pub fn deserialize(d: &mut Deserializer, shape: &Shape) -> (r: Result<Value, Error>)
        requires
            !old(d).raw(),
        ensures
            match spec_decode(old(d).remaining(), shape@) {
                Ok((v, n)) => r matches Ok(value) && value@ == v && final(d).took(old(d), n),
                Err(f) => r matches Err(e) && e@ == f && final(d).remaining() == old(d).remaining() && !final(d).raw(),
            },
        decreases shape, 0nat,
    {
        let start = d.remainder();
        match shape {
            Shape::Optional(inner) => {
                match d.deserialize_option() {
                    Ok(false) => Ok(Value::Optional(None)),
                    Ok(true) => match Value::deserialize(d, inner) {
                        Ok(v) => {
                            proof {
                                let n = spec_decode(
                                    old(d).remaining().skip(1),
                                    shape_view(**inner),
                                )->Ok_0.1;
                                assert(old(d).remaining().skip(1).skip(n as int) =~= old(d).remaining().skip((1 + n) as int));
                            }
                            Ok(Value::Optional(Some(Box::new(v))))
                        },
                        Err(e) => {
                            d.rewind(start);
                            Err(e)
                        },
                    },
                    Err(e) => Err(e),
                }
            },
            Shape::Sequence(element) => {
                match read_elements(d, element) {
                    Ok(items) => Ok(Value::Sequence(items)),
                    Err(e) => {
                        d.rewind(start);
                        Err(e)
                    },
                }
            },
            Shape::Tuple(shapes) => {
                let access = d.deserialize_tuple(shapes.len());
                match read_fields(d, shapes, access) {
                    Ok(fields) => Ok(Value::Tuple(fields)),
                    Err(e) => {
                        d.rewind(start);
                        Err(e)
                    },
                }
            },
            Shape::Enum(variants) => {
                let index: u32 = match d.deserialize_u32() {
                    Ok(i) => i,
                    Err(e) => {
                        return Err(e);
                    },
                };
                proof {
                    lemma_variant_views(variants@);
                }
                if index as usize >= variants.len() {
                    d.rewind(start);
                    return Err(Error::Message(UNKNOWN_VARIANT.to_string()));
                }
                let shapes = &variants[index as usize];
                let access = d.tuple_variant(shapes.len());
                proof {
                    assert(decreases_to!(*shape => shape->Enum_0));
                    assert(decreases_to!(shape->Enum_0 => shape->Enum_0@));
                    assert(decreases_to!(variants@ => variants@[index as int]));
                }
                let ghost head = old(d).remaining();
                let ghost k = crate::primitive::spec_read_uint(head, u32::MAX as nat)->Ok_0.1;
                match read_fields(d, shapes, access) {
                    Ok(fields) => {
                        proof {
                            let n = decode_fields(
                                head.skip(k as int),
                                shape_views(shapes@),
                            )->Ok_0.1;
                            assert(head.skip(k as int).skip(n as int) =~= head.skip(
                                (k + n) as int,
                            ));
                        }
                        Ok(Value::Variant(index, fields))
                    },
                    Err(e) => {
                        d.rewind(start);
                        Err(e)
                    },
                }
            },
            Shape::FixedBytes(n) => read_block(d, *n),
            _ => read_plain(d, shape),
        }
    }
}

} // verus!
