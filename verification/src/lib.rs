//! Order-preserving binary encoding: the byte-wise lexicographic order of two
//! encodings is the natural order of the values they stand for.
//!
//! `to_bytes` encodes a `Value`, `from_bytes` decodes one for a `Shape`.
//! `Serializer` and `Deserializer` offer the same format one operation at a
//! time, for a caller that walks values of its own types. The modules
//! `model` and `model_laws` say what the bytes of a value are and prove that
//! decoding undoes encoding and that the bytes sort as the values do.

pub mod big_endian;
mod bits;
pub mod de;
pub mod error;
pub mod fixed_bytes;
pub mod framing;
pub mod model;
pub mod model_laws;
pub mod order;
pub mod primitive;
pub mod ser;
pub mod value;
pub mod varint;
pub mod varint_laws;

pub use crate::de::Deserializer;
pub use crate::error::Error;
pub use crate::fixed_bytes::FixedBytes;
pub use crate::model::Width;
pub use crate::ser::Serializer;
pub use crate::value::from_bytes;
pub use crate::value::to_bytes;
pub use crate::value::Shape;
pub use crate::value::Value;
