//! A codec for the NBT binary tag format: the tag tree, its wire encoding, and
//! the shape-driven bridges between tags and structured application values.

pub mod de;
pub mod decode;
pub mod encode;
pub mod raw;
pub mod roundtrip;
pub mod ser;
pub mod stream;
pub mod tag;
pub mod wire;

pub use de::{
    NbtDeserializationError, RawNbtDeserializer, RawNbtEnumDeserializer,
    RawNbtEnumVariantDeserializer, RawNbtMapDeserializer, RawNbtSeqDeserializer, Visit,
};
pub use decode::{NbtDecodeError, TagEntry, DEFAULT_MAX_DEPTH};
pub use encode::NbtSerializationOptions;
pub use raw::RawNbt;
pub use ser::{NbtSerializationError, RawNbtMapSerializer, RawNbtSeqSerializer, RawNbtSerializer};
pub use stream::DecodeStep;
pub use tag::{NbtTag, NbtTagType, TagValue};
