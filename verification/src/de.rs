//! The deserialization bridge: what a tag gives to a request for a shape.
//!
//! A request names the shape that is wanted: a primitive, a sequence, a map,
//! a struct, an enum or an option. A tag answers a request only with what it
//! holds: no number is converted to another width.

use vstd::prelude::*;
use crate::ser::seq_tag;
use crate::tag::{NbtTag, NbtTagType, TagValue, entries_view, tags_view};
use crate::wire::{
    bits_to_i8, i8_bits, i8_from_bits, i16_bits, i32_bits, i64_bits, i8_to_bits, i16_to_bits,
    i32_to_bits, i64_to_bits,
};

verus! {

/// Why a tag did not answer a request.
#[derive(Debug, PartialEq, Eq)]
pub enum NbtDeserializationError {
    /// The requested shape is one that no tag answers.
    TypeNotSupported,
    /// A unit was requested of a compound that has entries.
    NonEmptyUnitStruct,
    /// A tag of one kind was requested and a tag of another was there: the
    /// name of the kind requested, and a description of the tag found.
    TypeMismatch(String, String),
    /// A fault that the requester itself reported.
    Other(String),
}

/// `e` says that a tag of the kind named `expected` was requested of `found`.
pub open spec fn is_mismatch(e: NbtDeserializationError, expected: Seq<char>, found: TagValue)
    -> bool {
    e matches NbtDeserializationError::TypeMismatch(want, got) && want@ == expected && got@
        == found.description()
}

impl NbtDeserializationError {
    /// The fault of a request for a tag of the kind named `expected` that met
    /// the tag `found`.
    pub fn type_mismatch(expected: &str, found: &NbtTag) -> (e: NbtDeserializationError)
        ensures
            is_mismatch(e, expected@, found@),
    {
        NbtDeserializationError::TypeMismatch(expected.to_owned(), found.describe())
    }

    /// The fault that a requester reports with `msg`.
    pub fn custom(msg: String) -> (e: NbtDeserializationError)
        ensures
            e matches NbtDeserializationError::Other(text) && text@ == msg@,
    {
        NbtDeserializationError::Other(msg)
    }
}

/// The elements that a tag gives to a request for a sequence: those of a
/// list, or those of an array, each as the tag of its kind.
pub open spec fn seq_items(tag: TagValue) -> Option<Seq<TagValue>> {
    match tag {
        TagValue::List { nbt_type, list } => Some(list),
        TagValue::ByteArray(bytes) => Some(
            Seq::new(bytes.len(), |i: int| TagValue::Byte(i8_from_bits(bytes[i]))),
        ),
        TagValue::IntArray(ints) => Some(Seq::new(ints.len(), |i: int| TagValue::Int(ints[i]))),
        TagValue::LongArray(longs) => Some(
            Seq::new(longs.len(), |i: int| TagValue::Long(longs[i])),
        ),
        _ => None,
    }
}

/// What a tag gives to a request that names no shape.
pub enum Visit {
    I8(i8),
    I16(i16),
    I32(i32),
    I64(i64),
    /// A 32-bit float, as its bit pattern.
    F32(u32),
    /// A 64-bit float, as its bit pattern.
    F64(u64),
    ByteBuf(Vec<u8>),
    String(String),
    Elements(RawNbtSeqDeserializer),
    Entries(RawNbtMapDeserializer),
}

/// `visit` is what `tag` gives to a request that names no shape.
pub open spec fn is_visit_of(visit: Visit, tag: TagValue) -> bool {
    match tag {
        TagValue::End => false,
        TagValue::Byte(v) => visit matches Visit::I8(x) && x == v,
        TagValue::Short(v) => visit matches Visit::I16(x) && x == v,
        TagValue::Int(v) => visit matches Visit::I32(x) && x == v,
        TagValue::Long(v) => visit matches Visit::I64(x) && x == v,
        TagValue::Float(bits) => visit matches Visit::F32(x) && x == bits,
        TagValue::Double(bits) => visit matches Visit::F64(x) && x == bits,
        TagValue::ByteArray(bytes) => visit matches Visit::ByteBuf(x) && x@ == bytes,
        TagValue::String(text) => visit matches Visit::String(x) && x@ == text,
        TagValue::Compound { inner } => visit matches Visit::Entries(x) && x.entries() == inner
            && x.value() is None,
        _ => visit matches Visit::Elements(x) && Some(x@) == seq_items(tag),
    }
}

/// A tag that waits for a request.
pub struct RawNbtDeserializer {
    tag: NbtTag,
}

impl View for RawNbtDeserializer {
    type V = TagValue;

    /// The value of the tag.
    closed spec fn view(&self) -> TagValue {
        self.tag@
    }
}

/// The tags of `list`, last first.
fn reversed_tags(list: Vec<NbtTag>) -> (stack: Vec<NbtTag>)
    ensures
        stack@.len() == list@.len(),
        forall|i: int| 0 <= i < stack@.len() ==> stack@[i] == list@[list@.len() - 1 - i],
{
    let ghost all = list@;
    let mut list = list;
    let mut stack: Vec<NbtTag> = Vec::new();
    while list.len() > 0
        invariant
            stack@.len() + list@.len() == all.len(),
            list@ == all.take(list@.len() as int),
            forall|i: int| 0 <= i < stack@.len() ==> stack@[i] == all[all.len() - 1 - i],
        decreases list@.len(),
    {
        match list.pop() {
            Some(tag) => stack.push(tag),
            None => {},
        }
        assert(list@ =~= all.take(list@.len() as int));
    }
    stack
}

/// The entries of `list`, last first.
fn reversed_entries(list: Vec<(String, NbtTag)>) -> (stack: Vec<(String, NbtTag)>)
    ensures
        stack@.len() == list@.len(),
        forall|i: int| 0 <= i < stack@.len() ==> stack@[i] == list@[list@.len() - 1 - i],
{
    let ghost all = list@;
    let mut list = list;
    let mut stack: Vec<(String, NbtTag)> = Vec::new();
    while list.len() > 0
        invariant
            stack@.len() + list@.len() == all.len(),
            list@ == all.take(list@.len() as int),
            forall|i: int| 0 <= i < stack@.len() ==> stack@[i] == all[all.len() - 1 - i],
        decreases list@.len(),
    {
        match list.pop() {
            Some(entry) => stack.push(entry),
            None => {},
        }
        assert(list@ =~= all.take(list@.len() as int));
    }
    stack
}

impl RawNbtDeserializer {
    /// A request may be made of `tag`.
    pub fn new(tag: NbtTag) -> (de: RawNbtDeserializer)
        ensures
            de@ == tag@,
    {
        RawNbtDeserializer { tag }
    }

    /// The fault of a request for a tag of the kind named `expected`.
    fn mismatch(&self, expected: &str) -> (e: NbtDeserializationError)
        ensures
            is_mismatch(e, expected@, self@),
    {
        NbtDeserializationError::type_mismatch(expected, &self.tag)
    }

    /// The elements of the tag, for a request for a sequence.
    fn elements(self) -> (r: Result<RawNbtSeqDeserializer, NbtDeserializationError>)
        ensures
            match seq_items(self@) {
                Some(items) => r matches Ok(seq) && seq@ == items,
                None => r matches Err(e) && is_mismatch(e, "List"@, self@),
            },
    {
        match self.tag {
            NbtTag::List { nbt_type, list } => {
                let ghost items = tags_view(list@);
                let stack = reversed_tags(list);
                let seq = RawNbtSeqDeserializer { stack };
                assert(seq@ =~= items);
                Ok(seq)
            },
            NbtTag::ByteArray(bytes) => {
                let mut stack: Vec<NbtTag> = Vec::new();
                let mut i: usize = bytes.len();
                while i > 0
                    invariant
                        i <= bytes@.len(),
                        stack@.len() == bytes@.len() - i,
                        forall|j: int|
                            0 <= j < stack@.len() ==> (#[trigger] stack@[j])@ == TagValue::Byte(
                                i8_from_bits(bytes@[bytes@.len() - 1 - j]),
                            ),
                    decreases i,
                {
                    i -= 1;
                    stack.push(NbtTag::Byte(bits_to_i8(bytes[i])));
                }
                let seq = RawNbtSeqDeserializer { stack };
                assert(seq@ =~= seq_items(TagValue::ByteArray(bytes@))->0);
                Ok(seq)
            },
            NbtTag::IntArray(ints) => {
                let mut stack: Vec<NbtTag> = Vec::new();
                let mut i: usize = ints.len();
                while i > 0
                    invariant
                        i <= ints@.len(),
                        stack@.len() == ints@.len() - i,
                        forall|j: int|
                            0 <= j < stack@.len() ==> (#[trigger] stack@[j])@ == TagValue::Int(
                                ints@[ints@.len() - 1 - j],
                            ),
                    decreases i,
                {
                    i -= 1;
                    stack.push(NbtTag::Int(ints[i]));
                }
                let seq = RawNbtSeqDeserializer { stack };
                assert(seq@ =~= seq_items(TagValue::IntArray(ints@))->0);
                Ok(seq)
            },
            NbtTag::LongArray(longs) => {
                let mut stack: Vec<NbtTag> = Vec::new();
                let mut i: usize = longs.len();
                while i > 0
                    invariant
                        i <= longs@.len(),
                        stack@.len() == longs@.len() - i,
                        forall|j: int|
                            0 <= j < stack@.len() ==> (#[trigger] stack@[j])@ == TagValue::Long(
                                longs@[longs@.len() - 1 - j],
                            ),
                    decreases i,
                {
                    i -= 1;
                    stack.push(NbtTag::Long(longs[i]));
                }
                let seq = RawNbtSeqDeserializer { stack };
                assert(seq@ =~= seq_items(TagValue::LongArray(longs@))->0);
                Ok(seq)
            },
            _ => Err(self.mismatch("List")),
        }
    }

    /// The entries of the tag, for a request for a map or a struct.
    fn entries(self) -> (r: Result<RawNbtMapDeserializer, NbtDeserializationError>)
        ensures
            match self@ {
                TagValue::Compound { inner } => r matches Ok(map) && map.entries() == inner
                    && map.value() is None,
                _ => r matches Err(e) && is_mismatch(e, "Compound"@, self@),
            },
    {
        match self.tag {
            NbtTag::Compound { inner } => {
                let ghost entries = entries_view(inner@);
                let stack = reversed_entries(inner);
                let map = RawNbtMapDeserializer { stack, value: None };
                assert(map.entries() =~= entries);
                Ok(map)
            },
            _ => Err(self.mismatch("Compound")),
        }
    }

    /// A request that names no shape gets what the tag holds: a number, the
    /// bytes of a `ByteArray`, a string, the elements of a list or of an
    /// `IntArray` or `LongArray`, or the entries of a compound. `End` holds
    /// nothing.
    pub fn deserialize_any(self) -> (r: Result<Visit, NbtDeserializationError>)
        ensures
            match self@ {
                TagValue::End => r matches Err(NbtDeserializationError::TypeNotSupported),
                _ => r matches Ok(visit) && is_visit_of(visit, self@),
            },
    {
        match self.tag {
            NbtTag::End => Err(NbtDeserializationError::TypeNotSupported),
            NbtTag::Byte(v) => Ok(Visit::I8(v)),
            NbtTag::Short(v) => Ok(Visit::I16(v)),
            NbtTag::Int(v) => Ok(Visit::I32(v)),
            NbtTag::Long(v) => Ok(Visit::I64(v)),
            NbtTag::Float(bits) => Ok(Visit::F32(bits)),
            NbtTag::Double(bits) => Ok(Visit::F64(bits)),
            NbtTag::ByteArray(bytes) => Ok(Visit::ByteBuf(bytes)),
            NbtTag::String(text) => Ok(Visit::String(text)),
            NbtTag::Compound { .. } => match self.entries() {
                Ok(map) => Ok(Visit::Entries(map)),
                Err(e) => Err(e),
            },
            _ => match self.elements() {
                Ok(seq) => Ok(Visit::Elements(seq)),
                Err(e) => Err(e),
            },
        }
    }

    /// A boolean is requested: only a `Byte` answers, and it is `true` exactly
    /// when it is greater than zero.
    pub fn deserialize_bool(self) -> (r: Result<bool, NbtDeserializationError>)
        ensures
            match self@ {
                TagValue::Byte(v) => r == Ok::<bool, NbtDeserializationError>(v > 0),
                _ => r matches Err(e) && is_mismatch(e, "Byte"@, self@),
            },
    {
        match self.tag {
            NbtTag::Byte(v) => Ok(v > 0),
            _ => Err(self.mismatch("Byte")),
        }
    }

    /// An 8-bit integer is requested: only a `Byte` answers.
    pub fn deserialize_i8(self) -> (r: Result<i8, NbtDeserializationError>)
        ensures
            match self@ {
                TagValue::Byte(v) => r == Ok::<i8, NbtDeserializationError>(v),
                _ => r matches Err(e) && is_mismatch(e, "Byte"@, self@),
            },
    {
        match self.tag {
            NbtTag::Byte(v) => Ok(v),
            _ => Err(self.mismatch("Byte")),
        }
    }

    /// A 16-bit integer is requested: only a `Short` answers.
    pub fn deserialize_i16(self) -> (r: Result<i16, NbtDeserializationError>)
        ensures
            match self@ {
                TagValue::Short(v) => r == Ok::<i16, NbtDeserializationError>(v),
                _ => r matches Err(e) && is_mismatch(e, "Short"@, self@),
            },
    {
        match self.tag {
            NbtTag::Short(v) => Ok(v),
            _ => Err(self.mismatch("Short")),
        }
    }

    /// A 32-bit integer is requested: only an `Int` answers.
    pub fn deserialize_i32(self) -> (r: Result<i32, NbtDeserializationError>)
        ensures
            match self@ {
                TagValue::Int(v) => r == Ok::<i32, NbtDeserializationError>(v),
                _ => r matches Err(e) && is_mismatch(e, "Int"@, self@),
            },
    {
        match self.tag {
            NbtTag::Int(v) => Ok(v),
            _ => Err(self.mismatch("Int")),
        }
    }

    /// A 64-bit integer is requested: only a `Long` answers.
    pub fn deserialize_i64(self) -> (r: Result<i64, NbtDeserializationError>)
        ensures
            match self@ {
                TagValue::Long(v) => r == Ok::<i64, NbtDeserializationError>(v),
                _ => r matches Err(e) && is_mismatch(e, "Long"@, self@),
            },
    {
        match self.tag {
            NbtTag::Long(v) => Ok(v),
            _ => Err(self.mismatch("Long")),
        }
    }

    /// An unsigned 8-bit integer is requested: only a `Byte` answers, with its
    /// bits.
    pub fn deserialize_u8(self) -> (r: Result<u8, NbtDeserializationError>)
        ensures
            match self@ {
                TagValue::Byte(v) => r == Ok::<u8, NbtDeserializationError>(i8_bits(v)),
                _ => r matches Err(e) && is_mismatch(e, "Byte"@, self@),
            },
    {
        match self.tag {
            NbtTag::Byte(v) => Ok(i8_to_bits(v)),
            _ => Err(self.mismatch("Byte")),
        }
    }

    /// An unsigned 16-bit integer is requested: only a `Short` answers, with
    /// its bits.
    pub fn deserialize_u16(self) -> (r: Result<u16, NbtDeserializationError>)
        ensures
            match self@ {
                TagValue::Short(v) => r == Ok::<u16, NbtDeserializationError>(i16_bits(v)),
                _ => r matches Err(e) && is_mismatch(e, "Short"@, self@),
            },
    {
        match self.tag {
            NbtTag::Short(v) => Ok(i16_to_bits(v)),
            _ => Err(self.mismatch("Short")),
        }
    }

    /// An unsigned 32-bit integer is requested: only an `Int` answers, with
    /// its bits.
    pub fn deserialize_u32(self) -> (r: Result<u32, NbtDeserializationError>)
        ensures
            match self@ {
                TagValue::Int(v) => r == Ok::<u32, NbtDeserializationError>(i32_bits(v)),
                _ => r matches Err(e) && is_mismatch(e, "Int"@, self@),
            },
    {
        match self.tag {
            NbtTag::Int(v) => Ok(i32_to_bits(v)),
            _ => Err(self.mismatch("Int")),
        }
    }

    /// An unsigned 64-bit integer is requested: only a `Long` answers, with
    /// its bits.
    pub fn deserialize_u64(self) -> (r: Result<u64, NbtDeserializationError>)
        ensures
            match self@ {
                TagValue::Long(v) => r == Ok::<u64, NbtDeserializationError>(i64_bits(v)),
                _ => r matches Err(e) && is_mismatch(e, "Long"@, self@),
            },
    {
        match self.tag {
            NbtTag::Long(v) => Ok(i64_to_bits(v)),
            _ => Err(self.mismatch("Long")),
        }
    }

    /// A 32-bit float is requested: only a `Float` answers, with its bit
    /// pattern.
    pub fn deserialize_f32(self) -> (r: Result<u32, NbtDeserializationError>)
        ensures
            match self@ {
                TagValue::Float(bits) => r == Ok::<u32, NbtDeserializationError>(bits),
                _ => r matches Err(e) && is_mismatch(e, "Float"@, self@),
            },
    {
        match self.tag {
            NbtTag::Float(bits) => Ok(bits),
            _ => Err(self.mismatch("Float")),
        }
    }

    /// A 64-bit float is requested: only a `Double` answers, with its bit
    /// pattern.
    pub fn deserialize_f64(self) -> (r: Result<u64, NbtDeserializationError>)
        ensures
            match self@ {
                TagValue::Double(bits) => r == Ok::<u64, NbtDeserializationError>(bits),
                _ => r matches Err(e) && is_mismatch(e, "Double"@, self@),
            },
    {
        match self.tag {
            NbtTag::Double(bits) => Ok(bits),
            _ => Err(self.mismatch("Double")),
        }
    }

    /// A character is requested: only a `Byte` answers, with the character
    /// whose code point is the byte's bits.
    pub fn deserialize_char(self) -> (r: Result<char, NbtDeserializationError>)
        ensures
            match self@ {
                TagValue::Byte(v) => r == Ok::<char, NbtDeserializationError>(i8_bits(v) as char),
                _ => r matches Err(e) && is_mismatch(e, "Byte"@, self@),
            },
    {
        match self.tag {
            NbtTag::Byte(v) => Ok(i8_to_bits(v) as char),
            _ => Err(self.mismatch("Byte")),
        }
    }

    /// A string slice is requested: only a `String` answers.
    pub fn deserialize_str(self) -> (r: Result<String, NbtDeserializationError>)
        ensures
            match self@ {
                TagValue::String(text) => r matches Ok(s) && s@ == text,
                _ => r matches Err(e) && is_mismatch(e, "String"@, self@),
            },
    {
        match self.tag {
            NbtTag::String(text) => Ok(text),
            _ => Err(self.mismatch("String")),
        }
    }

    /// A string is requested: only a `String` answers.
    pub fn deserialize_string(self) -> (r: Result<String, NbtDeserializationError>)
        ensures
            match self@ {
                TagValue::String(text) => r matches Ok(s) && s@ == text,
                _ => r matches Err(e) && is_mismatch(e, "String"@, self@),
            },
    {
        self.deserialize_str()
    }

    /// A slice of bytes is requested: only a `ByteArray` answers.
    pub fn deserialize_bytes(self) -> (r: Result<Vec<u8>, NbtDeserializationError>)
        ensures
            match self@ {
                TagValue::ByteArray(bytes) => r matches Ok(b) && b@ == bytes,
                _ => r matches Err(e) && is_mismatch(e, "ByteArray"@, self@),
            },
    {
        match self.tag {
            NbtTag::ByteArray(bytes) => Ok(bytes),
            _ => Err(self.mismatch("ByteArray")),
        }
    }

    /// A buffer of bytes is requested: only a `ByteArray` answers.
    pub fn deserialize_byte_buf(self) -> (r: Result<Vec<u8>, NbtDeserializationError>)
        ensures
            match self@ {
                TagValue::ByteArray(bytes) => r matches Ok(b) && b@ == bytes,
                _ => r matches Err(e) && is_mismatch(e, "ByteArray"@, self@),
            },
    {
        self.deserialize_bytes()
    }

    /// An option is requested: every tag is a present value, and the request
    /// for the value is made of the same tag.
    pub fn deserialize_option(self) -> (r: Option<RawNbtDeserializer>)
        ensures
            r matches Some(de) && de@ == self@,
    {
        Some(self)
    }

    /// The unit value is requested: only a compound without entries answers.
    pub fn deserialize_unit(self) -> (r: Result<(), NbtDeserializationError>)
        ensures
            match self@ {
                TagValue::Compound { inner } => if inner.len() == 0 {
                    r is Ok
                } else {
                    r matches Err(NbtDeserializationError::NonEmptyUnitStruct)
                },
                _ => r matches Err(e) && is_mismatch(e, "Compound"@, self@),
            },
    {
        match &self.tag {
            NbtTag::Compound { inner } => {
                assert(entries_view(inner@).len() == inner@.len());
                if inner.len() == 0 {
                    Ok(())
                } else {
                    Err(NbtDeserializationError::NonEmptyUnitStruct)
                }
            },
            _ => Err(self.mismatch("Compound")),
        }
    }

    /// A struct without fields is requested: only a compound without entries
    /// answers.
    pub fn deserialize_unit_struct(self, name: &str) -> (r: Result<(), NbtDeserializationError>)
        ensures
            match self@ {
                TagValue::Compound { inner } => if inner.len() == 0 {
                    r is Ok
                } else {
                    r matches Err(NbtDeserializationError::NonEmptyUnitStruct)
                },
                _ => r matches Err(e) && is_mismatch(e, "Compound"@, self@),
            },
    {
        self.deserialize_unit()
    }

    /// A struct around one value is requested: it gets what a request that
    /// names no shape gets.
    pub fn deserialize_newtype_struct(self, name: &str) -> (r: Result<
        Visit,
        NbtDeserializationError,
    >)
        ensures
            match self@ {
                TagValue::End => r matches Err(NbtDeserializationError::TypeNotSupported),
                _ => r matches Ok(visit) && is_visit_of(visit, self@),
            },
    {
        self.deserialize_any()
    }

    /// A sequence is requested: a list answers with its elements, and an array
    /// with its elements as tags of their kind, so that a `ByteArray` and the
    /// list of the same bytes answer alike.
    pub fn deserialize_seq(self) -> (r: Result<RawNbtSeqDeserializer, NbtDeserializationError>)
        ensures
            match seq_items(self@) {
                Some(items) => r matches Ok(seq) && seq@ == items,
                None => r matches Err(e) && is_mismatch(e, "List"@, self@),
            },
    {
        self.elements()
    }

    /// A tuple is requested: no tag answers.
    pub fn deserialize_tuple(self, len: usize) -> (r: Result<
        RawNbtSeqDeserializer,
        NbtDeserializationError,
    >)
        ensures
            r matches Err(NbtDeserializationError::TypeNotSupported),
    {
        Err(NbtDeserializationError::TypeNotSupported)
    }

    /// A tuple struct is requested: no tag answers.
    pub fn deserialize_tuple_struct(self, name: &str, len: usize) -> (r: Result<
        RawNbtSeqDeserializer,
        NbtDeserializationError,
    >)
        ensures
            r matches Err(NbtDeserializationError::TypeNotSupported),
    {
        Err(NbtDeserializationError::TypeNotSupported)
    }

    /// A map is requested: only a compound answers, with its entries in their
    /// order.
    pub fn deserialize_map(self) -> (r: Result<RawNbtMapDeserializer, NbtDeserializationError>)
        ensures
            match self@ {
                TagValue::Compound { inner } => r matches Ok(map) && map.entries() == inner
                    && map.value() is None,
                _ => r matches Err(e) && is_mismatch(e, "Compound"@, self@),
            },
    {
        self.entries()
    }

    /// A struct is requested: only a compound answers, with its entries in
    /// their order, whatever fields the struct declares.
    pub fn deserialize_struct(self, name: &str, fields: &[&str]) -> (r: Result<
        RawNbtMapDeserializer,
        NbtDeserializationError,
    >)
        ensures
            match self@ {
                TagValue::Compound { inner } => r matches Ok(map) && map.entries() == inner
                    && map.value() is None,
                _ => r matches Err(e) && is_mismatch(e, "Compound"@, self@),
            },
    {
        self.entries()
    }

    /// An enum is requested: every tag answers, and the variant decides what
    /// is requested of the tag.
    pub fn deserialize_enum(self, name: &str, variants: &[&str]) -> (r: RawNbtEnumDeserializer)
        ensures
            r@ == self@,
    {
        RawNbtEnumDeserializer { value: self.tag }
    }

    /// The name of a field or a variant is requested: only a `String`
    /// answers.
    pub fn deserialize_identifier(self) -> (r: Result<String, NbtDeserializationError>)
        ensures
            match self@ {
                TagValue::String(text) => r matches Ok(s) && s@ == text,
                _ => r matches Err(e) && is_mismatch(e, "String"@, self@),
            },
    {
        self.deserialize_str()
    }

    /// A value that the requester will drop is requested: it gets what a
    /// request that names no shape gets, so that the whole tag is taken.
    pub fn deserialize_ignored_any(self) -> (r: Result<Visit, NbtDeserializationError>)
        ensures
            match self@ {
                TagValue::End => r matches Err(NbtDeserializationError::TypeNotSupported),
                _ => r matches Ok(visit) && is_visit_of(visit, self@),
            },
    {
        self.deserialize_any()
    }
}

/// The elements of a sequence that have not been handed out.
pub struct RawNbtSeqDeserializer {
    /// The elements, last first.
    stack: Vec<NbtTag>,
}

impl View for RawNbtSeqDeserializer {
    type V = Seq<TagValue>;

    /// The values of the elements that have not been handed out, in order.
    closed spec fn view(&self) -> Seq<TagValue> {
        Seq::new(self.stack@.len(), |i: int| self.stack@[self.stack@.len() - 1 - i]@)
    }
}

impl RawNbtSeqDeserializer {
    /// Hands out the next element, as a tag that waits for a request; `None`
    /// when all have been handed out.
    pub fn next_element(&mut self) -> (r: Option<RawNbtDeserializer>)
        ensures
            match r {
                Some(de) => old(self)@.len() > 0 && de@ == old(self)@[0] && final(self)@ == old(self)@.drop_first(),
                None => old(self)@.len() == 0 && final(self)@ == old(self)@,
            },
    {
        match self.stack.pop() {
            Some(tag) => {
                assert(self@ =~= old(self)@.drop_first());
                Some(RawNbtDeserializer { tag })
            },
            None => None,
        }
    }
}

/// The entries of a map or a struct that have not been handed out, and the
/// value of the entry whose key was handed out last, until it is taken.
pub struct RawNbtMapDeserializer {
    /// The entries, last first.
    stack: Vec<(String, NbtTag)>,
    value: Option<NbtTag>,
}

impl RawNbtMapDeserializer {
    /// The names and values of the entries that have not been handed out, in
    /// order.
    pub closed spec fn entries(&self) -> Seq<(Seq<char>, TagValue)> {
        Seq::new(
            self.stack@.len(),
            |i: int|
                (
                    self.stack@[self.stack@.len() - 1 - i].0@,
                    self.stack@[self.stack@.len() - 1 - i].1@,
                ),
        )
    }

    /// The value that waits to be taken.
    pub closed spec fn value(&self) -> Option<TagValue> {
        match self.value {
            Some(tag) => Some(tag@),
            None => None,
        }
    }

    /// Hands out the key of the next entry, and keeps its value to be taken;
    /// `None` when all entries have been handed out.
    pub fn next_key(&mut self) -> (r: Option<String>)
        ensures
            match r {
                Some(key) => old(self).entries().len() > 0 && key@ == old(self).entries()[0].0
                    && final(self).value() == Some(old(self).entries()[0].1) && final(self).entries() == old(self).entries().drop_first(),
                None => old(self).entries().len() == 0 && final(self).entries() == old(self).entries() && final(self).value() == old(self).value(),
            },
    {
        match self.stack.pop() {
            Some(entry) => {
                self.value = Some(entry.1);
                assert(self.entries() =~= old(self).entries().drop_first());
                Some(entry.0)
            },
            None => None,
        }
    }

    /// Takes the value of the entry whose key was handed out last, as a tag
    /// that waits for a request; `None` where no value waits, because no key
    /// was handed out or its value has been taken.
    pub fn next_value(&mut self) -> (r: Option<RawNbtDeserializer>)
        ensures
            match r {
                Some(de) => Some(de@) == old(self).value(),
                None => old(self).value() is None,
            },
            final(self).value() is None,
            final(self).entries() == old(self).entries(),
    {
        match self.value.take() {
            Some(tag) => Some(RawNbtDeserializer { tag }),
            None => None,
        }
    }
}

/// A tag of which an enum was requested.
pub struct RawNbtEnumDeserializer {
    value: NbtTag,
}

impl View for RawNbtEnumDeserializer {
    type V = TagValue;

    /// The value of the tag.
    closed spec fn view(&self) -> TagValue {
        self.value@
    }
}

impl RawNbtEnumDeserializer {
    /// The variant's name is requested. No tag holds one, so the name handed
    /// out is always empty; the tag goes on to the variant.
    pub fn variant(self) -> (r: (String, RawNbtEnumVariantDeserializer))
        ensures
            r.0@ == Seq::<char>::empty(),
            r.1@ == self@,
    {
        (String::new(), RawNbtEnumVariantDeserializer { value: self.value })
    }
}

/// A tag of which the data of an enum variant is requested.
pub struct RawNbtEnumVariantDeserializer {
    value: NbtTag,
}

impl View for RawNbtEnumVariantDeserializer {
    type V = TagValue;

    /// The value of the tag.
    closed spec fn view(&self) -> TagValue {
        self.value@
    }
}

impl RawNbtEnumVariantDeserializer {
    /// A variant without data is requested: every tag answers.
    pub fn unit_variant(self) -> (r: Result<(), NbtDeserializationError>)
        ensures
            r is Ok,
    {
        Ok(())
    }

    /// A variant around one value is requested: the request for the value is
    /// made of the whole tag.
    pub fn newtype_variant(self) -> (de: RawNbtDeserializer)
        ensures
            de@ == self@,
    {
        RawNbtDeserializer { tag: self.value }
    }

    /// A variant with several positional values is requested: no tag answers.
    pub fn tuple_variant(self, len: usize) -> (r: Result<
        RawNbtSeqDeserializer,
        NbtDeserializationError,
    >)
        ensures
            r matches Err(NbtDeserializationError::TypeNotSupported),
    {
        Err(NbtDeserializationError::TypeNotSupported)
    }

    /// A variant with named fields is requested: only a compound answers,
    /// with its entries in their order.
    pub fn struct_variant(self, fields: &[&str]) -> (r: Result<
        RawNbtMapDeserializer,
        NbtDeserializationError,
    >)
        ensures
            match self@ {
                TagValue::Compound { inner } => r matches Ok(map) && map.entries() == inner
                    && map.value() is None,
                _ => r matches Err(e) && is_mismatch(e, "Compound"@, self@),
            },
    {
        RawNbtDeserializer { tag: self.value }.deserialize_map()
    }
}

/// A `ByteArray` and the list of the same bytes give the same elements to a
/// request for a sequence.
pub proof fn law_byte_array_as_list(bytes: Seq<u8>)
    ensures
        seq_items(TagValue::ByteArray(bytes)) == seq_items(
            TagValue::List {
                nbt_type: NbtTagType::Byte,
                list: Seq::new(bytes.len(), |i: int| TagValue::Byte(i8_from_bits(bytes[i]))),
            },
        ),
{
}

/// An `IntArray` and the list of the same integers give the same elements to
/// a request for a sequence, and so do a `LongArray` and its list.
pub proof fn law_int_and_long_array_as_list(ints: Seq<i32>, longs: Seq<i64>)
    ensures
        seq_items(TagValue::IntArray(ints)) == seq_items(
            TagValue::List {
                nbt_type: NbtTagType::Int,
                list: Seq::new(ints.len(), |i: int| TagValue::Int(ints[i])),
            },
        ),
        seq_items(TagValue::LongArray(longs)) == seq_items(
            TagValue::List {
                nbt_type: NbtTagType::Long,
                list: Seq::new(longs.len(), |i: int| TagValue::Long(longs[i])),
            },
        ),
{
}

/// The tag that a sequence folded into gives the elements back to a request
/// for a sequence, whether it is a list or an array.
pub proof fn law_sequence_round_trip(items: Seq<TagValue>)
    ensures
        seq_tag(items) matches Ok(tag) ==> seq_items(tag) == Some(items),
{
    if seq_tag(items) is Ok {
        let tag = seq_tag(items)->Ok_0;
        if items.len() > 0 {
            assert forall|i: int| 0 <= i < items.len() implies (#[trigger] items[i]).tag_type()
                == items[0].tag_type() by {}
            assert(seq_items(tag)->0 =~= items);
        } else {
            assert(seq_items(tag)->0 =~= items);
        }
    }
}

} // verus!
