//! The serialization bridge: how the shapes of structured data fold into tags.
//!
//! A value announces its shape by the function it calls: a primitive, a
//! sequence, a map, a struct, an enum variant or an option. Values inside a
//! shape are handed in as the tags that they folded into.

use vstd::prelude::*;
use vstd::pervasive::unreached;
use vstd::slice::slice_to_vec;
use crate::tag::{NbtTag, NbtTagType, TagValue, entries_view, tags_view};
use crate::wire::{
    bits_to_i8, bits_to_i16, bits_to_i32, bits_to_i64, i8_bits, i8_from_bits, i16_from_bits,
    i32_from_bits, i64_from_bits, i8_to_bits,
};

verus! {

/// Why a value was not folded into a tag.
#[derive(Debug, PartialEq, Eq)]
pub enum NbtSerializationError {
    /// The shape has no tag that stands for it.
    TypeNotSupported,
    /// A map key that did not fold into a `String` tag.
    InvalidMapKey,
    /// A sequence whose elements did not all fold into tags of one kind.
    InvalidList,
    /// A fault that the value itself reported.
    Other(String),
}

impl NbtSerializationError {
    /// The fault that a value reports with `msg`.
    pub fn custom(msg: String) -> (e: NbtSerializationError)
        ensures
            e matches NbtSerializationError::Other(text) && text@ == msg@,
    {
        NbtSerializationError::Other(msg)
    }
}

/// `r` is the tag of value `value`.
pub open spec fn yields(r: Result<NbtTag, NbtSerializationError>, value: TagValue) -> bool {
    r matches Ok(tag) && tag@ == value
}

/// The tag that a sequence folds into, once its elements have folded into
/// `items`: an empty list of kind `End` where there are none; a fault where
/// they are not all of the kind of the first; an array where they are bytes,
/// ints or longs; a list of their kind otherwise.
pub open spec fn seq_tag(items: Seq<TagValue>) -> Result<TagValue, NbtSerializationError> {
    if items.len() == 0 {
        Ok(TagValue::List { nbt_type: NbtTagType::End, list: Seq::empty() })
    } else if exists|i: int| 0 <= i < items.len() && (#[trigger] items[i]).tag_type()
        != items[0].tag_type() {
        Err(NbtSerializationError::InvalidList)
    } else {
        match items[0].tag_type() {
            NbtTagType::Byte => Ok(
                TagValue::ByteArray(Seq::new(items.len(), |i: int| i8_bits(items[i]->Byte_0))),
            ),
            NbtTagType::Int => Ok(
                TagValue::IntArray(Seq::new(items.len(), |i: int| items[i]->Int_0)),
            ),
            NbtTagType::Long => Ok(
                TagValue::LongArray(Seq::new(items.len(), |i: int| items[i]->Long_0)),
            ),
            nbt_type => Ok(TagValue::List { nbt_type, list: items }),
        }
    }
}

/// Folds the shapes of structured data into tags.
pub struct RawNbtSerializer;

impl RawNbtSerializer {
    /// A boolean is a `Byte`: 1 for `true`, 0 for `false`.
    pub fn serialize_bool(&self, v: bool) -> (r: Result<NbtTag, NbtSerializationError>)
        ensures
            yields(r, TagValue::Byte(if v { 1i8 } else { 0i8 })),
    {
        Ok(NbtTag::Byte(if v { 1 } else { 0 }))
    }

    /// An 8-bit integer is a `Byte`.
    pub fn serialize_i8(&self, v: i8) -> (r: Result<NbtTag, NbtSerializationError>)
        ensures
            yields(r, TagValue::Byte(v)),
    {
        Ok(NbtTag::Byte(v))
    }

    /// A 16-bit integer is a `Short`.
    pub fn serialize_i16(&self, v: i16) -> (r: Result<NbtTag, NbtSerializationError>)
        ensures
            yields(r, TagValue::Short(v)),
    {
        Ok(NbtTag::Short(v))
    }

    /// A 32-bit integer is an `Int`.
    pub fn serialize_i32(&self, v: i32) -> (r: Result<NbtTag, NbtSerializationError>)
        ensures
            yields(r, TagValue::Int(v)),
    {
        Ok(NbtTag::Int(v))
    }

    /// A 64-bit integer is a `Long`.
    pub fn serialize_i64(&self, v: i64) -> (r: Result<NbtTag, NbtSerializationError>)
        ensures
            yields(r, TagValue::Long(v)),
    {
        Ok(NbtTag::Long(v))
    }

    /// An unsigned 8-bit integer is the `Byte` with the same bits. No range is
    /// tested, here or for the wider integers: values above the signed range
    /// wrap.
    pub fn serialize_u8(&self, v: u8) -> (r: Result<NbtTag, NbtSerializationError>)
        ensures
            yields(r, TagValue::Byte(i8_from_bits(v))),
    {
        self.serialize_i8(bits_to_i8(v))
    }

    /// An unsigned 16-bit integer is the `Short` with the same bits.
    pub fn serialize_u16(&self, v: u16) -> (r: Result<NbtTag, NbtSerializationError>)
        ensures
            yields(r, TagValue::Short(i16_from_bits(v))),
    {
        self.serialize_i16(bits_to_i16(v))
    }

    /// An unsigned 32-bit integer is the `Int` with the same bits.
    pub fn serialize_u32(&self, v: u32) -> (r: Result<NbtTag, NbtSerializationError>)
        ensures
            yields(r, TagValue::Int(i32_from_bits(v))),
    {
        self.serialize_i32(bits_to_i32(v))
    }

    /// An unsigned 64-bit integer is the `Long` with the same bits.
    pub fn serialize_u64(&self, v: u64) -> (r: Result<NbtTag, NbtSerializationError>)
        ensures
            yields(r, TagValue::Long(i64_from_bits(v))),
    {
        self.serialize_i64(bits_to_i64(v))
    }

    /// A 32-bit float, given by its bit pattern, is a `Float`.
    pub fn serialize_f32(&self, bits: u32) -> (r: Result<NbtTag, NbtSerializationError>)
        ensures
            yields(r, TagValue::Float(bits)),
    {
        Ok(NbtTag::Float(bits))
    }

    /// A 64-bit float, given by its bit pattern, is a `Double`.
    pub fn serialize_f64(&self, bits: u64) -> (r: Result<NbtTag, NbtSerializationError>)
        ensures
            yields(r, TagValue::Double(bits)),
    {
        Ok(NbtTag::Double(bits))
    }

    /// A character is a `Byte` that holds the low 8 bits of its code point:
    /// characters above U+00FF lose the rest.
    pub fn serialize_char(&self, v: char) -> (r: Result<NbtTag, NbtSerializationError>)
        ensures
            yields(r, TagValue::Byte(i8_from_bits((v as u32 % 0x100) as u8))),
    {
        self.serialize_i8(bits_to_i8((v as u32 % 0x100) as u8))
    }

    /// Text is a `String`.
    pub fn serialize_str(&self, v: &str) -> (r: Result<NbtTag, NbtSerializationError>)
        ensures
            yields(r, TagValue::String(v@)),
    {
        Ok(NbtTag::String(v.to_owned()))
    }

    /// A slice of bytes is a `ByteArray`.
    pub fn serialize_bytes(&self, v: &[u8]) -> (r: Result<NbtTag, NbtSerializationError>)
        ensures
            yields(r, TagValue::ByteArray(v@)),
    {
        Ok(NbtTag::ByteArray(slice_to_vec(v)))
    }

    /// An absent value has no tag.
    pub fn serialize_none(&self) -> (r: Result<NbtTag, NbtSerializationError>)
        ensures
            r == Err::<NbtTag, NbtSerializationError>(NbtSerializationError::TypeNotSupported),
    {
        Err(NbtSerializationError::TypeNotSupported)
    }

    /// A present value is the tag `value` that it folded into, with nothing
    /// around it.
    pub fn serialize_some(&self, value: NbtTag) -> (r: Result<NbtTag, NbtSerializationError>)
        ensures
            yields(r, value@),
    {
        Ok(value)
    }

    /// The unit value has no tag.
    pub fn serialize_unit(&self) -> (r: Result<NbtTag, NbtSerializationError>)
        ensures
            r == Err::<NbtTag, NbtSerializationError>(NbtSerializationError::TypeNotSupported),
    {
        Err(NbtSerializationError::TypeNotSupported)
    }

    /// A struct without fields is an empty compound.
    pub fn serialize_unit_struct(&self, name: &str) -> (r: Result<NbtTag, NbtSerializationError>)
        ensures
            yields(r, TagValue::Compound { inner: Seq::empty() }),
    {
        let tag = NbtTag::Compound { inner: Vec::new() };
        assert(tag@.arrow_Compound_inner() =~= Seq::empty());
        Ok(tag)
    }

    /// A variant without data is a `String` that holds the variant's name.
    pub fn serialize_unit_variant(&self, name: &str, variant_index: u32, variant: &str) -> (r:
        Result<NbtTag, NbtSerializationError>)
        ensures
            yields(r, TagValue::String(variant@)),
    {
        self.serialize_str(variant)
    }

    /// A struct around one value is the tag `value` that the value folded into.
    pub fn serialize_newtype_struct(&self, name: &str, value: NbtTag) -> (r: Result<
        NbtTag,
        NbtSerializationError,
    >)
        ensures
            yields(r, value@),
    {
        Ok(value)
    }

    /// A variant around one value is the tag `value` that the value folded
    /// into; the variant's name is dropped.
    pub fn serialize_newtype_variant(
        &self,
        name: &str,
        variant_index: u32,
        variant: &str,
        value: NbtTag,
    ) -> (r: Result<NbtTag, NbtSerializationError>)
        ensures
            yields(r, value@),
    {
        Ok(value)
    }

    /// Starts a sequence.
    pub fn serialize_seq(&self, len: Option<usize>) -> (r: Result<
        RawNbtSeqSerializer,
        NbtSerializationError,
    >)
        ensures
            r matches Ok(seq) && seq@ == Seq::<TagValue>::empty(),
    {
        let seq = RawNbtSeqSerializer { list: Vec::new() };
        assert(seq@ =~= Seq::<TagValue>::empty());
        Ok(seq)
    }

    /// A tuple has no tag.
    pub fn serialize_tuple(&self, len: usize) -> (r: Result<
        RawNbtSeqSerializer,
        NbtSerializationError,
    >)
        ensures
            r matches Err(NbtSerializationError::TypeNotSupported),
    {
        Err(NbtSerializationError::TypeNotSupported)
    }

    /// A tuple struct has no tag.
    pub fn serialize_tuple_struct(&self, name: &str, len: usize) -> (r: Result<
        RawNbtSeqSerializer,
        NbtSerializationError,
    >)
        ensures
            r matches Err(NbtSerializationError::TypeNotSupported),
    {
        Err(NbtSerializationError::TypeNotSupported)
    }

    /// A variant with several positional values has no tag.
    pub fn serialize_tuple_variant(
        &self,
        name: &str,
        variant_index: u32,
        variant: &str,
        len: usize,
    ) -> (r: Result<RawNbtSeqSerializer, NbtSerializationError>)
        ensures
            r matches Err(NbtSerializationError::TypeNotSupported),
    {
        Err(NbtSerializationError::TypeNotSupported)
    }

    /// Starts a map.
    pub fn serialize_map(&self, len: Option<usize>) -> (r: Result<
        RawNbtMapSerializer,
        NbtSerializationError,
    >)
        ensures
            r matches Ok(map) && map.entries() == Seq::<(Seq<char>, TagValue)>::empty()
                && map.key() is None,
    {
        Ok(RawNbtMapSerializer::new())
    }

    /// Starts a struct.
    pub fn serialize_struct(&self, name: &str, len: usize) -> (r: Result<
        RawNbtMapSerializer,
        NbtSerializationError,
    >)
        ensures
            r matches Ok(map) && map.entries() == Seq::<(Seq<char>, TagValue)>::empty()
                && map.key() is None,
    {
        Ok(RawNbtMapSerializer::new())
    }

    /// Starts a variant with named fields; the variant's name is dropped.
    pub fn serialize_struct_variant(
        &self,
        name: &str,
        variant_index: u32,
        variant: &str,
        len: usize,
    ) -> (r: Result<RawNbtMapSerializer, NbtSerializationError>)
        ensures
            r matches Ok(map) && map.entries() == Seq::<(Seq<char>, TagValue)>::empty()
                && map.key() is None,
    {
        Ok(RawNbtMapSerializer::new())
    }
}

/// A sequence that is being folded: the tags of the elements so far.
pub struct RawNbtSeqSerializer {
    list: Vec<NbtTag>,
}

impl View for RawNbtSeqSerializer {
    type V = Seq<TagValue>;

    /// The values of the elements so far, in order.
    closed spec fn view(&self) -> Seq<TagValue> {
        tags_view(self.list@)
    }
}

impl RawNbtSeqSerializer {
    /// Adds the tag `value` that the next element folded into.
    pub fn serialize_element(&mut self, value: NbtTag) -> (r: Result<(), NbtSerializationError>)
        ensures
            r is Ok,
            final(self)@ == old(self)@.push(value@),
    {
        self.list.push(value);
        assert(self@ =~= old(self)@.push(value@));
        Ok(())
    }

    /// Ends the sequence and gives its tag, which is `seq_tag` of the elements.
    /// Elements of differing kinds are a fault: none is dropped or converted.
    pub fn end(self) -> (r: Result<NbtTag, NbtSerializationError>)
        ensures
            match seq_tag(self@) {
                Ok(value) => yields(r, value),
                Err(e) => r == Err::<NbtTag, NbtSerializationError>(e),
            },
    {
        let ghost items = self@;
        let list = self.list;
        assert(items == tags_view(list@));
        let len: usize = list.len();
        if len == 0 {
            let tag = NbtTag::List { nbt_type: NbtTagType::End, list: Vec::new() };
            assert(tag@.arrow_List_list() =~= Seq::empty());
            return Ok(tag);
        }
        let nbt_type = list[0].tag_type();
        let mut i: usize = 1;
        while i < len
            invariant
                1 <= i <= len,
                len == list@.len(),
                items == tags_view(list@),
                items == self@,
                nbt_type == items[0].tag_type(),
                forall|j: int| 0 <= j < i ==> (#[trigger] items[j]).tag_type() == nbt_type,
            decreases len - i,
        {
            if list[i].tag_type() != nbt_type {
                assert(items[i as int].tag_type() != items[0].tag_type());
                return Err(NbtSerializationError::InvalidList);
            }
            i += 1;
        }
        match nbt_type {
            NbtTagType::Byte => {
                let mut array: Vec<u8> = Vec::new();
                let mut k: usize = 0;
                while k < len
                    invariant
                        k <= len,
                        len == list@.len(),
                        items == tags_view(list@),
                        forall|j: int| 0 <= j < len ==> (#[trigger] items[j]) is Byte,
                        array@ == Seq::new(k as nat, |j: int| i8_bits(items[j]->Byte_0)),
                    decreases len - k,
                {
                    assert(items[k as int] is Byte);
                    match &list[k] {
                        NbtTag::Byte(v) => array.push(i8_to_bits(*v)),
                        _ => unreached(),
                    }
                    k += 1;
                    assert(array@ =~= Seq::new(k as nat, |j: int| i8_bits(items[j]->Byte_0)));
                }
                Ok(NbtTag::ByteArray(array))
            },
            NbtTagType::Int => {
                let mut array: Vec<i32> = Vec::new();
                let mut k: usize = 0;
                while k < len
                    invariant
                        k <= len,
                        len == list@.len(),
                        items == tags_view(list@),
                        forall|j: int| 0 <= j < len ==> (#[trigger] items[j]) is Int,
                        array@ == Seq::new(k as nat, |j: int| items[j]->Int_0),
                    decreases len - k,
                {
                    assert(items[k as int] is Int);
                    match &list[k] {
                        NbtTag::Int(v) => array.push(*v),
                        _ => unreached(),
                    }
                    k += 1;
                    assert(array@ =~= Seq::new(k as nat, |j: int| items[j]->Int_0));
                }
                Ok(NbtTag::IntArray(array))
            },
            NbtTagType::Long => {
                let mut array: Vec<i64> = Vec::new();
                let mut k: usize = 0;
                while k < len
                    invariant
                        k <= len,
                        len == list@.len(),
                        items == tags_view(list@),
                        forall|j: int| 0 <= j < len ==> (#[trigger] items[j]) is Long,
                        array@ == Seq::new(k as nat, |j: int| items[j]->Long_0),
                    decreases len - k,
                {
                    assert(items[k as int] is Long);
                    match &list[k] {
                        NbtTag::Long(v) => array.push(*v),
                        _ => unreached(),
                    }
                    k += 1;
                    assert(array@ =~= Seq::new(k as nat, |j: int| items[j]->Long_0));
                }
                Ok(NbtTag::LongArray(array))
            },
            _ => Ok(NbtTag::List { nbt_type, list }),
        }
    }
}

/// A map or a struct that is being folded: the entries so far, and the key
/// that waits for its value, if one does.
pub struct RawNbtMapSerializer {
    items: Vec<(String, NbtTag)>,
    key: Option<String>,
}

impl RawNbtMapSerializer {
    /// The names and values of the entries so far, in order.
    pub closed spec fn entries(&self) -> Seq<(Seq<char>, TagValue)> {
        entries_view(self.items@)
    }

    /// The key that waits for its value.
    pub closed spec fn key(&self) -> Option<Seq<char>> {
        match self.key {
            Some(name) => Some(name@),
            None => None,
        }
    }

    /// A map without entries.
    pub fn new() -> (map: RawNbtMapSerializer)
        ensures
            map.entries() == Seq::<(Seq<char>, TagValue)>::empty(),
            map.key() is None,
    {
        let map = RawNbtMapSerializer { items: Vec::new(), key: None };
        assert(map.entries() =~= Seq::<(Seq<char>, TagValue)>::empty());
        map
    }

    /// Takes the tag `key` that a map key folded into. A `String` becomes the
    /// key that waits for the next value, in place of one that waited; any
    /// other tag is a fault and changes nothing.
    pub fn serialize_key(&mut self, key: NbtTag) -> (r: Result<(), NbtSerializationError>)
        ensures
            final(self).entries() == old(self).entries(),
            match key@ {
                TagValue::String(name) => r is Ok && final(self).key() == Some(name),
                _ => r == Err::<(), NbtSerializationError>(NbtSerializationError::InvalidMapKey)
                    && final(self).key() == old(self).key(),
            },
    {
        match key {
            NbtTag::String(name) => {
                self.key = Some(name);
                Ok(())
            },
            _ => Err(NbtSerializationError::InvalidMapKey),
        }
    }

    /// Takes the tag `value` that a map value folded into and adds it under
    /// the key that waits. Where no key waits the value is refused and nothing
    /// changes.
    pub fn serialize_value(&mut self, value: NbtTag) -> (r: Result<(), NbtSerializationError>)
        ensures
            final(self).key() is None,
            match old(self).key() {
                Some(name) => r is Ok && final(self).entries() == old(self).entries().push(
                    (name, value@),
                ),
                None => r == Err::<(), NbtSerializationError>(NbtSerializationError::InvalidMapKey)
                    && final(self).entries() == old(self).entries(),
            },
    {
        match self.key.take() {
            Some(name) => {
                self.items.push((name, value));
                assert(self.entries() =~= old(self).entries().push((name@, value@)));
                Ok(())
            },
            None => Err(NbtSerializationError::InvalidMapKey),
        }
    }

    /// Adds an entry, given the tags that its key and its value folded into.
    /// The key must be a `String`; any other tag is a fault and changes
    /// nothing.
    pub fn serialize_entry(&mut self, key: NbtTag, value: NbtTag) -> (r: Result<
        (),
        NbtSerializationError,
    >)
        ensures
            final(self).key() == old(self).key(),
            match key@ {
                TagValue::String(name) => r is Ok && final(self).entries() == old(self).entries().push((name, value@)),
                _ => r == Err::<(), NbtSerializationError>(NbtSerializationError::InvalidMapKey)
                    && final(self).entries() == old(self).entries(),
            },
    {
        match key {
            NbtTag::String(name) => {
                self.items.push((name, value));
                assert(self.entries() =~= old(self).entries().push((name@, value@)));
                Ok(())
            },
            _ => Err(NbtSerializationError::InvalidMapKey),
        }
    }

    /// Adds the field `key` of a struct, given the tag `value` that the field
    /// folded into.
    pub fn serialize_field(&mut self, key: &str, value: NbtTag) -> (r: Result<
        (),
        NbtSerializationError,
    >)
        ensures
            r is Ok,
            final(self).key() == old(self).key(),
            final(self).entries() == old(self).entries().push((key@, value@)),
    {
        self.items.push((key.to_owned(), value));
        assert(self.entries() =~= old(self).entries().push((key@, value@)));
        Ok(())
    }

    /// Ends the map or the struct and gives its tag: a compound of the entries
    /// in the order in which they were added.
    pub fn end(self) -> (r: Result<NbtTag, NbtSerializationError>)
        ensures
            yields(r, TagValue::Compound { inner: self.entries() }),
    {
        Ok(NbtTag::Compound { inner: self.items })
    }
}

/// List homogeneity: a sequence that holds two elements of differing kinds,
/// wherever they stand, has no tag.
pub proof fn law_mixed_sequence_rejected(items: Seq<TagValue>, i: int, j: int)
    requires
        0 <= i < items.len(),
        0 <= j < items.len(),
        items[i].tag_type() != items[j].tag_type(),
    ensures
        seq_tag(items) == Err::<TagValue, NbtSerializationError>(
            NbtSerializationError::InvalidList,
        ),
{
    if items[i].tag_type() != items[0].tag_type() {
    } else {
        assert(items[j].tag_type() != items[0].tag_type());
    }
}

/// Array collapse: a sequence of 8-bit integers that is not empty folds into
/// a `ByteArray` of their bits.
pub proof fn law_bytes_collapse(values: Seq<i8>)
    requires
        values.len() > 0,
    ensures
        seq_tag(Seq::new(values.len(), |i: int| TagValue::Byte(values[i]))) == Ok::<
            TagValue,
            NbtSerializationError,
        >(TagValue::ByteArray(Seq::new(values.len(), |i: int| i8_bits(values[i])))),
{
    let items = Seq::new(values.len(), |i: int| TagValue::Byte(values[i]));
    assert(Seq::new(items.len(), |i: int| i8_bits(items[i]->Byte_0)) =~= Seq::new(
        values.len(),
        |i: int| i8_bits(values[i]),
    ));
}

/// Array collapse: a sequence of 32-bit integers that is not empty folds into
/// an `IntArray` of them.
pub proof fn law_ints_collapse(values: Seq<i32>)
    requires
        values.len() > 0,
    ensures
        seq_tag(Seq::new(values.len(), |i: int| TagValue::Int(values[i]))) == Ok::<
            TagValue,
            NbtSerializationError,
        >(TagValue::IntArray(values)),
{
    let items = Seq::new(values.len(), |i: int| TagValue::Int(values[i]));
    assert(Seq::new(items.len(), |i: int| items[i]->Int_0) =~= values);
}

/// Array collapse: a sequence of 64-bit integers that is not empty folds into
/// a `LongArray` of them.
pub proof fn law_longs_collapse(values: Seq<i64>)
    requires
        values.len() > 0,
    ensures
        seq_tag(Seq::new(values.len(), |i: int| TagValue::Long(values[i]))) == Ok::<
            TagValue,
            NbtSerializationError,
        >(TagValue::LongArray(values)),
{
    let items = Seq::new(values.len(), |i: int| TagValue::Long(values[i]));
    assert(Seq::new(items.len(), |i: int| items[i]->Long_0) =~= values);
}

/// Array collapse: no sequence folds into a list of bytes, ints or longs.
pub proof fn law_no_list_of_array_kind(items: Seq<TagValue>)
    ensures
        seq_tag(items) matches Ok(TagValue::List { nbt_type, list }) ==> nbt_type
            != NbtTagType::Byte && nbt_type != NbtTagType::Int && nbt_type != NbtTagType::Long,
{
}

/// List homogeneity: where a sequence folds into a list, the list holds the
/// elements as they were handed in, and all of them are of the list's kind.
pub proof fn law_sequence_is_homogeneous(items: Seq<TagValue>)
    ensures
        seq_tag(items) matches Ok(TagValue::List { nbt_type, list }) ==> list == items && forall|
            i: int,
        |
            0 <= i < list.len() ==> (#[trigger] list[i]).tag_type() == nbt_type,
{
}

} // verus!
