//! The binary layout of tags, and the functions that write it.
//!
//! All integers and lengths are big-endian. A payload carries no type byte and
//! no name; a named entry is a type byte, the name with a 16-bit length before
//! it, and the payload.

use vstd::prelude::*;
use vstd::utf8::encode_utf8;
use crate::tag::{NbtTag, NbtTagType, TagValue, tags_view, entries_view};
use crate::wire::{
    be_u16, be_u32, be_u64, i8_bits, i16_bits, i32_bits, i64_bits, i8_to_bits, i16_to_bits,
    i32_to_bits, i64_to_bits, push_u16, push_u32, push_u64,
};

verus! {

/// How the root of a stream is framed. Integers are big-endian under both.
#[derive(Debug, Clone, Copy, PartialEq, Eq, Structural)]
pub enum NbtSerializationOptions {
    /// The root compound carries a name, which is written empty.
    LittleEndian,
    /// The root compound carries no name: its entries follow the type byte.
    Network,
}

/// A length as a 16-bit prefix holds it: its low 16 bits.
pub open spec fn len16(len: nat) -> u16 {
    (len % 0x1_0000) as u16
}

/// A length as a 32-bit prefix holds it: its low 32 bits.
pub open spec fn len32(len: nat) -> u32 {
    (len % 0x1_0000_0000) as u32
}

/// The elements of an `IntArray` on the wire, four bytes each.
pub open spec fn ints_bytes(ints: Seq<i32>) -> Seq<u8>
    decreases ints.len(),
{
    if ints.len() == 0 {
        Seq::empty()
    } else {
        ints_bytes(ints.drop_last()) + be_u32(i32_bits(ints.last()))
    }
}

/// The elements of a `LongArray` on the wire, eight bytes each.
pub open spec fn longs_bytes(longs: Seq<i64>) -> Seq<u8>
    decreases longs.len(),
{
    if longs.len() == 0 {
        Seq::empty()
    } else {
        longs_bytes(longs.drop_last()) + be_u64(i64_bits(longs.last()))
    }
}

/// A string or a name on the wire: the length of its UTF-8 bytes, then the
/// bytes.
pub open spec fn text_bytes(text: Seq<char>) -> Seq<u8> {
    be_u16(len16(encode_utf8(text).len())) + encode_utf8(text)
}

/// The payloads of `tags`, one after the other.
pub open spec fn payloads(tags: Seq<TagValue>) -> Seq<u8>
    decreases tags,
{
    if tags.len() == 0 {
        Seq::empty()
    } else {
        payloads(tags.drop_last()) + tags.last().payload()
    }
}

/// A named entry on the wire: the type byte of the value, the name, and the
/// payload of the value.
pub open spec fn entry_bytes(entry: (Seq<char>, TagValue)) -> Seq<u8>
    decreases entry,
{
    seq![entry.1.tag_type().spec_id()] + text_bytes(entry.0) + entry.1.payload()
}

/// The named entries `entries`, one after the other.
pub open spec fn entries_bytes(entries: Seq<(Seq<char>, TagValue)>) -> Seq<u8>
    decreases entries,
{
    if entries.len() == 0 {
        Seq::empty()
    } else {
        entries_bytes(entries.drop_last()) + entry_bytes(entries.last())
    }
}

/// A root compound with the entries `entries` on the wire: the type byte of
/// `Compound`, the empty name where the framing has one, the entries, and the
/// `End` byte.
pub open spec fn root_bytes(entries: Seq<(Seq<char>, TagValue)>, opts: NbtSerializationOptions)
    -> Seq<u8> {
    seq![NbtTagType::Compound.spec_id()] + root_name_bytes(opts) + entries_bytes(entries)
        + seq![0u8]
}

/// The name of the root on the wire: none under `Network`, the empty name
/// under `LittleEndian`.
pub open spec fn root_name_bytes(opts: NbtSerializationOptions) -> Seq<u8> {
    match opts {
        NbtSerializationOptions::Network => Seq::empty(),
        NbtSerializationOptions::LittleEndian => text_bytes(Seq::empty()),
    }
}

impl TagValue {
    /// The payload of this tag on the wire.
    pub open spec fn payload(self) -> Seq<u8>
        decreases self,
    {
        match self {
            TagValue::End => Seq::empty(),
            TagValue::Byte(v) => seq![i8_bits(v)],
            TagValue::Short(v) => be_u16(i16_bits(v)),
            TagValue::Int(v) => be_u32(i32_bits(v)),
            TagValue::Long(v) => be_u64(i64_bits(v)),
            TagValue::Float(bits) => be_u32(bits),
            TagValue::Double(bits) => be_u64(bits),
            TagValue::ByteArray(bytes) => be_u32(len32(bytes.len())) + bytes,
            TagValue::String(text) => text_bytes(text),
            TagValue::List { nbt_type, list } => seq![nbt_type.spec_id()] + be_u32(
                len32(list.len()),
            ) + payloads(list),
            TagValue::Compound { inner } => entries_bytes(inner) + seq![0u8],
            TagValue::IntArray(ints) => be_u32(len32(ints.len())) + ints_bytes(ints),
            TagValue::LongArray(longs) => be_u32(len32(longs.len())) + longs_bytes(longs),
        }
    }
}

/// Appends `text` as a string on the wire.
pub fn push_text(buf: &mut Vec<u8>, text: &str)
    ensures
        final(buf)@ == old(buf)@ + text_bytes(text@),
{
    let bytes = text.as_bytes();
    push_u16(buf, ((bytes.len() as u64) % 0x1_0000) as u16);
    buf.extend_from_slice(bytes);
    assert(buf@ =~= old(buf)@ + text_bytes(text@));
}

/// Appends the elements of an `IntArray`.
fn push_ints(buf: &mut Vec<u8>, ints: &Vec<i32>)
    ensures
        final(buf)@ == old(buf)@ + ints_bytes(ints@),
{
    let mut i: usize = 0;
    while i < ints.len()
        invariant
            i <= ints.len(),
            buf@ == old(buf)@ + ints_bytes(ints@.take(i as int)),
        decreases ints.len() - i,
    {
        push_u32(buf, i32_to_bits(ints[i]));
        proof {
            assert(ints@.take(i + 1).drop_last() =~= ints@.take(i as int));
            assert(buf@ =~= old(buf)@ + ints_bytes(ints@.take(i + 1)));
        }
        i += 1;
    }
    assert(ints@.take(i as int) =~= ints@);
}

/// Appends the elements of a `LongArray`.
fn push_longs(buf: &mut Vec<u8>, longs: &Vec<i64>)
    ensures
        final(buf)@ == old(buf)@ + longs_bytes(longs@),
{
    let mut i: usize = 0;
    while i < longs.len()
        invariant
            i <= longs.len(),
            buf@ == old(buf)@ + longs_bytes(longs@.take(i as int)),
        decreases longs.len() - i,
    {
        push_u64(buf, i64_to_bits(longs[i]));
        proof {
            assert(longs@.take(i + 1).drop_last() =~= longs@.take(i as int));
            assert(buf@ =~= old(buf)@ + longs_bytes(longs@.take(i + 1)));
        }
        i += 1;
    }
    assert(longs@.take(i as int) =~= longs@);
}

/// Appends a length as a 32-bit prefix.
fn push_len32(buf: &mut Vec<u8>, len: usize)
    ensures
        final(buf)@ == old(buf)@ + be_u32(len32(len as nat)),
{
    push_u32(buf, ((len as u64) % 0x1_0000_0000) as u32);
}

/// Appends `entries` as named entries, one after the other, without the
/// `End` byte that closes a compound.
pub fn encode_entries(
    entries: &Vec<(String, NbtTag)>,
    writer: &mut Vec<u8>,
    opts: NbtSerializationOptions,
)
    ensures
        final(writer)@ == old(writer)@ + entries_bytes(entries_view(entries@)),
    decreases entries,
{
    let mut i: usize = 0;
    while i < entries.len()
        invariant
            i <= entries.len(),
            writer@ == old(writer)@ + entries_bytes(entries_view(entries@).take(i as int)),
        decreases entries.len() - i,
    {
        let ghost before = writer@;
        let entry = &entries[i];
        writer.push(entry.1.tag_type().id());
        push_text(writer, entry.0.as_str());
        entry.1.encode(writer, opts);
        proof {
            let done = entries_view(entries@).take(i + 1);
            assert(done.drop_last() =~= entries_view(entries@).take(i as int));
            assert(done.last() == (entries@[i as int].0@, entries@[i as int].1@));
            assert(writer@ =~= before + entry_bytes(done.last()));
            assert(writer@ =~= old(writer)@ + entries_bytes(done));
        }
        i += 1;
    }
    assert(entries_view(entries@).take(i as int) =~= entries_view(entries@));
}

impl NbtTag {
    /// Appends the payload of this tag to `writer`. The payload is the same
    /// under both options.
    pub fn encode(&self, writer: &mut Vec<u8>, opts: NbtSerializationOptions)
        ensures
            final(writer)@ == old(writer)@ + self@.payload(),
        decreases self,
    {
        match self {
            NbtTag::End => {
                assert(writer@ =~= old(writer)@ + self@.payload());
            },
            NbtTag::Byte(v) => {
                writer.push(i8_to_bits(*v));
                assert(writer@ =~= old(writer)@ + self@.payload());
            },
            NbtTag::Short(v) => push_u16(writer, i16_to_bits(*v)),
            NbtTag::Int(v) => push_u32(writer, i32_to_bits(*v)),
            NbtTag::Long(v) => push_u64(writer, i64_to_bits(*v)),
            NbtTag::Float(bits) => push_u32(writer, *bits),
            NbtTag::Double(bits) => push_u64(writer, *bits),
            NbtTag::ByteArray(bytes) => {
                push_len32(writer, bytes.len());
                writer.extend_from_slice(bytes.as_slice());
                assert(writer@ =~= old(writer)@ + self@.payload());
            },
            NbtTag::String(text) => push_text(writer, text.as_str()),
            NbtTag::List { nbt_type, list } => {
                writer.push(nbt_type.id());
                push_len32(writer, list.len());
                let ghost head = writer@;
                assert(head =~= old(writer)@ + (seq![nbt_type.spec_id()] + be_u32(
                    len32(list@.len()),
                )));
                let mut i: usize = 0;
                while i < list.len()
                    invariant
                        i <= list.len(),
                        writer@ == head + payloads(tags_view(list@).take(i as int)),
                        forall|j: int| 0 <= j < list.len() ==> decreases_to!(self => list@[j]),
                    decreases list.len() - i,
                {
                    list[i].encode(writer, opts);
                    proof {
                        let done = tags_view(list@).take(i + 1);
                        assert(done.drop_last() =~= tags_view(list@).take(i as int));
                        assert(done.last() == list@[i as int]@);
                        assert(writer@ =~= head + payloads(done));
                    }
                    i += 1;
                }
                assert(tags_view(list@).take(i as int) =~= tags_view(list@));
                assert(writer@ =~= old(writer)@ + self@.payload());
            },
            NbtTag::Compound { inner } => {
                encode_entries(inner, writer, opts);
                writer.push(0);
                assert(writer@ =~= old(writer)@ + self@.payload());
            },
            NbtTag::IntArray(ints) => {
                push_len32(writer, ints.len());
                push_ints(writer, ints);
                assert(writer@ =~= old(writer)@ + self@.payload());
            },
            NbtTag::LongArray(longs) => {
                push_len32(writer, longs.len());
                push_longs(writer, longs);
                assert(writer@ =~= old(writer)@ + self@.payload());
            },
        }
    }

    /// The payload of this tag. It is the same under both options.
    pub fn to_binary(&self, opts: NbtSerializationOptions) -> (bytes: Vec<u8>)
        ensures
            bytes@ == self@.payload(),
    {
        let mut bytes: Vec<u8> = Vec::new();
        self.encode(&mut bytes, opts);
        assert(bytes@ =~= self@.payload());
        bytes
    }
}

} // verus!
