//! Decoding what was encoded gives the value back.

use vstd::prelude::*;
use vstd::utf8::{
    decode_utf8_encode_utf8, encode_utf8, encode_utf8_decode_utf8, encode_utf8_valid_utf8,
};
use crate::decode::{
    parse_elems, parse_entries, parse_entry, parse_named, parse_payload, parse_root,
    parse_root_name, parse_text, remaining, NbtDecodeError,
};
use crate::encode::{
    entries_bytes, entry_bytes, ints_bytes, longs_bytes, payloads, root_bytes, root_name_bytes,
    text_bytes, NbtSerializationOptions,
};
use crate::tag::{entries_wf, entries_within_depth, NbtTagType, TagValue};
use crate::wire::{
    be_u16, be_u32, be_u64, holds_at, i16_bits, i32_bits, i32_from_bits, i64_bits, i64_from_bits,
    lemma_be_u16_at, lemma_be_u32_at, lemma_be_u64_at, lemma_holds_at_concat, lemma_u16_at_be,
    lemma_u32_at_be, lemma_u64_at_be, u16_at, u32_at, u64_at,
};

verus! {

/// The payloads of a sequence that is not empty are the payload of its first
/// tag, then the payloads of the others.
proof fn lemma_payloads_front(tags: Seq<TagValue>)
    requires
        tags.len() > 0,
    ensures
        payloads(tags) == tags[0].payload() + payloads(tags.drop_first()),
    decreases tags.len(),
{
    if tags.len() == 1 {
        assert(tags.drop_last() =~= Seq::<TagValue>::empty());
        assert(tags.drop_first() =~= Seq::<TagValue>::empty());
        assert(payloads(tags) =~= tags[0].payload() + payloads(tags.drop_first()));
    } else {
        lemma_payloads_front(tags.drop_last());
        assert(tags.drop_last().drop_first() =~= tags.drop_first().drop_last());
        assert(tags.drop_first().last() == tags.last());
        assert(tags.drop_last()[0] == tags[0]);
        assert(payloads(tags) =~= tags[0].payload() + payloads(tags.drop_first()));
    }
}

/// The bytes of entries that are not none are the bytes of the first entry,
/// then the bytes of the others.
proof fn lemma_entries_bytes_front(entries: Seq<(Seq<char>, TagValue)>)
    requires
        entries.len() > 0,
    ensures
        entries_bytes(entries) == entry_bytes(entries[0]) + entries_bytes(entries.drop_first()),
    decreases entries.len(),
{
    if entries.len() == 1 {
        assert(entries.drop_last() =~= Seq::<(Seq<char>, TagValue)>::empty());
        assert(entries.drop_first() =~= Seq::<(Seq<char>, TagValue)>::empty());
        assert(entries_bytes(entries) =~= entry_bytes(entries[0]) + entries_bytes(
            entries.drop_first(),
        ));
    } else {
        lemma_entries_bytes_front(entries.drop_last());
        assert(entries.drop_last().drop_first() =~= entries.drop_first().drop_last());
        assert(entries.drop_first().last() == entries.last());
        assert(entries.drop_last()[0] == entries[0]);
        assert(entries_bytes(entries) =~= entry_bytes(entries[0]) + entries_bytes(
            entries.drop_first(),
        ));
    }
}

/// Where the elements of an `IntArray` stand, each is read back from its
/// place.
proof fn lemma_ints_read_back(bytes: Seq<u8>, pos: int, ints: Seq<i32>)
    requires
        holds_at(bytes, pos, ints_bytes(ints)),
    ensures
        ints_bytes(ints).len() == 4 * ints.len(),
        forall|i: int|
            0 <= i < ints.len() ==> i32_from_bits(#[trigger] u32_at(bytes, pos + 4 * i)) == ints[i],
    decreases ints.len(),
{
    if ints.len() > 0 {
        let front = ints.drop_last();
        let last = be_u32(i32_bits(ints.last()));
        lemma_holds_at_concat(bytes, pos, ints_bytes(front), last);
        lemma_ints_read_back(bytes, pos, front);
        lemma_u32_at_be(bytes, pos + 4 * front.len(), i32_bits(ints.last()));
        assert forall|i: int| 0 <= i < ints.len() implies i32_from_bits(
            #[trigger] u32_at(bytes, pos + 4 * i),
        ) == ints[i] by {
            if i < front.len() {
                assert(front[i] == ints[i]);
            }
        }
    }
}

/// Where the elements of a `LongArray` stand, each is read back from its
/// place.
proof fn lemma_longs_read_back(bytes: Seq<u8>, pos: int, longs: Seq<i64>)
    requires
        holds_at(bytes, pos, longs_bytes(longs)),
    ensures
        longs_bytes(longs).len() == 8 * longs.len(),
        forall|i: int|
            0 <= i < longs.len() ==> i64_from_bits(#[trigger] u64_at(bytes, pos + 8 * i))
                == longs[i],
    decreases longs.len(),
{
    if longs.len() > 0 {
        let front = longs.drop_last();
        let last = be_u64(i64_bits(longs.last()));
        lemma_holds_at_concat(bytes, pos, longs_bytes(front), last);
        lemma_longs_read_back(bytes, pos, front);
        lemma_u64_at_be(bytes, pos + 8 * front.len(), i64_bits(longs.last()));
        assert forall|i: int| 0 <= i < longs.len() implies i64_from_bits(
            #[trigger] u64_at(bytes, pos + 8 * i),
        ) == longs[i] by {
            if i < front.len() {
                assert(front[i] == longs[i]);
            }
        }
    }
}

/// Where a string or a name stands whose UTF-8 length fits in 16 bits, it is
/// read back.
pub proof fn lemma_text_parses(bytes: Seq<u8>, pos: int, text: Seq<char>)
    requires
        encode_utf8(text).len() <= u16::MAX,
        holds_at(bytes, pos, text_bytes(text)),
    ensures
        parse_text(bytes, pos) == Ok::<(Seq<char>, nat), NbtDecodeError>(
            (text, text_bytes(text).len()),
        ),
{
    let raw = encode_utf8(text);
    let len = raw.len() as u16;
    lemma_holds_at_concat(bytes, pos, be_u16(len), raw);
    lemma_u16_at_be(bytes, pos, len);
    encode_utf8_valid_utf8(text);
    encode_utf8_decode_utf8(text);
}

/// `lemma_payload_parses` for the tags of fixed width.
proof fn lemma_fixed_parses(bytes: Seq<u8>, pos: int, value: TagValue, depth: nat)
    requires
        value is Byte || value is Short || value is Int || value is Long || value is Float
            || value is Double,
        holds_at(bytes, pos, value.payload()),
    ensures
        parse_payload(bytes, pos, value.tag_type(), depth) == Ok::<(TagValue, nat), NbtDecodeError>(
            (value, value.payload().len()),
        ),
{
    match value {
        TagValue::Byte(v) => {
            assert(bytes.subrange(pos, pos + 1)[0] == bytes[pos]);
        },
        TagValue::Short(v) => {
            lemma_u16_at_be(bytes, pos, i16_bits(v));
        },
        TagValue::Int(v) => {
            lemma_u32_at_be(bytes, pos, i32_bits(v));
        },
        TagValue::Long(v) => {
            lemma_u64_at_be(bytes, pos, i64_bits(v));
        },
        TagValue::Float(bits) => {
            lemma_u32_at_be(bytes, pos, bits);
        },
        TagValue::Double(bits) => {
            lemma_u64_at_be(bytes, pos, bits);
        },
        _ => {},
    }
}

/// `lemma_payload_parses` for a `ByteArray`.
proof fn lemma_byte_array_parses(bytes: Seq<u8>, pos: int, array: Seq<u8>, depth: nat)
    requires
        array.len() <= u32::MAX,
        holds_at(bytes, pos, TagValue::ByteArray(array).payload()),
    ensures
        parse_payload(bytes, pos, NbtTagType::ByteArray, depth) == Ok::<
            (TagValue, nat),
            NbtDecodeError,
        >((TagValue::ByteArray(array), TagValue::ByteArray(array).payload().len())),
{
    let len = array.len() as u32;
    lemma_holds_at_concat(bytes, pos, be_u32(len), array);
    lemma_u32_at_be(bytes, pos, len);
    assert(bytes.subrange(pos + 4, pos + 4 + len) == array);
}

/// `lemma_payload_parses` for an `IntArray`.
proof fn lemma_int_array_parses(bytes: Seq<u8>, pos: int, ints: Seq<i32>, depth: nat)
    requires
        ints.len() <= u32::MAX,
        holds_at(bytes, pos, TagValue::IntArray(ints).payload()),
    ensures
        parse_payload(bytes, pos, NbtTagType::IntArray, depth) == Ok::<
            (TagValue, nat),
            NbtDecodeError,
        >((TagValue::IntArray(ints), TagValue::IntArray(ints).payload().len())),
{
    let len = ints.len() as u32;
    lemma_holds_at_concat(bytes, pos, be_u32(len), ints_bytes(ints));
    lemma_u32_at_be(bytes, pos, len);
    lemma_ints_read_back(bytes, pos + 4, ints);
    let read = Seq::new(len as nat, |i: int| i32_from_bits(u32_at(bytes, pos + 4 + 4 * i)));
    assert(read =~= ints) by {
        assert forall|i: int| 0 <= i < ints.len() implies read[i] == ints[i] by {
            assert(pos + 4 + 4 * i == (pos + 4) + 4 * i);
        }
    }
}

/// `lemma_payload_parses` for a `LongArray`.
proof fn lemma_long_array_parses(bytes: Seq<u8>, pos: int, longs: Seq<i64>, depth: nat)
    requires
        longs.len() <= u32::MAX,
        holds_at(bytes, pos, TagValue::LongArray(longs).payload()),
    ensures
        parse_payload(bytes, pos, NbtTagType::LongArray, depth) == Ok::<
            (TagValue, nat),
            NbtDecodeError,
        >((TagValue::LongArray(longs), TagValue::LongArray(longs).payload().len())),
{
    let len = longs.len() as u32;
    lemma_holds_at_concat(bytes, pos, be_u32(len), longs_bytes(longs));
    lemma_u32_at_be(bytes, pos, len);
    lemma_longs_read_back(bytes, pos + 4, longs);
    let read = Seq::new(len as nat, |i: int| i64_from_bits(u64_at(bytes, pos + 4 + 8 * i)));
    assert(read =~= longs) by {
        assert forall|i: int| 0 <= i < longs.len() implies read[i] == longs[i] by {
            assert(pos + 4 + 8 * i == (pos + 4) + 8 * i);
        }
    }
}

/// Where the payload of a well-formed tag stands, decoding reads the tag back
/// and takes exactly the payload's bytes, whatever stands around it.
pub proof fn lemma_payload_parses(bytes: Seq<u8>, pos: int, value: TagValue, depth: nat)
    requires
        value.wf(),
        value.within_depth(depth),
        holds_at(bytes, pos, value.payload()),
    ensures
        parse_payload(bytes, pos, value.tag_type(), depth) == Ok::<(TagValue, nat), NbtDecodeError>(
            (value, value.payload().len()),
        ),
    decreases value,
{
    match value {
        TagValue::End => {},
        TagValue::String(text) => {
            lemma_text_parses(bytes, pos, text);
        },
        TagValue::List { nbt_type, list } => {
            let len = list.len() as u32;
            let head = seq![nbt_type.spec_id()] + be_u32(len);
            lemma_holds_at_concat(bytes, pos, head, payloads(list));
            lemma_holds_at_concat(bytes, pos, seq![nbt_type.spec_id()], be_u32(len));
            lemma_u32_at_be(bytes, pos + 1, len);
            assert(bytes.subrange(pos, pos + 1)[0] == bytes[pos]);
            lemma_payloads_parse(bytes, pos + 5, nbt_type, list, (depth - 1) as nat);
        },
        TagValue::Compound { inner } => {
            lemma_entries_parse(bytes, pos, inner, (depth - 1) as nat);
        },
        TagValue::ByteArray(array) => {
            lemma_byte_array_parses(bytes, pos, array, depth);
        },
        TagValue::IntArray(ints) => {
            lemma_int_array_parses(bytes, pos, ints, depth);
        },
        TagValue::LongArray(longs) => {
            lemma_long_array_parses(bytes, pos, longs, depth);
        },
        _ => {
            lemma_fixed_parses(bytes, pos, value, depth);
        },
    }
}

/// Where the payloads of well-formed tags of one kind stand one after the
/// other, decoding reads the tags back.
pub proof fn lemma_payloads_parse(
    bytes: Seq<u8>,
    pos: int,
    kind: NbtTagType,
    tags: Seq<TagValue>,
    depth: nat,
)
    requires
        forall|i: int|
            0 <= i < tags.len() ==> (#[trigger] tags[i]).tag_type() == kind && tags[i].wf()
                && tags[i].within_depth(depth),
        holds_at(bytes, pos, payloads(tags)),
    ensures
        parse_elems(bytes, pos, kind, tags.len(), depth) == Ok::<
            (Seq<TagValue>, nat),
            NbtDecodeError,
        >((tags, payloads(tags).len())),
    decreases tags,
{
    if tags.len() == 0 {
        assert(tags =~= Seq::<TagValue>::empty());
    } else {
        let first = tags[0];
        let rest = tags.drop_first();
        lemma_payloads_front(tags);
        lemma_holds_at_concat(bytes, pos, first.payload(), payloads(rest));
        lemma_payload_parses(bytes, pos, first, depth);
        assert forall|i: int| 0 <= i < rest.len() implies (#[trigger] rest[i]).tag_type() == kind
            && rest[i].wf() && rest[i].within_depth(depth) by {
            assert(rest[i] == tags[i + 1]);
        }
        lemma_payloads_parse(bytes, pos + first.payload().len(), kind, rest, depth);
        assert(seq![first] + rest =~= tags);
    }
}

/// Where well-formed named entries stand with the `End` byte behind them,
/// decoding reads the entries back.
pub proof fn lemma_entries_parse(
    bytes: Seq<u8>,
    pos: int,
    entries: Seq<(Seq<char>, TagValue)>,
    depth: nat,
)
    requires
        entries_wf(entries),
        entries_within_depth(entries, depth),
        holds_at(bytes, pos, entries_bytes(entries) + seq![0u8]),
    ensures
        parse_entries(bytes, pos, depth) == Ok::<
            (Seq<(Seq<char>, TagValue)>, nat),
            NbtDecodeError,
        >((entries, (entries_bytes(entries).len() + 1) as nat)),
    decreases entries,
{
    let all = entries_bytes(entries) + seq![0u8];
    let sub = bytes.subrange(pos, pos + all.len());
    assert(sub[0] == bytes[pos]);
    if entries.len() == 0 {
        assert(entries =~= Seq::<(Seq<char>, TagValue)>::empty());
    } else {
        let first = entries[0];
        let rest = entries.drop_first();
        let kind = first.1.tag_type();
        lemma_entries_bytes_front(entries);
        let tail = entries_bytes(rest) + seq![0u8];
        assert(all =~= entry_bytes(first) + tail);
        lemma_holds_at_concat(bytes, pos, entry_bytes(first), tail);
        let named = text_bytes(first.0) + first.1.payload();
        assert(entry_bytes(first) =~= seq![kind.spec_id()] + named);
        lemma_holds_at_concat(bytes, pos, seq![kind.spec_id()], named);
        lemma_holds_at_concat(bytes, pos + 1, text_bytes(first.0), first.1.payload());
        assert(all[0] == kind.spec_id());
        lemma_text_parses(bytes, pos + 1, first.0);
        lemma_payload_parses(bytes, pos + 1 + text_bytes(first.0).len(), first.1, depth);
        assert(parse_named(bytes, pos + 1, kind, depth) == Ok::<
            ((Seq<char>, TagValue), nat),
            NbtDecodeError,
        >((first, named.len())));
        assert(entries_wf(rest) && entries_within_depth(rest, depth)) by {
            assert forall|i: int| 0 <= i < rest.len() implies rest[i] == entries[i + 1] by {}
        }
        lemma_entries_parse(bytes, pos + entry_bytes(first).len(), rest, depth);
        assert(seq![first] + rest =~= entries);
    }
}

/// Round trip of a tag: decoding the payload of a well-formed tag, as its own
/// kind and with a depth limit that the tag is within, gives the tag back and
/// takes all the bytes.
pub proof fn law_payload_round_trip(value: TagValue, depth: nat)
    requires
        value.wf(),
        value.within_depth(depth),
    ensures
        parse_payload(value.payload(), 0, value.tag_type(), depth) == Ok::<
            (TagValue, nat),
            NbtDecodeError,
        >((value, value.payload().len())),
{
    let bytes = value.payload();
    assert(bytes.subrange(0, bytes.len() as int) =~= bytes);
    lemma_payload_parses(bytes, 0, value, depth);
}

/// Round trip of a root: decoding an encoded root whose entries are
/// well-formed, under the framing it was encoded with and with a depth limit
/// that it is within, gives the entries back, in their order, and takes all the
/// bytes.
pub proof fn law_root_round_trip(
    entries: Seq<(Seq<char>, TagValue)>,
    opts: NbtSerializationOptions,
    depth: nat,
)
    requires
        (TagValue::Compound { inner: entries }).wf(),
        (TagValue::Compound { inner: entries }).within_depth(depth),
    ensures
        parse_root(root_bytes(entries, opts), opts, depth) == Ok::<
            (Seq<(Seq<char>, TagValue)>, nat),
            NbtDecodeError,
        >((entries, root_bytes(entries, opts).len())),
{
    let bytes = root_bytes(entries, opts);
    let name = root_name_bytes(opts);
    let body = entries_bytes(entries) + seq![0u8];
    let head = seq![NbtTagType::Compound.spec_id()] + name;
    assert(bytes =~= head + body);
    assert(bytes.subrange(0, bytes.len() as int) =~= bytes);
    lemma_holds_at_concat(bytes, 0, head, body);
    lemma_holds_at_concat(bytes, 0, seq![NbtTagType::Compound.spec_id()], name);
    assert(bytes[0] == 10);
    match opts {
        NbtSerializationOptions::Network => {},
        NbtSerializationOptions::LittleEndian => {
            assert(encode_utf8(Seq::<char>::empty()) =~= Seq::<u8>::empty());
            lemma_text_parses(bytes, 1, Seq::<char>::empty());
        },
    }
    lemma_entries_parse(bytes, 1 + name.len() as int, entries, (depth - 1) as nat);
}

/// A type byte above 12 is refused wherever a type byte is expected: at the
/// start of a stream, at the start of a named entry, and as the element kind
/// of a list. What stands behind the byte, if anything, makes no difference.
pub proof fn law_unknown_type_id_rejected(
    bytes: Seq<u8>,
    pos: int,
    opts: NbtSerializationOptions,
    depth: nat,
)
    requires
        0 <= pos < bytes.len(),
        bytes[pos] > 12,
    ensures
        parse_entries(bytes, pos, depth) == Err::<
            (Seq<(Seq<char>, TagValue)>, nat),
            NbtDecodeError,
        >(NbtDecodeError::InvalidTagType(bytes[pos])),
        parse_entry(bytes, pos, depth) == Err::<((Seq<char>, TagValue), nat), NbtDecodeError>(
            NbtDecodeError::InvalidTagType(bytes[pos]),
        ),
        depth > 0 ==> parse_payload(bytes, pos, NbtTagType::List, depth) == Err::<
            (TagValue, nat),
            NbtDecodeError,
        >(NbtDecodeError::InvalidTagType(bytes[pos])),
        pos == 0 ==> parse_root(bytes, opts, depth) == Err::<
            (Seq<(Seq<char>, TagValue)>, nat),
            NbtDecodeError,
        >(NbtDecodeError::InvalidTagType(bytes[pos])),
{
}

/// The integers read from `count` places, four bytes apart, encode to the
/// bytes at those places.
proof fn lemma_ints_written_back(bytes: Seq<u8>, pos: int, count: nat)
    requires
        0 <= pos,
        pos + 4 * count <= bytes.len(),
    ensures
        holds_at(
            bytes,
            pos,
            ints_bytes(Seq::new(count, |i: int| i32_from_bits(u32_at(bytes, pos + 4 * i)))),
        ),
        ints_bytes(Seq::new(count, |i: int| i32_from_bits(u32_at(bytes, pos + 4 * i)))).len() == 4
            * count,
    decreases count,
{
    let ints = Seq::new(count, |i: int| i32_from_bits(u32_at(bytes, pos + 4 * i)));
    if count == 0 {
        assert(bytes.subrange(pos, pos) =~= ints_bytes(ints));
    } else {
        let front = Seq::new((count - 1) as nat, |i: int| i32_from_bits(u32_at(bytes, pos + 4 * i)));
        assert(ints.drop_last() =~= front);
        lemma_ints_written_back(bytes, pos, (count - 1) as nat);
        let last = u32_at(bytes, pos + 4 * (count - 1));
        lemma_be_u32_at(bytes, pos + 4 * (count - 1));
        assert(i32_bits(i32_from_bits(last)) == last);
        lemma_holds_at_concat(bytes, pos, ints_bytes(front), be_u32(last));
    }
}

/// The integers read from `count` places, eight bytes apart, encode to the
/// bytes at those places.
proof fn lemma_longs_written_back(bytes: Seq<u8>, pos: int, count: nat)
    requires
        0 <= pos,
        pos + 8 * count <= bytes.len(),
    ensures
        holds_at(
            bytes,
            pos,
            longs_bytes(Seq::new(count, |i: int| i64_from_bits(u64_at(bytes, pos + 8 * i)))),
        ),
        longs_bytes(Seq::new(count, |i: int| i64_from_bits(u64_at(bytes, pos + 8 * i)))).len() == 8
            * count,
    decreases count,
{
    let longs = Seq::new(count, |i: int| i64_from_bits(u64_at(bytes, pos + 8 * i)));
    if count == 0 {
        assert(bytes.subrange(pos, pos) =~= longs_bytes(longs));
    } else {
        let front = Seq::new((count - 1) as nat, |i: int| i64_from_bits(u64_at(bytes, pos + 8 * i)));
        assert(longs.drop_last() =~= front);
        lemma_longs_written_back(bytes, pos, (count - 1) as nat);
        let last = u64_at(bytes, pos + 8 * (count - 1));
        lemma_be_u64_at(bytes, pos + 8 * (count - 1));
        assert(i64_bits(i64_from_bits(last)) == last);
        lemma_holds_at_concat(bytes, pos, longs_bytes(front), be_u64(last));
    }
}

/// A string or a name that was read has a UTF-8 length that fits in 16 bits,
/// and encodes to the bytes that it was read from.
pub proof fn lemma_text_parsed(bytes: Seq<u8>, pos: int)
    requires
        0 <= pos,
        parse_text(bytes, pos) is Ok,
    ensures
        ({
            let (text, used) = parse_text(bytes, pos)->Ok_0;
            &&& encode_utf8(text).len() <= u16::MAX
            &&& used == text_bytes(text).len()
            &&& holds_at(bytes, pos, text_bytes(text))
        }),
{
    let len = u16_at(bytes, pos);
    let raw = bytes.subrange(pos + 2, pos + 2 + len);
    decode_utf8_encode_utf8(raw);
    lemma_be_u16_at(bytes, pos);
    lemma_holds_at_concat(bytes, pos, be_u16(len), raw);
}

/// `value` is a well-formed tag of kind `kind`, within `depth`, whose payload
/// is the `used` bytes that stand at `pos`.
pub open spec fn payload_stands(
    bytes: Seq<u8>,
    pos: int,
    kind: NbtTagType,
    depth: nat,
    value: TagValue,
    used: nat,
) -> bool {
    &&& value.tag_type() == kind
    &&& value.wf()
    &&& value.within_depth(depth)
    &&& used == value.payload().len()
    &&& holds_at(bytes, pos, value.payload())
}

/// `entries` are well-formed entries, within `depth`, whose bytes, with the
/// `End` byte behind them, are the `used` bytes that stand at `pos`.
pub open spec fn entries_stand(
    bytes: Seq<u8>,
    pos: int,
    depth: nat,
    entries: Seq<(Seq<char>, TagValue)>,
    used: nat,
) -> bool {
    &&& entries_wf(entries)
    &&& entries_within_depth(entries, depth)
    &&& used == entries_bytes(entries).len() + 1
    &&& holds_at(bytes, pos, entries_bytes(entries) + seq![0u8])
}

/// `lemma_payload_parsed` for the tags of fixed width.
proof fn lemma_fixed_parsed(bytes: Seq<u8>, pos: int, kind: NbtTagType, depth: nat)
    requires
        0 <= pos <= bytes.len(),
        kind == NbtTagType::End || kind == NbtTagType::Byte || kind == NbtTagType::Short || kind
            == NbtTagType::Int || kind == NbtTagType::Long || kind == NbtTagType::Float || kind
            == NbtTagType::Double,
        parse_payload(bytes, pos, kind, depth) is Ok,
    ensures
        payload_stands(
            bytes,
            pos,
            kind,
            depth,
            parse_payload(bytes, pos, kind, depth)->Ok_0.0,
            parse_payload(bytes, pos, kind, depth)->Ok_0.1,
        ),
{
    let (value, used) = parse_payload(bytes, pos, kind, depth)->Ok_0;
    match kind {
        NbtTagType::End => {
            assert(bytes.subrange(pos, pos) =~= value.payload());
        },
        NbtTagType::Byte => {
            assert(bytes.subrange(pos, pos + 1) =~= value.payload());
        },
        NbtTagType::Short => {
            lemma_be_u16_at(bytes, pos);
        },
        NbtTagType::Int | NbtTagType::Float => {
            lemma_be_u32_at(bytes, pos);
        },
        _ => {
            lemma_be_u64_at(bytes, pos);
        },
    }
}

/// `lemma_payload_parsed` for the arrays.
proof fn lemma_array_parsed(bytes: Seq<u8>, pos: int, kind: NbtTagType, depth: nat)
    requires
        0 <= pos <= bytes.len(),
        kind == NbtTagType::ByteArray || kind == NbtTagType::IntArray || kind
            == NbtTagType::LongArray,
        parse_payload(bytes, pos, kind, depth) is Ok,
    ensures
        payload_stands(
            bytes,
            pos,
            kind,
            depth,
            parse_payload(bytes, pos, kind, depth)->Ok_0.0,
            parse_payload(bytes, pos, kind, depth)->Ok_0.1,
        ),
{
    let (value, used) = parse_payload(bytes, pos, kind, depth)->Ok_0;
    let len = u32_at(bytes, pos);
    lemma_be_u32_at(bytes, pos);
    match kind {
        NbtTagType::ByteArray => {
            let array = bytes.subrange(pos + 4, pos + 4 + len);
            lemma_holds_at_concat(bytes, pos, be_u32(len), array);
        },
        NbtTagType::IntArray => {
            lemma_ints_written_back(bytes, pos + 4, len as nat);
            let ints = value->IntArray_0;
            assert(ints =~= Seq::new(
                len as nat,
                |i: int| i32_from_bits(u32_at(bytes, pos + 4 + 4 * i)),
            ));
            lemma_holds_at_concat(bytes, pos, be_u32(len), ints_bytes(ints));
        },
        _ => {
            lemma_longs_written_back(bytes, pos + 4, len as nat);
            let longs = value->LongArray_0;
            assert(longs =~= Seq::new(
                len as nat,
                |i: int| i64_from_bits(u64_at(bytes, pos + 4 + 8 * i)),
            ));
            lemma_holds_at_concat(bytes, pos, be_u32(len), longs_bytes(longs));
        },
    }
}

/// What decoding reads is a well-formed tag of the kind asked for, within the
/// depth limit, and its payload is the bytes that were taken.
pub proof fn lemma_payload_parsed(bytes: Seq<u8>, pos: int, kind: NbtTagType, depth: nat)
    requires
        0 <= pos <= bytes.len(),
        parse_payload(bytes, pos, kind, depth) is Ok,
    ensures
        payload_stands(
            bytes,
            pos,
            kind,
            depth,
            parse_payload(bytes, pos, kind, depth)->Ok_0.0,
            parse_payload(bytes, pos, kind, depth)->Ok_0.1,
        ),
    decreases depth, 0nat, 0nat,
{
    let (value, used) = parse_payload(bytes, pos, kind, depth)->Ok_0;
    match kind {
        NbtTagType::String => {
            lemma_text_parsed(bytes, pos);
        },
        NbtTagType::List => {
            let nbt_type = NbtTagType::spec_from_id(bytes[pos])->0;
            let count = u32_at(bytes, pos + 1);
            lemma_elems_parsed(bytes, pos + 5, nbt_type, count as nat, (depth - 1) as nat);
            let list = value->List_list;
            let head = seq![nbt_type.spec_id()] + be_u32(count);
            lemma_be_u32_at(bytes, pos + 1);
            assert(bytes.subrange(pos, pos + 1) =~= seq![nbt_type.spec_id()]);
            lemma_holds_at_concat(bytes, pos, seq![nbt_type.spec_id()], be_u32(count));
            lemma_holds_at_concat(bytes, pos, head, payloads(list));
        },
        NbtTagType::Compound => {
            lemma_entries_parsed(bytes, pos, (depth - 1) as nat);
        },
        NbtTagType::ByteArray | NbtTagType::IntArray | NbtTagType::LongArray => {
            lemma_array_parsed(bytes, pos, kind, depth);
        },
        _ => {
            lemma_fixed_parsed(bytes, pos, kind, depth);
        },
    }
}

/// What decoding reads as the elements of a list are as many well-formed tags
/// of the kind asked for as were asked for, and their payloads are the bytes
/// that were taken.
pub proof fn lemma_elems_parsed(bytes: Seq<u8>, pos: int, kind: NbtTagType, count: nat, depth: nat)
    requires
        0 <= pos <= bytes.len(),
        parse_elems(bytes, pos, kind, count, depth) is Ok,
    ensures
        ({
            let (tags, used) = parse_elems(bytes, pos, kind, count, depth)->Ok_0;
            &&& tags.len() == count
            &&& forall|i: int|
                0 <= i < tags.len() ==> (#[trigger] tags[i]).tag_type() == kind && tags[i].wf()
                    && tags[i].within_depth(depth)
            &&& used == payloads(tags).len()
            &&& holds_at(bytes, pos, payloads(tags))
        }),
    decreases depth, 1nat, count,
{
    let (tags, used) = parse_elems(bytes, pos, kind, count, depth)->Ok_0;
    if count == 0 {
        assert(bytes.subrange(pos, pos) =~= payloads(tags));
    } else {
        let (first, first_used) = parse_payload(bytes, pos, kind, depth)->Ok_0;
        lemma_payload_parsed(bytes, pos, kind, depth);
        let (rest, rest_used) = parse_elems(
            bytes,
            pos + first_used,
            kind,
            (count - 1) as nat,
            depth,
        )->Ok_0;
        lemma_elems_parsed(bytes, pos + first_used, kind, (count - 1) as nat, depth);
        assert(tags =~= seq![first] + rest);
        assert(tags.drop_first() =~= rest);
        lemma_payloads_front(tags);
        lemma_holds_at_concat(bytes, pos, first.payload(), payloads(rest));
        assert forall|i: int| 0 <= i < tags.len() implies (#[trigger] tags[i]).tag_type() == kind
            && tags[i].wf() && tags[i].within_depth(depth) by {
            if i > 0 {
                assert(tags[i] == rest[i - 1]);
            }
        }
    }
}

/// What decoding reads behind the type byte of a named entry is a name and a
/// well-formed tag, and their bytes are the bytes that were taken.
pub proof fn lemma_named_parsed(bytes: Seq<u8>, pos: int, kind: NbtTagType, depth: nat)
    requires
        0 <= pos <= bytes.len(),
        parse_named(bytes, pos, kind, depth) is Ok,
    ensures
        ({
            let (entry, used) = parse_named(bytes, pos, kind, depth)->Ok_0;
            &&& encode_utf8(entry.0).len() <= u16::MAX
            &&& entry.1.tag_type() == kind
            &&& entry.1.wf()
            &&& entry.1.within_depth(depth)
            &&& used == (text_bytes(entry.0) + entry.1.payload()).len()
            &&& holds_at(bytes, pos, text_bytes(entry.0) + entry.1.payload())
        }),
    decreases depth, 1nat, 0nat,
{
    let (name, name_used) = parse_text(bytes, pos)->Ok_0;
    lemma_text_parsed(bytes, pos);
    lemma_payload_parsed(bytes, pos + name_used, kind, depth);
    let value = parse_payload(bytes, pos + name_used, kind, depth)->Ok_0.0;
    lemma_holds_at_concat(bytes, pos, text_bytes(name), value.payload());
}

/// What decoding reads as the entries of a compound are well-formed entries,
/// none of them an `End`, and their bytes, with the `End` byte behind them,
/// are the bytes that were taken.
pub proof fn lemma_entries_parsed(bytes: Seq<u8>, pos: int, depth: nat)
    requires
        0 <= pos <= bytes.len(),
        parse_entries(bytes, pos, depth) is Ok,
    ensures
        entries_stand(
            bytes,
            pos,
            depth,
            parse_entries(bytes, pos, depth)->Ok_0.0,
            parse_entries(bytes, pos, depth)->Ok_0.1,
        ),
    decreases depth, 2nat, remaining(bytes, pos),
{
    let (entries, used) = parse_entries(bytes, pos, depth)->Ok_0;
    if bytes[pos] == 0 {
        assert(bytes.subrange(pos, pos + 1) =~= entries_bytes(entries) + seq![0u8]);
    } else {
        let kind = NbtTagType::spec_from_id(bytes[pos])->0;
        let (first, first_used) = parse_named(bytes, pos + 1, kind, depth)->Ok_0;
        lemma_named_parsed(bytes, pos + 1, kind, depth);
        let named = text_bytes(first.0) + first.1.payload();
        let next = pos + 1 + first_used;
        let (rest, rest_used) = parse_entries(bytes, next, depth)->Ok_0;
        lemma_entries_parsed(bytes, next, depth);
        assert(entries =~= seq![first] + rest);
        assert(entries.drop_first() =~= rest);
        lemma_entries_bytes_front(entries);
        let tail = entries_bytes(rest) + seq![0u8];
        assert(bytes.subrange(pos, pos + 1) =~= seq![kind.spec_id()]);
        lemma_holds_at_concat(bytes, pos, seq![kind.spec_id()], named);
        assert(entry_bytes(first) =~= seq![kind.spec_id()] + named);
        lemma_holds_at_concat(bytes, pos, entry_bytes(first), tail);
        assert(entries_bytes(entries) + seq![0u8] =~= entry_bytes(first) + tail);
        assert forall|i: int| 0 <= i < entries.len() implies {
            &&& encode_utf8((#[trigger] entries[i]).0).len() <= u16::MAX
            &&& !(entries[i].1 is End)
            &&& entries[i].1.wf()
            &&& entries[i].1.within_depth(depth)
        } by {
            if i > 0 {
                assert(entries[i] == rest[i - 1]);
            }
        }
    }
}

/// What decoding yields from the start of `bytes` is a well-formed tag of the
/// kind asked for, within the depth limit, and encoding it gives the bytes
/// that were taken back.
pub proof fn law_decoded_payload(bytes: Seq<u8>, kind: NbtTagType, depth: nat)
    ensures
        parse_payload(bytes, 0, kind, depth) matches Ok((value, used)) ==> {
            &&& value.tag_type() == kind
            &&& value.wf()
            &&& value.within_depth(depth)
            &&& used <= bytes.len()
            &&& value.payload() == bytes.subrange(0, used as int)
        },
{
    if parse_payload(bytes, 0, kind, depth) is Ok {
        lemma_payload_parsed(bytes, 0, kind, depth);
    }
}

/// What decoding yields as the root of a stream is a well-formed compound,
/// within the depth limit, the root counted; and under `Network`, where the
/// root has no name that could be lost, encoding it gives the bytes that were
/// taken back.
pub proof fn law_decoded_root(bytes: Seq<u8>, opts: NbtSerializationOptions, depth: nat)
    ensures
        parse_root(bytes, opts, depth) matches Ok((entries, used)) ==> {
            &&& (TagValue::Compound { inner: entries }).wf()
            &&& (TagValue::Compound { inner: entries }).within_depth(depth)
            &&& used <= bytes.len()
            &&& opts == NbtSerializationOptions::Network ==> root_bytes(entries, opts)
                == bytes.subrange(0, used as int)
        },
{
    if parse_root(bytes, opts, depth) is Ok {
        let (entries, used) = parse_root(bytes, opts, depth)->Ok_0;
        let name_used = parse_root_name(bytes, opts)->Ok_0.1;
        match opts {
            NbtSerializationOptions::Network => {},
            NbtSerializationOptions::LittleEndian => {
                lemma_text_parsed(bytes, 1);
            },
        }
        lemma_entries_parsed(bytes, 1 + name_used as int, (depth - 1) as nat);
        if opts == NbtSerializationOptions::Network {
            let body = entries_bytes(entries) + seq![0u8];
            assert(bytes.subrange(0, 1) =~= seq![NbtTagType::Compound.spec_id()]);
            lemma_holds_at_concat(bytes, 0, seq![NbtTagType::Compound.spec_id()], body);
            assert(root_bytes(entries, opts) =~= seq![NbtTagType::Compound.spec_id()] + body);
        }
    }
}

} // verus!
