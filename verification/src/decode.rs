//! Reading tags back from their binary layout.
//!
//! What a slice of bytes decodes to is said by the `parse_*` functions; the
//! executable decoders return exactly that. Decoding is recursive descent
//! driven by the type bytes, and stops at the first fault.

use vstd::prelude::*;
use vstd::slice::{slice_subrange, slice_to_vec};
use vstd::utf8::{decode_utf8, encode_utf8, encode_utf8_decode_utf8, valid_utf8};
use crate::encode::NbtSerializationOptions;
use crate::roundtrip::{law_decoded_payload, lemma_named_parsed};
use crate::tag::{NbtTag, NbtTagType, TagValue, entries_view, tags_view};
use crate::wire::{
    bits_to_i8, bits_to_i16, bits_to_i32, bits_to_i64, i8_from_bits, i16_from_bits,
    i32_from_bits, i64_from_bits, read_u16, read_u32, read_u64, u16_at, u32_at, u64_at,
};

verus! {

/// Why a slice of bytes was not decoded.
///
/// `UnexpectedEnd`, `InvalidUtf8` and `RootNotCompound` are the three ways in
/// which a stream is malformed.
#[derive(Debug, Clone, Copy, PartialEq, Eq, Structural)]
pub enum NbtDecodeError {
    /// The input ends before a field of `needed` bytes that starts at `offset`.
    UnexpectedEnd { offset: usize, needed: u64 },
    /// The bytes of the string or name that starts at `offset` are not UTF-8.
    InvalidUtf8 { offset: usize },
    /// The stream starts with the type byte of a kind other than `Compound`.
    RootNotCompound(u8),
    /// A type byte above 12.
    InvalidTagType(u8),
    /// Lists and compounds are nested more deeply than the limit allows.
    DepthLimitExceeded,
}

/// How deep lists and compounds may be nested where no other limit is given.
pub const DEFAULT_MAX_DEPTH: usize = 512;

/// The fault of an input that ends before a field of `needed` bytes at `pos`.
pub open spec fn short_of(pos: int, needed: int) -> NbtDecodeError {
    NbtDecodeError::UnexpectedEnd { offset: pos as usize, needed: needed as u64 }
}

/// The number of bytes from `pos` to the end of `bytes`.
pub open spec fn remaining(bytes: Seq<u8>, pos: int) -> nat {
    if pos < bytes.len() {
        (bytes.len() - pos) as nat
    } else {
        0
    }
}

/// The string or name that stands at `pos`, and the number of bytes it takes.
pub open spec fn parse_text(bytes: Seq<u8>, pos: int) -> Result<(Seq<char>, nat), NbtDecodeError> {
    if pos + 2 > bytes.len() {
        Err(short_of(pos, 2))
    } else {
        let len = u16_at(bytes, pos) as int;
        let raw = bytes.subrange(pos + 2, pos + 2 + len);
        if pos + 2 + len > bytes.len() {
            Err(short_of(pos + 2, len))
        } else if !valid_utf8(raw) {
            Err(NbtDecodeError::InvalidUtf8 { offset: (pos + 2) as usize })
        } else {
            Ok((decode_utf8(raw), (2 + len) as nat))
        }
    }
}

/// The payload of kind `kind` that stands at `pos`, and the number of bytes it
/// takes. Lists and compounds may be nested `depth` deep, the payload itself
/// counted.
pub open spec fn parse_payload(bytes: Seq<u8>, pos: int, kind: NbtTagType, depth: nat) -> Result<
    (TagValue, nat),
    NbtDecodeError,
>
    decreases depth, 0nat, 0nat,
{
    match kind {
        NbtTagType::End => Ok((TagValue::End, 0nat)),
        NbtTagType::Byte => if pos + 1 > bytes.len() {
            Err(short_of(pos, 1))
        } else {
            Ok((TagValue::Byte(i8_from_bits(bytes[pos])), 1nat))
        },
        NbtTagType::Short => if pos + 2 > bytes.len() {
            Err(short_of(pos, 2))
        } else {
            Ok((TagValue::Short(i16_from_bits(u16_at(bytes, pos))), 2nat))
        },
        NbtTagType::Int => if pos + 4 > bytes.len() {
            Err(short_of(pos, 4))
        } else {
            Ok((TagValue::Int(i32_from_bits(u32_at(bytes, pos))), 4nat))
        },
        NbtTagType::Long => if pos + 8 > bytes.len() {
            Err(short_of(pos, 8))
        } else {
            Ok((TagValue::Long(i64_from_bits(u64_at(bytes, pos))), 8nat))
        },
        NbtTagType::Float => if pos + 4 > bytes.len() {
            Err(short_of(pos, 4))
        } else {
            Ok((TagValue::Float(u32_at(bytes, pos)), 4nat))
        },
        NbtTagType::Double => if pos + 8 > bytes.len() {
            Err(short_of(pos, 8))
        } else {
            Ok((TagValue::Double(u64_at(bytes, pos)), 8nat))
        },
        NbtTagType::ByteArray => if pos + 4 > bytes.len() {
            Err(short_of(pos, 4))
        } else {
            let len = u32_at(bytes, pos) as int;
            if pos + 4 + len > bytes.len() {
                Err(short_of(pos + 4, len))
            } else {
                Ok((TagValue::ByteArray(bytes.subrange(pos + 4, pos + 4 + len)), (4 + len) as nat))
            }
        },
        NbtTagType::String => match parse_text(bytes, pos) {
            Ok((text, used)) => Ok((TagValue::String(text), used)),
            Err(e) => Err(e),
        },
        NbtTagType::List => if depth == 0 {
            Err(NbtDecodeError::DepthLimitExceeded)
        } else if pos + 1 > bytes.len() {
            Err(short_of(pos, 1))
        } else {
            match NbtTagType::spec_from_id(bytes[pos]) {
                None => Err(NbtDecodeError::InvalidTagType(bytes[pos])),
                Some(nbt_type) => if pos + 5 > bytes.len() {
                    Err(short_of(pos + 1, 4))
                } else {
                    match parse_elems(
                        bytes,
                        pos + 5,
                        nbt_type,
                        u32_at(bytes, pos + 1) as nat,
                        (depth - 1) as nat,
                    ) {
                        Ok((list, used)) => Ok((TagValue::List { nbt_type, list }, 5 + used)),
                        Err(e) => Err(e),
                    }
                },
            }
        },
        NbtTagType::Compound => if depth == 0 {
            Err(NbtDecodeError::DepthLimitExceeded)
        } else {
            match parse_entries(bytes, pos, (depth - 1) as nat) {
                Ok((inner, used)) => Ok((TagValue::Compound { inner }, used)),
                Err(e) => Err(e),
            }
        },
        NbtTagType::IntArray => if pos + 4 > bytes.len() {
            Err(short_of(pos, 4))
        } else {
            let len = u32_at(bytes, pos) as int;
            if pos + 4 + 4 * len > bytes.len() {
                Err(short_of(pos + 4, 4 * len))
            } else {
                Ok(
                    (
                        TagValue::IntArray(
                            Seq::new(
                                len as nat,
                                |i: int| i32_from_bits(u32_at(bytes, pos + 4 + 4 * i)),
                            ),
                        ),
                        (4 + 4 * len) as nat,
                    ),
                )
            }
        },
        NbtTagType::LongArray => if pos + 4 > bytes.len() {
            Err(short_of(pos, 4))
        } else {
            let len = u32_at(bytes, pos) as int;
            if pos + 4 + 8 * len > bytes.len() {
                Err(short_of(pos + 4, 8 * len))
            } else {
                Ok(
                    (
                        TagValue::LongArray(
                            Seq::new(
                                len as nat,
                                |i: int| i64_from_bits(u64_at(bytes, pos + 4 + 8 * i)),
                            ),
                        ),
                        (4 + 8 * len) as nat,
                    ),
                )
            }
        },
    }
}

/// The `count` payloads of kind `kind` that stand one after the other from
/// `pos` on, and the number of bytes they take.
pub open spec fn parse_elems(
    bytes: Seq<u8>,
    pos: int,
    kind: NbtTagType,
    count: nat,
    depth: nat,
) -> Result<(Seq<TagValue>, nat), NbtDecodeError>
    decreases depth, 1nat, count,
{
    if count == 0 {
        Ok((Seq::empty(), 0nat))
    } else {
        match parse_payload(bytes, pos, kind, depth) {
            Err(e) => Err(e),
            Ok((first, used)) => match parse_elems(
                bytes,
                pos + used,
                kind,
                (count - 1) as nat,
                depth,
            ) {
                Err(e) => Err(e),
                Ok((rest, more)) => Ok((seq![first] + rest, used + more)),
            },
        }
    }
}

/// The name and the payload of kind `kind` that stand at `pos`, behind the
/// type byte of a named entry, and the number of bytes they take.
pub open spec fn parse_named(bytes: Seq<u8>, pos: int, kind: NbtTagType, depth: nat) -> Result<
    ((Seq<char>, TagValue), nat),
    NbtDecodeError,
>
    decreases depth, 1nat, 0nat,
{
    match parse_text(bytes, pos) {
        Err(e) => Err(e),
        Ok((name, name_used)) => match parse_payload(bytes, pos + name_used, kind, depth) {
            Err(e) => Err(e),
            Ok((value, used)) => Ok(((name, value), name_used + used)),
        },
    }
}

/// The named entries that stand from `pos` on, up to the `End` byte that
/// closes them, and the number of bytes they take, that byte included.
pub open spec fn parse_entries(bytes: Seq<u8>, pos: int, depth: nat) -> Result<
    (Seq<(Seq<char>, TagValue)>, nat),
    NbtDecodeError,
>
    decreases depth, 2nat, remaining(bytes, pos),
{
    if pos + 1 > bytes.len() {
        Err(short_of(pos, 1))
    } else if bytes[pos] == 0 {
        Ok((Seq::empty(), 1nat))
    } else {
        match NbtTagType::spec_from_id(bytes[pos]) {
            None => Err(NbtDecodeError::InvalidTagType(bytes[pos])),
            Some(kind) => match parse_named(bytes, pos + 1, kind, depth) {
                Err(e) => Err(e),
                Ok((entry, used)) => match parse_entries(bytes, pos + 1 + used, depth) {
                    Err(e) => Err(e),
                    Ok((rest, more)) => Ok((seq![entry] + rest, 1 + used + more)),
                },
            },
        }
    }
}

/// The named entry that stands at `pos`, and the number of bytes it takes. An
/// `End` byte is an entry of its own, with an empty name.
pub open spec fn parse_entry(bytes: Seq<u8>, pos: int, depth: nat) -> Result<
    ((Seq<char>, TagValue), nat),
    NbtDecodeError,
> {
    if pos + 1 > bytes.len() {
        Err(short_of(pos, 1))
    } else {
        match NbtTagType::spec_from_id(bytes[pos]) {
            None => Err(NbtDecodeError::InvalidTagType(bytes[pos])),
            Some(NbtTagType::End) => Ok(((Seq::empty(), TagValue::End), 1nat)),
            Some(kind) => match parse_named(bytes, pos + 1, kind, depth) {
                Err(e) => Err(e),
                Ok((entry, used)) => Ok((entry, 1 + used)),
            },
        }
    }
}

/// The root compound that stands at the start of `bytes`, framed as `opts`
/// says: its entries, and the number of bytes it takes. Lists and compounds
/// may be nested `depth` deep, the root counted.
pub open spec fn parse_root(bytes: Seq<u8>, opts: NbtSerializationOptions, depth: nat) -> Result<
    (Seq<(Seq<char>, TagValue)>, nat),
    NbtDecodeError,
> {
    if bytes.len() < 1 {
        Err(short_of(0, 1))
    } else {
        match NbtTagType::spec_from_id(bytes[0]) {
            None => Err(NbtDecodeError::InvalidTagType(bytes[0])),
            Some(NbtTagType::Compound) => match parse_root_name(bytes, opts) {
                Err(e) => Err(e),
                Ok((_, name_used)) => if depth == 0 {
                    Err(NbtDecodeError::DepthLimitExceeded)
                } else {
                    match parse_entries(bytes, 1 + name_used as int, (depth - 1) as nat) {
                        Err(e) => Err(e),
                        Ok((entries, used)) => Ok((entries, 1 + name_used + used)),
                    }
                },
            },
            Some(_) => Err(NbtDecodeError::RootNotCompound(bytes[0])),
        }
    }
}

/// The name of the root, which stands behind the type byte, and the number of
/// bytes it takes: under `Network` there is none.
pub open spec fn parse_root_name(bytes: Seq<u8>, opts: NbtSerializationOptions) -> Result<
    (Seq<char>, nat),
    NbtDecodeError,
> {
    match opts {
        NbtSerializationOptions::Network => Ok((Seq::empty(), 0nat)),
        NbtSerializationOptions::LittleEndian => parse_text(bytes, 1),
    }
}

/// `String::from_utf8`, with the fault dropped: it yields a string exactly
/// when the bytes are UTF-8, and the string then has those bytes.
#[verifier::external_body]
fn string_from_utf8(bytes: Vec<u8>) -> (r: Option<String>)
    ensures
        r is Some <==> valid_utf8(bytes@),
        r is Some ==> encode_utf8(r->0@) == bytes@,
{
    match String::from_utf8(bytes) {
        Ok(text) => Some(text),
        Err(_) => None,
    }
}

/// Decodes the string or name at `pos`; returns it with the position behind
/// it.
pub fn decode_text_at(bytes: &[u8], pos: usize) -> (r: Result<(String, usize), NbtDecodeError>)
    requires
        pos <= bytes@.len(),
    ensures
        match r {
            Ok((text, next)) => pos <= next <= bytes@.len() && parse_text(bytes@, pos as int)
                == Ok::<(Seq<char>, nat), NbtDecodeError>((text@, (next - pos) as nat)),
            Err(e) => parse_text(bytes@, pos as int) == Err::<(Seq<char>, nat), NbtDecodeError>(e),
        },
{
    let end: usize = bytes.len();
    if end - pos < 2 {
        return Err(NbtDecodeError::UnexpectedEnd { offset: pos, needed: 2 });
    }
    let len: usize = read_u16(bytes, pos) as usize;
    if end - pos - 2 < len {
        return Err(NbtDecodeError::UnexpectedEnd { offset: pos + 2, needed: len as u64 });
    }
    let raw = slice_to_vec(slice_subrange(bytes, pos + 2, pos + 2 + len));
    match string_from_utf8(raw) {
        Some(text) => {
            proof {
                encode_utf8_decode_utf8(text@);
            }
            Ok((text, pos + 2 + len))
        },
        None => Err(NbtDecodeError::InvalidUtf8 { offset: pos + 2 }),
    }
}

/// What `parse_elems` yields from the start, once `done` has been decoded in
/// `used` bytes and `rest` is what it yields from there on.
spec fn after_elems(done: Seq<TagValue>, used: nat, rest: Result<(Seq<TagValue>, nat), NbtDecodeError>)
    -> Result<(Seq<TagValue>, nat), NbtDecodeError> {
    match rest {
        Ok((more, more_used)) => Ok((done + more, used + more_used)),
        Err(e) => Err(e),
    }
}

/// What `parse_entries` yields from the start, once `done` has been decoded in
/// `used` bytes and `rest` is what it yields from there on.
spec fn after_entries(
    done: Seq<(Seq<char>, TagValue)>,
    used: nat,
    rest: Result<(Seq<(Seq<char>, TagValue)>, nat), NbtDecodeError>,
) -> Result<(Seq<(Seq<char>, TagValue)>, nat), NbtDecodeError> {
    match rest {
        Ok((more, more_used)) => Ok((done + more, used + more_used)),
        Err(e) => Err(e),
    }
}

/// Decodes the elements of an `IntArray`: `count` integers from `pos` on.
fn decode_ints_at(bytes: &[u8], pos: usize, count: u32) -> (ints: Vec<i32>)
    requires
        pos + 4 * count <= bytes@.len(),
    ensures
        ints@ == Seq::new(count as nat, |i: int| i32_from_bits(u32_at(bytes@, pos + 4 * i))),
{
    let mut ints: Vec<i32> = Vec::new();
    let mut i: usize = 0;
    while i < count as usize
        invariant
            i <= count,
            pos + 4 * count <= bytes@.len(),
            ints@ == Seq::new(i as nat, |j: int| i32_from_bits(u32_at(bytes@, pos + 4 * j))),
        decreases count - i,
    {
        assert(bytes@.len() == bytes.len());
        ints.push(bits_to_i32(read_u32(bytes, pos + 4 * i)));
        i += 1;
        assert(ints@ =~= Seq::new(i as nat, |j: int| i32_from_bits(u32_at(bytes@, pos + 4 * j))));
    }
    ints
}

/// Decodes the elements of a `LongArray`: `count` integers from `pos` on.
fn decode_longs_at(bytes: &[u8], pos: usize, count: u32) -> (longs: Vec<i64>)
    requires
        pos + 8 * count <= bytes@.len(),
    ensures
        longs@ == Seq::new(count as nat, |i: int| i64_from_bits(u64_at(bytes@, pos + 8 * i))),
{
    let mut longs: Vec<i64> = Vec::new();
    let mut i: usize = 0;
    while i < count as usize
        invariant
            i <= count,
            pos + 8 * count <= bytes@.len(),
            longs@ == Seq::new(i as nat, |j: int| i64_from_bits(u64_at(bytes@, pos + 8 * j))),
        decreases count - i,
    {
        assert(bytes@.len() == bytes.len());
        longs.push(bits_to_i64(read_u64(bytes, pos + 8 * i)));
        i += 1;
        assert(longs@ =~= Seq::new(i as nat, |j: int| i64_from_bits(u64_at(bytes@, pos + 8 * j))));
    }
    longs
}

/// Decodes the payload of kind `kind` at `pos`; returns the tag with the
/// position behind it. Lists and compounds may be nested `depth` deep, the
/// payload itself counted.
pub fn decode_payload_at(bytes: &[u8], pos: usize, kind: NbtTagType, depth: usize) -> (r: Result<
    (NbtTag, usize),
    NbtDecodeError,
>)
    requires
        pos <= bytes@.len(),
    ensures
        match r {
            Ok((tag, next)) => pos <= next <= bytes@.len() && parse_payload(
                bytes@,
                pos as int,
                kind,
                depth as nat,
            ) == Ok::<(TagValue, nat), NbtDecodeError>((tag@, (next - pos) as nat)),
            Err(e) => parse_payload(bytes@, pos as int, kind, depth as nat) == Err::<
                (TagValue, nat),
                NbtDecodeError,
            >(e),
        },
    decreases depth, 0nat,
{
    let end: usize = bytes.len();
    match kind {
        NbtTagType::End => Ok((NbtTag::End, pos)),
        NbtTagType::Byte => {
            if end - pos < 1 {
                return Err(NbtDecodeError::UnexpectedEnd { offset: pos, needed: 1 });
            }
            Ok((NbtTag::Byte(bits_to_i8(bytes[pos])), pos + 1))
        },
        NbtTagType::Short => {
            if end - pos < 2 {
                return Err(NbtDecodeError::UnexpectedEnd { offset: pos, needed: 2 });
            }
            Ok((NbtTag::Short(bits_to_i16(read_u16(bytes, pos))), pos + 2))
        },
        NbtTagType::Int => {
            if end - pos < 4 {
                return Err(NbtDecodeError::UnexpectedEnd { offset: pos, needed: 4 });
            }
            Ok((NbtTag::Int(bits_to_i32(read_u32(bytes, pos))), pos + 4))
        },
        NbtTagType::Long => {
            if end - pos < 8 {
                return Err(NbtDecodeError::UnexpectedEnd { offset: pos, needed: 8 });
            }
            Ok((NbtTag::Long(bits_to_i64(read_u64(bytes, pos))), pos + 8))
        },
        NbtTagType::Float => {
            if end - pos < 4 {
                return Err(NbtDecodeError::UnexpectedEnd { offset: pos, needed: 4 });
            }
            Ok((NbtTag::Float(read_u32(bytes, pos)), pos + 4))
        },
        NbtTagType::Double => {
            if end - pos < 8 {
                return Err(NbtDecodeError::UnexpectedEnd { offset: pos, needed: 8 });
            }
            Ok((NbtTag::Double(read_u64(bytes, pos)), pos + 8))
        },
        NbtTagType::ByteArray => {
            if end - pos < 4 {
                return Err(NbtDecodeError::UnexpectedEnd { offset: pos, needed: 4 });
            }
            let len: u32 = read_u32(bytes, pos);
            if ((end - pos - 4) as u64) < len as u64 {
                return Err(NbtDecodeError::UnexpectedEnd { offset: pos + 4, needed: len as u64 });
            }
            let len: usize = len as usize;
            let array = slice_to_vec(slice_subrange(bytes, pos + 4, pos + 4 + len));
            Ok((NbtTag::ByteArray(array), pos + 4 + len))
        },
        NbtTagType::String => match decode_text_at(bytes, pos) {
            Ok((text, next)) => Ok((NbtTag::String(text), next)),
            Err(e) => Err(e),
        },
        NbtTagType::List => {
            if depth == 0 {
                return Err(NbtDecodeError::DepthLimitExceeded);
            }
            if end - pos < 1 {
                return Err(NbtDecodeError::UnexpectedEnd { offset: pos, needed: 1 });
            }
            let nbt_type = match NbtTagType::from_id(bytes[pos]) {
                Ok(nbt_type) => nbt_type,
                Err(e) => {
                    return Err(e);
                },
            };
            if end - pos < 5 {
                return Err(NbtDecodeError::UnexpectedEnd { offset: pos + 1, needed: 4 });
            }
            let count: u32 = read_u32(bytes, pos + 1);
            match decode_elems_at(bytes, pos + 5, nbt_type, count, depth - 1) {
                Ok((list, next)) => Ok((NbtTag::List { nbt_type, list }, next)),
                Err(e) => Err(e),
            }
        },
        NbtTagType::Compound => {
            if depth == 0 {
                return Err(NbtDecodeError::DepthLimitExceeded);
            }
            match decode_entries_at(bytes, pos, depth - 1) {
                Ok((inner, next)) => Ok((NbtTag::Compound { inner }, next)),
                Err(e) => Err(e),
            }
        },
        NbtTagType::IntArray => {
            if end - pos < 4 {
                return Err(NbtDecodeError::UnexpectedEnd { offset: pos, needed: 4 });
            }
            let len: u32 = read_u32(bytes, pos);
            if ((end - pos - 4) as u64) < 4 * (len as u64) {
                return Err(
                    NbtDecodeError::UnexpectedEnd { offset: pos + 4, needed: 4 * (len as u64) },
                );
            }
            let ints = decode_ints_at(bytes, pos + 4, len);
            Ok((NbtTag::IntArray(ints), pos + 4 + 4 * (len as usize)))
        },
        NbtTagType::LongArray => {
            if end - pos < 4 {
                return Err(NbtDecodeError::UnexpectedEnd { offset: pos, needed: 4 });
            }
            let len: u32 = read_u32(bytes, pos);
            if ((end - pos - 4) as u64) < 8 * (len as u64) {
                return Err(
                    NbtDecodeError::UnexpectedEnd { offset: pos + 4, needed: 8 * (len as u64) },
                );
            }
            let longs = decode_longs_at(bytes, pos + 4, len);
            Ok((NbtTag::LongArray(longs), pos + 4 + 8 * (len as usize)))
        },
    }
}

/// Decodes `count` payloads of kind `kind` from `pos` on; returns the tags
/// with the position behind them.
pub fn decode_elems_at(
    bytes: &[u8],
    pos: usize,
    kind: NbtTagType,
    count: u32,
    depth: usize,
) -> (r: Result<(Vec<NbtTag>, usize), NbtDecodeError>)
    requires
        pos <= bytes@.len(),
    ensures
        match r {
            Ok((tags, next)) => pos <= next <= bytes@.len() && parse_elems(
                bytes@,
                pos as int,
                kind,
                count as nat,
                depth as nat,
            ) == Ok::<(Seq<TagValue>, nat), NbtDecodeError>(
                (tags_view(tags@), (next - pos) as nat),
            ),
            Err(e) => parse_elems(bytes@, pos as int, kind, count as nat, depth as nat) == Err::<
                (Seq<TagValue>, nat),
                NbtDecodeError,
            >(e),
        },
    decreases depth, 1nat,
{
    let mut tags: Vec<NbtTag> = Vec::new();
    let mut cur: usize = pos;
    let mut i: u32 = 0;
    while i < count
        invariant
            i <= count,
            pos <= cur <= bytes@.len(),
            parse_elems(bytes@, pos as int, kind, count as nat, depth as nat) == after_elems(
                tags_view(tags@),
                (cur - pos) as nat,
                parse_elems(bytes@, cur as int, kind, (count - i) as nat, depth as nat),
            ),
        decreases count - i,
    {
        match decode_payload_at(bytes, cur, kind, depth) {
            Err(e) => {
                return Err(e);
            },
            Ok((tag, next)) => {
                let ghost done = tags_view(tags@);
                let ghost rest = parse_elems(
                    bytes@,
                    next as int,
                    kind,
                    (count - i - 1) as nat,
                    depth as nat,
                );
                tags.push(tag);
                proof {
                    assert(tags_view(tags@) =~= done + seq![tag@]);
                    match rest {
                        Ok((more, more_used)) => {
                            assert(done + (seq![tag@] + more) =~= tags_view(tags@) + more);
                        },
                        Err(_) => {},
                    }
                }
                cur = next;
                i += 1;
            },
        }
    }
    proof {
        assert(tags_view(tags@) + Seq::<TagValue>::empty() =~= tags_view(tags@));
    }
    Ok((tags, cur))
}

/// Decodes the name and the payload of kind `kind` that stand at `pos`, behind
/// the type byte of a named entry; returns them with the position behind them.
pub fn decode_named_at(bytes: &[u8], pos: usize, kind: NbtTagType, depth: usize) -> (r: Result<
    ((String, NbtTag), usize),
    NbtDecodeError,
>)
    requires
        pos <= bytes@.len(),
    ensures
        match r {
            Ok((entry, next)) => pos <= next <= bytes@.len() && parse_named(
                bytes@,
                pos as int,
                kind,
                depth as nat,
            ) == Ok::<((Seq<char>, TagValue), nat), NbtDecodeError>(
                ((entry.0@, entry.1@), (next - pos) as nat),
            ),
            Err(e) => parse_named(bytes@, pos as int, kind, depth as nat) == Err::<
                ((Seq<char>, TagValue), nat),
                NbtDecodeError,
            >(e),
        },
    decreases depth, 1nat,
{
    match decode_text_at(bytes, pos) {
        Err(e) => Err(e),
        Ok((name, at)) => match decode_payload_at(bytes, at, kind, depth) {
            Err(e) => Err(e),
            Ok((tag, next)) => Ok(((name, tag), next)),
        },
    }
}

/// Decodes the named entries that stand from `pos` on, up to the `End` byte
/// that closes them; returns them with the position behind that byte.
pub fn decode_entries_at(bytes: &[u8], pos: usize, depth: usize) -> (r: Result<
    (Vec<(String, NbtTag)>, usize),
    NbtDecodeError,
>)
    requires
        pos <= bytes@.len(),
    ensures
        match r {
            Ok((entries, next)) => pos <= next <= bytes@.len() && parse_entries(
                bytes@,
                pos as int,
                depth as nat,
            ) == Ok::<(Seq<(Seq<char>, TagValue)>, nat), NbtDecodeError>(
                (entries_view(entries@), (next - pos) as nat),
            ),
            Err(e) => parse_entries(bytes@, pos as int, depth as nat) == Err::<
                (Seq<(Seq<char>, TagValue)>, nat),
                NbtDecodeError,
            >(e),
        },
    decreases depth, 2nat,
{
    let end: usize = bytes.len();
    let mut entries: Vec<(String, NbtTag)> = Vec::new();
    let mut cur: usize = pos;
    loop
        invariant
            end == bytes@.len(),
            pos <= cur <= end,
            parse_entries(bytes@, pos as int, depth as nat) == after_entries(
                entries_view(entries@),
                (cur - pos) as nat,
                parse_entries(bytes@, cur as int, depth as nat),
            ),
        decreases end - cur,
    {
        if end - cur < 1 {
            return Err(NbtDecodeError::UnexpectedEnd { offset: cur, needed: 1 });
        }
        let id: u8 = bytes[cur];
        if id == 0 {
            proof {
                assert(entries_view(entries@) + Seq::<(Seq<char>, TagValue)>::empty()
                    =~= entries_view(entries@));
            }
            return Ok((entries, cur + 1));
        }
        let kind = match NbtTagType::from_id(id) {
            Ok(kind) => kind,
            Err(e) => {
                return Err(e);
            },
        };
        match decode_named_at(bytes, cur + 1, kind, depth) {
            Err(e) => {
                return Err(e);
            },
            Ok((entry, next)) => {
                let ghost done = entries_view(entries@);
                let ghost added = (entry.0@, entry.1@);
                let ghost rest = parse_entries(bytes@, next as int, depth as nat);
                entries.push(entry);
                proof {
                    assert(entries_view(entries@) =~= done + seq![added]);
                    match rest {
                        Ok((more, more_used)) => {
                            assert(done + (seq![added] + more) =~= entries_view(entries@) + more);
                        },
                        Err(_) => {},
                    }
                }
                cur = next;
            },
        }
    }
}

impl NbtTag {
    /// Decodes the payload of kind `nbt_type` that stands at the start of
    /// `reader`; returns the tag with the number of bytes it takes. Lists and
    /// compounds may be nested `max_depth` deep, the payload itself counted.
    pub fn decode(nbt_type: NbtTagType, reader: &[u8], max_depth: usize) -> (r: Result<
        (NbtTag, usize),
        NbtDecodeError,
    >)
        ensures
            match r {
                Ok((tag, used)) => used <= reader@.len() && parse_payload(
                    reader@,
                    0,
                    nbt_type,
                    max_depth as nat,
                ) == Ok::<(TagValue, nat), NbtDecodeError>((tag@, used as nat)),
                Err(e) => parse_payload(reader@, 0, nbt_type, max_depth as nat) == Err::<
                    (TagValue, nat),
                    NbtDecodeError,
                >(e),
            },
            r matches Ok((tag, used)) ==> {
                &&& tag@.tag_type() == nbt_type
                &&& tag@.wf()
                &&& tag@.within_depth(max_depth as nat)
                &&& tag@.payload() == reader@.subrange(0, used as int)
            },
    {
        proof {
            law_decoded_payload(reader@, nbt_type, max_depth as nat);
        }
        decode_payload_at(reader, 0, nbt_type, max_depth)
    }
}

/// A named entry: a name and the tag under that name.
#[derive(Debug, PartialEq)]
pub struct TagEntry(pub String, pub NbtTag);

impl View for TagEntry {
    type V = (Seq<char>, TagValue);

    open spec fn view(&self) -> (Seq<char>, TagValue) {
        (self.0@, self.1@)
    }
}

impl TagEntry {
    /// Decodes the named entry that stands at the start of `reader`; returns it
    /// with the number of bytes it takes. An `End` byte is an entry of its own,
    /// with an empty name. Lists and compounds may be nested `max_depth` deep.
    pub fn decode(reader: &[u8], max_depth: usize) -> (r: Result<(TagEntry, usize), NbtDecodeError>)
        ensures
            match r {
                Ok((entry, used)) => used <= reader@.len() && parse_entry(
                    reader@,
                    0,
                    max_depth as nat,
                ) == Ok::<((Seq<char>, TagValue), nat), NbtDecodeError>((entry@, used as nat)),
                Err(e) => parse_entry(reader@, 0, max_depth as nat) == Err::<
                    ((Seq<char>, TagValue), nat),
                    NbtDecodeError,
                >(e),
            },
            r matches Ok((entry, used)) ==> entry@.1.wf() && entry@.1.within_depth(
                max_depth as nat,
            ),
    {
        proof {
            if reader@.len() >= 1 {
                match NbtTagType::spec_from_id(reader@[0]) {
                    Some(NbtTagType::End) => {},
                    Some(kind) => {
                        if parse_named(reader@, 1, kind, max_depth as nat) is Ok {
                            lemma_named_parsed(reader@, 1, kind, max_depth as nat);
                        }
                    },
                    None => {},
                }
            }
        }
        if reader.len() < 1 {
            return Err(NbtDecodeError::UnexpectedEnd { offset: 0, needed: 1 });
        }
        match NbtTagType::from_id(reader[0]) {
            Err(e) => Err(e),
            Ok(NbtTagType::End) => Ok((TagEntry(String::new(), NbtTag::End), 1)),
            Ok(kind) => match decode_named_at(reader, 1, kind, max_depth) {
                Err(e) => Err(e),
                Ok((entry, next)) => Ok((TagEntry(entry.0, entry.1), next)),
            },
        }
    }
}

} // verus!
