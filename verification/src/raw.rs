//! The root of a stream: a compound without a name of its own.

use vstd::prelude::*;
use crate::de::RawNbtDeserializer;
use crate::decode::{
    NbtDecodeError, decode_entries_at, decode_text_at, parse_root, DEFAULT_MAX_DEPTH,
};
use crate::encode::{NbtSerializationOptions, encode_entries, push_text, root_bytes};
use crate::roundtrip::law_decoded_root;
use crate::ser::NbtSerializationError;
use crate::tag::{
    entries_are_within_depth, entries_view, entries_well_formed, NbtTag, NbtTagType, TagValue,
};

verus! {

/// The root compound of a stream: named tags, in the order in which they were
/// put in. Names may repeat.
#[derive(Debug, PartialEq)]
pub struct RawNbt {
    root: Vec<(String, NbtTag)>,
}

impl View for RawNbt {
    type V = Seq<(Seq<char>, TagValue)>;

    /// The names and values of the entries, in order.
    closed spec fn view(&self) -> Seq<(Seq<char>, TagValue)> {
        entries_view(self.root@)
    }
}

impl RawNbt {
    /// A root without entries.
    pub fn new() -> (nbt: RawNbt)
        ensures
            nbt@ == Seq::<(Seq<char>, TagValue)>::empty(),
    {
        let nbt = RawNbt { root: Vec::new() };
        assert(nbt@ =~= Seq::<(Seq<char>, TagValue)>::empty());
        nbt
    }

    /// Adds `tag` under `name`, behind the entries that are there.
    pub fn put_tag(&mut self, name: &str, tag: NbtTag)
        ensures
            final(self)@ == old(self)@.push((name@, tag@)),
    {
        self.root.push((name.to_owned(), tag));
        assert(self@ =~= old(self)@.push((name@, tag@)));
    }

    /// The entries, in order.
    pub fn entries(&self) -> (entries: &Vec<(String, NbtTag)>)
        ensures
            entries_view(entries@) == self@,
    {
        &self.root
    }

    /// The root of data that folded into the tag `data`: the root that holds
    /// the entries of the compound. Data that folded into anything but a
    /// compound has no root.
    pub fn serialize(data: NbtTag) -> (r: Result<RawNbt, NbtSerializationError>)
        ensures
            match data@ {
                TagValue::Compound { inner } => r matches Ok(nbt) && nbt@ == inner,
                _ => r matches Err(NbtSerializationError::TypeNotSupported),
            },
    {
        match data {
            NbtTag::Compound { inner } => Ok(RawNbt { root: inner }),
            _ => Err(NbtSerializationError::TypeNotSupported),
        }
    }

    /// This root as a tag that waits for a request: the compound that holds
    /// its entries.
    pub fn deserialize(self) -> (de: RawNbtDeserializer)
        ensures
            de@ == (TagValue::Compound { inner: self@ }),
    {
        RawNbtDeserializer::new(self.into_tag())
    }

    /// The compound that holds the entries of this root.
    pub fn into_tag(self) -> (tag: NbtTag)
        ensures
            tag@ == (TagValue::Compound { inner: self@ }),
    {
        NbtTag::Compound { inner: self.root }
    }

    /// Whether this root is well-formed, so that encoding it loses nothing.
    pub fn is_well_formed(&self) -> (ok: bool)
        ensures
            ok == (TagValue::Compound { inner: self@ }).wf(),
    {
        entries_well_formed(&self.root)
    }

    /// Whether no chain of lists and compounds inside one another, this root
    /// included, is longer than `depth`.
    pub fn is_within_depth(&self, depth: usize) -> (ok: bool)
        ensures
            ok == (TagValue::Compound { inner: self@ }).within_depth(depth as nat),
    {
        depth > 0 && entries_are_within_depth(&self.root, depth - 1)
    }

    /// Appends this root to `writer`, framed as `opts` says.
    pub fn encode(&self, writer: &mut Vec<u8>, opts: NbtSerializationOptions)
        ensures
            final(writer)@ == old(writer)@ + root_bytes(self@, opts),
    {
        writer.push(NbtTagType::Compound.id());
        match opts {
            NbtSerializationOptions::Network => {},
            NbtSerializationOptions::LittleEndian => push_text(writer, ""),
        }
        encode_entries(&self.root, writer, opts);
        writer.push(NbtTagType::End.id());
        proof {
            reveal_strlit("");
            assert(""@ =~= Seq::<char>::empty());
            assert(writer@ =~= old(writer)@ + root_bytes(self@, opts));
        }
    }

    /// This root on the wire, framed as `opts` says.
    pub fn to_binary(&self, opts: NbtSerializationOptions) -> (bytes: Vec<u8>)
        ensures
            bytes@ == root_bytes(self@, opts),
    {
        let mut bytes: Vec<u8> = Vec::new();
        self.encode(&mut bytes, opts);
        assert(bytes@ =~= root_bytes(self@, opts));
        bytes
    }

    /// Decodes the root that stands at the start of `reader`, framed as `opts`
    /// says; returns it with the number of bytes it takes. Lists and compounds
    /// may be nested `DEFAULT_MAX_DEPTH` deep, the root counted.
    pub fn decode(reader: &[u8], opts: NbtSerializationOptions) -> (r: Result<
        (RawNbt, usize),
        NbtDecodeError,
    >)
        ensures
            match r {
                Ok((nbt, used)) => used <= reader@.len() && parse_root(
                    reader@,
                    opts,
                    DEFAULT_MAX_DEPTH as nat,
                ) == Ok::<(Seq<(Seq<char>, TagValue)>, nat), NbtDecodeError>((nbt@, used as nat)),
                Err(e) => parse_root(reader@, opts, DEFAULT_MAX_DEPTH as nat) == Err::<
                    (Seq<(Seq<char>, TagValue)>, nat),
                    NbtDecodeError,
                >(e),
            },
            r matches Ok((nbt, used)) ==> (TagValue::Compound { inner: nbt@ }).wf(),
    {
        RawNbt::decode_with_limit(reader, opts, DEFAULT_MAX_DEPTH)
    }

    /// Decodes the root that stands at the start of `reader`, framed as `opts`
    /// says; returns it with the number of bytes it takes. Lists and compounds
    /// may be nested `max_depth` deep, the root counted.
    pub fn decode_with_limit(reader: &[u8], opts: NbtSerializationOptions, max_depth: usize) -> (r:
        Result<(RawNbt, usize), NbtDecodeError>)
        ensures
            match r {
                Ok((nbt, used)) => used <= reader@.len() && parse_root(
                    reader@,
                    opts,
                    max_depth as nat,
                ) == Ok::<(Seq<(Seq<char>, TagValue)>, nat), NbtDecodeError>((nbt@, used as nat)),
                Err(e) => parse_root(reader@, opts, max_depth as nat) == Err::<
                    (Seq<(Seq<char>, TagValue)>, nat),
                    NbtDecodeError,
                >(e),
            },
            r matches Ok((nbt, used)) ==> (TagValue::Compound { inner: nbt@ }).wf(),
    {
        proof {
            law_decoded_root(reader@, opts, max_depth as nat);
        }
        if reader.len() < 1 {
            return Err(NbtDecodeError::UnexpectedEnd { offset: 0, needed: 1 });
        }
        let id: u8 = reader[0];
        match NbtTagType::from_id(id) {
            Err(e) => {
                return Err(e);
            },
            Ok(NbtTagType::Compound) => {},
            Ok(_) => {
                return Err(NbtDecodeError::RootNotCompound(id));
            },
        }
        let at: usize = match opts {
            NbtSerializationOptions::Network => 1,
            NbtSerializationOptions::LittleEndian => match decode_text_at(reader, 1) {
                Ok((_, at)) => at,
                Err(e) => {
                    return Err(e);
                },
            },
        };
        if max_depth == 0 {
            return Err(NbtDecodeError::DepthLimitExceeded);
        }
        match decode_entries_at(reader, at, max_depth - 1) {
            Ok((root, next)) => Ok((RawNbt { root }, next)),
            Err(e) => Err(e),
        }
    }
}

} // verus!
