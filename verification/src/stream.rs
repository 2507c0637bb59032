//! Reading a root from a stream of bytes, a piece at a time.
//!
//! The bytes read so far decide what is done next: the root is there, or more
//! bytes are read, or the stream is given up. The reading itself is not done
//! here.

use vstd::prelude::*;
use crate::decode::{
    parse_elems, parse_entries, parse_named, parse_payload, parse_root, parse_root_name,
    parse_text, remaining, NbtDecodeError,
};
use crate::encode::NbtSerializationOptions;
use crate::raw::RawNbt;
use crate::encode::text_bytes;
use crate::roundtrip::{
    lemma_named_parsed, lemma_payload_parsed, lemma_payload_parses, lemma_text_parsed,
    lemma_text_parses,
};
use crate::tag::{NbtTagType, TagValue};
use crate::wire::{holds_at, u16_at, u32_at};

verus! {

/// What is done next with a stream from which a root is being read.
#[derive(Debug, PartialEq)]
pub enum DecodeStep {
    /// The root is there: the root, and the number of bytes that it takes.
    Done(RawNbt, usize),
    /// The bytes read so far are the start of a root: this many more are
    /// read, and no byte that is read lies behind the root.
    Read(usize),
    /// The bytes read so far are not the start of a root.
    Failed(NbtDecodeError),
}

/// Where `e` is the fault of an input that ends too early, the field that the
/// input lacks starts at or behind `pos`, and inside the input or at its end,
/// and ends behind the end of the input.
pub open spec fn lacks_bytes(bytes: Seq<u8>, pos: int, e: NbtDecodeError) -> bool {
    e matches NbtDecodeError::UnexpectedEnd { offset, needed } ==> pos <= offset <= bytes.len()
        && offset + needed > bytes.len()
}

/// `lacks_bytes` of a string or a name.
proof fn lemma_text_lacks_bytes(bytes: Seq<u8>, pos: int)
    requires
        0 <= pos <= bytes.len() <= usize::MAX,
        parse_text(bytes, pos) is Err,
    ensures
        lacks_bytes(bytes, pos, parse_text(bytes, pos)->Err_0),
{
}

/// `lacks_bytes` of a payload that is neither a list nor a compound.
proof fn lemma_leaf_lacks_bytes(bytes: Seq<u8>, pos: int, kind: NbtTagType, depth: nat)
    requires
        0 <= pos <= bytes.len() <= usize::MAX,
        kind != NbtTagType::List,
        kind != NbtTagType::Compound,
        parse_payload(bytes, pos, kind, depth) is Err,
    ensures
        lacks_bytes(bytes, pos, parse_payload(bytes, pos, kind, depth)->Err_0),
{
    if kind == NbtTagType::String {
        lemma_text_lacks_bytes(bytes, pos);
    }
}

/// `lacks_bytes` of a payload.
proof fn lemma_payload_lacks_bytes(bytes: Seq<u8>, pos: int, kind: NbtTagType, depth: nat)
    requires
        0 <= pos <= bytes.len() <= usize::MAX,
        parse_payload(bytes, pos, kind, depth) is Err,
    ensures
        lacks_bytes(bytes, pos, parse_payload(bytes, pos, kind, depth)->Err_0),
    decreases depth, 0nat, 0nat,
{
    match kind {
        NbtTagType::List => {
            if depth > 0 && pos + 5 <= bytes.len() {
                match NbtTagType::spec_from_id(bytes[pos]) {
                    Some(nbt_type) => {
                        lemma_elems_lack_bytes(
                            bytes,
                            pos + 5,
                            nbt_type,
                            u32_at(bytes, pos + 1) as nat,
                            (depth - 1) as nat,
                        );
                    },
                    None => {},
                }
            }
        },
        NbtTagType::Compound => {
            if depth > 0 {
                lemma_entries_lack_bytes(bytes, pos, (depth - 1) as nat);
            }
        },
        _ => {
            lemma_leaf_lacks_bytes(bytes, pos, kind, depth);
        },
    }
}

/// `lacks_bytes` of the elements of a list.
proof fn lemma_elems_lack_bytes(
    bytes: Seq<u8>,
    pos: int,
    kind: NbtTagType,
    count: nat,
    depth: nat,
)
    requires
        0 <= pos <= bytes.len() <= usize::MAX,
        parse_elems(bytes, pos, kind, count, depth) is Err,
    ensures
        lacks_bytes(bytes, pos, parse_elems(bytes, pos, kind, count, depth)->Err_0),
    decreases depth, 1nat, count,
{
    if count > 0 {
        match parse_payload(bytes, pos, kind, depth) {
            Err(_) => {
                lemma_payload_lacks_bytes(bytes, pos, kind, depth);
            },
            Ok((_, used)) => {
                lemma_payload_parsed(bytes, pos, kind, depth);
                lemma_elems_lack_bytes(bytes, pos + used, kind, (count - 1) as nat, depth);
            },
        }
    }
}

/// `lacks_bytes` of a name and a payload.
proof fn lemma_named_lacks_bytes(bytes: Seq<u8>, pos: int, kind: NbtTagType, depth: nat)
    requires
        0 <= pos <= bytes.len() <= usize::MAX,
        parse_named(bytes, pos, kind, depth) is Err,
    ensures
        lacks_bytes(bytes, pos, parse_named(bytes, pos, kind, depth)->Err_0),
    decreases depth, 1nat, 0nat,
{
    match parse_text(bytes, pos) {
        Err(_) => {
            lemma_text_lacks_bytes(bytes, pos);
        },
        Ok((_, name_used)) => {
            lemma_text_parsed(bytes, pos);
            lemma_payload_lacks_bytes(bytes, pos + name_used, kind, depth);
        },
    }
}

/// `lacks_bytes` of the entries of a compound.
proof fn lemma_entries_lack_bytes(bytes: Seq<u8>, pos: int, depth: nat)
    requires
        0 <= pos <= bytes.len() <= usize::MAX,
        parse_entries(bytes, pos, depth) is Err,
    ensures
        lacks_bytes(bytes, pos, parse_entries(bytes, pos, depth)->Err_0),
    decreases depth, 2nat, remaining(bytes, pos),
{
    if pos + 1 <= bytes.len() && bytes[pos] != 0 {
        match NbtTagType::spec_from_id(bytes[pos]) {
            Some(kind) => {
                match parse_named(bytes, pos + 1, kind, depth) {
                    Err(_) => {
                        lemma_named_lacks_bytes(bytes, pos + 1, kind, depth);
                    },
                    Ok((_, used)) => {
                        lemma_named_parsed(bytes, pos + 1, kind, depth);
                        lemma_entries_lack_bytes(bytes, pos + 1 + used, depth);
                    },
                }
            },
            None => {},
        }
    }
}

/// Where a root is not read because the input ends too early, the field that
/// the input lacks starts inside the input or at its end, and ends behind it.
pub proof fn lemma_root_lacks_bytes(bytes: Seq<u8>, opts: NbtSerializationOptions, depth: nat)
    requires
        bytes.len() <= usize::MAX,
        parse_root(bytes, opts, depth) is Err,
    ensures
        lacks_bytes(bytes, 0, parse_root(bytes, opts, depth)->Err_0),
{
    if bytes.len() >= 1 && NbtTagType::spec_from_id(bytes[0]) == Some(NbtTagType::Compound) {
        match parse_root_name(bytes, opts) {
            Err(_) => {
                lemma_text_lacks_bytes(bytes, 1);
            },
            Ok((_, name_used)) => {
                if opts == NbtSerializationOptions::LittleEndian {
                    lemma_text_parsed(bytes, 1);
                }
                if depth > 0 {
                    lemma_entries_lack_bytes(bytes, 1 + name_used as int, (depth - 1) as nat);
                }
            },
        }
    }
}

/// Where `e` is the fault of an input that ends too early, the field that the
/// input lacks ends inside the `used` bytes from `pos` on, or at their end.
pub open spec fn within(pos: int, e: NbtDecodeError, used: nat) -> bool {
    e matches NbtDecodeError::UnexpectedEnd { offset, needed } ==> offset + needed <= pos + used
}

/// What stands in the start of an input stands in the input.
proof fn lemma_holds_in_longer(start: Seq<u8>, all: Seq<u8>, pos: int, part: Seq<u8>)
    requires
        start.is_prefix_of(all),
        holds_at(start, pos, part),
    ensures
        holds_at(all, pos, part),
{
    assert(all.subrange(pos, pos + part.len()) =~= start.subrange(pos, pos + part.len()));
}

/// A payload that is read from the start of an input is read from the input,
/// and is the same.
proof fn lemma_payload_stable(
    start: Seq<u8>,
    all: Seq<u8>,
    pos: int,
    kind: NbtTagType,
    depth: nat,
)
    requires
        start.is_prefix_of(all),
        0 <= pos <= start.len(),
        parse_payload(start, pos, kind, depth) is Ok,
    ensures
        parse_payload(all, pos, kind, depth) == parse_payload(start, pos, kind, depth),
{
    let (value, used) = parse_payload(start, pos, kind, depth)->Ok_0;
    lemma_payload_parsed(start, pos, kind, depth);
    lemma_holds_in_longer(start, all, pos, value.payload());
    lemma_payload_parses(all, pos, value, depth);
}

/// A string or a name that is read from the start of an input is read from
/// the input, and is the same.
proof fn lemma_text_stable(start: Seq<u8>, all: Seq<u8>, pos: int)
    requires
        start.is_prefix_of(all),
        0 <= pos <= start.len(),
        parse_text(start, pos) is Ok,
    ensures
        parse_text(all, pos) == parse_text(start, pos),
{
    let (text, used) = parse_text(start, pos)->Ok_0;
    lemma_text_parsed(start, pos);
    lemma_holds_in_longer(start, all, pos, text_bytes(text));
    lemma_text_parses(all, pos, text);
}

/// A name and a payload that are read from the start of an input are read
/// from the input, and are the same.
proof fn lemma_named_stable(start: Seq<u8>, all: Seq<u8>, pos: int, kind: NbtTagType, depth: nat)
    requires
        start.is_prefix_of(all),
        0 <= pos <= start.len(),
        parse_named(start, pos, kind, depth) is Ok,
    ensures
        parse_named(all, pos, kind, depth) == parse_named(start, pos, kind, depth),
{
    let name_used = parse_text(start, pos)->Ok_0.1;
    lemma_text_stable(start, all, pos);
    lemma_text_parsed(start, pos);
    lemma_payload_stable(start, all, pos + name_used, kind, depth);
}

/// `within` of a string or a name.
proof fn lemma_text_within(start: Seq<u8>, all: Seq<u8>, pos: int)
    requires
        start.is_prefix_of(all),
        0 <= pos <= start.len(),
        all.len() <= usize::MAX,
        parse_text(start, pos) is Err,
        parse_text(all, pos) is Ok,
    ensures
        within(pos, parse_text(start, pos)->Err_0, parse_text(all, pos)->Ok_0.1),
{
    if pos + 2 <= start.len() {
        assert(start[pos] == all[pos] && start[pos + 1] == all[pos + 1]);
        let len = u16_at(start, pos);
        if pos + 2 + len <= start.len() {
            assert(all.subrange(pos + 2, pos + 2 + len) =~= start.subrange(
                pos + 2,
                pos + 2 + len,
            ));
        }
    }
}

/// `within` of a payload that is neither a list nor a compound.
proof fn lemma_leaf_within(start: Seq<u8>, all: Seq<u8>, pos: int, kind: NbtTagType, depth: nat)
    requires
        start.is_prefix_of(all),
        0 <= pos <= start.len(),
        all.len() <= usize::MAX,
        kind != NbtTagType::List,
        kind != NbtTagType::Compound,
        parse_payload(start, pos, kind, depth) is Err,
        parse_payload(all, pos, kind, depth) is Ok,
    ensures
        within(
            pos,
            parse_payload(start, pos, kind, depth)->Err_0,
            parse_payload(all, pos, kind, depth)->Ok_0.1,
        ),
{
    if kind == NbtTagType::String {
        lemma_text_within(start, all, pos);
    } else if pos + 4 <= start.len() {
        assert(start[pos] == all[pos] && start[pos + 1] == all[pos + 1] && start[pos + 2]
            == all[pos + 2] && start[pos + 3] == all[pos + 3]);
    }
}

/// `within` of a payload.
proof fn lemma_payload_within(
    start: Seq<u8>,
    all: Seq<u8>,
    pos: int,
    kind: NbtTagType,
    depth: nat,
)
    requires
        start.is_prefix_of(all),
        0 <= pos <= start.len(),
        all.len() <= usize::MAX,
        parse_payload(start, pos, kind, depth) is Err,
        parse_payload(all, pos, kind, depth) is Ok,
    ensures
        within(
            pos,
            parse_payload(start, pos, kind, depth)->Err_0,
            parse_payload(all, pos, kind, depth)->Ok_0.1,
        ),
    decreases depth, 0nat, 0nat,
{
    match kind {
        NbtTagType::List => {
            if pos + 1 <= start.len() {
                assert(start[pos] == all[pos]);
            }
            if pos + 5 <= start.len() {
                assert(start[pos + 1] == all[pos + 1] && start[pos + 2] == all[pos + 2]
                    && start[pos + 3] == all[pos + 3] && start[pos + 4] == all[pos + 4]);
                let nbt_type = NbtTagType::spec_from_id(start[pos])->0;
                lemma_elems_within(
                    start,
                    all,
                    pos + 5,
                    nbt_type,
                    u32_at(start, pos + 1) as nat,
                    (depth - 1) as nat,
                );
            }
        },
        NbtTagType::Compound => {
            lemma_entries_within(start, all, pos, (depth - 1) as nat);
        },
        _ => {
            lemma_leaf_within(start, all, pos, kind, depth);
        },
    }
}

/// `within` of the elements of a list.
proof fn lemma_elems_within(
    start: Seq<u8>,
    all: Seq<u8>,
    pos: int,
    kind: NbtTagType,
    count: nat,
    depth: nat,
)
    requires
        start.is_prefix_of(all),
        0 <= pos <= start.len(),
        all.len() <= usize::MAX,
        parse_elems(start, pos, kind, count, depth) is Err,
        parse_elems(all, pos, kind, count, depth) is Ok,
    ensures
        within(
            pos,
            parse_elems(start, pos, kind, count, depth)->Err_0,
            parse_elems(all, pos, kind, count, depth)->Ok_0.1,
        ),
    decreases depth, 1nat, count,
{
    if count > 0 {
        match parse_payload(start, pos, kind, depth) {
            Err(_) => {
                lemma_payload_within(start, all, pos, kind, depth);
            },
            Ok((_, used)) => {
                lemma_payload_stable(start, all, pos, kind, depth);
                lemma_payload_parsed(start, pos, kind, depth);
                lemma_elems_within(start, all, pos + used, kind, (count - 1) as nat, depth);
            },
        }
    }
}

/// `within` of a name and a payload.
proof fn lemma_named_within(
    start: Seq<u8>,
    all: Seq<u8>,
    pos: int,
    kind: NbtTagType,
    depth: nat,
)
    requires
        start.is_prefix_of(all),
        0 <= pos <= start.len(),
        all.len() <= usize::MAX,
        parse_named(start, pos, kind, depth) is Err,
        parse_named(all, pos, kind, depth) is Ok,
    ensures
        within(
            pos,
            parse_named(start, pos, kind, depth)->Err_0,
            parse_named(all, pos, kind, depth)->Ok_0.1,
        ),
    decreases depth, 1nat, 0nat,
{
    match parse_text(start, pos) {
        Err(_) => {
            lemma_text_within(start, all, pos);
        },
        Ok((_, name_used)) => {
            lemma_text_stable(start, all, pos);
            lemma_text_parsed(start, pos);
            lemma_payload_within(start, all, pos + name_used, kind, depth);
        },
    }
}

/// `within` of the entries of a compound.
proof fn lemma_entries_within(start: Seq<u8>, all: Seq<u8>, pos: int, depth: nat)
    requires
        start.is_prefix_of(all),
        0 <= pos <= start.len(),
        all.len() <= usize::MAX,
        parse_entries(start, pos, depth) is Err,
        parse_entries(all, pos, depth) is Ok,
    ensures
        within(
            pos,
            parse_entries(start, pos, depth)->Err_0,
            parse_entries(all, pos, depth)->Ok_0.1,
        ),
    decreases depth, 2nat, remaining(start, pos),
{
    if pos + 1 <= start.len() {
        assert(start[pos] == all[pos]);
        if start[pos] != 0 {
            match NbtTagType::spec_from_id(start[pos]) {
                Some(kind) => {
                    match parse_named(start, pos + 1, kind, depth) {
                        Err(_) => {
                            lemma_named_within(start, all, pos + 1, kind, depth);
                        },
                        Ok((_, used)) => {
                            lemma_named_stable(start, all, pos + 1, kind, depth);
                            lemma_named_parsed(start, pos + 1, kind, depth);
                            lemma_entries_within(start, all, pos + 1 + used, depth);
                        },
                    }
                },
                None => {},
            }
        }
    }
}

/// Where the bytes read so far end too early for a root, and the stream goes
/// on to hold one, the field that is lacking ends inside the root or at its
/// end: reading up to the end of that field reads no byte behind the root.
pub proof fn law_step_reads_within_root(
    start: Seq<u8>,
    all: Seq<u8>,
    opts: NbtSerializationOptions,
    depth: nat,
)
    requires
        start.is_prefix_of(all),
        all.len() <= usize::MAX,
        parse_root(start, opts, depth) is Err,
        parse_root(all, opts, depth) is Ok,
    ensures
        within(0, parse_root(start, opts, depth)->Err_0, parse_root(all, opts, depth)->Ok_0.1),
{
    if start.len() >= 1 {
        assert(start[0] == all[0]);
        match parse_root_name(start, opts) {
            Err(_) => {
                lemma_text_within(start, all, 1);
            },
            Ok((_, name_used)) => {
                if opts == NbtSerializationOptions::LittleEndian {
                    lemma_text_stable(start, all, 1);
                    lemma_text_parsed(start, 1);
                }
                lemma_entries_within(start, all, 1 + name_used as int, (depth - 1) as nat);
            },
        }
    }
}

/// What is done next, once `parse_root` has said what the bytes read so far
/// hold: with a root, the reading is done; with an input that ends too early,
/// the bytes up to the end of the field that it lacks are read, unless their
/// number is beyond what a buffer can hold; with any other fault, the stream
/// is given up.
pub open spec fn next_step(
    len: nat,
    parsed: Result<(Seq<(Seq<char>, TagValue)>, nat), NbtDecodeError>,
    step: DecodeStep,
) -> bool {
    match parsed {
        Ok((entries, used)) => step matches DecodeStep::Done(nbt, n) && nbt@ == entries && n
            == used,
        Err(NbtDecodeError::UnexpectedEnd { offset, needed }) => if offset + needed
            <= usize::MAX {
            step == DecodeStep::Read((offset + needed - len) as usize)
        } else {
            step == DecodeStep::Failed(NbtDecodeError::UnexpectedEnd { offset, needed })
        },
        Err(e) => step == DecodeStep::Failed(e),
    }
}

impl RawNbt {
    /// Says what is done next with a stream of which `buffer` has been read,
    /// where a root framed as `opts` says is read from it, with lists and
    /// compounds nested `max_depth` deep at most, the root counted. Where more
    /// bytes are to be read, there is at least one.
    pub fn decode_step(buffer: &[u8], opts: NbtSerializationOptions, max_depth: usize) -> (step:
        DecodeStep)
        ensures
            next_step(buffer@.len(), parse_root(buffer@, opts, max_depth as nat), step),
            step matches DecodeStep::Read(more) ==> more > 0,
    {
        match RawNbt::decode_with_limit(buffer, opts, max_depth) {
            Ok((nbt, used)) => DecodeStep::Done(nbt, used),
            Err(NbtDecodeError::UnexpectedEnd { offset, needed }) => {
                let len: usize = buffer.len();
                proof {
                    lemma_root_lacks_bytes(buffer@, opts, max_depth as nat);
                }
                if needed <= (usize::MAX - offset) as u64 {
                    DecodeStep::Read(offset + needed as usize - len)
                } else {
                    DecodeStep::Failed(NbtDecodeError::UnexpectedEnd { offset, needed })
                }
            },
            Err(e) => DecodeStep::Failed(e),
        }
    }
}

} // verus!
