//! The tag model: the kinds of tag and their one-byte type identifiers.

use vstd::prelude::*;
use vstd::string::StringExecFns;
use vstd::utf8::encode_utf8;
use crate::decode::NbtDecodeError;

verus! {

/// The kind of a tag. Each kind has a fixed one-byte identifier, which is what
/// appears on the wire and what list homogeneity is judged by.
#[derive(PartialEq, Eq, Structural, Clone, Copy, Debug)]
pub enum NbtTagType {
    End,
    Byte,
    Short,
    Int,
    Long,
    Float,
    Double,
    ByteArray,
    String,
    List,
    Compound,
    IntArray,
    LongArray,
}

impl NbtTagType {
    /// The identifier of this kind, from 0 (`End`) to 12 (`LongArray`).
    pub open spec fn spec_id(self) -> u8 {
        match self {
            NbtTagType::End => 0,
            NbtTagType::Byte => 1,
            NbtTagType::Short => 2,
            NbtTagType::Int => 3,
            NbtTagType::Long => 4,
            NbtTagType::Float => 5,
            NbtTagType::Double => 6,
            NbtTagType::ByteArray => 7,
            NbtTagType::String => 8,
            NbtTagType::List => 9,
            NbtTagType::Compound => 10,
            NbtTagType::IntArray => 11,
            NbtTagType::LongArray => 12,
        }
    }

    /// The kind that `id` stands for, if it stands for one.
    pub open spec fn spec_from_id(id: u8) -> Option<NbtTagType> {
        match id {
            0 => Some(NbtTagType::End),
            1 => Some(NbtTagType::Byte),
            2 => Some(NbtTagType::Short),
            3 => Some(NbtTagType::Int),
            4 => Some(NbtTagType::Long),
            5 => Some(NbtTagType::Float),
            6 => Some(NbtTagType::Double),
            7 => Some(NbtTagType::ByteArray),
            8 => Some(NbtTagType::String),
            9 => Some(NbtTagType::List),
            10 => Some(NbtTagType::Compound),
            11 => Some(NbtTagType::IntArray),
            12 => Some(NbtTagType::LongArray),
            _ => None,
        }
    }

    /// The kind that `id` stands for. An identifier above 12 stands for none
    /// and is rejected.
    pub fn from_id(id: u8) -> (r: Result<NbtTagType, NbtDecodeError>)
        ensures
            match NbtTagType::spec_from_id(id) {
                Some(kind) => r == Ok::<NbtTagType, NbtDecodeError>(kind),
                None => r == Err::<NbtTagType, NbtDecodeError>(NbtDecodeError::InvalidTagType(id)),
            },
            r is Ok <==> id <= 12,
            r is Ok ==> r->Ok_0.spec_id() == id,
    {
        match id {
            0 => Ok(NbtTagType::End),
            1 => Ok(NbtTagType::Byte),
            2 => Ok(NbtTagType::Short),
            3 => Ok(NbtTagType::Int),
            4 => Ok(NbtTagType::Long),
            5 => Ok(NbtTagType::Float),
            6 => Ok(NbtTagType::Double),
            7 => Ok(NbtTagType::ByteArray),
            8 => Ok(NbtTagType::String),
            9 => Ok(NbtTagType::List),
            10 => Ok(NbtTagType::Compound),
            11 => Ok(NbtTagType::IntArray),
            12 => Ok(NbtTagType::LongArray),
            _ => Err(NbtDecodeError::InvalidTagType(id)),
        }
    }

    /// The name of this kind.
    pub open spec fn spec_name(self) -> Seq<char> {
        match self {
            NbtTagType::End => "End"@,
            NbtTagType::Byte => "Byte"@,
            NbtTagType::Short => "Short"@,
            NbtTagType::Int => "Int"@,
            NbtTagType::Long => "Long"@,
            NbtTagType::Float => "Float"@,
            NbtTagType::Double => "Double"@,
            NbtTagType::ByteArray => "ByteArray"@,
            NbtTagType::String => "String"@,
            NbtTagType::List => "List"@,
            NbtTagType::Compound => "Compound"@,
            NbtTagType::IntArray => "IntArray"@,
            NbtTagType::LongArray => "LongArray"@,
        }
    }

    /// The name of this kind.
    pub fn name(self) -> (name: &'static str)
        ensures
            name@ == self.spec_name(),
    {
        match self {
            NbtTagType::End => "End",
            NbtTagType::Byte => "Byte",
            NbtTagType::Short => "Short",
            NbtTagType::Int => "Int",
            NbtTagType::Long => "Long",
            NbtTagType::Float => "Float",
            NbtTagType::Double => "Double",
            NbtTagType::ByteArray => "ByteArray",
            NbtTagType::String => "String",
            NbtTagType::List => "List",
            NbtTagType::Compound => "Compound",
            NbtTagType::IntArray => "IntArray",
            NbtTagType::LongArray => "LongArray",
        }
    }

    /// The identifier of this kind.
    #[verifier::when_used_as_spec(spec_id)]
    pub fn id(self) -> (id: u8)
        ensures
            id == self.spec_id(),
            id <= 12,
    {
        match self {
            NbtTagType::End => 0,
            NbtTagType::Byte => 1,
            NbtTagType::Short => 2,
            NbtTagType::Int => 3,
            NbtTagType::Long => 4,
            NbtTagType::Float => 5,
            NbtTagType::Double => 6,
            NbtTagType::ByteArray => 7,
            NbtTagType::String => 8,
            NbtTagType::List => 9,
            NbtTagType::Compound => 10,
            NbtTagType::IntArray => 11,
            NbtTagType::LongArray => 12,
        }
    }
}

impl Default for NbtTagType {
    /// `End`, the kind of an empty list.
    fn default() -> (kind: NbtTagType)
        ensures
            kind == NbtTagType::End,
    {
        NbtTagType::End
    }
}

/// The digit `d` as text.
pub open spec fn digit_text(d: u8) -> Seq<char> {
    match d {
        0 => "0"@,
        1 => "1"@,
        2 => "2"@,
        3 => "3"@,
        4 => "4"@,
        5 => "5"@,
        6 => "6"@,
        7 => "7"@,
        8 => "8"@,
        _ => "9"@,
    }
}

/// The decimal digits of `n`, most significant first.
pub open spec fn decimal_text(n: nat) -> Seq<char>
    decreases n,
{
    if n < 10 {
        digit_text(n as u8)
    } else {
        decimal_text(n / 10) + digit_text((n % 10) as u8)
    }
}

/// The integer `v` as decimal text, with a minus sign where it is negative.
pub open spec fn integer_text(v: int) -> Seq<char> {
    if v < 0 {
        "-"@ + decimal_text((-v) as nat)
    } else {
        decimal_text(v as nat)
    }
}

/// Appends the decimal digits of `n`.
fn push_decimal(text: &mut String, n: u64)
    ensures
        final(text)@ == old(text)@ + decimal_text(n as nat),
    decreases n,
{
    if n >= 10 {
        push_decimal(text, n / 10);
    }
    let digit = match n % 10 {
        0 => "0",
        1 => "1",
        2 => "2",
        3 => "3",
        4 => "4",
        5 => "5",
        6 => "6",
        7 => "7",
        8 => "8",
        _ => "9",
    };
    text.append(digit);
    assert(text@ =~= old(text)@ + decimal_text(n as nat));
}

/// Appends the integer `v` as decimal text.
fn push_integer(text: &mut String, v: i64)
    ensures
        final(text)@ == old(text)@ + integer_text(v as int),
{
    if v < 0 {
        text.append("-");
        push_decimal(text, (-(v + 1)) as u64 + 1);
    } else {
        push_decimal(text, v as u64);
    }
    assert(text@ =~= old(text)@ + integer_text(v as int));
}

/// The mathematical value of a tag: the same tree, with sequences in place of
/// vectors and strings. Floating-point payloads are held as their IEEE-754 bit
/// patterns.
pub enum TagValue {
    End,
    Byte(i8),
    Short(i16),
    Int(i32),
    Long(i64),
    Float(u32),
    Double(u64),
    ByteArray(Seq<u8>),
    String(Seq<char>),
    List { nbt_type: NbtTagType, list: Seq<TagValue> },
    Compound { inner: Seq<(Seq<char>, TagValue)> },
    IntArray(Seq<i32>),
    LongArray(Seq<i64>),
}

impl TagValue {
    /// The kind of this tag.
    pub open spec fn tag_type(self) -> NbtTagType {
        match self {
            TagValue::End => NbtTagType::End,
            TagValue::Byte(_) => NbtTagType::Byte,
            TagValue::Short(_) => NbtTagType::Short,
            TagValue::Int(_) => NbtTagType::Int,
            TagValue::Long(_) => NbtTagType::Long,
            TagValue::Float(_) => NbtTagType::Float,
            TagValue::Double(_) => NbtTagType::Double,
            TagValue::ByteArray(_) => NbtTagType::ByteArray,
            TagValue::String(_) => NbtTagType::String,
            TagValue::List { .. } => NbtTagType::List,
            TagValue::Compound { .. } => NbtTagType::Compound,
            TagValue::IntArray(_) => NbtTagType::IntArray,
            TagValue::LongArray(_) => NbtTagType::LongArray,
        }
    }

    /// What a fault shows of this tag: the name of its kind and, for an
    /// integer, its value in brackets.
    pub open spec fn description(self) -> Seq<char> {
        match self {
            TagValue::Byte(v) => "Byte("@ + integer_text(v as int) + ")"@,
            TagValue::Short(v) => "Short("@ + integer_text(v as int) + ")"@,
            TagValue::Int(v) => "Int("@ + integer_text(v as int) + ")"@,
            TagValue::Long(v) => "Long("@ + integer_text(v as int) + ")"@,
            _ => self.tag_type().spec_name(),
        }
    }

    /// What the wire format can carry without loss: every element of a list is
    /// of the list's kind, no entry of a compound is an `End`, every array and
    /// list has a length that fits in 32 bits, and every string and name has a
    /// UTF-8 length that fits in 16 bits; and the same holds of every child.
    pub open spec fn wf(self) -> bool
        decreases self,
    {
        match self {
            TagValue::ByteArray(bytes) => bytes.len() <= u32::MAX,
            TagValue::String(text) => encode_utf8(text).len() <= u16::MAX,
            TagValue::List { nbt_type, list } => {
                &&& list.len() <= u32::MAX
                &&& forall|i: int|
                    0 <= i < list.len() ==> (#[trigger] list[i]).tag_type() == nbt_type
                        && list[i].wf()
            },
            TagValue::Compound { inner } => entries_wf(inner),
            TagValue::IntArray(ints) => ints.len() <= u32::MAX,
            TagValue::LongArray(longs) => longs.len() <= u32::MAX,
            _ => true,
        }
    }

    /// No chain of lists and compounds inside one another, this tag included,
    /// is longer than `depth`.
    pub open spec fn within_depth(self, depth: nat) -> bool
        decreases self,
    {
        match self {
            TagValue::List { nbt_type, list } => {
                &&& depth > 0
                &&& forall|i: int|
                    0 <= i < list.len() ==> (#[trigger] list[i]).within_depth((depth - 1) as nat)
            },
            TagValue::Compound { inner } => {
                &&& depth > 0
                &&& entries_within_depth(inner, (depth - 1) as nat)
            },
            _ => true,
        }
    }
}

/// Every entry has a name whose UTF-8 length fits in 16 bits and a
/// well-formed value that is not an `End`.
pub open spec fn entries_wf(entries: Seq<(Seq<char>, TagValue)>) -> bool
    decreases entries,
{
    forall|i: int|
        0 <= i < entries.len() ==> {
            &&& encode_utf8((#[trigger] entries[i]).0).len() <= u16::MAX
            &&& !(entries[i].1 is End)
            &&& entries[i].1.wf()
        }
}

/// The value of every entry is within `depth`.
pub open spec fn entries_within_depth(entries: Seq<(Seq<char>, TagValue)>, depth: nat) -> bool
    decreases entries,
{
    forall|i: int| 0 <= i < entries.len() ==> (#[trigger] entries[i]).1.within_depth(depth)
}

/// One node of a tag tree.
#[derive(Debug, PartialEq)]
pub enum NbtTag {
    /// Marks the end of a compound's entries on the wire; never a named value.
    End,
    Byte(i8),
    Short(i16),
    Int(i32),
    Long(i64),
    /// A 32-bit float, held as its IEEE-754 bit pattern.
    Float(u32),
    /// A 64-bit float, held as its IEEE-754 bit pattern.
    Double(u64),
    ByteArray(Vec<u8>),
    String(String),
    /// An ordered sequence of unnamed tags, all of kind `nbt_type`.
    List { nbt_type: NbtTagType, list: Vec<NbtTag> },
    /// Named tags, in the order in which they were put in.
    Compound { inner: Vec<(String, NbtTag)> },
    IntArray(Vec<i32>),
    LongArray(Vec<i64>),
}

/// The values of `tags`, in order.
pub open spec fn tags_view(tags: Seq<NbtTag>) -> Seq<TagValue>
    decreases tags,
{
    Seq::new(
        tags.len(),
        |i: int|
            if 0 <= i < tags.len() {
                tags[i].view()
            } else {
                TagValue::End
            },
    )
}

/// The names and values of `entries`, in order.
pub open spec fn entries_view(entries: Seq<(String, NbtTag)>) -> Seq<(Seq<char>, TagValue)>
    decreases entries,
{
    Seq::new(
        entries.len(),
        |i: int|
            if 0 <= i < entries.len() {
                (entries[i].0@, entries[i].1.view())
            } else {
                (Seq::empty(), TagValue::End)
            },
    )
}

impl View for NbtTag {
    type V = TagValue;

    open spec fn view(&self) -> TagValue
        decreases self,
    {
        match self {
            NbtTag::End => TagValue::End,
            NbtTag::Byte(v) => TagValue::Byte(*v),
            NbtTag::Short(v) => TagValue::Short(*v),
            NbtTag::Int(v) => TagValue::Int(*v),
            NbtTag::Long(v) => TagValue::Long(*v),
            NbtTag::Float(v) => TagValue::Float(*v),
            NbtTag::Double(v) => TagValue::Double(*v),
            NbtTag::ByteArray(v) => TagValue::ByteArray(v@),
            NbtTag::String(v) => TagValue::String(v@),
            NbtTag::List { nbt_type, list } => TagValue::List {
                nbt_type: *nbt_type,
                list: tags_view(list@),
            },
            NbtTag::Compound { inner } => TagValue::Compound { inner: entries_view(inner@) },
            NbtTag::IntArray(v) => TagValue::IntArray(v@),
            NbtTag::LongArray(v) => TagValue::LongArray(v@),
        }
    }
}

impl NbtTag {
    /// What a fault shows of this tag: the name of its kind and, for an
    /// integer, its value in brackets, as in `Long(5)`.
    pub fn describe(&self) -> (text: String)
        ensures
            text@ == self@.description(),
    {
        let (head, value): (&str, i64) = match self {
            NbtTag::Byte(v) => ("Byte(", *v as i64),
            NbtTag::Short(v) => ("Short(", *v as i64),
            NbtTag::Int(v) => ("Int(", *v as i64),
            NbtTag::Long(v) => ("Long(", *v),
            _ => {
                return self.tag_type().name().to_owned();
            },
        };
        let mut text = head.to_owned();
        push_integer(&mut text, value);
        text.append(")");
        text
    }

    /// Whether this tag is well-formed, so that encoding it loses nothing.
    pub fn is_well_formed(&self) -> (ok: bool)
        ensures
            ok == self@.wf(),
        decreases self,
    {
        match self {
            NbtTag::ByteArray(bytes) => bytes.len() as u64 <= 0xFFFF_FFFF,
            NbtTag::String(text) => text.as_str().as_bytes().len() <= 0xFFFF,
            NbtTag::List { nbt_type, list } => {
                if list.len() as u64 > 0xFFFF_FFFF {
                    return false;
                }
                let mut i: usize = 0;
                while i < list.len()
                    invariant
                        i <= list.len(),
                        list.len() <= u32::MAX,
                        self@ == (TagValue::List { nbt_type: *nbt_type, list: tags_view(list@) }),
                        forall|j: int| 0 <= j < list.len() ==> decreases_to!(self => list@[j]),
                        forall|j: int|
                            0 <= j < i ==> (#[trigger] tags_view(list@)[j]).tag_type() == *nbt_type
                                && tags_view(list@)[j].wf(),
                    decreases list.len() - i,
                {
                    if list[i].tag_type() != *nbt_type || !list[i].is_well_formed() {
                        assert(!(tags_view(list@)[i as int].tag_type() == *nbt_type && tags_view(
                            list@,
                        )[i as int].wf()));
                        return false;
                    }
                    i += 1;
                }
                true
            },
            NbtTag::Compound { inner } => entries_well_formed(inner),
            NbtTag::IntArray(ints) => ints.len() as u64 <= 0xFFFF_FFFF,
            NbtTag::LongArray(longs) => longs.len() as u64 <= 0xFFFF_FFFF,
            _ => true,
        }
    }

    /// Whether no chain of lists and compounds inside one another, this tag
    /// included, is longer than `depth`.
    pub fn is_within_depth(&self, depth: usize) -> (ok: bool)
        ensures
            ok == self@.within_depth(depth as nat),
        decreases self,
    {
        match self {
            NbtTag::List { nbt_type, list } => {
                if depth == 0 {
                    return false;
                }
                let mut i: usize = 0;
                while i < list.len()
                    invariant
                        i <= list.len(),
                        depth > 0,
                        self@ == (TagValue::List { nbt_type: *nbt_type, list: tags_view(list@) }),
                        forall|j: int| 0 <= j < list.len() ==> decreases_to!(self => list@[j]),
                        forall|j: int|
                            0 <= j < i ==> (#[trigger] tags_view(list@)[j]).within_depth(
                                (depth - 1) as nat,
                            ),
                    decreases list.len() - i,
                {
                    if !list[i].is_within_depth(depth - 1) {
                        let ghost all = self@->List_list;
                        assert(all[i as int] == list@[i as int]@);
                        assert(!all[i as int].within_depth((depth as nat - 1) as nat));
                        assert(!self@.within_depth(depth as nat));
                        return false;
                    }
                    i += 1;
                }
                true
            },
            NbtTag::Compound { inner } => {
                if depth == 0 {
                    return false;
                }
                entries_are_within_depth(inner, depth - 1)
            },
            _ => true,
        }
    }

    /// The kind of this tag.
    pub fn tag_type(&self) -> (kind: NbtTagType)
        ensures
            kind == self@.tag_type(),
    {
        match self {
            NbtTag::End => NbtTagType::End,
            NbtTag::Byte(_) => NbtTagType::Byte,
            NbtTag::Short(_) => NbtTagType::Short,
            NbtTag::Int(_) => NbtTagType::Int,
            NbtTag::Long(_) => NbtTagType::Long,
            NbtTag::Float(_) => NbtTagType::Float,
            NbtTag::Double(_) => NbtTagType::Double,
            NbtTag::ByteArray(_) => NbtTagType::ByteArray,
            NbtTag::String(_) => NbtTagType::String,
            NbtTag::List { .. } => NbtTagType::List,
            NbtTag::Compound { .. } => NbtTagType::Compound,
            NbtTag::IntArray(_) => NbtTagType::IntArray,
            NbtTag::LongArray(_) => NbtTagType::LongArray,
        }
    }
}

/// Whether every entry has a name whose UTF-8 length fits in 16 bits and a
/// well-formed value that is not an `End`.
pub fn entries_well_formed(entries: &Vec<(String, NbtTag)>) -> (ok: bool)
    ensures
        ok == entries_wf(entries_view(entries@)),
    decreases entries,
{
    let ghost all = entries_view(entries@);
    let mut i: usize = 0;
    while i < entries.len()
        invariant
            i <= entries.len(),
            all == entries_view(entries@),
            forall|j: int|
                0 <= j < i ==> {
                    &&& encode_utf8((#[trigger] all[j]).0).len() <= u16::MAX
                    &&& !(all[j].1 is End)
                    &&& all[j].1.wf()
                },
        decreases entries.len() - i,
    {
        let entry = &entries[i];
        if entry.0.as_str().as_bytes().len() > 0xFFFF || entry.1.tag_type() == NbtTagType::End
            || !entry.1.is_well_formed() {
            assert(!(encode_utf8(all[i as int].0).len() <= u16::MAX && !(all[i as int].1 is End)
                && all[i as int].1.wf()));
            return false;
        }
        i += 1;
    }
    true
}

/// Whether the value of every entry is within `depth`.
pub fn entries_are_within_depth(entries: &Vec<(String, NbtTag)>, depth: usize) -> (ok: bool)
    ensures
        ok == entries_within_depth(entries_view(entries@), depth as nat),
    decreases entries,
{
    let ghost all = entries_view(entries@);
    let mut i: usize = 0;
    while i < entries.len()
        invariant
            i <= entries.len(),
            all == entries_view(entries@),
            forall|j: int| 0 <= j < i ==> (#[trigger] all[j]).1.within_depth(depth as nat),
        decreases entries.len() - i,
    {
        if !entries[i].1.is_within_depth(depth) {
            assert(!all[i as int].1.within_depth(depth as nat));
            return false;
        }
        i += 1;
    }
    true
}

} // verus!
