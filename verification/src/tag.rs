//! The tag data model: the thirteen-kind discriminator `TagId`, the
//! twelve payload-bearing tree kinds of `Tag`, and the ghost mirror
//! `SpecTag` over mathematical sequences that all contracts speak of.

use vstd::prelude::*;

verus! {

/// Wire discriminator of a tag. `End` terminates compounds and marks the
/// element kind of an empty list; it never carries a payload of its own.
#[derive(Debug, Clone, Copy, PartialEq, Eq, Structural)]
pub enum TagId {
    End,
    Byte,
    Short,
    Int,
    Long,
    Float,
    Double,
    ByteArray,
    String,
    List,
    Compound,
    IntArray,
    LongArray,
}

/// Failure of mapping a byte to a `TagId`, or of meeting `End` where a
/// payload-bearing tag was required.
#[derive(Debug, Clone, Copy, PartialEq, Eq, Structural)]
pub enum TagIDError {
    UnexpectedEnd,
    UnknownType,
}

/// The wire byte of each `TagId`.
pub open spec fn spec_tag_id_byte(t: TagId) -> u8 {
    match t {
        TagId::End => 0,
        TagId::Byte => 1,
        TagId::Short => 2,
        TagId::Int => 3,
        TagId::Long => 4,
        TagId::Float => 5,
        TagId::Double => 6,
        TagId::ByteArray => 7,
        TagId::String => 8,
        TagId::List => 9,
        TagId::Compound => 10,
        TagId::IntArray => 11,
        TagId::LongArray => 12,
    }
}

/// The `TagId` encoded by a byte, if the byte is in range.
pub open spec fn spec_tag_id_of_byte(b: u8) -> Option<TagId> {
    if b == 0 {
        Some(TagId::End)
    } else if b == 1 {
        Some(TagId::Byte)
    } else if b == 2 {
        Some(TagId::Short)
    } else if b == 3 {
        Some(TagId::Int)
    } else if b == 4 {
        Some(TagId::Long)
    } else if b == 5 {
        Some(TagId::Float)
    } else if b == 6 {
        Some(TagId::Double)
    } else if b == 7 {
        Some(TagId::ByteArray)
    } else if b == 8 {
        Some(TagId::String)
    } else if b == 9 {
        Some(TagId::List)
    } else if b == 10 {
        Some(TagId::Compound)
    } else if b == 11 {
        Some(TagId::IntArray)
    } else if b == 12 {
        Some(TagId::LongArray)
    } else {
        None
    }
}

impl TagId {
    /// The single wire byte of this discriminator.
    pub fn to_byte(self) -> (b: u8)
        ensures
            b == spec_tag_id_byte(self),
    {
        match self {
            TagId::End => 0,
            TagId::Byte => 1,
            TagId::Short => 2,
            TagId::Int => 3,
            TagId::Long => 4,
            TagId::Float => 5,
            TagId::Double => 6,
            TagId::ByteArray => 7,
            TagId::String => 8,
            TagId::List => 9,
            TagId::Compound => 10,
            TagId::IntArray => 11,
            TagId::LongArray => 12,
        }
    }

    /// Maps a wire byte back to its discriminator; bytes above 12 are
    /// rejected with `TagIDError::UnknownType`.
    pub fn from_byte(value: u8) -> (r: Result<TagId, TagIDError>)
        ensures
            match spec_tag_id_of_byte(value) {
                Some(t) => r == Ok::<TagId, TagIDError>(t),
                None => r == Err::<TagId, TagIDError>(TagIDError::UnknownType),
            },
    {
        match value {
            0 => Ok(TagId::End),
            1 => Ok(TagId::Byte),
            2 => Ok(TagId::Short),
            3 => Ok(TagId::Int),
            4 => Ok(TagId::Long),
            5 => Ok(TagId::Float),
            6 => Ok(TagId::Double),
            7 => Ok(TagId::ByteArray),
            8 => Ok(TagId::String),
            9 => Ok(TagId::List),
            10 => Ok(TagId::Compound),
            11 => Ok(TagId::IntArray),
            12 => Ok(TagId::LongArray),
            _ => Err(TagIDError::UnknownType),
        }
    }
}

/// Endianness and integer-encoding dialect of a stream.
///
/// `LittleVarInt` keeps 8-bit and 16-bit scalars and both float widths as
/// little-endian fixed-width values, but encodes `Int`, `Long` and every
/// list or array length as a zig-zag varint, and string lengths as an
/// unsigned varint.
#[derive(Debug, Clone, Copy, PartialEq, Eq, Structural)]
pub enum Endian {
    Big,
    Little,
    LittleVarInt,
}

/// Whether a stream carries the 8-byte Bedrock file header
/// (`storage_version: u32 | payload_length: u32`, both little-endian).
#[derive(Debug, Clone, Copy, PartialEq, Eq, Structural)]
pub enum BedrockHeader {
    With,
    Without,
}

pub type ByteTag = i8;

pub type ShortTag = i16;

pub type IntTag = i32;

pub type LongTag = i64;

/// Text payloads are kept as their raw length-prefixed wire bytes.  The
/// format's modified-UTF-8 edge cases (embedded NUL, surrogate pairs) are
/// thus preserved verbatim and round-trip bit-exactly.
pub type StringTag = Vec<u8>;

pub type ListTag<T> = Vec<T>;

/// An ordered sequence of signed 8-bit integers, wire-distinct from a
/// `List` of `Byte` tags.
#[derive(Debug, PartialEq)]
pub struct ByteArrayTag(pub Vec<i8>);

/// An ordered sequence of signed 32-bit integers, wire-distinct from a
/// `List` of `Int` tags.
#[derive(Debug, PartialEq)]
pub struct IntArrayTag(pub Vec<i32>);

/// An ordered sequence of signed 64-bit integers, wire-distinct from a
/// `List` of `Long` tags.
#[derive(Debug, PartialEq)]
pub struct LongArrayTag(pub Vec<i64>);

/// An ordered mapping from text keys to tags that preserves insertion
/// order, which is the serialization order.  Well-formed compounds carry
/// each key at most once.
#[derive(Debug, PartialEq)]
pub struct CompoundTag {
    pub entries: Vec<(StringTag, Tag)>,
}

/// A tag tree node.  `Float` and `Double` hold the IEEE-754 bit patterns
/// of their payloads, which keeps every dialect bit-exact.
#[derive(Debug, PartialEq)]
pub enum Tag {
    Byte(ByteTag),
    Short(ShortTag),
    Int(IntTag),
    Long(LongTag),
    Float(u32),
    Double(u64),
    ByteArray(ByteArrayTag),
    String(StringTag),
    List(ListTag<Tag>),
    Compound(CompoundTag),
    IntArray(IntArrayTag),
    LongArray(LongArrayTag),
}

/// The ghost mirror of `Tag` over mathematical sequences; every contract
/// of the codec and the binding layer is stated over this type.
pub enum SpecTag {
    Byte(i8),
    Short(i16),
    Int(i32),
    Long(i64),
    Float(u32),
    Double(u64),
    ByteArray(Seq<i8>),
    String(Seq<u8>),
    List(Seq<SpecTag>),
    Compound(Seq<(Seq<u8>, SpecTag)>),
    IntArray(Seq<i32>),
    LongArray(Seq<i64>),
}

/// The discriminator of a ghost tag.
pub open spec fn spec_tag_id(t: SpecTag) -> TagId {
    match t {
        SpecTag::Byte(_) => TagId::Byte,
        SpecTag::Short(_) => TagId::Short,
        SpecTag::Int(_) => TagId::Int,
        SpecTag::Long(_) => TagId::Long,
        SpecTag::Float(_) => TagId::Float,
        SpecTag::Double(_) => TagId::Double,
        SpecTag::ByteArray(_) => TagId::ByteArray,
        SpecTag::String(_) => TagId::String,
        SpecTag::List(_) => TagId::List,
        SpecTag::Compound(_) => TagId::Compound,
        SpecTag::IntArray(_) => TagId::IntArray,
        SpecTag::LongArray(_) => TagId::LongArray,
    }
}

/// The ghost tree mirrored by an executable tag tree.
pub open spec fn tag_view(t: Tag) -> SpecTag
    decreases t, 0int,
    via tag_view_decreases
{
    match t {
        Tag::Byte(v) => SpecTag::Byte(v),
        Tag::Short(v) => SpecTag::Short(v),
        Tag::Int(v) => SpecTag::Int(v),
        Tag::Long(v) => SpecTag::Long(v),
        Tag::Float(b) => SpecTag::Float(b),
        Tag::Double(b) => SpecTag::Double(b),
        Tag::ByteArray(a) => SpecTag::ByteArray(a.0@),
        Tag::String(s) => SpecTag::String(s@),
        Tag::List(l) => SpecTag::List(tags_view(l@)),
        Tag::Compound(c) => SpecTag::Compound(entries_view(c.entries@)),
        Tag::IntArray(a) => SpecTag::IntArray(a.0@),
        Tag::LongArray(a) => SpecTag::LongArray(a.0@),
    }
}

/// Elementwise ghost view of a sequence of tags.
pub open spec fn tags_view(s: Seq<Tag>) -> Seq<SpecTag>
    decreases s, 1int,
{
    if s.len() == 0 {
        Seq::empty()
    } else {
        seq![tag_view(s[0])] + tags_view(s.subrange(1, s.len() as int))
    }
}

/// Elementwise ghost view of a sequence of compound entries.
pub open spec fn entries_view(s: Seq<(StringTag, Tag)>) -> Seq<(Seq<u8>, SpecTag)>
    decreases s, 1int,
{
    if s.len() == 0 {
        Seq::empty()
    } else {
        seq![(s[0].0@, tag_view(s[0].1))] + entries_view(s.subrange(1, s.len() as int))
    }
}

#[via_fn]
proof fn tag_view_decreases(t: Tag) {
    match t {
        Tag::List(l) => {
            assert(decreases_to!(t => l));
            assert(decreases_to!(l => l@));
        },
        Tag::Compound(c) => {
            assert(decreases_to!(t => c));
            assert(decreases_to!(c => c.entries));
            assert(decreases_to!(c.entries => c.entries@));
        },
        _ => {},
    }
}

/// The view of a tag sequence has the view of each element, in place.
pub proof fn lemma_tags_view_index(s: Seq<Tag>)
    ensures
        tags_view(s).len() == s.len(),
        forall|i: int| 0 <= i < s.len() ==> tags_view(s)[i] == tag_view(#[trigger] s[i]),
    decreases s.len(),
{
    if s.len() > 0 {
        let sub = s.subrange(1, s.len() as int);
        lemma_tags_view_index(sub);
        assert forall|i: int| 0 <= i < s.len() implies tags_view(s)[i] == tag_view(
            #[trigger] s[i],
        ) by {
            if i > 0 {
                assert(sub[i - 1] == s[i]);
                assert(tags_view(s)[i] == tags_view(sub)[i - 1]);
            }
        }
    }
}

/// The view of an entry sequence pairs each key's bytes with the view of
/// its tag, in place.
pub proof fn lemma_entries_view_index(s: Seq<(StringTag, Tag)>)
    ensures
        entries_view(s).len() == s.len(),
        forall|i: int|
            0 <= i < s.len() ==> entries_view(s)[i] == ((#[trigger] s[i]).0@, tag_view(s[i].1)),
    decreases s.len(),
{
    if s.len() > 0 {
        let sub = s.subrange(1, s.len() as int);
        lemma_entries_view_index(sub);
        assert forall|i: int|
            0 <= i < s.len() implies entries_view(s)[i] == ((#[trigger] s[i]).0@, tag_view(
            s[i].1,
        )) by {
            if i > 0 {
                assert(sub[i - 1] == s[i]);
                assert(entries_view(s)[i] == entries_view(sub)[i - 1]);
            }
        }
    }
}

impl View for Tag {
    type V = SpecTag;

    open spec fn view(&self) -> SpecTag {
        tag_view(*self)
    }
}

impl View for CompoundTag {
    type V = Seq<(Seq<u8>, SpecTag)>;

    open spec fn view(&self) -> Seq<(Seq<u8>, SpecTag)> {
        entries_view(self.entries@)
    }
}

impl Tag {
    /// The discriminator of this tag.
    pub fn id(&self) -> (r: TagId)
        ensures
            r == spec_tag_id(self@),
    {
        match self {
            Tag::Byte(_) => TagId::Byte,
            Tag::Short(_) => TagId::Short,
            Tag::Int(_) => TagId::Int,
            Tag::Long(_) => TagId::Long,
            Tag::Float(_) => TagId::Float,
            Tag::Double(_) => TagId::Double,
            Tag::ByteArray(_) => TagId::ByteArray,
            Tag::String(_) => TagId::String,
            Tag::List(_) => TagId::List,
            Tag::Compound(_) => TagId::Compound,
            Tag::IntArray(_) => TagId::IntArray,
            Tag::LongArray(_) => TagId::LongArray,
        }
    }
}

/// The keys of a ghost compound entry sequence, in order.
pub open spec fn entry_names(s: Seq<(Seq<u8>, SpecTag)>) -> Seq<Seq<u8>> {
    Seq::new(s.len(), |i: int| s[i].0)
}

/// Well-formedness of a ghost tag tree: every list is homogeneous (all
/// element discriminators equal) and every compound carries each key at
/// most once, recursively.
pub open spec fn tag_wf(t: SpecTag) -> bool
    decreases t,
{
    match t {
        SpecTag::List(l) => tags_wf(l) && (forall|i: int|
            0 <= i < l.len() ==> spec_tag_id(#[trigger] l[i]) == spec_tag_id(l[0])),
        SpecTag::Compound(s) => entries_wf(s) && (forall|i: int, j: int|
            0 <= i < j < s.len() ==> s[i].0 != s[j].0),
        _ => true,
    }
}

/// `tag_wf` of every element of a list body.
pub open spec fn tags_wf(s: Seq<SpecTag>) -> bool
    decreases s,
{
    if s.len() == 0 {
        true
    } else {
        tag_wf(s[0]) && tags_wf(s.subrange(1, s.len() as int))
    }
}

/// `tag_wf` of every entry value of a compound body.
pub open spec fn entries_wf(s: Seq<(Seq<u8>, SpecTag)>) -> bool
    decreases s,
{
    if s.len() == 0 {
        true
    } else {
        tag_wf(s[0].1) && entries_wf(s.subrange(1, s.len() as int))
    }
}

/// Every element of a well-formed list body is itself well-formed.
pub proof fn lemma_tags_wf_elem(s: Seq<SpecTag>, i: int)
    requires
        tags_wf(s),
        0 <= i < s.len(),
    ensures
        tag_wf(s[i]),
    decreases i,
{
    if i > 0 {
        lemma_tags_wf_elem(s.subrange(1, s.len() as int), i - 1);
    }
}

/// Every entry value of a well-formed compound body is well-formed.
pub proof fn lemma_entries_wf_elem(s: Seq<(Seq<u8>, SpecTag)>, i: int)
    requires
        entries_wf(s),
        0 <= i < s.len(),
    ensures
        tag_wf(s[i].1),
    decreases i,
{
    if i > 0 {
        lemma_entries_wf_elem(s.subrange(1, s.len() as int), i - 1);
    }
}

impl CompoundTag {
    /// An empty compound.
    pub fn new() -> (r: CompoundTag)
        ensures
            r@ == Seq::<(Seq<u8>, SpecTag)>::empty(),
    {
        let r = CompoundTag { entries: Vec::new() };
        proof {
            assert(r@ =~= Seq::<(Seq<u8>, SpecTag)>::empty());
        }
        r
    }

    /// The number of entries.
    pub fn len(&self) -> (n: usize)
        ensures
            n == self@.len(),
    {
        proof {
            lemma_entries_view_index(self.entries@);
        }
        self.entries.len()
    }

    /// Appends an entry at the end of the insertion order.  The caller is
    /// responsible for not repeating a key that is already present.
    pub fn push(&mut self, name: StringTag, value: Tag)
        ensures
            final(self)@ == old(self)@.push((name@, value@)),
    {
        self.entries.push((name, value));
        proof {
            lemma_entries_view_index(old(self).entries@);
            lemma_entries_view_index(self.entries@);
            assert forall|i: int| 0 <= i < old(self)@.len() implies self@[i] == old(self)@[i] by {
                assert(self.entries@[i] == old(self).entries@[i]);
            }
            assert(self.entries@[old(self)@.len() as int] == (name, value));
            assert(self@ =~= old(self)@.push((name@, value@)));
        }
    }
}


/// Pushing a tag onto a sequence pushes its view onto the view sequence.
pub proof fn lemma_tags_view_push(s: Seq<Tag>, t: Tag)
    ensures
        tags_view(s.push(t)) == tags_view(s).push(tag_view(t)),
{
    lemma_tags_view_index(s);
    lemma_tags_view_index(s.push(t));
    assert forall|j: int| 0 <= j < s.push(t).len() implies tags_view(s.push(t))[j] == tags_view(
        s,
    ).push(tag_view(t))[j] by {
        if j < s.len() {
            assert(s.push(t)[j] == s[j]);
        } else {
            assert(s.push(t)[j] == t);
        }
    }
    assert(tags_view(s.push(t)) =~= tags_view(s).push(tag_view(t)));
}

/// Pushing an entry onto a sequence pushes its view onto the view
/// sequence.
pub proof fn lemma_entries_view_push(s: Seq<(StringTag, Tag)>, p: (StringTag, Tag))
    ensures
        entries_view(s.push(p)) == entries_view(s).push((p.0@, tag_view(p.1))),
{
    lemma_entries_view_index(s);
    lemma_entries_view_index(s.push(p));
    assert forall|j: int|
        0 <= j < s.push(p).len() implies entries_view(s.push(p))[j] == entries_view(s).push(
        (p.0@, tag_view(p.1)),
    )[j] by {
        if j < s.len() {
            assert(s.push(p)[j] == s[j]);
        } else {
            assert(s.push(p)[j] == p);
        }
    }
    assert(entries_view(s.push(p)) =~= entries_view(s).push((p.0@, tag_view(p.1))));
}

/// Pushing an entry pushes its key onto the key sequence.
pub proof fn lemma_entry_names_push(s: Seq<(Seq<u8>, SpecTag)>, p: (Seq<u8>, SpecTag))
    ensures
        entry_names(s.push(p)) == entry_names(s).push(p.0),
{
    assert(entry_names(s.push(p)) =~= entry_names(s).push(p.0));
}

} // verus!
