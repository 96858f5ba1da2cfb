//! The producer side of the binding layer: user values described by the
//! `Value` tree are translated to tags, mapping each declared shape onto
//! the tag kind the format requires, with the three distinguished array
//! wrappers kept wire-distinct from plain sequences.

use vstd::prelude::*;

use crate::tag::CompoundTag;
use crate::tag::SpecTag;
use crate::tag::StringTag;
use crate::tag::Tag;
use crate::tag::entries_view;
use crate::tag::lemma_entries_view_push;
use crate::tag::lemma_tags_view_push;
use crate::tag::tag_view;
use crate::tag::tags_view;
use crate::wire::i16_of_u16;
use crate::wire::i32_of_u32;
use crate::wire::i64_of_u64;
use crate::wire::i8_of_u8;
use crate::wire::u64_to_i16;
use crate::wire::u64_to_i32;
use crate::wire::u64_to_i64;
use crate::wire::u8_to_i8;

verus! {

/// Failure of the producer: the value held a shape the format cannot
/// carry.
#[derive(Debug, PartialEq)]
pub struct SerializeError(pub StringTag);

/// A user value handed to the binding layer.  Floats travel as their
/// IEEE-754 bit patterns; text as raw bytes; the three array wrappers
/// are distinguished from a plain `List` of numbers, as the wire is.
#[derive(Debug, PartialEq)]
pub enum Value {
    Bool(bool),
    I8(i8),
    I16(i16),
    I32(i32),
    I64(i64),
    U8(u8),
    U16(u16),
    U32(u32),
    U64(u64),
    F32Bits(u32),
    F64Bits(u64),
    Text(Vec<u8>),
    Bytes(Vec<u8>),
    ByteArray(Vec<i8>),
    IntArray(Vec<i32>),
    LongArray(Vec<i64>),
    List(Vec<Value>),
    Record(Vec<(Vec<u8>, Value)>),
    UnitVariant(Vec<u8>),
    NewtypeVariant(Vec<u8>, Box<Value>),
    Unit,
}

/// The ghost mirror of `Value`.
pub enum SpecValue {
    Bool(bool),
    I8(i8),
    I16(i16),
    I32(i32),
    I64(i64),
    U8(u8),
    U16(u16),
    U32(u32),
    U64(u64),
    F32Bits(u32),
    F64Bits(u64),
    Text(Seq<u8>),
    Bytes(Seq<u8>),
    ByteArray(Seq<i8>),
    IntArray(Seq<i32>),
    LongArray(Seq<i64>),
    List(Seq<SpecValue>),
    Record(Seq<(Seq<u8>, SpecValue)>),
    UnitVariant(Seq<u8>),
    NewtypeVariant(Seq<u8>, Box<SpecValue>),
    Unit,
}

/// The ghost value mirrored by an executable value.
pub open spec fn value_view(v: Value) -> SpecValue
    decreases v, 0int,
    via value_view_decreases
{
    match v {
        Value::Bool(b) => SpecValue::Bool(b),
        Value::I8(x) => SpecValue::I8(x),
        Value::I16(x) => SpecValue::I16(x),
        Value::I32(x) => SpecValue::I32(x),
        Value::I64(x) => SpecValue::I64(x),
        Value::U8(x) => SpecValue::U8(x),
        Value::U16(x) => SpecValue::U16(x),
        Value::U32(x) => SpecValue::U32(x),
        Value::U64(x) => SpecValue::U64(x),
        Value::F32Bits(b) => SpecValue::F32Bits(b),
        Value::F64Bits(b) => SpecValue::F64Bits(b),
        Value::Text(s) => SpecValue::Text(s@),
        Value::Bytes(s) => SpecValue::Bytes(s@),
        Value::ByteArray(a) => SpecValue::ByteArray(a@),
        Value::IntArray(a) => SpecValue::IntArray(a@),
        Value::LongArray(a) => SpecValue::LongArray(a@),
        Value::List(items) => SpecValue::List(values_view(items@)),
        Value::Record(fields) => SpecValue::Record(fields_view(fields@)),
        Value::UnitVariant(n) => SpecValue::UnitVariant(n@),
        Value::NewtypeVariant(n, b) => SpecValue::NewtypeVariant(n@, Box::new(value_view(*b))),
        Value::Unit => SpecValue::Unit,
    }
}

/// Elementwise ghost view of a sequence of values.
pub open spec fn values_view(s: Seq<Value>) -> Seq<SpecValue>
    decreases s, 1int,
{
    if s.len() == 0 {
        Seq::empty()
    } else {
        seq![value_view(s[0])] + values_view(s.subrange(1, s.len() as int))
    }
}

/// Elementwise ghost view of a sequence of named fields.
pub open spec fn fields_view(s: Seq<(Vec<u8>, Value)>) -> Seq<(Seq<u8>, SpecValue)>
    decreases s, 1int,
{
    if s.len() == 0 {
        Seq::empty()
    } else {
        seq![(s[0].0@, value_view(s[0].1))] + fields_view(s.subrange(1, s.len() as int))
    }
}

#[via_fn]
proof fn value_view_decreases(v: Value) {
    match v {
        Value::List(items) => {
            assert(decreases_to!(v => items));
            assert(decreases_to!(items => items@));
        },
        Value::Record(fields) => {
            assert(decreases_to!(v => fields));
            assert(decreases_to!(fields => fields@));
        },
        Value::NewtypeVariant(n, b) => {
            assert(decreases_to!(v => b));
        },
        _ => {},
    }
}

pub proof fn lemma_values_view_index(s: Seq<Value>)
    ensures
        values_view(s).len() == s.len(),
        forall|i: int| 0 <= i < s.len() ==> values_view(s)[i] == value_view(#[trigger] s[i]),
    decreases s.len(),
{
    if s.len() > 0 {
        let sub = s.subrange(1, s.len() as int);
        lemma_values_view_index(sub);
        assert forall|i: int| 0 <= i < s.len() implies values_view(s)[i] == value_view(
            #[trigger] s[i],
        ) by {
            if i > 0 {
                assert(sub[i - 1] == s[i]);
                assert(values_view(s)[i] == values_view(sub)[i - 1]);
            }
        }
    }
}

pub proof fn lemma_fields_view_index(s: Seq<(Vec<u8>, Value)>)
    ensures
        fields_view(s).len() == s.len(),
        forall|i: int|
            0 <= i < s.len() ==> fields_view(s)[i] == ((#[trigger] s[i]).0@, value_view(s[i].1)),
    decreases s.len(),
{
    if s.len() > 0 {
        let sub = s.subrange(1, s.len() as int);
        lemma_fields_view_index(sub);
        assert forall|i: int|
            0 <= i < s.len() implies fields_view(s)[i] == ((#[trigger] s[i]).0@, value_view(
            s[i].1,
        )) by {
            if i > 0 {
                assert(sub[i - 1] == s[i]);
                assert(fields_view(s)[i] == fields_view(sub)[i - 1]);
            }
        }
    }
}

impl View for Value {
    type V = SpecValue;

    open spec fn view(&self) -> SpecValue {
        value_view(*self)
    }
}

/// The tag a ghost value produces, or `None` where the format has no
/// kind for it.  Unsigned widths are reinterpreted into the equally wide
/// signed kinds; booleans collapse to `Byte` 0 or 1; a unit-variant
/// enum becomes a `String`, a payload variant a one-entry `Compound`.
pub open spec fn spec_to_tag(v: SpecValue) -> Option<SpecTag>
    decreases v, 0int,
{
    match v {
        SpecValue::Bool(b) => Some(
            SpecTag::Byte(
                if b {
                    1
                } else {
                    0
                },
            ),
        ),
        SpecValue::I8(x) => Some(SpecTag::Byte(x)),
        SpecValue::I16(x) => Some(SpecTag::Short(x)),
        SpecValue::I32(x) => Some(SpecTag::Int(x)),
        SpecValue::I64(x) => Some(SpecTag::Long(x)),
        SpecValue::U8(x) => Some(SpecTag::Byte(i8_of_u8(x as int) as i8)),
        SpecValue::U16(x) => Some(SpecTag::Short(i16_of_u16(x as int) as i16)),
        SpecValue::U32(x) => Some(SpecTag::Int(i32_of_u32(x as int) as i32)),
        SpecValue::U64(x) => Some(SpecTag::Long(i64_of_u64(x as int) as i64)),
        SpecValue::F32Bits(b) => Some(SpecTag::Float(b)),
        SpecValue::F64Bits(b) => Some(SpecTag::Double(b)),
        SpecValue::Text(s) => Some(SpecTag::String(s)),
        SpecValue::Bytes(s) => Some(
            SpecTag::ByteArray(Seq::new(s.len(), |i: int| i8_of_u8(s[i] as int) as i8)),
        ),
        SpecValue::ByteArray(a) => Some(SpecTag::ByteArray(a)),
        SpecValue::IntArray(a) => Some(SpecTag::IntArray(a)),
        SpecValue::LongArray(a) => Some(SpecTag::LongArray(a)),
        SpecValue::List(items) => match spec_to_tags(items) {
            Some(ts) => Some(SpecTag::List(ts)),
            None => None,
        },
        SpecValue::Record(fields) => match spec_to_entries(fields) {
            Some(es) => Some(SpecTag::Compound(es)),
            None => None,
        },
        SpecValue::UnitVariant(n) => Some(SpecTag::String(n)),
        SpecValue::NewtypeVariant(n, b) => match spec_to_tag(*b) {
            Some(t) => Some(SpecTag::Compound(seq![(n, t)])),
            None => None,
        },
        SpecValue::Unit => None,
    }
}

/// The tags a sequence of ghost values produces, if every one produces.
pub open spec fn spec_to_tags(s: Seq<SpecValue>) -> Option<Seq<SpecTag>>
    decreases s, 1int,
{
    if s.len() == 0 {
        Some(Seq::empty())
    } else {
        match spec_to_tag(s[0]) {
            Some(t) => match spec_to_tags(s.subrange(1, s.len() as int)) {
                Some(ts) => Some(seq![t] + ts),
                None => None,
            },
            None => None,
        }
    }
}

/// The compound entries a record's fields produce, in declaration order.
pub open spec fn spec_to_entries(s: Seq<(Seq<u8>, SpecValue)>) -> Option<
    Seq<(Seq<u8>, SpecTag)>,
>
    decreases s, 1int,
{
    if s.len() == 0 {
        Some(Seq::empty())
    } else {
        match spec_to_tag(s[0].1) {
            Some(t) => match spec_to_entries(s.subrange(1, s.len() as int)) {
                Some(es) => Some(seq![(s[0].0, t)] + es),
                None => None,
            },
            None => None,
        }
    }
}

/// The per-kind constructors of the producer, mirrored as methods.
#[derive(Debug, Clone, Copy, PartialEq, Eq, Structural)]
pub struct TagSerializer;

impl TagSerializer {
    /// A boolean collapses to `Byte` 1 or 0.
    pub fn serialize_bool(self, v: bool) -> (t: Tag)
        ensures
            t@ == SpecTag::Byte(
                if v {
                    1i8
                } else {
                    0i8
                },
            ),
    {
        Tag::Byte(
            if v {
                1
            } else {
                0
            },
        )
    }

    pub fn serialize_i8(self, v: i8) -> (t: Tag)
        ensures
            t@ == SpecTag::Byte(v),
    {
        Tag::Byte(v)
    }

    pub fn serialize_i16(self, v: i16) -> (t: Tag)
        ensures
            t@ == SpecTag::Short(v),
    {
        Tag::Short(v)
    }

    pub fn serialize_i32(self, v: i32) -> (t: Tag)
        ensures
            t@ == SpecTag::Int(v),
    {
        Tag::Int(v)
    }

    pub fn serialize_i64(self, v: i64) -> (t: Tag)
        ensures
            t@ == SpecTag::Long(v),
    {
        Tag::Long(v)
    }

    /// An unsigned 8-bit value is reinterpreted into `Byte`.
    pub fn serialize_u8(self, v: u8) -> (t: Tag)
        ensures
            t@ == SpecTag::Byte(i8_of_u8(v as int) as i8),
    {
        Tag::Byte(u8_to_i8(v))
    }

    /// An unsigned 16-bit value is reinterpreted into `Short`.
    pub fn serialize_u16(self, v: u16) -> (t: Tag)
        ensures
            t@ == SpecTag::Short(i16_of_u16(v as int) as i16),
    {
        Tag::Short(u64_to_i16(v as u64))
    }

    /// An unsigned 32-bit value is reinterpreted into `Int`.
    pub fn serialize_u32(self, v: u32) -> (t: Tag)
        ensures
            t@ == SpecTag::Int(i32_of_u32(v as int) as i32),
    {
        Tag::Int(u64_to_i32(v as u64))
    }

    /// An unsigned 64-bit value is reinterpreted into `Long`.
    pub fn serialize_u64(self, v: u64) -> (t: Tag)
        ensures
            t@ == SpecTag::Long(i64_of_u64(v as int) as i64),
    {
        Tag::Long(u64_to_i64(v))
    }

    /// A 32-bit float travels as its bit pattern.
    pub fn serialize_f32_bits(self, bits: u32) -> (t: Tag)
        ensures
            t@ == SpecTag::Float(bits),
    {
        Tag::Float(bits)
    }

    /// A 64-bit float travels as its bit pattern.
    pub fn serialize_f64_bits(self, bits: u64) -> (t: Tag)
        ensures
            t@ == SpecTag::Double(bits),
    {
        Tag::Double(bits)
    }

    /// Text becomes a `String` tag holding its raw bytes.
    pub fn serialize_str(self, v: StringTag) -> (t: Tag)
        ensures
            t@ == SpecTag::String(v@),
    {
        Tag::String(v)
    }

    /// A unit enum variant becomes a `String` holding the variant name.
    pub fn serialize_unit_variant(self, variant: StringTag) -> (t: Tag)
        ensures
            t@ == SpecTag::String(variant@),
    {
        Tag::String(variant)
    }

    /// A payload-bearing enum variant becomes a one-entry `Compound`
    /// keyed by the variant name.
    pub fn serialize_newtype_variant(self, variant: StringTag, value: Tag) -> (t: Tag)
        ensures
            t@ == SpecTag::Compound(seq![(variant@, value@)]),
    {
        let ghost vs = variant@;
        let ghost tv = value@;
        let mut c = CompoundTag::new();
        c.push(variant, value);
        proof {
            assert(c@ =~= seq![(vs, tv)]);
        }
        Tag::Compound(c)
    }
}

/// A list under construction on the producer side.
#[derive(Debug, PartialEq)]
pub struct SerializeList {
    pub elements: Vec<Tag>,
}

impl SerializeList {
    /// An empty list builder.
    pub fn new() -> (r: SerializeList)
        ensures
            tags_view(r.elements@) == Seq::<SpecTag>::empty(),
    {
        let r = SerializeList { elements: Vec::new() };
        proof {
            assert(tags_view(r.elements@) =~= Seq::<SpecTag>::empty());
        }
        r
    }

    /// Appends one serialized element.
    pub fn serialize_element(&mut self, value: Tag)
        ensures
            tags_view(final(self).elements@) == tags_view(old(self).elements@).push(value@),
    {
        let ghost tv = value@;
        let ghost before = self.elements@;
        self.elements.push(value);
        proof {
            lemma_tags_view_push(before, self.elements@[before.len() as int]);
        }
    }

    /// Closes the builder into a `List` tag.
    pub fn end(self) -> (t: Tag)
        ensures
            t@ == SpecTag::List(tags_view(self.elements@)),
    {
        Tag::List(self.elements)
    }
}

/// A compound under construction on the producer side.
#[derive(Debug, PartialEq)]
pub struct SerializeCompound {
    pub fields: CompoundTag,
}

impl SerializeCompound {
    /// An empty compound builder.
    pub fn new() -> (r: SerializeCompound)
        ensures
            r.fields@ == Seq::<(Seq<u8>, SpecTag)>::empty(),
    {
        SerializeCompound { fields: CompoundTag::new() }
    }

    /// Appends one serialized field under its wire name.  The caller is
    /// responsible for not repeating a key.
    pub fn serialize_field(&mut self, key: StringTag, value: Tag)
        ensures
            final(self).fields@ == old(self).fields@.push((key@, value@)),
    {
        self.fields.push(key, value);
    }

    /// Closes the builder into a `Compound` tag.
    pub fn end(self) -> (t: Tag)
        ensures
            t@ == SpecTag::Compound(self.fields@),
    {
        Tag::Compound(self.fields)
    }
}

/// Translates a user value to the tag the format stores it as; fails
/// exactly on the shapes the format has no kind for (`Unit`, alone or
/// anywhere inside the value).
#[verifier::loop_isolation(false)]
#[verifier::rlimit(100)]
pub fn to_tag(value: &Value) -> (r: Result<Tag, SerializeError>)
    ensures
        match spec_to_tag(value@) {
            Some(gt) => r matches Ok(t) && t@ == gt,
            None => r matches Err(_),
        },
    decreases *value, 2int,
{
    let s = TagSerializer;
    match value {
        Value::Bool(b) => Ok(s.serialize_bool(*b)),
        Value::I8(x) => Ok(s.serialize_i8(*x)),
        Value::I16(x) => Ok(s.serialize_i16(*x)),
        Value::I32(x) => Ok(s.serialize_i32(*x)),
        Value::I64(x) => Ok(s.serialize_i64(*x)),
        Value::U8(x) => Ok(s.serialize_u8(*x)),
        Value::U16(x) => Ok(s.serialize_u16(*x)),
        Value::U32(x) => Ok(s.serialize_u32(*x)),
        Value::U64(x) => Ok(s.serialize_u64(*x)),
        Value::F32Bits(b) => Ok(s.serialize_f32_bits(*b)),
        Value::F64Bits(b) => Ok(s.serialize_f64_bits(*b)),
        Value::Text(t) => {
            let mut copy: Vec<u8> = Vec::new();
            copy_bytes(t, &mut copy);
            Ok(s.serialize_str(copy))
        },
        Value::Bytes(bs) => {
            let mut out: Vec<i8> = Vec::new();
            let n = bs.len();
            for i in 0..n
                invariant
                    n == bs@.len(),
                    out@.len() == i,
                    forall|j: int| 0 <= j < i ==> out@[j] as int == i8_of_u8(bs@[j] as int),
            {
                out.push(u8_to_i8(bs[i]));
            }
            proof {
                assert(out@ =~= Seq::new(bs@.len(), |i: int| i8_of_u8(bs@[i] as int) as i8));
            }
            Ok(Tag::ByteArray(crate::tag::ByteArrayTag(out)))
        },
        Value::ByteArray(a) => {
            let mut copy: Vec<i8> = Vec::new();
            copy_i8s(a, &mut copy);
            Ok(Tag::ByteArray(crate::tag::ByteArrayTag(copy)))
        },
        Value::IntArray(a) => {
            let mut copy: Vec<i32> = Vec::new();
            copy_i32s(a, &mut copy);
            Ok(Tag::IntArray(crate::tag::IntArrayTag(copy)))
        },
        Value::LongArray(a) => {
            let mut copy: Vec<i64> = Vec::new();
            copy_i64s(a, &mut copy);
            Ok(Tag::LongArray(crate::tag::LongArrayTag(copy)))
        },
        Value::List(items) => {
            proof {
                lemma_values_view_index(items@);
            }
            let ghost ivs = values_view(items@);
            let mut b = SerializeList::new();
            let n = items.len();
            for i in 0..n
                invariant
                    n == items@.len(),
                    ivs == values_view(items@),
                    ivs.len() == n,
                    forall|j: int| 0 <= j < n ==> ivs[j] == value_view(#[trigger] items@[j]),
                    spec_to_tags(ivs.take(i as int)) matches Some(ts) && tags_view(b.elements@)
                        == ts,
            {
                proof {
                    assert(decreases_to!(*value => (*value)->List_0));
                    assert((*value)->List_0 == *items);
                    assert(decreases_to!(*items => items@));
                    assert(decreases_to!(items@ => items@[i as int]));
                }
                match to_tag(&items[i]) {
                    Ok(t) => {
                        b.serialize_element(t);
                        proof {
                            lemma_spec_to_tags_take(ivs, i as int);
                        }
                    },
                    Err(er) => {
                        proof {
                            lemma_spec_to_tags_none(ivs, i as int);
                        }
                        return Err(er);
                    },
                }
            }
            proof {
                assert(ivs.take(n as int) =~= ivs);
            }
            Ok(b.end())
        },
        Value::Record(fields) => {
            proof {
                lemma_fields_view_index(fields@);
            }
            let ghost fvs = fields_view(fields@);
            let mut b = SerializeCompound::new();
            let n = fields.len();
            for i in 0..n
                invariant
                    n == fields@.len(),
                    fvs == fields_view(fields@),
                    fvs.len() == n,
                    forall|j: int|
                        0 <= j < n ==> fvs[j] == ((#[trigger] fields@[j]).0@, value_view(
                            fields@[j].1,
                        )),
                    spec_to_entries(fvs.take(i as int)) matches Some(es) && b.fields@ == es,
            {
                proof {
                    assert(decreases_to!(*value => (*value)->Record_0));
                    assert((*value)->Record_0 == *fields);
                    assert(decreases_to!(*fields => fields@));
                    assert(decreases_to!(fields@ => fields@[i as int]));
                    assert(decreases_to!(fields@[i as int] => fields@[i as int].1));
                }
                let entry = &fields[i];
                match to_tag(&entry.1) {
                    Ok(t) => {
                        let mut key: Vec<u8> = Vec::new();
                        copy_bytes(&entry.0, &mut key);
                        b.serialize_field(key, t);
                        proof {
                            lemma_spec_to_entries_take(fvs, i as int);
                            assert(b.fields@ =~= spec_to_entries(
                                fvs.take(i + 1),
                            )->Some_0);
                        }
                    },
                    Err(er) => {
                        proof {
                            lemma_spec_to_entries_none(fvs, i as int);
                        }
                        return Err(er);
                    },
                }
            }
            proof {
                assert(fvs.take(n as int) =~= fvs);
            }
            Ok(b.end())
        },
        Value::UnitVariant(nm) => {
            let mut copy: Vec<u8> = Vec::new();
            copy_bytes(nm, &mut copy);
            Ok(s.serialize_unit_variant(copy))
        },
        Value::NewtypeVariant(nm, bx) => {
            proof {
                assert(decreases_to!(*value => (*value)->NewtypeVariant_1));
                assert((*value)->NewtypeVariant_1 == *bx);
            }
            match to_tag(bx) {
                Ok(t) => {
                    let mut copy: Vec<u8> = Vec::new();
                    copy_bytes(nm, &mut copy);
                    Ok(s.serialize_newtype_variant(copy, t))
                },
                Err(er) => Err(er),
            }
        },
        Value::Unit => Err(SerializeError(Vec::new())),
    }
}

/// Appends a copy of `src` to `dst`.
pub fn copy_bytes(src: &Vec<u8>, dst: &mut Vec<u8>)
    requires
        old(dst)@.len() == 0,
    ensures
        final(dst)@ == src@,
{
    let n = src.len();
    for i in 0..n
        invariant
            n == src@.len(),
            dst@ == src@.take(i as int),
    {
        dst.push(src[i]);
        proof {
            assert(dst@ =~= src@.take(i + 1));
        }
    }
    proof {
        assert(src@.take(n as int) =~= src@);
    }
}

pub fn copy_i8s(src: &Vec<i8>, dst: &mut Vec<i8>)
    requires
        old(dst)@.len() == 0,
    ensures
        final(dst)@ == src@,
{
    let n = src.len();
    for i in 0..n
        invariant
            n == src@.len(),
            dst@ == src@.take(i as int),
    {
        dst.push(src[i]);
        proof {
            assert(dst@ =~= src@.take(i + 1));
        }
    }
    proof {
        assert(src@.take(n as int) =~= src@);
    }
}

pub fn copy_i32s(src: &Vec<i32>, dst: &mut Vec<i32>)
    requires
        old(dst)@.len() == 0,
    ensures
        final(dst)@ == src@,
{
    let n = src.len();
    for i in 0..n
        invariant
            n == src@.len(),
            dst@ == src@.take(i as int),
    {
        dst.push(src[i]);
        proof {
            assert(dst@ =~= src@.take(i + 1));
        }
    }
    proof {
        assert(src@.take(n as int) =~= src@);
    }
}

pub fn copy_i64s(src: &Vec<i64>, dst: &mut Vec<i64>)
    requires
        old(dst)@.len() == 0,
    ensures
        final(dst)@ == src@,
{
    let n = src.len();
    for i in 0..n
        invariant
            n == src@.len(),
            dst@ == src@.take(i as int),
    {
        dst.push(src[i]);
        proof {
            assert(dst@ =~= src@.take(i + 1));
        }
    }
    proof {
        assert(src@.take(n as int) =~= src@);
    }
}

/// One more produced element extends the produced prefix.
pub proof fn lemma_spec_to_tags_take(s: Seq<SpecValue>, i: int)
    requires
        0 <= i < s.len(),
        spec_to_tags(s.take(i)) is Some,
        spec_to_tag(s[i]) is Some,
    ensures
        spec_to_tags(s.take(i + 1)) matches Some(ts) && ts == spec_to_tags(s.take(i))->Some_0.push(
            spec_to_tag(s[i])->Some_0,
        ),
    decreases i,
{
    let rest = s.subrange(1, s.len() as int);
    if i == 0 {
        assert(s.take(1).subrange(1, 1) =~= Seq::<SpecValue>::empty());
        assert(s.take(1)[0] == s[0]);
        assert(spec_to_tags(Seq::<SpecValue>::empty()) == Some(Seq::<SpecTag>::empty()));
        assert(seq![spec_to_tag(s[0])->Some_0] + Seq::<SpecTag>::empty() =~= Seq::<
            SpecTag,
        >::empty().push(spec_to_tag(s[0])->Some_0));
        assert(s.take(0) =~= Seq::<SpecValue>::empty());
    } else {
        assert(s.take(i)[0] == s[0]);
        assert(s.take(i).subrange(1, i) =~= rest.take(i - 1));
        assert(s.take(i + 1)[0] == s[0]);
        assert(s.take(i + 1).subrange(1, i + 1) =~= rest.take(i));
        assert(rest[i - 1] == s[i]);
        lemma_spec_to_tags_take(rest, i - 1);
        let h = spec_to_tag(s[0])->Some_0;
        let ts0 = spec_to_tags(rest.take(i - 1))->Some_0;
        assert((seq![h] + ts0).push(spec_to_tag(s[i])->Some_0) =~= seq![h] + ts0.push(
            spec_to_tag(s[i])->Some_0,
        ));
    }
}

/// A failing element makes the whole list fail.
pub proof fn lemma_spec_to_tags_none(s: Seq<SpecValue>, i: int)
    requires
        0 <= i < s.len(),
        spec_to_tag(s[i]) is None,
    ensures
        spec_to_tags(s) is None,
    decreases i,
{
    let rest = s.subrange(1, s.len() as int);
    if i == 0 {
    } else {
        assert(rest[i - 1] == s[i]);
        lemma_spec_to_tags_none(rest, i - 1);
    }
}

/// One more produced field extends the produced prefix.
pub proof fn lemma_spec_to_entries_take(s: Seq<(Seq<u8>, SpecValue)>, i: int)
    requires
        0 <= i < s.len(),
        spec_to_entries(s.take(i)) is Some,
        spec_to_tag(s[i].1) is Some,
    ensures
        spec_to_entries(s.take(i + 1)) matches Some(es) && es == spec_to_entries(
            s.take(i),
        )->Some_0.push((s[i].0, spec_to_tag(s[i].1)->Some_0)),
    decreases i,
{
    let rest = s.subrange(1, s.len() as int);
    if i == 0 {
        assert(s.take(1).subrange(1, 1) =~= Seq::<(Seq<u8>, SpecValue)>::empty());
        assert(s.take(1)[0] == s[0]);
        assert(spec_to_entries(Seq::<(Seq<u8>, SpecValue)>::empty()) == Some(Seq::<(
            Seq<u8>,
            SpecTag,
        )>::empty()));
        assert(seq![(s[0].0, spec_to_tag(s[0].1)->Some_0)] + Seq::<(Seq<u8>, SpecTag)>::empty()
            =~= Seq::<(Seq<u8>, SpecTag)>::empty().push((s[0].0, spec_to_tag(s[0].1)->Some_0)));
        assert(s.take(0) =~= Seq::<(Seq<u8>, SpecValue)>::empty());
    } else {
        assert(s.take(i)[0] == s[0]);
        assert(s.take(i).subrange(1, i) =~= rest.take(i - 1));
        assert(s.take(i + 1)[0] == s[0]);
        assert(s.take(i + 1).subrange(1, i + 1) =~= rest.take(i));
        assert(rest[i - 1] == s[i]);
        lemma_spec_to_entries_take(rest, i - 1);
        let h = (s[0].0, spec_to_tag(s[0].1)->Some_0);
        let es0 = spec_to_entries(rest.take(i - 1))->Some_0;
        assert((seq![h] + es0).push((s[i].0, spec_to_tag(s[i].1)->Some_0)) =~= seq![h] + es0.push(
            (s[i].0, spec_to_tag(s[i].1)->Some_0),
        ));
    }
}

/// A failing field makes the whole record fail.
pub proof fn lemma_spec_to_entries_none(s: Seq<(Seq<u8>, SpecValue)>, i: int)
    requires
        0 <= i < s.len(),
        spec_to_tag(s[i].1) is None,
    ensures
        spec_to_entries(s) is None,
    decreases i,
{
    let rest = s.subrange(1, s.len() as int);
    if i == 0 {
    } else {
        assert(rest[i - 1] == s[i]);
        lemma_spec_to_entries_none(rest, i - 1);
    }
}


/// Pushing a value onto a sequence pushes its view onto the view
/// sequence.
pub proof fn lemma_values_view_push(s: Seq<Value>, v: Value)
    ensures
        values_view(s.push(v)) == values_view(s).push(value_view(v)),
{
    lemma_values_view_index(s);
    lemma_values_view_index(s.push(v));
    assert forall|j: int| 0 <= j < s.push(v).len() implies values_view(s.push(v))[j]
        == values_view(s).push(value_view(v))[j] by {
        if j < s.len() {
            assert(s.push(v)[j] == s[j]);
        } else {
            assert(s.push(v)[j] == v);
        }
    }
    assert(values_view(s.push(v)) =~= values_view(s).push(value_view(v)));
}

/// Pushing a field onto a sequence pushes its view onto the view
/// sequence.
pub proof fn lemma_fields_view_push(s: Seq<(Vec<u8>, Value)>, p: (Vec<u8>, Value))
    ensures
        fields_view(s.push(p)) == fields_view(s).push((p.0@, value_view(p.1))),
{
    lemma_fields_view_index(s);
    lemma_fields_view_index(s.push(p));
    assert forall|j: int| 0 <= j < s.push(p).len() implies fields_view(s.push(p))[j]
        == fields_view(s).push((p.0@, value_view(p.1)))[j] by {
        if j < s.len() {
            assert(s.push(p)[j] == s[j]);
        } else {
            assert(s.push(p)[j] == p);
        }
    }
    assert(fields_view(s.push(p)) =~= fields_view(s).push((p.0@, value_view(p.1))));
}

} // verus!
