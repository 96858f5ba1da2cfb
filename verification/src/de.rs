//! The consumer side of the binding layer: a tag tree is translated back
//! into a user value under a declared `Shape`, with a typed error for
//! every kind mismatch and for a missing required field; and the law that
//! consuming what the producer made returns the original value.

use vstd::prelude::*;

use crate::ser::SpecValue;
use crate::ser::Value;
use crate::ser::fields_view;
use crate::ser::lemma_values_view_index;
use crate::ser::values_view;
use crate::ser::spec_to_entries;
use crate::ser::spec_to_tag;
use crate::ser::spec_to_tags;
use crate::tag::SpecTag;
use crate::tag::StringTag;
use crate::tag::Tag;
use crate::tag::entries_view;
use crate::tag::lemma_entries_view_index;
use crate::tag::lemma_tags_view_index;
use crate::tag::tag_view;
use crate::tag::tags_view;
use crate::wire::eq_bytes;
use crate::wire::i8_of_u8;
use crate::wire::i16_of_u16;
use crate::wire::i32_of_u32;
use crate::wire::i64_of_u64;
use crate::wire::u16_of_i16;
use crate::wire::u32_of_i32;
use crate::wire::u64_of_i64;
use crate::wire::u8_of_i8;
use crate::write::spec_lookup;

verus! {

/// Failure of the consumer: the tag kind found where another was
/// declared, a boolean byte outside 0 and 1, or a missing required
/// field.
#[derive(Debug, PartialEq)]
pub enum DeserializeError {
    ExpectedByte,
    ExpectedBoolean,
    ExpectedShort,
    ExpectedInt,
    ExpectedLong,
    ExpectedFloat,
    ExpectedDouble,
    ExpectedByteArray,
    ExpectedString,
    ExpectedList,
    ExpectedCompound,
    ExpectedIntArray,
    ExpectedLongArray,
    ValueMissing,
    Custom(StringTag),
}

/// The declared shape of a user type: which tag kind each part of a
/// value expects.  The three reserved array wrappers select the
/// wire-distinct homogeneous arrays; a plain `List` shape selects the
/// `List` kind.
#[derive(Debug, PartialEq)]
pub enum Shape {
    Bool,
    I8,
    I16,
    I32,
    I64,
    U8,
    U16,
    U32,
    U64,
    F32,
    F64,
    Text,
    Bytes,
    ByteArray,
    IntArray,
    LongArray,
    List(Box<Shape>),
    Record(Vec<(Vec<u8>, Shape)>),
    MapText(Box<Shape>),
}

/// The ghost mirror of `Shape`.
pub enum SpecShape {
    Bool,
    I8,
    I16,
    I32,
    I64,
    U8,
    U16,
    U32,
    U64,
    F32,
    F64,
    Text,
    Bytes,
    ByteArray,
    IntArray,
    LongArray,
    List(Box<SpecShape>),
    Record(Seq<(Seq<u8>, SpecShape)>),
    MapText(Box<SpecShape>),
}

/// The ghost shape mirrored by an executable shape.
pub open spec fn shape_view(s: Shape) -> SpecShape
    decreases s, 0int,
    via shape_view_decreases
{
    match s {
        Shape::Bool => SpecShape::Bool,
        Shape::I8 => SpecShape::I8,
        Shape::I16 => SpecShape::I16,
        Shape::I32 => SpecShape::I32,
        Shape::I64 => SpecShape::I64,
        Shape::U8 => SpecShape::U8,
        Shape::U16 => SpecShape::U16,
        Shape::U32 => SpecShape::U32,
        Shape::U64 => SpecShape::U64,
        Shape::F32 => SpecShape::F32,
        Shape::F64 => SpecShape::F64,
        Shape::Text => SpecShape::Text,
        Shape::Bytes => SpecShape::Bytes,
        Shape::ByteArray => SpecShape::ByteArray,
        Shape::IntArray => SpecShape::IntArray,
        Shape::LongArray => SpecShape::LongArray,
        Shape::List(inner) => SpecShape::List(Box::new(shape_view(*inner))),
        Shape::Record(fields) => SpecShape::Record(shape_fields_view(fields@)),
        Shape::MapText(inner) => SpecShape::MapText(Box::new(shape_view(*inner))),
    }
}

/// Elementwise ghost view of declared fields.
pub open spec fn shape_fields_view(s: Seq<(Vec<u8>, Shape)>) -> Seq<(Seq<u8>, SpecShape)>
    decreases s, 1int,
{
    if s.len() == 0 {
        Seq::empty()
    } else {
        seq![(s[0].0@, shape_view(s[0].1))] + shape_fields_view(s.subrange(1, s.len() as int))
    }
}

#[via_fn]
proof fn shape_view_decreases(s: Shape) {
    match s {
        Shape::List(inner) => {
            assert(decreases_to!(s => inner));
        },
        Shape::Record(fields) => {
            assert(decreases_to!(s => fields));
            assert(decreases_to!(fields => fields@));
        },
        Shape::MapText(inner) => {
            assert(decreases_to!(s => inner));
        },
        _ => {},
    }
}

pub proof fn lemma_shape_fields_view_index(s: Seq<(Vec<u8>, Shape)>)
    ensures
        shape_fields_view(s).len() == s.len(),
        forall|i: int|
            0 <= i < s.len() ==> shape_fields_view(s)[i] == ((#[trigger] s[i]).0@, shape_view(
                s[i].1,
            )),
    decreases s.len(),
{
    if s.len() > 0 {
        let sub = s.subrange(1, s.len() as int);
        lemma_shape_fields_view_index(sub);
        assert forall|i: int|
            0 <= i < s.len() implies shape_fields_view(s)[i] == ((#[trigger] s[i]).0@, shape_view(
            s[i].1,
        )) by {
            if i > 0 {
                assert(sub[i - 1] == s[i]);
                assert(shape_fields_view(s)[i] == shape_fields_view(sub)[i - 1]);
            }
        }
    }
}

impl View for Shape {
    type V = SpecShape;

    open spec fn view(&self) -> SpecShape {
        shape_view(*self)
    }
}

/// The value a tag deserializes to under a declared shape, or the typed
/// error saying which kind was expected.  A boolean accepts only the
/// bytes 0 and 1; a record takes each declared field from the compound
/// by key, in declaration order, ignoring undeclared keys; a missing
/// field is `ValueMissing`; a text-keyed map takes every entry of the
/// compound, in the order the tree stores them, under one value shape.
pub open spec fn spec_from_tag(t: SpecTag, s: SpecShape) -> Result<SpecValue, DeserializeError>
    decreases s, 0int, 0int,
{
    match s {
        SpecShape::Bool => match t {
            SpecTag::Byte(b) => if b == 0 {
                Ok(SpecValue::Bool(false))
            } else if b == 1 {
                Ok(SpecValue::Bool(true))
            } else {
                Err(DeserializeError::ExpectedBoolean)
            },
            _ => Err(DeserializeError::ExpectedBoolean),
        },
        SpecShape::I8 => match t {
            SpecTag::Byte(v) => Ok(SpecValue::I8(v)),
            _ => Err(DeserializeError::ExpectedByte),
        },
        SpecShape::I16 => match t {
            SpecTag::Short(v) => Ok(SpecValue::I16(v)),
            _ => Err(DeserializeError::ExpectedShort),
        },
        SpecShape::I32 => match t {
            SpecTag::Int(v) => Ok(SpecValue::I32(v)),
            _ => Err(DeserializeError::ExpectedInt),
        },
        SpecShape::I64 => match t {
            SpecTag::Long(v) => Ok(SpecValue::I64(v)),
            _ => Err(DeserializeError::ExpectedLong),
        },
        SpecShape::U8 => match t {
            SpecTag::Byte(v) => Ok(SpecValue::U8(u8_of_i8(v) as u8)),
            _ => Err(DeserializeError::ExpectedByte),
        },
        SpecShape::U16 => match t {
            SpecTag::Short(v) => Ok(SpecValue::U16(u16_of_i16(v) as u16)),
            _ => Err(DeserializeError::ExpectedShort),
        },
        SpecShape::U32 => match t {
            SpecTag::Int(v) => Ok(SpecValue::U32(u32_of_i32(v) as u32)),
            _ => Err(DeserializeError::ExpectedInt),
        },
        SpecShape::U64 => match t {
            SpecTag::Long(v) => Ok(SpecValue::U64(u64_of_i64(v) as u64)),
            _ => Err(DeserializeError::ExpectedLong),
        },
        SpecShape::F32 => match t {
            SpecTag::Float(b) => Ok(SpecValue::F32Bits(b)),
            _ => Err(DeserializeError::ExpectedFloat),
        },
        SpecShape::F64 => match t {
            SpecTag::Double(b) => Ok(SpecValue::F64Bits(b)),
            _ => Err(DeserializeError::ExpectedDouble),
        },
        SpecShape::Text => match t {
            SpecTag::String(sv) => Ok(SpecValue::Text(sv)),
            _ => Err(DeserializeError::ExpectedString),
        },
        SpecShape::Bytes => match t {
            SpecTag::ByteArray(a) => Ok(
                SpecValue::Bytes(Seq::new(a.len(), |i: int| u8_of_i8(a[i]) as u8)),
            ),
            _ => Err(DeserializeError::ExpectedByteArray),
        },
        SpecShape::ByteArray => match t {
            SpecTag::ByteArray(a) => Ok(SpecValue::ByteArray(a)),
            _ => Err(DeserializeError::ExpectedByteArray),
        },
        SpecShape::IntArray => match t {
            SpecTag::IntArray(a) => Ok(SpecValue::IntArray(a)),
            _ => Err(DeserializeError::ExpectedIntArray),
        },
        SpecShape::LongArray => match t {
            SpecTag::LongArray(a) => Ok(SpecValue::LongArray(a)),
            _ => Err(DeserializeError::ExpectedLongArray),
        },
        SpecShape::List(inner) => match t {
            SpecTag::List(ts) => match spec_from_tags(ts, *inner) {
                Ok(vs) => Ok(SpecValue::List(vs)),
                Err(er) => Err(er),
            },
            _ => Err(DeserializeError::ExpectedList),
        },
        SpecShape::Record(fields) => match t {
            SpecTag::Compound(es) => match spec_from_fields(fields, es) {
                Ok(fv) => Ok(SpecValue::Record(fv)),
                Err(er) => Err(er),
            },
            _ => Err(DeserializeError::ExpectedCompound),
        },
        SpecShape::MapText(inner) => match t {
            SpecTag::Compound(es) => match spec_from_map_entries(es, *inner) {
                Ok(fv) => Ok(SpecValue::Record(fv)),
                Err(er) => Err(er),
            },
            _ => Err(DeserializeError::ExpectedCompound),
        },
    }
}

/// Each element of a list deserialized under the one element shape.
pub open spec fn spec_from_tags(ts: Seq<SpecTag>, sh: SpecShape) -> Result<
    Seq<SpecValue>,
    DeserializeError,
>
    decreases sh, 1int, ts.len(),
{
    if ts.len() == 0 {
        Ok(Seq::empty())
    } else {
        match spec_from_tag(ts[0], sh) {
            Ok(v) => match spec_from_tags(ts.subrange(1, ts.len() as int), sh) {
                Ok(vs) => Ok(seq![v] + vs),
                Err(er) => Err(er),
            },
            Err(er) => Err(er),
        }
    }
}

/// Each declared field taken from the compound's entries by key, in
/// declaration order.
pub open spec fn spec_from_fields(
    fields: Seq<(Seq<u8>, SpecShape)>,
    es: Seq<(Seq<u8>, SpecTag)>,
) -> Result<Seq<(Seq<u8>, SpecValue)>, DeserializeError>
    decreases fields, 1int, 0int,
{
    if fields.len() == 0 {
        Ok(Seq::empty())
    } else {
        match spec_lookup(es, fields[0].0) {
            Some(t) => match spec_from_tag(t, fields[0].1) {
                Ok(v) => match spec_from_fields(fields.subrange(1, fields.len() as int), es) {
                    Ok(fv) => Ok(seq![(fields[0].0, v)] + fv),
                    Err(er) => Err(er),
                },
                Err(er) => Err(er),
            },
            None => Err(DeserializeError::ValueMissing),
        }
    }
}


/// Every entry of a compound, in tree order, each value deserialized
/// under the one declared value shape.
pub open spec fn spec_from_map_entries(es: Seq<(Seq<u8>, SpecTag)>, sh: SpecShape) -> Result<
    Seq<(Seq<u8>, SpecValue)>,
    DeserializeError,
>
    decreases sh, 1int, es.len(),
{
    if es.len() == 0 {
        Ok(Seq::empty())
    } else {
        match spec_from_tag(es[0].1, sh) {
            Ok(v) => match spec_from_map_entries(es.subrange(1, es.len() as int), sh) {
                Ok(fv) => Ok(seq![(es[0].0, v)] + fv),
                Err(er) => Err(er),
            },
            Err(er) => Err(er),
        }
    }
}

/// Looks an entry up by key, returning its tag.
fn lookup_tag<'a>(entries: &'a Vec<(StringTag, Tag)>, name: &Vec<u8>) -> (r: Option<&'a Tag>)
    ensures
        match spec_lookup(entries_view(entries@), name@) {
            Some(gt) => r matches Some(t) && t@ == gt,
            None => r is None,
        },
{
    proof {
        lemma_entries_view_index(entries@);
    }
    let ghost es = entries_view(entries@);
    let n = entries.len();
    proof {
        assert(es.subrange(0, n as int) =~= es);
    }
    for i in 0..n
        invariant
            n == entries@.len(),
            es == entries_view(entries@),
            es.len() == n,
            forall|j: int|
                0 <= j < n ==> es[j] == ((#[trigger] entries@[j]).0@, tag_view(entries@[j].1)),
            spec_lookup(es, name@) == spec_lookup(es.subrange(i as int, n as int), name@),
    {
        proof {
            assert(es.subrange(i as int, n as int)[0] == es[i as int]);
        }
        if eq_bytes(&entries[i].0, name) {
            return Some(&entries[i].1);
        }
        proof {
            assert(es.subrange(i as int, n as int).subrange(1, (n - i) as int) =~= es.subrange(
                i + 1,
                n as int,
            ));
        }
    }
    proof {
        assert(es.subrange(n as int, n as int) =~= Seq::<(Seq<u8>, SpecTag)>::empty());
    }
    None
}

/// One more consumed element extends the consumed prefix.
pub proof fn lemma_spec_from_tags_take(ts: Seq<SpecTag>, sh: SpecShape, i: int)
    requires
        0 <= i < ts.len(),
        spec_from_tags(ts.take(i), sh) is Ok,
        spec_from_tag(ts[i], sh) is Ok,
    ensures
        spec_from_tags(ts.take(i + 1), sh) matches Ok(vs) && vs == spec_from_tags(
            ts.take(i),
            sh,
        )->Ok_0.push(spec_from_tag(ts[i], sh)->Ok_0),
    decreases i,
{
    let rest = ts.subrange(1, ts.len() as int);
    if i == 0 {
        assert(ts.take(1).subrange(1, 1) =~= Seq::<SpecTag>::empty());
        assert(ts.take(1)[0] == ts[0]);
        assert(ts.take(0) =~= Seq::<SpecTag>::empty());
        assert(seq![spec_from_tag(ts[0], sh)->Ok_0] + Seq::<SpecValue>::empty() =~= Seq::<
            SpecValue,
        >::empty().push(spec_from_tag(ts[0], sh)->Ok_0));
    } else {
        assert(ts.take(i)[0] == ts[0]);
        assert(ts.take(i).subrange(1, i) =~= rest.take(i - 1));
        assert(ts.take(i + 1)[0] == ts[0]);
        assert(ts.take(i + 1).subrange(1, i + 1) =~= rest.take(i));
        assert(rest[i - 1] == ts[i]);
        lemma_spec_from_tags_take(rest, sh, i - 1);
        let h = spec_from_tag(ts[0], sh)->Ok_0;
        let vs0 = spec_from_tags(rest.take(i - 1), sh)->Ok_0;
        assert((seq![h] + vs0).push(spec_from_tag(ts[i], sh)->Ok_0) =~= seq![h] + vs0.push(
            spec_from_tag(ts[i], sh)->Ok_0,
        ));
    }
}

/// A failing element fails the whole list with its error.
pub proof fn lemma_spec_from_tags_err(ts: Seq<SpecTag>, sh: SpecShape, i: int)
    requires
        0 <= i < ts.len(),
        spec_from_tags(ts.take(i), sh) is Ok,
        spec_from_tag(ts[i], sh) is Err,
    ensures
        spec_from_tags(ts, sh) == Err::<Seq<SpecValue>, DeserializeError>(
            spec_from_tag(ts[i], sh)->Err_0,
        ),
    decreases i,
{
    let rest = ts.subrange(1, ts.len() as int);
    if i == 0 {
    } else {
        assert(ts.take(i)[0] == ts[0]);
        assert(ts.take(i).subrange(1, i) =~= rest.take(i - 1));
        assert(rest[i - 1] == ts[i]);
        lemma_spec_from_tags_err(rest, sh, i - 1);
    }
}

/// One more consumed field extends the consumed prefix.
pub proof fn lemma_spec_from_fields_take(
    fields: Seq<(Seq<u8>, SpecShape)>,
    es: Seq<(Seq<u8>, SpecTag)>,
    i: int,
)
    requires
        0 <= i < fields.len(),
        spec_from_fields(fields.take(i), es) is Ok,
        spec_lookup(es, fields[i].0) is Some,
        spec_from_tag(spec_lookup(es, fields[i].0)->Some_0, fields[i].1) is Ok,
    ensures
        spec_from_fields(fields.take(i + 1), es) matches Ok(fv) && fv == spec_from_fields(
            fields.take(i),
            es,
        )->Ok_0.push(
            (fields[i].0, spec_from_tag(spec_lookup(es, fields[i].0)->Some_0, fields[i].1)->Ok_0),
        ),
    decreases i,
{
    let rest = fields.subrange(1, fields.len() as int);
    let last = (
        fields[i].0,
        spec_from_tag(spec_lookup(es, fields[i].0)->Some_0, fields[i].1)->Ok_0,
    );
    if i == 0 {
        assert(fields.take(1).subrange(1, 1) =~= Seq::<(Seq<u8>, SpecShape)>::empty());
        assert(fields.take(1)[0] == fields[0]);
        assert(fields.take(0) =~= Seq::<(Seq<u8>, SpecShape)>::empty());
        assert(seq![last] + Seq::<(Seq<u8>, SpecValue)>::empty() =~= Seq::<(
            Seq<u8>,
            SpecValue,
        )>::empty().push(last));
    } else {
        assert(fields.take(i)[0] == fields[0]);
        assert(fields.take(i).subrange(1, i) =~= rest.take(i - 1));
        assert(fields.take(i + 1)[0] == fields[0]);
        assert(fields.take(i + 1).subrange(1, i + 1) =~= rest.take(i));
        assert(rest[i - 1] == fields[i]);
        lemma_spec_from_fields_take(rest, es, i - 1);
        let h = (
            fields[0].0,
            spec_from_tag(spec_lookup(es, fields[0].0)->Some_0, fields[0].1)->Ok_0,
        );
        let fv0 = spec_from_fields(rest.take(i - 1), es)->Ok_0;
        assert((seq![h] + fv0).push(last) =~= seq![h] + fv0.push(last));
    }
}

/// A missing or failing field fails the whole record with its error.
pub proof fn lemma_spec_from_fields_err(
    fields: Seq<(Seq<u8>, SpecShape)>,
    es: Seq<(Seq<u8>, SpecTag)>,
    i: int,
    er: DeserializeError,
)
    requires
        0 <= i < fields.len(),
        spec_from_fields(fields.take(i), es) is Ok,
        match spec_lookup(es, fields[i].0) {
            Some(t) => spec_from_tag(t, fields[i].1) == Err::<SpecValue, DeserializeError>(er),
            None => er == DeserializeError::ValueMissing,
        },
    ensures
        spec_from_fields(fields, es) == Err::<Seq<(Seq<u8>, SpecValue)>, DeserializeError>(er),
    decreases i,
{
    let rest = fields.subrange(1, fields.len() as int);
    if i == 0 {
    } else {
        assert(fields.take(i)[0] == fields[0]);
        assert(fields.take(i).subrange(1, i) =~= rest.take(i - 1));
        assert(rest[i - 1] == fields[i]);
        lemma_spec_from_fields_err(rest, es, i - 1, er);
    }
}

/// One more consumed map entry extends the consumed prefix.
pub proof fn lemma_spec_from_map_take(es: Seq<(Seq<u8>, SpecTag)>, sh: SpecShape, i: int)
    requires
        0 <= i < es.len(),
        spec_from_map_entries(es.take(i), sh) is Ok,
        spec_from_tag(es[i].1, sh) is Ok,
    ensures
        spec_from_map_entries(es.take(i + 1), sh) matches Ok(fv) && fv == spec_from_map_entries(
            es.take(i),
            sh,
        )->Ok_0.push((es[i].0, spec_from_tag(es[i].1, sh)->Ok_0)),
    decreases i,
{
    let rest = es.subrange(1, es.len() as int);
    let last = (es[i].0, spec_from_tag(es[i].1, sh)->Ok_0);
    if i == 0 {
        assert(es.take(1).subrange(1, 1) =~= Seq::<(Seq<u8>, SpecTag)>::empty());
        assert(es.take(1)[0] == es[0]);
        assert(es.take(0) =~= Seq::<(Seq<u8>, SpecTag)>::empty());
        assert(seq![last] + Seq::<(Seq<u8>, SpecValue)>::empty() =~= Seq::<(
            Seq<u8>,
            SpecValue,
        )>::empty().push(last));
    } else {
        assert(es.take(i)[0] == es[0]);
        assert(es.take(i).subrange(1, i) =~= rest.take(i - 1));
        assert(es.take(i + 1)[0] == es[0]);
        assert(es.take(i + 1).subrange(1, i + 1) =~= rest.take(i));
        assert(rest[i - 1] == es[i]);
        lemma_spec_from_map_take(rest, sh, i - 1);
        let h = (es[0].0, spec_from_tag(es[0].1, sh)->Ok_0);
        let fv0 = spec_from_map_entries(rest.take(i - 1), sh)->Ok_0;
        assert((seq![h] + fv0).push(last) =~= seq![h] + fv0.push(last));
    }
}

/// A failing map entry fails the whole map with its error.
pub proof fn lemma_spec_from_map_err(es: Seq<(Seq<u8>, SpecTag)>, sh: SpecShape, i: int)
    requires
        0 <= i < es.len(),
        spec_from_map_entries(es.take(i), sh) is Ok,
        spec_from_tag(es[i].1, sh) is Err,
    ensures
        spec_from_map_entries(es, sh) == Err::<Seq<(Seq<u8>, SpecValue)>, DeserializeError>(
            spec_from_tag(es[i].1, sh)->Err_0,
        ),
    decreases i,
{
    let rest = es.subrange(1, es.len() as int);
    if i == 0 {
    } else {
        assert(es.take(i)[0] == es[0]);
        assert(es.take(i).subrange(1, i) =~= rest.take(i - 1));
        assert(rest[i - 1] == es[i]);
        lemma_spec_from_map_err(rest, sh, i - 1);
    }
}

/// Translates a tag back to a user value under a declared shape.  It
/// succeeds exactly where every declared part finds a tag of its kind,
/// and returns the typed error of the first mismatch otherwise.
#[verifier::loop_isolation(false)]
#[verifier::rlimit(100)]
pub fn from_tag(tag: &Tag, shape: &Shape) -> (r: Result<Value, DeserializeError>)
    ensures
        match spec_from_tag(tag@, shape@) {
            Ok(gv) => r matches Ok(v) && v@ == gv,
            Err(er) => r == Err::<Value, DeserializeError>(er),
        },
    decreases *shape,
{
    match shape {
        Shape::Bool => match tag {
            Tag::Byte(b) => {
                if *b == 0 {
                    Ok(Value::Bool(false))
                } else if *b == 1 {
                    Ok(Value::Bool(true))
                } else {
                    Err(DeserializeError::ExpectedBoolean)
                }
            },
            _ => Err(DeserializeError::ExpectedBoolean),
        },
        Shape::I8 => match tag {
            Tag::Byte(v) => Ok(Value::I8(*v)),
            _ => Err(DeserializeError::ExpectedByte),
        },
        Shape::I16 => match tag {
            Tag::Short(v) => Ok(Value::I16(*v)),
            _ => Err(DeserializeError::ExpectedShort),
        },
        Shape::I32 => match tag {
            Tag::Int(v) => Ok(Value::I32(*v)),
            _ => Err(DeserializeError::ExpectedInt),
        },
        Shape::I64 => match tag {
            Tag::Long(v) => Ok(Value::I64(*v)),
            _ => Err(DeserializeError::ExpectedLong),
        },
        Shape::U8 => match tag {
            Tag::Byte(v) => Ok(Value::U8(crate::wire::i8_to_u8(*v))),
            _ => Err(DeserializeError::ExpectedByte),
        },
        Shape::U16 => match tag {
            Tag::Short(v) => Ok(Value::U16(crate::wire::i16_to_u16(*v))),
            _ => Err(DeserializeError::ExpectedShort),
        },
        Shape::U32 => match tag {
            Tag::Int(v) => Ok(Value::U32(crate::wire::i32_to_u32(*v))),
            _ => Err(DeserializeError::ExpectedInt),
        },
        Shape::U64 => match tag {
            Tag::Long(v) => Ok(Value::U64(crate::wire::i64_to_u64(*v))),
            _ => Err(DeserializeError::ExpectedLong),
        },
        Shape::F32 => match tag {
            Tag::Float(b) => Ok(Value::F32Bits(*b)),
            _ => Err(DeserializeError::ExpectedFloat),
        },
        Shape::F64 => match tag {
            Tag::Double(b) => Ok(Value::F64Bits(*b)),
            _ => Err(DeserializeError::ExpectedDouble),
        },
        Shape::Text => match tag {
            Tag::String(sv) => {
                let mut copy: Vec<u8> = Vec::new();
                crate::ser::copy_bytes(sv, &mut copy);
                Ok(Value::Text(copy))
            },
            _ => Err(DeserializeError::ExpectedString),
        },
        Shape::Bytes => match tag {
            Tag::ByteArray(a) => {
                let mut out: Vec<u8> = Vec::new();
                let n = a.0.len();
                for i in 0..n
                    invariant
                        n == a.0@.len(),
                        out@.len() == i,
                        forall|j: int| 0 <= j < i ==> out@[j] as int == u8_of_i8(a.0@[j]),
                {
                    out.push(crate::wire::i8_to_u8(a.0[i]));
                }
                proof {
                    assert(out@ =~= Seq::new(a.0@.len(), |i: int| u8_of_i8(a.0@[i]) as u8));
                }
                Ok(Value::Bytes(out))
            },
            _ => Err(DeserializeError::ExpectedByteArray),
        },
        Shape::ByteArray => match tag {
            Tag::ByteArray(a) => {
                let mut copy: Vec<i8> = Vec::new();
                crate::ser::copy_i8s(&a.0, &mut copy);
                Ok(Value::ByteArray(copy))
            },
            _ => Err(DeserializeError::ExpectedByteArray),
        },
        Shape::IntArray => match tag {
            Tag::IntArray(a) => {
                let mut copy: Vec<i32> = Vec::new();
                crate::ser::copy_i32s(&a.0, &mut copy);
                Ok(Value::IntArray(copy))
            },
            _ => Err(DeserializeError::ExpectedIntArray),
        },
        Shape::LongArray => match tag {
            Tag::LongArray(a) => {
                let mut copy: Vec<i64> = Vec::new();
                crate::ser::copy_i64s(&a.0, &mut copy);
                Ok(Value::LongArray(copy))
            },
            _ => Err(DeserializeError::ExpectedLongArray),
        },
        Shape::List(inner) => match tag {
            Tag::List(elems) => {
                proof {
                    lemma_tags_view_index(elems@);
                }
                let ghost ts = tags_view(elems@);
                let ghost ish = shape_view(*(*inner));
                let mut out: Vec<Value> = Vec::new();
                let n = elems.len();
                for i in 0..n
                    invariant
                        n == elems@.len(),
                        ts == tags_view(elems@),
                        ts.len() == n,
                        forall|j: int| 0 <= j < n ==> ts[j] == tag_view(#[trigger] elems@[j]),
                        spec_from_tags(ts.take(i as int), ish) matches Ok(vs) && values_view(out@) == vs,
                {
                    proof {
                        assert(decreases_to!(*shape => (*shape)->List_0));
                        assert((*shape)->List_0 == *inner);
                    }
                    match from_tag(&elems[i], inner) {
                        Ok(v) => {
                            let ghost vv = v@;
                            let ghost before = out@;
                            out.push(v);
                            proof {
                                crate::ser::lemma_values_view_push(
                                    before,
                                    out@[before.len() as int],
                                );
                                lemma_spec_from_tags_take(ts, ish, i as int);
                            }
                        },
                        Err(er) => {
                            proof {
                                lemma_spec_from_tags_err(ts, ish, i as int);
                            }
                            return Err(er);
                        },
                    }
                }
                proof {
                    assert(ts.take(n as int) =~= ts);
                }
                Ok(Value::List(out))
            },
            _ => Err(DeserializeError::ExpectedList),
        },
        Shape::Record(fields) => match tag {
            Tag::Compound(c) => {
                proof {
                    lemma_shape_fields_view_index(fields@);
                    lemma_entries_view_index(c.entries@);
                }
                let ghost fs = shape_fields_view(fields@);
                let ghost es = entries_view(c.entries@);
                let mut out: Vec<(Vec<u8>, Value)> = Vec::new();
                let n = fields.len();
                for i in 0..n
                    invariant
                        n == fields@.len(),
                        fs == shape_fields_view(fields@),
                        fs.len() == n,
                        forall|j: int|
                            0 <= j < n ==> fs[j] == ((#[trigger] fields@[j]).0@, shape_view(
                                fields@[j].1,
                            )),
                        es == entries_view(c.entries@),
                        spec_from_fields(fs.take(i as int), es) matches Ok(fv) && fields_view(out@) == fv,
                {
                    proof {
                        assert(decreases_to!(*shape => (*shape)->Record_0));
                        assert((*shape)->Record_0 == *fields);
                        assert(decreases_to!(*fields => fields@));
                        assert(decreases_to!(fields@ => fields@[i as int]));
                        assert(decreases_to!(fields@[i as int] => fields@[i as int].1));
                    }
                    let field = &fields[i];
                    match lookup_tag(&c.entries, &field.0) {
                        Some(t) => {
                            match from_tag(t, &field.1) {
                                Ok(v) => {
                                    let ghost vv = v@;
                                    let ghost before = out@;
                                    let mut key: Vec<u8> = Vec::new();
                                    crate::ser::copy_bytes(&field.0, &mut key);
                                    out.push((key, v));
                                    proof {
                                        crate::ser::lemma_fields_view_push(
                                            before,
                                            out@[before.len() as int],
                                        );
                                        lemma_spec_from_fields_take(fs, es, i as int);
                                    }
                                },
                                Err(er) => {
                                    proof {
                                        lemma_spec_from_fields_err(fs, es, i as int, er);
                                    }
                                    return Err(er);
                                },
                            }
                        },
                        None => {
                            proof {
                                lemma_spec_from_fields_err(
                                    fs,
                                    es,
                                    i as int,
                                    DeserializeError::ValueMissing,
                                );
                            }
                            return Err(DeserializeError::ValueMissing);
                        },
                    }
                }
                proof {
                    assert(fs.take(n as int) =~= fs);
                }
                Ok(Value::Record(out))
            },
            _ => Err(DeserializeError::ExpectedCompound),
        },
        Shape::MapText(inner) => match tag {
            Tag::Compound(c) => {
                proof {
                    lemma_entries_view_index(c.entries@);
                }
                let ghost es = entries_view(c.entries@);
                let ghost ish = shape_view(*(*inner));
                let mut out: Vec<(Vec<u8>, Value)> = Vec::new();
                let n = c.entries.len();
                for i in 0..n
                    invariant
                        n == c.entries@.len(),
                        es == entries_view(c.entries@),
                        es.len() == n,
                        forall|j: int|
                            0 <= j < n ==> es[j] == ((#[trigger] c.entries@[j]).0@, tag_view(
                                c.entries@[j].1,
                            )),
                        spec_from_map_entries(es.take(i as int), ish) matches Ok(fv)
                            && fields_view(out@) == fv,
                {
                    proof {
                        assert(decreases_to!(*shape => (*shape)->MapText_0));
                        assert((*shape)->MapText_0 == *inner);
                    }
                    let entry = &c.entries[i];
                    match from_tag(&entry.1, inner) {
                        Ok(v) => {
                            let ghost before = out@;
                            let mut key: Vec<u8> = Vec::new();
                            crate::ser::copy_bytes(&entry.0, &mut key);
                            out.push((key, v));
                            proof {
                                crate::ser::lemma_fields_view_push(
                                    before,
                                    out@[before.len() as int],
                                );
                                lemma_spec_from_map_take(es, ish, i as int);
                            }
                        },
                        Err(er) => {
                            proof {
                                lemma_spec_from_map_err(es, ish, i as int);
                            }
                            return Err(er);
                        },
                    }
                }
                proof {
                    assert(es.take(n as int) =~= es);
                }
                Ok(Value::Record(out))
            },
            _ => Err(DeserializeError::ExpectedCompound),
        },
    }
}

/// A reader over one borrowed tag, mirroring the consumer entry point.
pub struct TagDeserializer<'a> {
    pub input: &'a Tag,
}

impl<'a> TagDeserializer<'a> {
    /// Wraps a borrowed tag.
    pub fn new(input: &'a Tag) -> (r: TagDeserializer<'a>)
        ensures
            r.input == input,
    {
        TagDeserializer { input }
    }

    /// Deserializes the wrapped tag under a declared shape.
    pub fn deserialize(&self, shape: &Shape) -> (r: Result<Value, DeserializeError>)
        ensures
            match spec_from_tag(self.input@, shape@) {
                Ok(gv) => r matches Ok(v) && v@ == gv,
                Err(er) => r == Err::<Value, DeserializeError>(er),
            },
    {
        from_tag(self.input, shape)
    }
}


/// Whether a value fits a declared shape: kinds match throughout, and a
/// record's fields carry the declared names, in order, pairwise
/// distinct.
pub open spec fn value_conforms(v: SpecValue, s: SpecShape) -> bool
    decreases v, 0int,
{
    match (v, s) {
        (SpecValue::Bool(_), SpecShape::Bool) => true,
        (SpecValue::I8(_), SpecShape::I8) => true,
        (SpecValue::I16(_), SpecShape::I16) => true,
        (SpecValue::I32(_), SpecShape::I32) => true,
        (SpecValue::I64(_), SpecShape::I64) => true,
        (SpecValue::U8(_), SpecShape::U8) => true,
        (SpecValue::U16(_), SpecShape::U16) => true,
        (SpecValue::U32(_), SpecShape::U32) => true,
        (SpecValue::U64(_), SpecShape::U64) => true,
        (SpecValue::F32Bits(_), SpecShape::F32) => true,
        (SpecValue::F64Bits(_), SpecShape::F64) => true,
        (SpecValue::Text(_), SpecShape::Text) => true,
        (SpecValue::Bytes(_), SpecShape::Bytes) => true,
        (SpecValue::ByteArray(_), SpecShape::ByteArray) => true,
        (SpecValue::IntArray(_), SpecShape::IntArray) => true,
        (SpecValue::LongArray(_), SpecShape::LongArray) => true,
        (SpecValue::List(items), SpecShape::List(inner)) => values_conform(items, *inner),
        (SpecValue::Record(fv), SpecShape::Record(fs)) => fields_conform(fv, fs) && (forall|
            i: int,
            j: int,
        |
            0 <= i < j < fv.len() ==> fv[i].0 != fv[j].0),
        (SpecValue::Record(fv), SpecShape::MapText(inner)) => map_fields_conform(fv, *inner),
        _ => false,
    }
}

/// Every element of a list conforms to the one element shape.
pub open spec fn values_conform(items: Seq<SpecValue>, sh: SpecShape) -> bool
    decreases items, 1int,
{
    if items.len() == 0 {
        true
    } else {
        value_conforms(items[0], sh) && values_conform(
            items.subrange(1, items.len() as int),
            sh,
        )
    }
}

/// Fields and declared shapes agree in length, names and order, each
/// value conforming to its declared shape.
pub open spec fn fields_conform(
    fv: Seq<(Seq<u8>, SpecValue)>,
    fs: Seq<(Seq<u8>, SpecShape)>,
) -> bool
    decreases fv, 1int,
{
    if fv.len() != fs.len() {
        false
    } else if fv.len() == 0 {
        true
    } else {
        fv[0].0 == fs[0].0 && value_conforms(fv[0].1, fs[0].1) && fields_conform(
            fv.subrange(1, fv.len() as int),
            fs.subrange(1, fs.len() as int),
        )
    }
}

/// Every value of a text-keyed mapping conforms to the one value shape.
pub open spec fn map_fields_conform(fv: Seq<(Seq<u8>, SpecValue)>, sh: SpecShape) -> bool
    decreases fv, 1int,
{
    if fv.len() == 0 {
        true
    } else {
        value_conforms(fv[0].1, sh) && map_fields_conform(fv.subrange(1, fv.len() as int), sh)
    }
}

/// Looking a key up skips any prefix that does not hold it.
pub proof fn lemma_lookup_skip(
    a: Seq<(Seq<u8>, SpecTag)>,
    b: Seq<(Seq<u8>, SpecTag)>,
    name: Seq<u8>,
)
    requires
        forall|i: int| 0 <= i < a.len() ==> (#[trigger] a[i]).0 != name,
    ensures
        spec_lookup(a + b, name) == spec_lookup(b, name),
    decreases a.len(),
{
    if a.len() == 0 {
        assert(a + b =~= b);
    } else {
        let rest = a.subrange(1, a.len() as int);
        assert((a + b)[0] == a[0]);
        assert((a + b).subrange(1, (a + b).len() as int) =~= rest + b);
        lemma_lookup_skip(rest, b, name);
    }
}

/// BINDING ROUND TRIP: a value conforming to a declared shape always
/// produces a tag, and consuming that tag under the same shape returns
/// exactly the value.
pub proof fn lemma_binding_round_trip(v: SpecValue, s: SpecShape)
    requires
        value_conforms(v, s),
    ensures
        spec_to_tag(v) matches Some(t) && spec_from_tag(t, s) == Ok::<
            SpecValue,
            DeserializeError,
        >(v),
    decreases v, 0int,
{
    match (v, s) {
        (SpecValue::Bytes(bs), SpecShape::Bytes) => {
            let a = Seq::new(bs.len(), |i: int| i8_of_u8(bs[i] as int) as i8);
            let back = Seq::new(a.len(), |i: int| u8_of_i8(a[i]) as u8);
            assert(back =~= bs);
        },
        (SpecValue::List(items), SpecShape::List(inner)) => {
            lemma_tags_round(items, *inner);
        },
        (SpecValue::Record(fv), SpecShape::Record(fs)) => {
            lemma_fields_round(fv, fs, Seq::empty());
            let own = spec_to_entries(fv)->Some_0;
            assert(Seq::<(Seq<u8>, SpecTag)>::empty() + own =~= own);
        },
        (SpecValue::Record(fv), SpecShape::MapText(inner)) => {
            lemma_map_round(fv, *inner);
        },
        _ => {},
    }
}

/// Round trip of every element of a conforming list.
pub proof fn lemma_tags_round(items: Seq<SpecValue>, sh: SpecShape)
    requires
        values_conform(items, sh),
    ensures
        spec_to_tags(items) matches Some(ts) && spec_from_tags(ts, sh) == Ok::<
            Seq<SpecValue>,
            DeserializeError,
        >(items),
    decreases items, 1int,
{
    if items.len() == 0 {
        assert(items =~= Seq::<SpecValue>::empty());
        assert(spec_to_tags(items) == Some(Seq::<SpecTag>::empty()));
    } else {
        let rest = items.subrange(1, items.len() as int);
        lemma_binding_round_trip(items[0], sh);
        lemma_tags_round(rest, sh);
        let t0 = spec_to_tag(items[0])->Some_0;
        let ts1 = spec_to_tags(rest)->Some_0;
        let ts = seq![t0] + ts1;
        assert(ts[0] == t0);
        assert(ts.subrange(1, ts.len() as int) =~= ts1);
        assert(seq![items[0]] + rest =~= items);
    }
}

/// Round trip of a text-keyed mapping: the produced entries, consumed
/// in tree order under the one value shape, give the fields back.
pub proof fn lemma_map_round(fv: Seq<(Seq<u8>, SpecValue)>, sh: SpecShape)
    requires
        map_fields_conform(fv, sh),
    ensures
        spec_to_entries(fv) matches Some(own) && spec_from_map_entries(own, sh) == Ok::<
            Seq<(Seq<u8>, SpecValue)>,
            DeserializeError,
        >(fv),
    decreases fv, 1int,
{
    if fv.len() == 0 {
        assert(fv =~= Seq::<(Seq<u8>, SpecValue)>::empty());
        assert(spec_to_entries(fv) == Some(Seq::<(Seq<u8>, SpecTag)>::empty()));
    } else {
        let rest = fv.subrange(1, fv.len() as int);
        lemma_binding_round_trip(fv[0].1, sh);
        lemma_map_round(rest, sh);
        let t0 = spec_to_tag(fv[0].1)->Some_0;
        let own1 = spec_to_entries(rest)->Some_0;
        let own = seq![(fv[0].0, t0)] + own1;
        assert(own[0] == (fv[0].0, t0));
        assert(own.subrange(1, own.len() as int) =~= own1);
        assert(seq![(fv[0].0, fv[0].1)] + rest =~= fv);
    }
}

/// Round trip of a record's fields: looked up in the produced entries
/// behind any prefix of other keys, each declared field comes back.
pub proof fn lemma_fields_round(
    fv: Seq<(Seq<u8>, SpecValue)>,
    fs: Seq<(Seq<u8>, SpecShape)>,
    pre: Seq<(Seq<u8>, SpecTag)>,
)
    requires
        fields_conform(fv, fs),
        forall|i: int, j: int| 0 <= i < j < fv.len() ==> fv[i].0 != fv[j].0,
        forall|i: int, j: int|
            0 <= i < pre.len() && 0 <= j < fv.len() ==> (#[trigger] pre[i]).0 != (
            #[trigger] fv[j]).0,
    ensures
        spec_to_entries(fv) matches Some(own) && spec_from_fields(fs, pre + own) == Ok::<
            Seq<(Seq<u8>, SpecValue)>,
            DeserializeError,
        >(fv),
    decreases fv, 1int,
{
    if fv.len() == 0 {
        assert(fv =~= Seq::<(Seq<u8>, SpecValue)>::empty());
        assert(fs.len() == 0);
        assert(spec_to_entries(fv) == Some(Seq::<(Seq<u8>, SpecTag)>::empty()));
    } else {
        let name = fv[0].0;
        let frest = fv.subrange(1, fv.len() as int);
        let srest = fs.subrange(1, fs.len() as int);
        lemma_binding_round_trip(fv[0].1, fs[0].1);
        let t0 = spec_to_tag(fv[0].1)->Some_0;
        assert forall|i: int, j: int|
            0 <= i < (pre + seq![(name, t0)]).len() && 0 <= j < frest.len() implies (#[trigger] (
        pre + seq![(name, t0)])[i]).0 != (#[trigger] frest[j]).0 by {
            assert(frest[j] == fv[j + 1]);
            if i < pre.len() {
                assert((pre + seq![(name, t0)])[i] == pre[i]);
            } else {
                assert((pre + seq![(name, t0)])[i] == (name, t0));
                assert(fv[0].0 != fv[j + 1].0);
            }
        }
        lemma_fields_round(frest, srest, pre + seq![(name, t0)]);
        let own1 = spec_to_entries(frest)->Some_0;
        let own = seq![(name, t0)] + own1;
        assert(own[0] == (name, t0));
        assert(own.subrange(1, own.len() as int) =~= own1);
        assert forall|i: int| 0 <= i < pre.len() implies (#[trigger] pre[i]).0 != name by {
            assert(fv[0] == fv[0]);
        }
        lemma_lookup_skip(pre, own, name);
        assert(spec_lookup(own, name) == Some(t0));
        assert(spec_lookup(pre + own, name) == Some(t0));
        assert((pre + seq![(name, t0)]) + own1 =~= pre + own);
        assert(spec_from_fields(srest, pre + own) == Ok::<
            Seq<(Seq<u8>, SpecValue)>,
            DeserializeError,
        >(frest));
        assert(seq![(name, fv[0].1)] + frest =~= fv);
        assert(fs[0].0 == name);
        assert(spec_from_tag(t0, fs[0].1) == Ok::<SpecValue, DeserializeError>(fv[0].1));
    }
}

} // verus!
