//! The binary writer: a specification-level encoder from ghost tag trees
//! to byte sequences, and an executable writer proved to emit exactly
//! those bytes, including the optional Bedrock file header.

use vstd::prelude::*;

use crate::tag::BedrockHeader;
use crate::tag::ByteArrayTag;
use crate::tag::CompoundTag;
use crate::tag::IntArrayTag;
use crate::tag::ListTag;
use crate::tag::LongArrayTag;
use crate::tag::Endian;
use crate::tag::SpecTag;
use crate::tag::Tag;
use crate::tag::TagId;
use crate::tag::entries_view;
use crate::tag::lemma_entries_view_index;
use crate::tag::lemma_tags_view_index;
use crate::tag::tag_view;
use crate::tag::tags_view;
use crate::tag::spec_tag_id;
use crate::tag::spec_tag_id_byte;
use crate::wire::be_bytes;
use crate::wire::eq_bytes;
use crate::wire::i16_to_u64;
use crate::wire::i32_to_u64;
use crate::wire::i64_to_u64;
use crate::wire::i8_to_u8;
use crate::wire::le_bytes;
use crate::wire::u16_of_i16;
use crate::wire::u32_of_i32;
use crate::wire::u64_of_i64;
use crate::wire::u8_of_i8;
use crate::wire::push_be_bytes;
use crate::wire::push_le_bytes;
use crate::wire::uvarint_bytes;
use crate::wire::zigzag_encode;
use crate::wire::zigzag_encode_u32;
use crate::wire::zigzag_encode_u64;

verus! {

/// Failure of the writer.  All three variants concern the Bedrock file
/// header, which needs an `Int` field named `StorageVersion` inside a
/// compound root; writing a tree without a header cannot fail.
#[derive(Debug, Clone, Copy, PartialEq, Eq, Structural)]
pub enum WriteError {
    ExpectedInt,
    ExpectedCompound,
    ExpectedStorageVersion,
}

/// An unsigned 16-bit scalar under the dialect (string lengths in the
/// fixed dialects, and `Short` images).
pub open spec fn enc_u16(e: Endian, u: int) -> Seq<u8> {
    match e {
        Endian::Big => be_bytes(u, 2),
        Endian::Little => le_bytes(u, 2),
        Endian::LittleVarInt => le_bytes(u, 2),
    }
}

/// A `Short` payload: 16-bit fixed-width in every dialect.
pub open spec fn enc_i16v(e: Endian, v: i16) -> Seq<u8> {
    enc_u16(e, u16_of_i16(v))
}

/// An `Int` payload: 32-bit fixed-width, or a zig-zag varint.
pub open spec fn enc_i32v(e: Endian, v: i32) -> Seq<u8> {
    match e {
        Endian::Big => be_bytes(u32_of_i32(v), 4),
        Endian::Little => le_bytes(u32_of_i32(v), 4),
        Endian::LittleVarInt => uvarint_bytes(zigzag_encode(v as int)),
    }
}

/// A `Long` payload: 64-bit fixed-width, or a zig-zag varint.
pub open spec fn enc_i64v(e: Endian, v: i64) -> Seq<u8> {
    match e {
        Endian::Big => be_bytes(u64_of_i64(v), 8),
        Endian::Little => le_bytes(u64_of_i64(v), 8),
        Endian::LittleVarInt => uvarint_bytes(zigzag_encode(v as int)),
    }
}

/// A `Float` payload: the IEEE-754 bit pattern, fixed-width in every
/// dialect.
pub open spec fn enc_f32v(e: Endian, bits: u32) -> Seq<u8> {
    match e {
        Endian::Big => be_bytes(bits as int, 4),
        Endian::Little => le_bytes(bits as int, 4),
        Endian::LittleVarInt => le_bytes(bits as int, 4),
    }
}

/// A `Double` payload: the IEEE-754 bit pattern, fixed-width in every
/// dialect.
pub open spec fn enc_f64v(e: Endian, bits: u64) -> Seq<u8> {
    match e {
        Endian::Big => be_bytes(bits as int, 8),
        Endian::Little => le_bytes(bits as int, 8),
        Endian::LittleVarInt => le_bytes(bits as int, 8),
    }
}

/// A list or array length: a signed 32-bit scalar under the dialect.
pub open spec fn enc_len(e: Endian, n: int) -> Seq<u8> {
    match e {
        Endian::Big => be_bytes(n, 4),
        Endian::Little => le_bytes(n, 4),
        Endian::LittleVarInt => uvarint_bytes(zigzag_encode(n)),
    }
}

/// A string length: unsigned 16-bit fixed, or an unsigned (not zig-zag)
/// varint.
pub open spec fn enc_str_len(e: Endian, n: int) -> Seq<u8> {
    match e {
        Endian::Big => be_bytes(n, 2),
        Endian::Little => le_bytes(n, 2),
        Endian::LittleVarInt => uvarint_bytes(n),
    }
}

/// A string: its length followed by its raw bytes.
pub open spec fn enc_string(e: Endian, s: Seq<u8>) -> Seq<u8> {
    enc_str_len(e, s.len() as int) + s
}

/// The bytes of a `ByteArray` body: one byte per signed element.
pub open spec fn enc_i8s(s: Seq<i8>) -> Seq<u8> {
    Seq::new(s.len(), |i: int| u8_of_i8(s[i]) as u8)
}

/// The bytes of an `IntArray` body.
pub open spec fn enc_i32s(e: Endian, s: Seq<i32>) -> Seq<u8>
    decreases s.len(),
{
    if s.len() == 0 {
        Seq::empty()
    } else {
        enc_i32v(e, s[0]) + enc_i32s(e, s.subrange(1, s.len() as int))
    }
}

/// The bytes of a `LongArray` body.
pub open spec fn enc_i64s(e: Endian, s: Seq<i64>) -> Seq<u8>
    decreases s.len(),
{
    if s.len() == 0 {
        Seq::empty()
    } else {
        enc_i64v(e, s[0]) + enc_i64s(e, s.subrange(1, s.len() as int))
    }
}

/// The payload bytes of a tag, excluding its own discriminator and name.
///
/// An empty list encodes as the `End` discriminator and a zero length;
/// a compound encodes its entries in order and closes with one `End` byte.
pub open spec fn enc_payload(e: Endian, t: SpecTag) -> Seq<u8>
    decreases t,
{
    match t {
        SpecTag::Byte(v) => seq![u8_of_i8(v) as u8],
        SpecTag::Short(v) => enc_i16v(e, v),
        SpecTag::Int(v) => enc_i32v(e, v),
        SpecTag::Long(v) => enc_i64v(e, v),
        SpecTag::Float(b) => enc_f32v(e, b),
        SpecTag::Double(b) => enc_f64v(e, b),
        SpecTag::ByteArray(a) => enc_len(e, a.len() as int) + enc_i8s(a),
        SpecTag::String(s) => enc_string(e, s),
        SpecTag::List(l) => if l.len() == 0 {
            seq![0u8] + enc_len(e, 0)
        } else {
            seq![spec_tag_id_byte(spec_tag_id(l[0]))] + enc_len(e, l.len() as int) + enc_tags(e, l)
        },
        SpecTag::Compound(s) => enc_entries(e, s) + seq![0u8],
        SpecTag::IntArray(a) => enc_len(e, a.len() as int) + enc_i32s(e, a),
        SpecTag::LongArray(a) => enc_len(e, a.len() as int) + enc_i64s(e, a),
    }
}

/// The concatenated payloads of list elements.
pub open spec fn enc_tags(e: Endian, s: Seq<SpecTag>) -> Seq<u8>
    decreases s,
{
    if s.len() == 0 {
        Seq::empty()
    } else {
        enc_payload(e, s[0]) + enc_tags(e, s.subrange(1, s.len() as int))
    }
}

/// The concatenated compound entries: discriminator, name, payload each.
pub open spec fn enc_entries(e: Endian, s: Seq<(Seq<u8>, SpecTag)>) -> Seq<u8>
    decreases s,
{
    if s.len() == 0 {
        Seq::empty()
    } else {
        seq![spec_tag_id_byte(spec_tag_id(s[0].1))] + enc_string(e, s[0].0) + enc_payload(e, s[0].1)
            + enc_entries(e, s.subrange(1, s.len() as int))
    }
}

/// Whether a string of `n` bytes can carry its length under the dialect:
/// 16 bits in the fixed dialects, 32 in the varint dialect.
pub open spec fn str_len_ok(e: Endian, n: int) -> bool {
    match e {
        Endian::Big => n < 0x10000,
        Endian::Little => n < 0x10000,
        Endian::LittleVarInt => n < 0x1_0000_0000,
    }
}

/// Whether a list or array length fits the signed 32-bit length field.
pub open spec fn len_ok(n: int) -> bool {
    n <= 0x7fff_ffff
}

/// Whether every length inside the tree fits its wire field under the
/// dialect; the writer demands this of its input.
pub open spec fn tag_sizes_ok(e: Endian, t: SpecTag) -> bool
    decreases t,
{
    match t {
        SpecTag::ByteArray(a) => len_ok(a.len() as int),
        SpecTag::String(s) => str_len_ok(e, s.len() as int),
        SpecTag::List(l) => len_ok(l.len() as int) && tags_sizes_ok(e, l),
        SpecTag::Compound(s) => entries_sizes_ok(e, s),
        SpecTag::IntArray(a) => len_ok(a.len() as int),
        SpecTag::LongArray(a) => len_ok(a.len() as int),
        _ => true,
    }
}

/// `tag_sizes_ok` of every element of a list body.
pub open spec fn tags_sizes_ok(e: Endian, s: Seq<SpecTag>) -> bool
    decreases s,
{
    if s.len() == 0 {
        true
    } else {
        tag_sizes_ok(e, s[0]) && tags_sizes_ok(e, s.subrange(1, s.len() as int))
    }
}

/// Key lengths and `tag_sizes_ok` of every entry of a compound body.
pub open spec fn entries_sizes_ok(e: Endian, s: Seq<(Seq<u8>, SpecTag)>) -> bool
    decreases s,
{
    if s.len() == 0 {
        true
    } else {
        str_len_ok(e, s[0].0.len() as int) && tag_sizes_ok(e, s[0].1) && entries_sizes_ok(
            e,
            s.subrange(1, s.len() as int),
        )
    }
}

pub proof fn lemma_sizes_ok_list_elem(e: Endian, l: Seq<SpecTag>, i: int)
    requires
        tags_sizes_ok(e, l),
        0 <= i < l.len(),
    ensures
        tag_sizes_ok(e, l[i]),
    decreases i,
{
    if i > 0 {
        lemma_sizes_ok_list_elem(e, l.subrange(1, l.len() as int), i - 1);
    }
}

pub proof fn lemma_sizes_ok_compound_elem(e: Endian, s: Seq<(Seq<u8>, SpecTag)>, i: int)
    requires
        entries_sizes_ok(e, s),
        0 <= i < s.len(),
    ensures
        str_len_ok(e, s[i].0.len() as int),
        tag_sizes_ok(e, s[i].1),
    decreases i,
{
    if i > 0 {
        lemma_sizes_ok_compound_elem(e, s.subrange(1, s.len() as int), i - 1);
    }
}

pub proof fn lemma_enc_tags_take(e: Endian, s: Seq<SpecTag>, i: int)
    requires
        0 <= i < s.len(),
    ensures
        enc_tags(e, s.take(i + 1)) == enc_tags(e, s.take(i)) + enc_payload(e, s[i]),
    decreases i,
{
    let rest = s.subrange(1, s.len() as int);
    if i == 0 {
        assert(s.take(1).subrange(1, 1) =~= Seq::<SpecTag>::empty());
        assert(s.take(0) =~= Seq::<SpecTag>::empty());
        assert(s.take(1)[0] == s[0]);
        assert(enc_tags(e, Seq::<SpecTag>::empty()) == Seq::<u8>::empty());
        assert(enc_tags(e, s.take(1)) =~= enc_payload(e, s[0]));
        assert(enc_tags(e, s.take(0)) + enc_payload(e, s[0]) =~= enc_payload(e, s[0]));
    } else {
        lemma_enc_tags_take(e, rest, i - 1);
        assert(s.take(i + 1).subrange(1, i + 1) =~= rest.take(i));
        assert(s.take(i).subrange(1, i) =~= rest.take(i - 1));
        assert(enc_tags(e, s.take(i + 1)) == enc_payload(e, s[0]) + enc_tags(e, rest.take(i)));
        assert(enc_tags(e, s.take(i)) == enc_payload(e, s[0]) + enc_tags(e, rest.take(i - 1)));
        assert(rest[i - 1] == s[i]);
        assert(enc_payload(e, s[0]) + (enc_tags(e, rest.take(i - 1)) + enc_payload(e, s[i]))
            =~= (enc_payload(e, s[0]) + enc_tags(e, rest.take(i - 1))) + enc_payload(e, s[i]));
    }
}

pub proof fn lemma_enc_entries_take(e: Endian, s: Seq<(Seq<u8>, SpecTag)>, i: int)
    requires
        0 <= i < s.len(),
    ensures
        enc_entries(e, s.take(i + 1)) == enc_entries(e, s.take(i)) + seq![
            spec_tag_id_byte(spec_tag_id(s[i].1)),
        ] + enc_string(e, s[i].0) + enc_payload(e, s[i].1),
    decreases i,
{
    let rest = s.subrange(1, s.len() as int);
    let head = |x: (Seq<u8>, SpecTag)|
        seq![spec_tag_id_byte(spec_tag_id(x.1))] + enc_string(e, x.0) + enc_payload(e, x.1);
    if i == 0 {
        assert(s.take(1).subrange(1, 1) =~= Seq::<(Seq<u8>, SpecTag)>::empty());
        assert(s.take(0) =~= Seq::<(Seq<u8>, SpecTag)>::empty());
        assert(s.take(1)[0] == s[0]);
        assert(enc_entries(e, Seq::<(Seq<u8>, SpecTag)>::empty()) == Seq::<u8>::empty());
        assert(enc_entries(e, s.take(1)) =~= enc_entries(e, s.take(0)) + seq![
            spec_tag_id_byte(spec_tag_id(s[0].1)),
        ] + enc_string(e, s[0].0) + enc_payload(e, s[0].1));
    } else {
        lemma_enc_entries_take(e, rest, i - 1);
        assert(s.take(i + 1).subrange(1, i + 1) =~= rest.take(i));
        assert(s.take(i).subrange(1, i) =~= rest.take(i - 1));
        assert(rest[i - 1] == s[i]);
        assert(enc_entries(e, s.take(i + 1)) =~= enc_entries(e, s.take(i)) + seq![
            spec_tag_id_byte(spec_tag_id(s[i].1)),
        ] + enc_string(e, s[i].0) + enc_payload(e, s[i].1));
    }
}

pub proof fn lemma_enc_i32s_take(e: Endian, s: Seq<i32>, i: int)
    requires
        0 <= i < s.len(),
    ensures
        enc_i32s(e, s.take(i + 1)) == enc_i32s(e, s.take(i)) + enc_i32v(e, s[i]),
    decreases i,
{
    let rest = s.subrange(1, s.len() as int);
    if i == 0 {
        assert(s.take(1).subrange(1, 1) =~= Seq::<i32>::empty());
        assert(s.take(0) =~= Seq::<i32>::empty());
        assert(s.take(1)[0] == s[0]);
        assert(enc_i32s(e, Seq::<i32>::empty()) == Seq::<u8>::empty());
        assert(enc_i32s(e, s.take(1)) =~= enc_i32s(e, s.take(0)) + enc_i32v(e, s[0]));
    } else {
        lemma_enc_i32s_take(e, rest, i - 1);
        assert(s.take(i + 1).subrange(1, i + 1) =~= rest.take(i));
        assert(s.take(i).subrange(1, i) =~= rest.take(i - 1));
        assert(rest[i - 1] == s[i]);
        assert(enc_i32s(e, s.take(i + 1)) =~= enc_i32s(e, s.take(i)) + enc_i32v(e, s[i]));
    }
}

pub proof fn lemma_enc_i64s_take(e: Endian, s: Seq<i64>, i: int)
    requires
        0 <= i < s.len(),
    ensures
        enc_i64s(e, s.take(i + 1)) == enc_i64s(e, s.take(i)) + enc_i64v(e, s[i]),
    decreases i,
{
    let rest = s.subrange(1, s.len() as int);
    if i == 0 {
        assert(s.take(1).subrange(1, 1) =~= Seq::<i64>::empty());
        assert(s.take(0) =~= Seq::<i64>::empty());
        assert(s.take(1)[0] == s[0]);
        assert(enc_i64s(e, Seq::<i64>::empty()) == Seq::<u8>::empty());
        assert(enc_i64s(e, s.take(1)) =~= enc_i64s(e, s.take(0)) + enc_i64v(e, s[0]));
    } else {
        lemma_enc_i64s_take(e, rest, i - 1);
        assert(s.take(i + 1).subrange(1, i + 1) =~= rest.take(i));
        assert(s.take(i).subrange(1, i) =~= rest.take(i - 1));
        assert(rest[i - 1] == s[i]);
        assert(enc_i64s(e, s.take(i + 1)) =~= enc_i64s(e, s.take(i)) + enc_i64v(e, s[i]));
    }
}

/// Appends one unsigned byte.
pub fn write_unsigned_byte(out: &mut Vec<u8>, value: u8)
    ensures
        final(out)@ == old(out)@ + seq![value],
{
    out.push(value);
    proof {
        assert(out@ =~= old(out)@ + seq![value]);
    }
}

/// Appends a `Byte` payload.
pub fn write_byte(out: &mut Vec<u8>, value: i8)
    ensures
        final(out)@ == old(out)@ + seq![u8_of_i8(value) as u8],
{
    let b = i8_to_u8(value);
    write_unsigned_byte(out, b);
}

/// Appends a tag discriminator byte.
pub fn write_tag_id(out: &mut Vec<u8>, tag_id: TagId)
    ensures
        final(out)@ == old(out)@ + seq![spec_tag_id_byte(tag_id)],
{
    let b = tag_id.to_byte();
    write_unsigned_byte(out, b);
}

/// Appends an unsigned varint.
pub fn write_uvarint(out: &mut Vec<u8>, v: u64)
    ensures
        final(out)@ == old(out)@ + uvarint_bytes(v as int),
    decreases v,
{
    if v < 128 {
        out.push(v as u8);
        proof {
            assert(out@ =~= old(out)@ + uvarint_bytes(v as int));
        }
    } else {
        out.push((v % 128 + 128) as u8);
        write_uvarint(out, v / 128);
        proof {
            assert(out@ =~= old(out)@ + uvarint_bytes(v as int));
        }
    }
}

/// Appends an unsigned 16-bit scalar under the dialect.
pub fn write_unsigned_short(out: &mut Vec<u8>, endian: Endian, value: u16)
    ensures
        final(out)@ == old(out)@ + enc_u16(endian, value as int),
{
    match endian {
        Endian::Big => push_be_bytes(out, value as u64, 2),
        Endian::Little => push_le_bytes(out, value as u64, 2),
        Endian::LittleVarInt => push_le_bytes(out, value as u64, 2),
    }
}

/// Appends a `Short` payload.
pub fn write_short(out: &mut Vec<u8>, endian: Endian, value: i16)
    ensures
        final(out)@ == old(out)@ + enc_i16v(endian, value),
{
    let u = i16_to_u64(value);
    match endian {
        Endian::Big => push_be_bytes(out, u, 2),
        Endian::Little => push_le_bytes(out, u, 2),
        Endian::LittleVarInt => push_le_bytes(out, u, 2),
    }
}

/// Appends an `Int` payload.
pub fn write_int(out: &mut Vec<u8>, endian: Endian, value: i32)
    ensures
        final(out)@ == old(out)@ + enc_i32v(endian, value),
{
    match endian {
        Endian::Big => {
            let u = i32_to_u64(value);
            push_be_bytes(out, u, 4);
        },
        Endian::Little => {
            let u = i32_to_u64(value);
            push_le_bytes(out, u, 4);
        },
        Endian::LittleVarInt => {
            let z = zigzag_encode_u32(value);
            write_uvarint(out, z as u64);
        },
    }
}

/// Appends a `Long` payload.
pub fn write_long(out: &mut Vec<u8>, endian: Endian, value: i64)
    ensures
        final(out)@ == old(out)@ + enc_i64v(endian, value),
{
    match endian {
        Endian::Big => {
            let u = i64_to_u64(value);
            push_be_bytes(out, u, 8);
        },
        Endian::Little => {
            let u = i64_to_u64(value);
            push_le_bytes(out, u, 8);
        },
        Endian::LittleVarInt => {
            let z = zigzag_encode_u64(value);
            write_uvarint(out, z);
        },
    }
}

/// Appends a `Float` payload from its bit pattern.
pub fn write_float(out: &mut Vec<u8>, endian: Endian, bits: u32)
    ensures
        final(out)@ == old(out)@ + enc_f32v(endian, bits),
{
    match endian {
        Endian::Big => push_be_bytes(out, bits as u64, 4),
        Endian::Little => push_le_bytes(out, bits as u64, 4),
        Endian::LittleVarInt => push_le_bytes(out, bits as u64, 4),
    }
}

/// Appends a `Double` payload from its bit pattern.
pub fn write_double(out: &mut Vec<u8>, endian: Endian, bits: u64)
    ensures
        final(out)@ == old(out)@ + enc_f64v(endian, bits),
{
    match endian {
        Endian::Big => push_be_bytes(out, bits, 8),
        Endian::Little => push_le_bytes(out, bits, 8),
        Endian::LittleVarInt => push_le_bytes(out, bits, 8),
    }
}

/// Appends a list or array length.
pub fn write_len(out: &mut Vec<u8>, endian: Endian, value: i32)
    requires
        value >= 0,
    ensures
        final(out)@ == old(out)@ + enc_len(endian, value as int),
{
    match endian {
        Endian::Big => push_be_bytes(out, value as u64, 4),
        Endian::Little => push_le_bytes(out, value as u64, 4),
        Endian::LittleVarInt => {
            let z = zigzag_encode_u32(value);
            write_uvarint(out, z as u64);
        },
    }
}

/// Appends a string: its length under the dialect, then its raw bytes.
pub fn write_string(out: &mut Vec<u8>, endian: Endian, value: &[u8])
    requires
        str_len_ok(endian, value@.len() as int),
    ensures
        final(out)@ == old(out)@ + enc_string(endian, value@),
{
    match endian {
        Endian::Big => push_be_bytes(out, value.len() as u64, 2),
        Endian::Little => push_le_bytes(out, value.len() as u64, 2),
        Endian::LittleVarInt => write_uvarint(out, value.len() as u64),
    }
    let ghost mid = out@;
    let n = value.len();
    for i in 0..n
        invariant
            n == value@.len(),
            out@ == mid + value@.take(i as int),
    {
        out.push(value[i]);
        proof {
            assert(out@ =~= mid + value@.take(i + 1));
        }
    }
    proof {
        assert(value@.take(n as int) =~= value@);
        assert(out@ =~= old(out)@ + enc_string(endian, value@));
    }
}


/// Appends the payload of a tag under the dialect.
pub fn write_tag(out: &mut Vec<u8>, endian: Endian, tag: &Tag)
    requires
        tag_sizes_ok(endian, tag@),
    ensures
        final(out)@ == old(out)@ + enc_payload(endian, tag@),
    decreases *tag, 0int,
{
    match tag {
        Tag::Byte(v) => {
            write_byte(out, *v);
        },
        Tag::Short(v) => {
            write_short(out, endian, *v);
        },
        Tag::Int(v) => {
            write_int(out, endian, *v);
        },
        Tag::Long(v) => {
            write_long(out, endian, *v);
        },
        Tag::Float(b) => {
            write_float(out, endian, *b);
        },
        Tag::Double(b) => {
            write_double(out, endian, *b);
        },
        Tag::ByteArray(a) => {
            write_byte_array(out, endian, a);
        },
        Tag::String(s) => {
            write_string(out, endian, s.as_slice());
        },
        Tag::List(l) => {
            proof {
                assert(decreases_to!(*tag => (*tag)->List_0));
                assert((*tag)->List_0 == *l);
            }
            write_list(out, endian, l);
        },
        Tag::Compound(c) => {
            proof {
                assert(decreases_to!(*tag => (*tag)->Compound_0));
                assert((*tag)->Compound_0 == *c);
            }
            write_compound(out, endian, c);
        },
        Tag::IntArray(a) => {
            write_int_array(out, endian, a);
        },
        Tag::LongArray(a) => {
            write_long_array(out, endian, a);
        },
    }
}

/// Appends a `ByteArray` payload: its length, then one byte per element.
pub fn write_byte_array(out: &mut Vec<u8>, endian: Endian, value: &ByteArrayTag)
    requires
        len_ok(value.0@.len() as int),
    ensures
        final(out)@ == old(out)@ + enc_payload(endian, SpecTag::ByteArray(value.0@)),
{
    write_len(out, endian, value.0.len() as i32);
    let ghost mid = out@;
    let n = value.0.len();
    for i in 0..n
        invariant
            n == value.0@.len(),
            mid == old(out)@ + enc_len(endian, n as int),
            out@ == mid + enc_i8s(value.0@.take(i as int)),
    {
        write_byte(out, value.0[i]);
        proof {
            assert(out@ =~= mid + enc_i8s(value.0@.take(i + 1)));
        }
    }
    proof {
        assert(value.0@.take(n as int) =~= value.0@);
        assert(out@ =~= old(out)@ + enc_payload(endian, SpecTag::ByteArray(value.0@)));
    }
}

/// Appends an `IntArray` payload: its length, then each element.
pub fn write_int_array(out: &mut Vec<u8>, endian: Endian, value: &IntArrayTag)
    requires
        len_ok(value.0@.len() as int),
    ensures
        final(out)@ == old(out)@ + enc_payload(endian, SpecTag::IntArray(value.0@)),
{
    write_len(out, endian, value.0.len() as i32);
    let ghost mid = out@;
    let n = value.0.len();
    for i in 0..n
        invariant
            n == value.0@.len(),
            mid == old(out)@ + enc_len(endian, n as int),
            out@ == mid + enc_i32s(endian, value.0@.take(i as int)),
    {
        write_int(out, endian, value.0[i]);
        proof {
            lemma_enc_i32s_take(endian, value.0@, i as int);
            assert(out@ =~= mid + enc_i32s(endian, value.0@.take(i + 1)));
        }
    }
    proof {
        assert(value.0@.take(n as int) =~= value.0@);
        assert(out@ =~= old(out)@ + enc_payload(endian, SpecTag::IntArray(value.0@)));
    }
}

/// Appends a `LongArray` payload: its length, then each element.
pub fn write_long_array(out: &mut Vec<u8>, endian: Endian, value: &LongArrayTag)
    requires
        len_ok(value.0@.len() as int),
    ensures
        final(out)@ == old(out)@ + enc_payload(endian, SpecTag::LongArray(value.0@)),
{
    write_len(out, endian, value.0.len() as i32);
    let ghost mid = out@;
    let n = value.0.len();
    for i in 0..n
        invariant
            n == value.0@.len(),
            mid == old(out)@ + enc_len(endian, n as int),
            out@ == mid + enc_i64s(endian, value.0@.take(i as int)),
    {
        write_long(out, endian, value.0[i]);
        proof {
            lemma_enc_i64s_take(endian, value.0@, i as int);
            assert(out@ =~= mid + enc_i64s(endian, value.0@.take(i + 1)));
        }
    }
    proof {
        assert(value.0@.take(n as int) =~= value.0@);
        assert(out@ =~= old(out)@ + enc_payload(endian, SpecTag::LongArray(value.0@)));
    }
}

/// Appends a `List` payload: the shared element discriminator, the
/// element count, and every element payload; an empty list writes the
/// `End` discriminator and a zero count.
#[verifier::rlimit(50)]
pub fn write_list(out: &mut Vec<u8>, endian: Endian, value: &ListTag<Tag>)
    requires
        tag_sizes_ok(endian, SpecTag::List(tags_view(value@))),
    ensures
        final(out)@ == old(out)@ + enc_payload(endian, SpecTag::List(tags_view(value@))),
    decreases *value, 1int,
{
    proof {
        lemma_tags_view_index(value@);
    }
    let ghost ls = tags_view(value@);
    if value.len() == 0 {
        write_tag_id(out, TagId::End);
        write_len(out, endian, 0);
        proof {
            assert(out@ =~= old(out)@ + enc_payload(endian, SpecTag::List(ls)));
        }
    } else {
        let first_id = value[0].id();
        write_tag_id(out, first_id);
        write_len(out, endian, value.len() as i32);
        let ghost mid = out@;
        let n = value.len();
        for i in 0..n
            invariant
                n == value@.len(),
                ls == tags_view(value@),
                ls.len() == n,
                forall|j: int| 0 <= j < n ==> ls[j] == tag_view(#[trigger] value@[j]),
                tag_sizes_ok(endian, SpecTag::List(ls)),
                mid == old(out)@ + seq![spec_tag_id_byte(spec_tag_id(ls[0]))] + enc_len(
                    endian,
                    n as int,
                ),
                out@ == mid + enc_tags(endian, ls.take(i as int)),
        {
            proof {
                assert(decreases_to!(*value => value@));
                assert(decreases_to!(value@ => value@[i as int]));
                assert(ls[i as int] == tag_view(value@[i as int]));
                lemma_sizes_ok_list_elem(endian, ls, i as int);
            }
            write_tag(out, endian, &value[i]);
            proof {
                lemma_enc_tags_take(endian, ls, i as int);
                assert(out@ =~= mid + enc_tags(endian, ls.take(i + 1)));
            }
        }
        proof {
            assert(ls.take(n as int) =~= ls);
            assert(out@ =~= old(out)@ + enc_payload(endian, SpecTag::List(ls)));
        }
    }
}

/// Appends a `Compound` payload: for each entry its discriminator, key
/// and payload, closed by a single `End` discriminator byte.
#[verifier::rlimit(50)]
pub fn write_compound(out: &mut Vec<u8>, endian: Endian, value: &CompoundTag)
    requires
        tag_sizes_ok(endian, SpecTag::Compound(value@)),
    ensures
        final(out)@ == old(out)@ + enc_payload(endian, SpecTag::Compound(value@)),
    decreases *value, 1int,
{
    proof {
        lemma_entries_view_index(value.entries@);
    }
    let ghost es = entries_view(value.entries@);
    let ghost base = out@;
    let n = value.entries.len();
    for i in 0..n
        invariant
            n == value.entries@.len(),
            es == entries_view(value.entries@),
            es == value@,
            es.len() == n,
            forall|j: int|
                0 <= j < n ==> es[j] == ((#[trigger] value.entries@[j]).0@, tag_view(
                    value.entries@[j].1,
                )),
            tag_sizes_ok(endian, SpecTag::Compound(es)),
            base == old(out)@,
            out@ == base + enc_entries(endian, es.take(i as int)),
    {
        let entry = &value.entries[i];
        proof {
            assert(decreases_to!(*value => value.entries));
            assert(decreases_to!(value.entries => value.entries@));
            assert(decreases_to!(value.entries@ => value.entries@[i as int]));
            assert(decreases_to!(value.entries@[i as int] => value.entries@[i as int].1));
            assert(es[i as int] == (value.entries@[i as int].0@, tag_view(
                value.entries@[i as int].1,
            )));
            lemma_sizes_ok_compound_elem(endian, es, i as int);
        }
        let id = entry.1.id();
        write_tag_id(out, id);
        write_string(out, endian, entry.0.as_slice());
        write_tag(out, endian, &entry.1);
        proof {
            lemma_enc_entries_take(endian, es, i as int);
            assert(out@ =~= base + enc_entries(endian, es.take(i + 1)));
        }
    }
    write_tag_id(out, TagId::End);
    proof {
        assert(es.take(n as int) =~= es);
        assert(out@ =~= old(out)@ + enc_payload(endian, SpecTag::Compound(es)));
    }
}

/// The key under which a compound root carries its header storage
/// version: the bytes of `StorageVersion`.
pub open spec fn sv_name() -> Seq<u8> {
    seq![83u8, 116u8, 111u8, 114u8, 97u8, 103u8, 101u8, 86u8, 101u8, 114u8, 115u8, 105u8, 111u8, 110u8]
}

/// The first entry of `s` whose key is `name`, if any.
pub open spec fn spec_lookup(s: Seq<(Seq<u8>, SpecTag)>, name: Seq<u8>) -> Option<SpecTag>
    decreases s.len(),
{
    if s.len() == 0 {
        None
    } else if s[0].0 == name {
        Some(s[0].1)
    } else {
        spec_lookup(s.subrange(1, s.len() as int), name)
    }
}

/// The storage version a header takes from a root tag: the `Int` entry
/// named `StorageVersion` of a compound root, or the error that names
/// what was missing.
pub open spec fn spec_storage_version(t: SpecTag) -> Result<i32, WriteError> {
    match t {
        SpecTag::Compound(s) => match spec_lookup(s, sv_name()) {
            Some(SpecTag::Int(v)) => Ok(v),
            Some(_) => Err(WriteError::ExpectedInt),
            None => Err(WriteError::ExpectedStorageVersion),
        },
        _ => Err(WriteError::ExpectedCompound),
    }
}

/// The bytes of the key `StorageVersion`.
fn storage_version_name() -> (v: Vec<u8>)
    ensures
        v@ == sv_name(),
{
    let mut v: Vec<u8> = Vec::new();
    v.push(83);
    v.push(116);
    v.push(111);
    v.push(114);
    v.push(97);
    v.push(103);
    v.push(101);
    v.push(86);
    v.push(101);
    v.push(114);
    v.push(115);
    v.push(105);
    v.push(111);
    v.push(110);
    proof {
        assert(v@ =~= sv_name());
    }
    v
}

/// Looks up the `StorageVersion` `Int` field that the Bedrock header
/// derives its first word from.
pub fn get_storage_version(data: &Tag) -> (r: Result<i32, WriteError>)
    ensures
        r == spec_storage_version(data@),
{
    match data {
        Tag::Compound(c) => {
            proof {
                lemma_entries_view_index(c.entries@);
            }
            let ghost es = entries_view(c.entries@);
            let target = storage_version_name();
            let n = c.entries.len();
            proof {
                assert(es.subrange(0, n as int) =~= es);
            }
            for i in 0..n
                invariant
                    n == c.entries@.len(),
                    es == entries_view(c.entries@),
                    es.len() == n,
                    target@ == sv_name(),
                    forall|j: int|
                        0 <= j < n ==> es[j] == ((#[trigger] c.entries@[j]).0@, tag_view(
                            c.entries@[j].1,
                        )),
                    spec_lookup(es, sv_name()) == spec_lookup(
                        es.subrange(i as int, n as int),
                        sv_name(),
                    ),
                    data@ == SpecTag::Compound(es),
            {
                let entry = &c.entries[i];
                proof {
                    assert(es.subrange(i as int, n as int)[0] == es[i as int]);
                }
                if eq_bytes(&entry.0, &target) {
                    match &entry.1 {
                        Tag::Int(v) => {
                            return Ok(*v);
                        },
                        _ => {
                            return Err(WriteError::ExpectedInt);
                        },
                    }
                }
                proof {
                    assert(es.subrange(i as int, n as int).subrange(
                        1,
                        (n - i) as int,
                    ) =~= es.subrange(i + 1, n as int));
                }
            }
            proof {
                assert(es.subrange(n as int, n as int) =~= Seq::<(Seq<u8>, SpecTag)>::empty());
            }
            Err(WriteError::ExpectedStorageVersion)
        },
        _ => Err(WriteError::ExpectedCompound),
    }
}

/// The whole encoded stream of a root tag, before any header: its
/// discriminator byte, its name as a string, and its payload.
pub open spec fn enc_root(e: Endian, t: SpecTag, name: Seq<u8>) -> Seq<u8> {
    seq![spec_tag_id_byte(spec_tag_id(t))] + enc_string(e, name) + enc_payload(e, t)
}

/// What `write_root` emits, or the error it fails with: the bare root
/// stream, or the 8-byte little-endian header (storage version, then
/// payload length) followed by the root stream.
pub open spec fn spec_write_root(e: Endian, h: BedrockHeader, t: SpecTag, name: Seq<u8>) -> Result<
    Seq<u8>,
    WriteError,
> {
    match h {
        BedrockHeader::Without => Ok(enc_root(e, t, name)),
        BedrockHeader::With => match spec_storage_version(t) {
            Ok(sv) => Ok(
                le_bytes(u32_of_i32(sv), 4) + le_bytes(enc_root(e, t, name).len() as int, 4)
                    + enc_root(e, t, name),
            ),
            Err(er) => Err(er),
        },
    }
}

/// Serializes a root tag to bytes under the dialect, with the optional
/// Bedrock header.  With a header, the root must be a compound holding an
/// `Int` entry named `StorageVersion`; the three errors say exactly which
/// part of that was missing.
pub fn write_root(tag: &Tag, root_name: &[u8], endian: Endian, header: BedrockHeader) -> (r: Result<
    Vec<u8>,
    WriteError,
>)
    requires
        tag_sizes_ok(endian, tag@),
        str_len_ok(endian, root_name@.len() as int),
        header == BedrockHeader::With ==> enc_root(endian, tag@, root_name@).len()
            < 0x1_0000_0000,
    ensures
        match spec_write_root(endian, header, tag@, root_name@) {
            Ok(bytes) => r matches Ok(v) && v@ == bytes,
            Err(er) => r == Err::<Vec<u8>, WriteError>(er),
        },
{
    let mut body: Vec<u8> = Vec::new();
    write_tag_id(&mut body, tag.id());
    write_string(&mut body, endian, root_name);
    write_tag(&mut body, endian, tag);
    proof {
        assert(body@ =~= enc_root(endian, tag@, root_name@));
    }
    match header {
        BedrockHeader::Without => Ok(body),
        BedrockHeader::With => {
            match get_storage_version(tag) {
                Ok(sv) => {
                    let mut out: Vec<u8> = Vec::new();
                    let svu = i32_to_u64(sv);
                    push_le_bytes(&mut out, svu, 4);
                    push_le_bytes(&mut out, body.len() as u64, 4);
                    let ghost head = out@;
                    out.append(&mut body);
                    proof {
                        assert(out@ =~= le_bytes(u32_of_i32(sv), 4) + le_bytes(
                            enc_root(endian, tag@, root_name@).len() as int,
                            4,
                        ) + enc_root(endian, tag@, root_name@));
                    }
                    Ok(out)
                },
                Err(er) => Err(er),
            }
        },
    }
}

} // verus!
