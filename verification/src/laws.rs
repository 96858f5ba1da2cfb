//! The laws of the codec: reading inverts writing.  The main theorem
//! says that parsing a written stream returns exactly the tree and root
//! name it was written from; its corollary gives the bit-exact
//! write-after-read round trip on every stream the writer can produce.

use vstd::prelude::*;

use crate::read::parse_be;
use crate::read::parse_bedrock_header;
use crate::read::parse_compound;
use crate::read::parse_entries;
use crate::read::parse_f32;
use crate::read::parse_f64;
use crate::read::parse_i16;
use crate::read::parse_i32;
use crate::read::parse_i32s;
use crate::read::parse_i64;
use crate::read::parse_i64s;
use crate::read::parse_byte_array;
use crate::read::parse_int_array;
use crate::read::parse_le;
use crate::read::parse_len;
use crate::read::parse_list;
use crate::read::parse_long_array;
use crate::read::parse_payload;
use crate::read::parse_root;
use crate::read::parse_root_at;
use crate::read::parse_str_len;
use crate::read::parse_string;
use crate::read::parse_tag_id;
use crate::read::parse_tags;
use crate::read::parse_uvarint_raw;
use crate::read::parse_uvarint32;
use crate::read::parse_uvarint64;
use crate::read::lemma_parse_payload_bounds;
use crate::read::ReadError;
use crate::tag::BedrockHeader;
use crate::tag::Endian;
use crate::tag::SpecTag;
use crate::tag::TagId;
use crate::tag::spec_tag_id;
use crate::tag::spec_tag_id_byte;
use crate::tag::spec_tag_id_of_byte;
use crate::tag::tag_wf;
use crate::tag::tags_wf;
use crate::tag::entries_wf;
use crate::wire::be_bytes;
use crate::wire::i8_of_u8;
use crate::wire::le_bytes;
use crate::wire::lemma_be_bytes_len;
use crate::wire::lemma_be_val_be_bytes;
use crate::wire::lemma_le_bytes_len;
use crate::wire::lemma_le_val_le_bytes;
use crate::wire::lemma_uvarint_bytes_len;
use crate::wire::pow128;
use crate::wire::pow256;
use crate::wire::u16_of_i16;
use crate::wire::u32_of_i32;
use crate::wire::u64_of_i64;
use crate::wire::u8_of_i8;
use crate::wire::uvarint_bytes;
use crate::wire::zigzag_decode;
use crate::wire::zigzag_encode;
use crate::write::enc_entries;
use crate::write::enc_f32v;
use crate::write::enc_f64v;
use crate::write::enc_i16v;
use crate::write::enc_i32s;
use crate::write::enc_i32v;
use crate::write::enc_i64s;
use crate::write::enc_i64v;
use crate::write::enc_i8s;
use crate::write::enc_len;
use crate::write::enc_payload;
use crate::write::enc_root;
use crate::write::enc_str_len;
use crate::write::enc_string;
use crate::write::enc_tags;
use crate::write::entries_sizes_ok;
use crate::write::len_ok;
use crate::write::spec_storage_version;
use crate::write::spec_write_root;
use crate::write::str_len_ok;
use crate::write::tag_sizes_ok;
use crate::write::tags_sizes_ok;

verus! {

/// Splitting a parsed window: if the bytes at `pos` are `a + b`, the
/// first `|a|` of them are `a` and the rest are `b`.
pub proof fn lemma_subrange_concat(data: Seq<u8>, pos: int, a: Seq<u8>, b: Seq<u8>)
    requires
        0 <= pos,
        pos + a.len() + b.len() <= data.len(),
        data.subrange(pos, pos + a.len() + b.len()) == a + b,
    ensures
        data.subrange(pos, pos + a.len()) == a,
        data.subrange(pos + a.len(), pos + a.len() + b.len()) == b,
{
    let w = data.subrange(pos, pos + a.len() + b.len());
    assert forall|i: int| 0 <= i < a.len() implies data.subrange(pos, pos + a.len())[i] == a[i] by {
        assert(w[i] == (a + b)[i]);
    }
    assert(data.subrange(pos, pos + a.len()) =~= a);
    assert forall|i: int|
        0 <= i < b.len() implies data.subrange(pos + a.len(), pos + a.len() + b.len())[i]
        == b[i] by {
        assert(w[a.len() + i] == (a + b)[a.len() + i]);
    }
    assert(data.subrange(pos + a.len(), pos + a.len() + b.len()) =~= b);
}

/// A big-endian window parses back to the value it encodes.
pub proof fn lemma_parse_be_enc(data: Seq<u8>, pos: int, v: int, n: nat)
    requires
        0 <= v < pow256(n),
        0 <= pos,
        pos + n <= data.len(),
        data.subrange(pos, pos + n as int) == be_bytes(v, n),
    ensures
        parse_be(data, pos, n) == Ok::<(int, int), ReadError>((v, pos + n)),
{
    lemma_be_bytes_len(v, n);
    lemma_be_val_be_bytes(v, n);
}

/// A little-endian window parses back to the value it encodes.
pub proof fn lemma_parse_le_enc(data: Seq<u8>, pos: int, v: int, n: nat)
    requires
        0 <= v < pow256(n),
        0 <= pos,
        pos + n <= data.len(),
        data.subrange(pos, pos + n as int) == le_bytes(v, n),
    ensures
        parse_le(data, pos, n) == Ok::<(int, int), ReadError>((v, pos + n)),
{
    lemma_le_bytes_len(v, n);
    lemma_le_val_le_bytes(v, n);
}

/// An unsigned varint window parses back to the value it encodes, under
/// any budget that covers its length.
pub proof fn lemma_parse_uvarint_enc(
    data: Seq<u8>,
    pos: int,
    v: int,
    budget: nat,
    err: ReadError,
)
    requires
        budget >= 1,
        0 <= v < pow128(budget),
        0 <= pos,
        pos + uvarint_bytes(v).len() <= data.len(),
        data.subrange(pos, pos + uvarint_bytes(v).len()) == uvarint_bytes(v),
    ensures
        parse_uvarint_raw(data, pos, budget, err) == Ok::<(int, int), ReadError>(
            (v, pos + uvarint_bytes(v).len()),
        ),
    decreases budget,
{
    let enc = uvarint_bytes(v);
    lemma_uvarint_bytes_len(v, budget);
    assert(data[pos] == enc[0]);
    if v < 128 {
        assert(enc =~= seq![v as u8]);
        assert(data[pos] == v as u8);
    } else {
        let rest = uvarint_bytes(v / 128);
        assert(enc == seq![(v % 128 + 128) as u8] + rest);
        assert(data[pos] == (v % 128 + 128) as u8);
        assert(data[pos] >= 128);
        assert(0 <= v / 128 < pow128((budget - 1) as nat));
        assert forall|i: int|
            0 <= i < rest.len() implies data.subrange(pos + 1, pos + 1 + rest.len())[i]
            == rest[i] by {
            assert(data.subrange(pos, pos + enc.len())[1 + i] == enc[1 + i]);
            assert(enc[1 + i] == rest[i]);
        }
        assert(data.subrange(pos + 1, pos + 1 + rest.len()) =~= rest);
        lemma_parse_uvarint_enc(data, pos + 1, v / 128, (budget - 1) as nat, err);
        assert((data[pos] - 128) + 128 * (v / 128) == v % 128 + 128 * (v / 128));
        assert(v % 128 + 128 * (v / 128) == v);
    }
}

/// The concrete group capacities of bounded varints.
pub proof fn lemma_pow128_values()
    ensures
        pow128(5) == 0x8_0000_0000,
        pow128(10) == 0x40_0000_0000_0000_0000,
{
    reveal_with_fuel(pow128, 11);
}

/// A 32-bit-bounded varint window parses back to the value it encodes.
pub proof fn lemma_parse_uvarint32_enc(data: Seq<u8>, pos: int, v: int)
    requires
        0 <= v < 0x1_0000_0000,
        0 <= pos,
        pos + uvarint_bytes(v).len() <= data.len(),
        data.subrange(pos, pos + uvarint_bytes(v).len()) == uvarint_bytes(v),
    ensures
        parse_uvarint32(data, pos) == Ok::<(int, int), ReadError>(
            (v, pos + uvarint_bytes(v).len()),
        ),
{
    lemma_pow128_values();
    lemma_parse_uvarint_enc(data, pos, v, 5, ReadError::VarIntRange);
}

/// A 64-bit-bounded varint window parses back to the value it encodes.
pub proof fn lemma_parse_uvarint64_enc(data: Seq<u8>, pos: int, v: int)
    requires
        0 <= v < 0x1_0000_0000_0000_0000,
        0 <= pos,
        pos + uvarint_bytes(v).len() <= data.len(),
        data.subrange(pos, pos + uvarint_bytes(v).len()) == uvarint_bytes(v),
    ensures
        parse_uvarint64(data, pos) == Ok::<(int, int), ReadError>(
            (v, pos + uvarint_bytes(v).len()),
        ),
{
    lemma_pow128_values();
    lemma_parse_uvarint_enc(data, pos, v, 10, ReadError::VarLongRange);
}

/// The concrete field capacities of the fixed-width scalars.
pub proof fn lemma_pow256_values_all()
    ensures
        pow256(2) == 0x10000,
        pow256(4) == 0x1_0000_0000,
        pow256(8) == 0x1_0000_0000_0000_0000,
{
    reveal_with_fuel(pow256, 9);
}

/// A `Short` window parses back to the value it encodes.
pub proof fn lemma_parse_i16_enc(data: Seq<u8>, pos: int, e: Endian, v: i16)
    requires
        0 <= pos,
        pos + enc_i16v(e, v).len() <= data.len(),
        data.subrange(pos, pos + enc_i16v(e, v).len()) == enc_i16v(e, v),
    ensures
        enc_i16v(e, v).len() == 2,
        parse_i16(data, pos, e) == Ok::<(i16, int), ReadError>((v, pos + enc_i16v(e, v).len())),
{
    lemma_pow256_values_all();
    let u = u16_of_i16(v);
    match e {
        Endian::Big => {
            lemma_be_bytes_len(u, 2);
            lemma_parse_be_enc(data, pos, u, 2);
        },
        _ => {
            lemma_le_bytes_len(u, 2);
            lemma_parse_le_enc(data, pos, u, 2);
        },
    }
}

/// An `Int` window parses back to the value it encodes.
#[verifier::rlimit(60)]
pub proof fn lemma_parse_i32_enc(data: Seq<u8>, pos: int, e: Endian, v: i32)
    requires
        0 <= pos,
        pos + enc_i32v(e, v).len() <= data.len(),
        data.subrange(pos, pos + enc_i32v(e, v).len()) == enc_i32v(e, v),
    ensures
        parse_i32(data, pos, e) == Ok::<(i32, int), ReadError>((v, pos + enc_i32v(e, v).len())),
{
    lemma_pow256_values_all();
    match e {
        Endian::Big => {
            let u = u32_of_i32(v);
            lemma_be_bytes_len(u, 4);
            lemma_parse_be_enc(data, pos, u, 4);
        },
        Endian::Little => {
            let u = u32_of_i32(v);
            lemma_le_bytes_len(u, 4);
            lemma_parse_le_enc(data, pos, u, 4);
        },
        Endian::LittleVarInt => {
            let z = zigzag_encode(v as int);
            lemma_parse_uvarint32_enc(data, pos, z);
        },
    }
}

/// A `Long` window parses back to the value it encodes.
#[verifier::rlimit(60)]
pub proof fn lemma_parse_i64_enc(data: Seq<u8>, pos: int, e: Endian, v: i64)
    requires
        0 <= pos,
        pos + enc_i64v(e, v).len() <= data.len(),
        data.subrange(pos, pos + enc_i64v(e, v).len()) == enc_i64v(e, v),
    ensures
        parse_i64(data, pos, e) == Ok::<(i64, int), ReadError>((v, pos + enc_i64v(e, v).len())),
{
    lemma_pow256_values_all();
    match e {
        Endian::Big => {
            let u = u64_of_i64(v);
            lemma_be_bytes_len(u, 8);
            lemma_parse_be_enc(data, pos, u, 8);
        },
        Endian::Little => {
            let u = u64_of_i64(v);
            lemma_le_bytes_len(u, 8);
            lemma_parse_le_enc(data, pos, u, 8);
        },
        Endian::LittleVarInt => {
            let z = zigzag_encode(v as int);
            lemma_parse_uvarint64_enc(data, pos, z);
        },
    }
}

/// A `Float` window parses back to the bit pattern it encodes.
pub proof fn lemma_parse_f32_enc(data: Seq<u8>, pos: int, e: Endian, bits: u32)
    requires
        0 <= pos,
        pos + enc_f32v(e, bits).len() <= data.len(),
        data.subrange(pos, pos + enc_f32v(e, bits).len()) == enc_f32v(e, bits),
    ensures
        enc_f32v(e, bits).len() == 4,
        parse_f32(data, pos, e) == Ok::<(u32, int), ReadError>(
            (bits, pos + enc_f32v(e, bits).len()),
        ),
{
    lemma_pow256_values_all();
    match e {
        Endian::Big => {
            lemma_be_bytes_len(bits as int, 4);
            lemma_parse_be_enc(data, pos, bits as int, 4);
        },
        _ => {
            lemma_le_bytes_len(bits as int, 4);
            lemma_parse_le_enc(data, pos, bits as int, 4);
        },
    }
}

/// A `Double` window parses back to the bit pattern it encodes.
pub proof fn lemma_parse_f64_enc(data: Seq<u8>, pos: int, e: Endian, bits: u64)
    requires
        0 <= pos,
        pos + enc_f64v(e, bits).len() <= data.len(),
        data.subrange(pos, pos + enc_f64v(e, bits).len()) == enc_f64v(e, bits),
    ensures
        enc_f64v(e, bits).len() == 8,
        parse_f64(data, pos, e) == Ok::<(u64, int), ReadError>(
            (bits, pos + enc_f64v(e, bits).len()),
        ),
{
    lemma_pow256_values_all();
    match e {
        Endian::Big => {
            lemma_be_bytes_len(bits as int, 8);
            lemma_parse_be_enc(data, pos, bits as int, 8);
        },
        _ => {
            lemma_le_bytes_len(bits as int, 8);
            lemma_parse_le_enc(data, pos, bits as int, 8);
        },
    }
}

/// A length window parses back to the (non-negative) length it encodes.
pub proof fn lemma_parse_len_enc(data: Seq<u8>, pos: int, e: Endian, n: int)
    requires
        0 <= n <= 0x7fff_ffff,
        0 <= pos,
        pos + enc_len(e, n).len() <= data.len(),
        data.subrange(pos, pos + enc_len(e, n).len()) == enc_len(e, n),
    ensures
        parse_len(data, pos, e) == Ok::<(int, int), ReadError>((n, pos + enc_len(e, n).len())),
{
    assert(enc_len(e, n) == enc_i32v(e, n as i32)) by {
        assert(u32_of_i32(n as i32) == n);
        assert(zigzag_encode(n as i32 as int) == zigzag_encode(n));
    }
    lemma_parse_i32_enc(data, pos, e, n as i32);
}

/// A string-length window parses back to the length it encodes.
pub proof fn lemma_parse_str_len_enc(data: Seq<u8>, pos: int, e: Endian, n: int)
    requires
        0 <= n,
        str_len_ok(e, n),
        0 <= pos,
        pos + enc_str_len(e, n).len() <= data.len(),
        data.subrange(pos, pos + enc_str_len(e, n).len()) == enc_str_len(e, n),
    ensures
        parse_str_len(data, pos, e) == Ok::<(int, int), ReadError>(
            (n, pos + enc_str_len(e, n).len()),
        ),
{
    lemma_pow256_values_all();
    match e {
        Endian::Big => {
            lemma_be_bytes_len(n, 2);
            lemma_parse_be_enc(data, pos, n, 2);
        },
        Endian::Little => {
            lemma_le_bytes_len(n, 2);
            lemma_parse_le_enc(data, pos, n, 2);
        },
        Endian::LittleVarInt => {
            lemma_parse_uvarint32_enc(data, pos, n);
        },
    }
}

/// A string window parses back to the bytes it encodes.
pub proof fn lemma_parse_string_enc(data: Seq<u8>, pos: int, e: Endian, s: Seq<u8>)
    requires
        str_len_ok(e, s.len() as int),
        0 <= pos,
        pos + enc_string(e, s).len() <= data.len(),
        data.subrange(pos, pos + enc_string(e, s).len()) == enc_string(e, s),
    ensures
        parse_string(data, pos, e) == Ok::<(Seq<u8>, int), ReadError>(
            (s, pos + enc_string(e, s).len()),
        ),
{
    let lenb = enc_str_len(e, s.len() as int);
    lemma_subrange_concat(data, pos, lenb, s);
    lemma_parse_str_len_enc(data, pos, e, s.len() as int);
}

/// A discriminator byte parses back to the discriminator it encodes.
pub proof fn lemma_parse_tag_id_enc(data: Seq<u8>, pos: int, id: TagId)
    requires
        0 <= pos,
        pos + 1 <= data.len(),
        data[pos] == spec_tag_id_byte(id),
    ensures
        parse_tag_id(data, pos) == Ok::<(TagId, int), ReadError>((id, pos + 1)),
{
    assert(spec_tag_id_of_byte(spec_tag_id_byte(id)) == Some(id));
}


/// An encoded run of `Int` payloads parses back to its elements.
pub proof fn lemma_parse_i32s_enc(data: Seq<u8>, pos: int, e: Endian, a: Seq<i32>)
    requires
        0 <= pos,
        pos + enc_i32s(e, a).len() <= data.len(),
        data.subrange(pos, pos + enc_i32s(e, a).len()) == enc_i32s(e, a),
    ensures
        parse_i32s(data, pos, e, a.len()) == Ok::<(Seq<i32>, int), ReadError>(
            (a, pos + enc_i32s(e, a).len()),
        ),
    decreases a.len(),
{
    if a.len() == 0 {
        assert(a =~= Seq::<i32>::empty());
    } else {
        let rest = a.subrange(1, a.len() as int);
        let head = enc_i32v(e, a[0]);
        assert(enc_i32s(e, a) == head + enc_i32s(e, rest));
        lemma_subrange_concat(data, pos, head, enc_i32s(e, rest));
        lemma_parse_i32_enc(data, pos, e, a[0]);
        lemma_parse_i32s_enc(data, pos + head.len(), e, rest);
        assert(seq![a[0]] + rest =~= a);
    }
}

/// An encoded run of `Long` payloads parses back to its elements.
pub proof fn lemma_parse_i64s_enc(data: Seq<u8>, pos: int, e: Endian, a: Seq<i64>)
    requires
        0 <= pos,
        pos + enc_i64s(e, a).len() <= data.len(),
        data.subrange(pos, pos + enc_i64s(e, a).len()) == enc_i64s(e, a),
    ensures
        parse_i64s(data, pos, e, a.len()) == Ok::<(Seq<i64>, int), ReadError>(
            (a, pos + enc_i64s(e, a).len()),
        ),
    decreases a.len(),
{
    if a.len() == 0 {
        assert(a =~= Seq::<i64>::empty());
    } else {
        let rest = a.subrange(1, a.len() as int);
        let head = enc_i64v(e, a[0]);
        assert(enc_i64s(e, a) == head + enc_i64s(e, rest));
        lemma_subrange_concat(data, pos, head, enc_i64s(e, rest));
        lemma_parse_i64_enc(data, pos, e, a[0]);
        lemma_parse_i64s_enc(data, pos + head.len(), e, rest);
        assert(seq![a[0]] + rest =~= a);
    }
}

/// No payload-bearing tag has the `End` discriminator, whose byte is 0.
pub proof fn lemma_tag_id_byte_nonzero(t: SpecTag)
    ensures
        spec_tag_id(t) != TagId::End,
        spec_tag_id_byte(spec_tag_id(t)) != 0,
{
}

/// An encoded `ByteArray` payload parses back to its elements.
pub proof fn lemma_parse_byte_array_enc(data: Seq<u8>, pos: int, e: Endian, a: Seq<i8>)
    requires
        len_ok(a.len() as int),
        0 <= pos,
        pos + enc_payload(e, SpecTag::ByteArray(a)).len() <= data.len(),
        data.subrange(pos, pos + enc_payload(e, SpecTag::ByteArray(a)).len()) == enc_payload(
            e,
            SpecTag::ByteArray(a),
        ),
    ensures
        parse_byte_array(data, pos, e) == Ok::<(Seq<i8>, int), ReadError>(
            (a, pos + enc_payload(e, SpecTag::ByteArray(a)).len()),
        ),
{
    let lenb = enc_len(e, a.len() as int);
    lemma_subrange_concat(data, pos, lenb, enc_i8s(a));
    lemma_parse_len_enc(data, pos, e, a.len() as int);
    let p1 = pos + lenb.len();
    let parsed = Seq::new(a.len(), |i: int| i8_of_u8(data[p1 + i] as int) as i8);
    assert forall|i: int| 0 <= i < a.len() implies parsed[i] == a[i] by {
        assert(data.subrange(p1, p1 + a.len() as int)[i] == enc_i8s(a)[i]);
        assert(data[p1 + i] == (u8_of_i8(a[i]) as u8));
    }
    assert(parsed =~= a);
}

/// An encoded `IntArray` payload parses back to its elements.
pub proof fn lemma_parse_int_array_enc(data: Seq<u8>, pos: int, e: Endian, a: Seq<i32>)
    requires
        len_ok(a.len() as int),
        0 <= pos,
        pos + enc_payload(e, SpecTag::IntArray(a)).len() <= data.len(),
        data.subrange(pos, pos + enc_payload(e, SpecTag::IntArray(a)).len()) == enc_payload(
            e,
            SpecTag::IntArray(a),
        ),
    ensures
        parse_int_array(data, pos, e) == Ok::<(Seq<i32>, int), ReadError>(
            (a, pos + enc_payload(e, SpecTag::IntArray(a)).len()),
        ),
{
    let lenb = enc_len(e, a.len() as int);
    lemma_subrange_concat(data, pos, lenb, enc_i32s(e, a));
    lemma_parse_len_enc(data, pos, e, a.len() as int);
    lemma_parse_i32s_enc(data, pos + lenb.len(), e, a);
}

/// An encoded `LongArray` payload parses back to its elements.
pub proof fn lemma_parse_long_array_enc(data: Seq<u8>, pos: int, e: Endian, a: Seq<i64>)
    requires
        len_ok(a.len() as int),
        0 <= pos,
        pos + enc_payload(e, SpecTag::LongArray(a)).len() <= data.len(),
        data.subrange(pos, pos + enc_payload(e, SpecTag::LongArray(a)).len()) == enc_payload(
            e,
            SpecTag::LongArray(a),
        ),
    ensures
        parse_long_array(data, pos, e) == Ok::<(Seq<i64>, int), ReadError>(
            (a, pos + enc_payload(e, SpecTag::LongArray(a)).len()),
        ),
{
    let lenb = enc_len(e, a.len() as int);
    lemma_subrange_concat(data, pos, lenb, enc_i64s(e, a));
    lemma_parse_len_enc(data, pos, e, a.len() as int);
    lemma_parse_i64s_enc(data, pos + lenb.len(), e, a);
}

/// An encoded `List` payload parses back to its elements.
#[verifier::rlimit(100)]
pub proof fn lemma_parse_list_enc(data: Seq<u8>, pos: int, e: Endian, l: Seq<SpecTag>)
    requires
        tag_wf(SpecTag::List(l)),
        tag_sizes_ok(e, SpecTag::List(l)),
        0 <= pos,
        pos + enc_payload(e, SpecTag::List(l)).len() <= data.len(),
        data.subrange(pos, pos + enc_payload(e, SpecTag::List(l)).len()) == enc_payload(
            e,
            SpecTag::List(l),
        ),
    ensures
        parse_list(data, pos, e) == Ok::<(Seq<SpecTag>, int), ReadError>(
            (l, pos + enc_payload(e, SpecTag::List(l)).len()),
        ),
    decreases l, 2int,
{
    let enc = enc_payload(e, SpecTag::List(l));
    if l.len() == 0 {
        let lenb = enc_len(e, 0);
        assert(enc == seq![0u8] + lenb);
        lemma_subrange_concat(data, pos, seq![0u8], lenb);
        assert(data.subrange(pos, pos + 1)[0] == 0u8);
        assert(data[pos] == 0);
        lemma_parse_tag_id_enc(data, pos, TagId::End);
        lemma_parse_len_enc(data, pos + 1, e, 0);
        assert(l =~= Seq::<SpecTag>::empty());
    } else {
        let idb = seq![spec_tag_id_byte(spec_tag_id(l[0]))];
        let lenb = enc_len(e, l.len() as int);
        let body = enc_tags(e, l);
        assert(enc == idb + lenb + body);
        assert(enc =~= idb + (lenb + body));
        lemma_subrange_concat(data, pos, idb, lenb + body);
        lemma_subrange_concat(data, pos + 1, lenb, body);
        assert(data.subrange(pos, pos + 1)[0] == idb[0]);
        assert(data[pos] == idb[0]);
        lemma_tag_id_byte_nonzero(l[0]);
        lemma_parse_tag_id_enc(data, pos, spec_tag_id(l[0]));
        lemma_parse_len_enc(data, pos + 1, e, l.len() as int);
        let p2 = pos + 1 + lenb.len();
        lemma_parse_tags_enc(data, p2, e, spec_tag_id(l[0]), l);
    }
}

/// An encoded payload parses back to the tag it encodes.
#[verifier::rlimit(100)]
pub proof fn lemma_parse_payload_enc(data: Seq<u8>, pos: int, e: Endian, t: SpecTag)
    requires
        tag_wf(t),
        tag_sizes_ok(e, t),
        0 <= pos,
        pos + enc_payload(e, t).len() <= data.len(),
        data.subrange(pos, pos + enc_payload(e, t).len()) == enc_payload(e, t),
    ensures
        parse_payload(data, pos, spec_tag_id(t), e) == Ok::<(SpecTag, int), ReadError>(
            (t, pos + enc_payload(e, t).len()),
        ),
    decreases t, 0int,
{
    let enc = enc_payload(e, t);
    match t {
        SpecTag::Byte(v) => {
            assert(data.subrange(pos, pos + 1)[0] == enc[0]);
            assert(data[pos] == (u8_of_i8(v) as u8));
        },
        SpecTag::Short(v) => {
            lemma_parse_i16_enc(data, pos, e, v);
        },
        SpecTag::Int(v) => {
            lemma_parse_i32_enc(data, pos, e, v);
        },
        SpecTag::Long(v) => {
            lemma_parse_i64_enc(data, pos, e, v);
        },
        SpecTag::Float(b) => {
            lemma_parse_f32_enc(data, pos, e, b);
        },
        SpecTag::Double(b) => {
            lemma_parse_f64_enc(data, pos, e, b);
        },
        SpecTag::ByteArray(a) => {
            lemma_parse_byte_array_enc(data, pos, e, a);
        },
        SpecTag::String(sv) => {
            lemma_parse_string_enc(data, pos, e, sv);
        },
        SpecTag::List(l) => {
            lemma_parse_list_enc(data, pos, e, l);
        },
        SpecTag::Compound(es) => {
            assert(enc == enc_entries(e, es) + seq![0u8]);
            lemma_parse_entries_enc(data, pos, e, es, Seq::empty());
        },
        SpecTag::IntArray(a) => {
            lemma_parse_int_array_enc(data, pos, e, a);
        },
        SpecTag::LongArray(a) => {
            lemma_parse_long_array_enc(data, pos, e, a);
        },
    }
}

/// An encoded run of homogeneous payloads parses back to its elements.
pub proof fn lemma_parse_tags_enc(data: Seq<u8>, pos: int, e: Endian, id: TagId, l: Seq<SpecTag>)
    requires
        tags_wf(l),
        tags_sizes_ok(e, l),
        forall|i: int| 0 <= i < l.len() ==> spec_tag_id(#[trigger] l[i]) == id,
        0 <= pos,
        pos + enc_tags(e, l).len() <= data.len(),
        data.subrange(pos, pos + enc_tags(e, l).len()) == enc_tags(e, l),
    ensures
        parse_tags(data, pos, id, e, l.len()) == Ok::<(Seq<SpecTag>, int), ReadError>(
            (l, pos + enc_tags(e, l).len()),
        ),
    decreases l, 1int,
{
    if l.len() == 0 {
        assert(l =~= Seq::<SpecTag>::empty());
    } else {
        let rest = l.subrange(1, l.len() as int);
        let head = enc_payload(e, l[0]);
        assert(enc_tags(e, l) == head + enc_tags(e, rest));
        lemma_subrange_concat(data, pos, head, enc_tags(e, rest));
        lemma_parse_payload_enc(data, pos, e, l[0]);
        lemma_parse_payload_bounds(data, pos, id, e);
        let p1 = pos + head.len();
        assert forall|i: int| 0 <= i < rest.len() implies spec_tag_id(#[trigger] rest[i])
            == id by {
            assert(rest[i] == l[i + 1]);
        }
        lemma_parse_tags_enc(data, p1, e, id, rest);
        assert(seq![l[0]] + rest =~= l);
    }
}

/// Encoded entries followed by an `End` byte parse back to those entries,
/// under any `seen` set disjoint from their keys.
#[verifier::rlimit(100)]
pub proof fn lemma_parse_entries_enc(
    data: Seq<u8>,
    pos: int,
    e: Endian,
    s: Seq<(Seq<u8>, SpecTag)>,
    seen: Seq<Seq<u8>>,
)
    requires
        entries_wf(s),
        entries_sizes_ok(e, s),
        forall|i: int, j: int| 0 <= i < j < s.len() ==> s[i].0 != s[j].0,
        forall|i: int| 0 <= i < s.len() ==> !seen.contains((#[trigger] s[i]).0),
        0 <= pos,
        pos + enc_entries(e, s).len() + 1 <= data.len(),
        data.subrange(pos, pos + enc_entries(e, s).len() + 1) == enc_entries(e, s) + seq![0u8],
    ensures
        parse_entries(data, pos, e, seen) == Ok::<(Seq<(Seq<u8>, SpecTag)>, int), ReadError>(
            (s, pos + enc_entries(e, s).len() + 1),
        ),
    decreases s, 0int,
{
    if s.len() == 0 {
        assert(enc_entries(e, s) == Seq::<u8>::empty());
        assert((enc_entries(e, s) + seq![0u8])[0] == 0u8);
        assert(data.subrange(pos, pos + enc_entries(e, s).len() + 1)[0] == (enc_entries(e, s)
            + seq![0u8])[0]);
        assert(data[pos] == 0);
        lemma_parse_tag_id_enc(data, pos, TagId::End);
        assert(s =~= Seq::<(Seq<u8>, SpecTag)>::empty());
    } else {
        let name = s[0].0;
        let t = s[0].1;
        let rest = s.subrange(1, s.len() as int);
        let idb = seq![spec_tag_id_byte(spec_tag_id(t))];
        let nameb = enc_string(e, name);
        let payb = enc_payload(e, t);
        let restb = enc_entries(e, rest) + seq![0u8];
        assert(enc_entries(e, s) == idb + nameb + payb + enc_entries(e, rest));
        assert(enc_entries(e, s) + seq![0u8] =~= idb + (nameb + (payb + restb)));
        lemma_subrange_concat(data, pos, idb, nameb + (payb + restb));
        let p1 = pos + 1;
        lemma_subrange_concat(data, p1, nameb, payb + restb);
        let p2 = p1 + nameb.len();
        lemma_subrange_concat(data, p2, payb, restb);
        let p3 = p2 + payb.len();
        assert(data.subrange(pos, pos + 1)[0] == idb[0]);
        assert(data[pos] == idb[0]);
        lemma_tag_id_byte_nonzero(t);
        lemma_parse_tag_id_enc(data, pos, spec_tag_id(t));
        lemma_parse_string_enc(data, p1, e, name);
        assert(!seen.contains(name));
        lemma_parse_payload_enc(data, p2, e, t);
        lemma_parse_payload_bounds(data, p2, spec_tag_id(t), e);
        assert forall|i: int|
            0 <= i < rest.len() implies !seen.push(name).contains((#[trigger] rest[i]).0) by {
            assert(rest[i] == s[i + 1]);
            assert(s[0].0 != s[i + 1].0);
            assert(!seen.contains(s[i + 1].0));
            if seen.push(name).contains(rest[i].0) {
                let k = choose|k: int|
                    0 <= k < seen.push(name).len() && seen.push(name)[k] == rest[i].0;
                if k < seen.len() {
                    assert(seen[k] == rest[i].0);
                    assert(seen.contains(rest[i].0));
                } else {
                    assert(seen.push(name)[k] == name);
                }
            }
        }
        assert forall|i: int, j: int| 0 <= i < j < rest.len() implies rest[i].0 != rest[j].0 by {
            assert(rest[i] == s[i + 1]);
            assert(rest[j] == s[j + 1]);
        }
        lemma_parse_entries_enc(data, p3, e, rest, seen.push(name));
        assert(seq![(name, t)] + rest =~= s);
    }
}


/// Every tag a parse returns is well-formed and has the requested kind.
#[verifier::rlimit(100)]
pub proof fn lemma_parse_payload_wf(data: Seq<u8>, pos: int, id: TagId, e: Endian)
    ensures
        parse_payload(data, pos, id, e) matches Ok((t, p)) ==> tag_wf(t) && spec_tag_id(t) == id,
    decreases data.len() - pos, 3int,
{
    match id {
        TagId::End => {
        },
        TagId::Byte => {
        },
        TagId::Short => {
        },
        TagId::Int => {
        },
        TagId::Long => {
        },
        TagId::Float => {
        },
        TagId::Double => {
        },
        TagId::ByteArray => {
        },
        TagId::String => {
        },
        TagId::List => {
            lemma_parse_list_wf(data, pos, e);
        },
        TagId::Compound => {
            lemma_parse_entries_wf(data, pos, e, Seq::empty());
        },
        TagId::IntArray => {
        },
        TagId::LongArray => {
        },
    }
}

/// Every list a parse returns is homogeneous and holds well-formed
/// elements.
pub proof fn lemma_parse_list_wf(data: Seq<u8>, pos: int, e: Endian)
    ensures
        parse_list(data, pos, e) matches Ok((ts, p)) ==> tag_wf(SpecTag::List(ts)),
    decreases data.len() - pos, 2int,
{
    match parse_tag_id(data, pos) {
        Ok((eid, p1)) => {
            match parse_len(data, p1, e) {
                Ok((n, p2)) => {
                    if pos < p2 <= data.len() {
                        lemma_parse_tags_wf(data, p2, eid, e, n as nat);
                    }
                },
                Err(_) => {},
            }
        },
        Err(_) => {},
    }
}

/// Every parsed run of payloads is of the one requested kind, each
/// element well-formed.
pub proof fn lemma_parse_tags_wf(data: Seq<u8>, pos: int, id: TagId, e: Endian, count: nat)
    ensures
        parse_tags(data, pos, id, e, count) matches Ok((ts, p)) ==> tags_wf(ts) && (forall|i: int|
            0 <= i < ts.len() ==> spec_tag_id(#[trigger] ts[i]) == id),
    decreases data.len() - pos, 4int,
{
    if count > 0 {
        lemma_parse_payload_wf(data, pos, id, e);
        match parse_payload(data, pos, id, e) {
            Ok((t, p1)) => {
                if pos < p1 <= data.len() {
                    lemma_parse_tags_wf(data, p1, id, e, (count - 1) as nat);
                    match parse_tags(data, p1, id, e, (count - 1) as nat) {
                        Ok((rest, _)) => {
                            let ts = seq![t] + rest;
                            assert(ts.subrange(1, ts.len() as int) =~= rest);
                            assert forall|i: int|
                                0 <= i < ts.len() implies spec_tag_id(#[trigger] ts[i])
                                == id by {
                                if i > 0 {
                                    assert(ts[i] == rest[i - 1]);
                                }
                            }
                        },
                        Err(_) => {},
                    }
                }
            },
            Err(_) => {},
        }
    }
}

/// A well-formed entry in front of a well-formed remainder keeps the
/// whole run well-formed, with all keys distinct and none seen before.
pub proof fn lemma_entries_cons_wf(
    name: Seq<u8>,
    t: SpecTag,
    rest: Seq<(Seq<u8>, SpecTag)>,
    seen: Seq<Seq<u8>>,
)
    requires
        tag_wf(t),
        entries_wf(rest),
        forall|i: int, j: int| 0 <= i < j < rest.len() ==> rest[i].0 != rest[j].0,
        forall|i: int| 0 <= i < rest.len() ==> !seen.push(name).contains((#[trigger] rest[i]).0),
        !seen.contains(name),
    ensures
        entries_wf(seq![(name, t)] + rest),
        forall|i: int, j: int|
            0 <= i < j < (seq![(name, t)] + rest).len() ==> (seq![(name, t)] + rest)[i].0 != (seq![
                (name, t),
            ] + rest)[j].0,
        forall|i: int|
            0 <= i < (seq![(name, t)] + rest).len() ==> !seen.contains(
                ((#[trigger] (seq![(name, t)] + rest)[i])).0,
            ),
{
    let es = seq![(name, t)] + rest;
    assert(es.subrange(1, es.len() as int) =~= rest);
    assert forall|i: int| 0 <= i < rest.len() implies rest[i].0 != name by {
        assert(!seen.push(name).contains(rest[i].0));
        assert(seen.push(name)[seen.len() as int] == name);
        if rest[i].0 == name {
            assert(seen.push(name).contains(rest[i].0));
        }
    }
    assert forall|i: int| 0 <= i < rest.len() implies !seen.contains(
        (#[trigger] rest[i]).0,
    ) by {
        if seen.contains(rest[i].0) {
            let k = choose|k: int| 0 <= k < seen.len() && seen[k] == rest[i].0;
            assert(seen.push(name)[k] == rest[i].0);
            assert(seen.push(name).contains(rest[i].0));
        }
    }
    assert forall|i: int, j: int| 0 <= i < j < es.len() implies es[i].0 != es[j].0 by {
        assert(es[j] == rest[j - 1]);
        if i > 0 {
            assert(es[i] == rest[i - 1]);
        }
    }
    assert forall|i: int| 0 <= i < es.len() implies !seen.contains((#[trigger] es[i]).0) by {
        if i > 0 {
            assert(es[i] == rest[i - 1]);
        }
    }
}

/// Every parsed entry run has pairwise-distinct keys, none already seen,
/// and well-formed values.
pub proof fn lemma_parse_entries_wf(data: Seq<u8>, pos: int, e: Endian, seen: Seq<Seq<u8>>)
    ensures
        parse_entries(data, pos, e, seen) matches Ok((es, p)) ==> entries_wf(es) && (forall|
            i: int,
            j: int,
        |
            0 <= i < j < es.len() ==> es[i].0 != es[j].0) && (forall|i: int|
            0 <= i < es.len() ==> !seen.contains((#[trigger] es[i]).0)),
    decreases data.len() - pos, 1int,
{
    if parse_entries(data, pos, e, seen) matches Ok((es0, _)) {
        let r1 = parse_tag_id(data, pos);
        let (id, p1) = r1->Ok_0;
        if id != TagId::End {
            let r2 = parse_string(data, p1, e);
            let (name, p2) = r2->Ok_0;
            lemma_parse_payload_wf(data, p2, id, e);
            let r3 = parse_payload(data, p2, id, e);
            let (t, p3) = r3->Ok_0;
            lemma_parse_entries_wf(data, p3, e, seen.push(name));
            let r4 = parse_entries(data, p3, e, seen.push(name));
            let (rest, _p4) = r4->Ok_0;
            lemma_entries_cons_wf(name, t, rest, seen);
        }
    }
}

/// STRUCTURAL INVARIANT OF PARSING: every tree the reader surfaces is
/// well-formed; in particular every list in it is homogeneous and every
/// compound's keys are pairwise distinct.
pub proof fn lemma_read_root_wf(data: Seq<u8>, e: Endian, h: BedrockHeader)
    ensures
        parse_root(data, e, h) matches Ok((name, t)) ==> tag_wf(t),
{
    match h {
        BedrockHeader::With => {
            match parse_bedrock_header(data, 0) {
                Ok((_hdr, p)) => {
                    lemma_parse_root_at_wf(data, e, p);
                },
                Err(_) => {},
            }
        },
        BedrockHeader::Without => {
            lemma_parse_root_at_wf(data, e, 0);
        },
    }
}

pub proof fn lemma_parse_root_at_wf(data: Seq<u8>, e: Endian, start: int)
    ensures
        parse_root_at(data, e, start) matches Ok((name, t)) ==> tag_wf(t),
{
    match parse_tag_id(data, start) {
        Ok((id, p1)) => {
            if id != TagId::End {
                match parse_string(data, p1, e) {
                    Ok((name, p2)) => {
                        lemma_parse_payload_wf(data, p2, id, e);
                    },
                    Err(_) => {},
                }
            }
        },
        Err(_) => {},
    }
}

/// READING INVERTS WRITING: a stream the writer produces parses back to
/// exactly the tree and root name it was written from, under the same
/// dialect and header setting.
#[verifier::rlimit(100)]
pub proof fn lemma_write_read_root(e: Endian, h: BedrockHeader, t: SpecTag, name: Seq<u8>)
    requires
        tag_wf(t),
        tag_sizes_ok(e, t),
        str_len_ok(e, name.len() as int),
    ensures
        spec_write_root(e, h, t, name) matches Ok(bytes) ==> parse_root(bytes, e, h)
            == Ok::<(Seq<u8>, SpecTag), ReadError>((name, t)),
{
    match spec_write_root(e, h, t, name) {
        Ok(bytes) => {
            match h {
                BedrockHeader::Without => {
                    assert(bytes == enc_root(e, t, name));
                    assert(bytes.subrange(0, enc_root(e, t, name).len() as int) =~= bytes);
                    lemma_parse_root_at_enc(bytes, 0, e, t, name);
                },
                BedrockHeader::With => {
                    let sv = match spec_storage_version(t) {
                        Ok(sv) => sv,
                        Err(_) => 0,
                    };
                    let root = enc_root(e, t, name);
                    let head = le_bytes(u32_of_i32(sv), 4) + le_bytes(root.len() as int, 4);
                    assert(bytes == le_bytes(u32_of_i32(sv), 4) + le_bytes(root.len() as int, 4)
                        + root);
                    lemma_le_bytes_len(u32_of_i32(sv), 4);
                    lemma_le_bytes_len(root.len() as int, 4);
                    assert(bytes =~= head + root);
                    assert(bytes.len() == 8 + root.len());
                    assert(parse_bedrock_header(bytes, 0) matches Ok((_hdr, p)) && p == 8);
                    assert(head.len() == 8);
                    assert(bytes.subrange(0, head.len() + root.len() as int) =~= head + root);
                    lemma_subrange_concat(bytes, 0, head, root);
                    lemma_parse_root_at_enc(bytes, 8, e, t, name);
                },
            }
        },
        Err(_) => {},
    }
}

/// An encoded root stream at `start` parses back to its name and tree.
pub proof fn lemma_parse_root_at_enc(data: Seq<u8>, start: int, e: Endian, t: SpecTag, name: Seq<
    u8,
>)
    requires
        tag_wf(t),
        tag_sizes_ok(e, t),
        str_len_ok(e, name.len() as int),
        0 <= start,
        start + enc_root(e, t, name).len() <= data.len(),
        data.subrange(start, start + enc_root(e, t, name).len()) == enc_root(e, t, name),
    ensures
        parse_root_at(data, e, start) == Ok::<(Seq<u8>, SpecTag), ReadError>((name, t)),
{
    let idb = seq![spec_tag_id_byte(spec_tag_id(t))];
    let nameb = enc_string(e, name);
    let payb = enc_payload(e, t);
    assert(enc_root(e, t, name) == idb + nameb + payb);
    assert(enc_root(e, t, name) =~= idb + (nameb + payb));
    lemma_subrange_concat(data, start, idb, nameb + payb);
    lemma_subrange_concat(data, start + 1, nameb, payb);
    assert(data.subrange(start, start + 1)[0] == idb[0]);
    assert(data[start] == idb[0]);
    lemma_tag_id_byte_nonzero(t);
    lemma_parse_tag_id_enc(data, start, spec_tag_id(t));
    lemma_parse_string_enc(data, start + 1, e, name);
    lemma_parse_payload_enc(data, start + 1 + nameb.len(), e, t);
}

/// BIT-EXACT ROUND TRIP: on any stream the writer produced, reading and
/// then writing again (with the recovered name) reproduces the stream
/// byte for byte.
pub proof fn lemma_read_write_root(
    e: Endian,
    h: BedrockHeader,
    t: SpecTag,
    name: Seq<u8>,
    bytes: Seq<u8>,
)
    requires
        tag_wf(t),
        tag_sizes_ok(e, t),
        str_len_ok(e, name.len() as int),
        spec_write_root(e, h, t, name) == Ok::<Seq<u8>, crate::write::WriteError>(bytes),
    ensures
        parse_root(bytes, e, h) matches Ok((n2, t2)) && spec_write_root(e, h, t2, n2)
            == Ok::<Seq<u8>, crate::write::WriteError>(bytes),
{
    lemma_write_read_root(e, h, t, name);
}

/// EMPTY LIST ENCODING: an empty list emits exactly the `End`
/// discriminator byte followed by a zero length under every dialect; in
/// the big-endian dialect those are the five bytes `00 00 00 00 00`.
pub proof fn lemma_empty_list_encoding(e: Endian)
    ensures
        enc_payload(e, SpecTag::List(Seq::empty())) == seq![0u8] + enc_len(e, 0),
        enc_payload(Endian::Big, SpecTag::List(Seq::empty())) == seq![0u8, 0u8, 0u8, 0u8, 0u8],
        enc_payload(Endian::LittleVarInt, SpecTag::List(Seq::empty())) == seq![0u8, 0u8],
{
    reveal_with_fuel(be_bytes, 5);
    assert(enc_payload(Endian::Big, SpecTag::List(Seq::empty())) =~= seq![
        0u8,
        0u8,
        0u8,
        0u8,
        0u8,
    ]);
    assert(zigzag_encode(0) == 0);
    assert(uvarint_bytes(0) == seq![0u8]);
    assert(enc_payload(Endian::LittleVarInt, SpecTag::List(Seq::empty())) =~= seq![0u8, 0u8]);
}

/// COMPOUND TERMINATION: a compound payload is its entries followed by a
/// single `End` byte; that terminator is the payload's last byte, and the
/// discriminator byte opening each entry is never `End`.
pub proof fn lemma_compound_encoding(e: Endian, s: Seq<(Seq<u8>, SpecTag)>)
    ensures
        enc_payload(e, SpecTag::Compound(s)) == enc_entries(e, s) + seq![0u8],
        enc_payload(e, SpecTag::Compound(s)).last() == 0u8,
        forall|i: int|
            0 <= i < s.len() ==> spec_tag_id_byte(spec_tag_id((#[trigger] s[i]).1)) != 0,
{
    assert((enc_entries(e, s) + seq![0u8]).last() == 0u8);
    assert forall|i: int|
        0 <= i < s.len() implies spec_tag_id_byte(spec_tag_id((#[trigger] s[i]).1)) != 0 by {
        lemma_tag_id_byte_nonzero(s[i].1);
    }
}

/// ZIG-ZAG IS THE SIGNED READING: the arithmetic decoder used for `Int`,
/// `Long` and every length field in the varint dialect computes exactly
/// the canonical formula `(u >> 1) ^ -(u & 1)`.
pub proof fn lemma_zigzag_formula(u: u64)
    ensures
        zigzag_decode(u as int) == (((u >> 1u64) as i64) ^ (((-((u & 1u64) as i64)) as i64))) as int,
{
    assert((u & 1u64) == (u % 2u64)) by (bit_vector);
    assert((u >> 1u64) == (u / 2u64)) by (bit_vector);
    if u % 2 == 0 {
        assert((((u / 2u64) as i64) ^ (((-(((u % 2u64)) as i64)) as i64))) == ((u / 2u64) as i64))
            by (bit_vector)
            requires
                u % 2u64 == 0u64,
        ;
        assert(u / 2 < 0x8000_0000_0000_0000);
    } else {
        assert((((u / 2u64) as i64) ^ (((-(((u % 2u64)) as i64)) as i64))) == -(((u / 2u64)) as i64) - 1)
            by (bit_vector)
            requires
                u % 2u64 == 1u64,
        ;
    }
}

} // verus!
