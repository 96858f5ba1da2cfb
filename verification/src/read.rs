//! The binary reader: a specification-level parser from byte sequences to
//! ghost tag trees, and an executable reader proved to return exactly what
//! the parser says, for every input and every dialect.

use vstd::prelude::*;

use crate::tag::ByteArrayTag;
use crate::tag::CompoundTag;
use crate::tag::Endian;
use crate::tag::BedrockHeader;
use crate::tag::IntArrayTag;
use crate::tag::ListTag;
use crate::tag::LongArrayTag;
use crate::tag::SpecTag;
use crate::tag::StringTag;
use crate::tag::Tag;
use crate::tag::TagIDError;
use crate::tag::TagId;
use crate::tag::entries_view;
use crate::tag::entry_names;
use crate::tag::lemma_entries_view_index;
use crate::tag::lemma_entries_view_push;
use crate::tag::lemma_entry_names_push;
use crate::tag::lemma_tags_view_push;
use crate::tag::spec_tag_id_of_byte;
use crate::tag::tag_view;
use crate::tag::tags_view;
use crate::wire::eq_bytes;
use crate::wire::be_val;
use crate::wire::i16_of_u16;
use crate::wire::i32_of_u32;
use crate::wire::i64_of_u64;
use crate::wire::i8_of_u8;
use crate::wire::le_val;
use crate::wire::lemma_be_val_bound;
use crate::wire::lemma_le_val_bound;
use crate::wire::lemma_pow256_pos;
use crate::wire::pow256;
use crate::wire::u64_to_i16;
use crate::wire::u64_to_i32;
use crate::wire::u64_to_i64;
use crate::wire::u8_to_i8;
use crate::wire::zigzag_decode;
use crate::wire::zigzag_decode_i32;
use crate::wire::zigzag_decode_i64;

verus! {

/// Failure of the reader.  `Truncated` stands for running off the end of
/// the input; `TagIDError` wraps a bad or misplaced discriminator;
/// the two range variants mark varints wider than their target; a
/// negative length field or a repeated compound key is rejected outright.
#[derive(Debug, Clone, Copy, PartialEq, Eq, Structural)]
pub enum ReadError {
    Truncated,
    TagIDError(TagIDError),
    VarIntRange,
    VarLongRange,
    NegativeLength,
    DuplicateKey,
}

/// The concrete field sizes used on the wire.
pub proof fn lemma_pow256_values()
    ensures
        pow256(2) == 0x10000,
        pow256(4) == 0x1_0000_0000,
        pow256(8) == 0x1_0000_0000_0000_0000,
{
    reveal_with_fuel(pow256, 9);
}

/// One byte at `pos`.
pub open spec fn parse_u8(data: Seq<u8>, pos: int) -> Result<(u8, int), ReadError> {
    if 0 <= pos < data.len() {
        Ok((data[pos], pos + 1))
    } else {
        Err(ReadError::Truncated)
    }
}

/// `n` big-endian bytes at `pos`, as an unsigned value.
pub open spec fn parse_be(data: Seq<u8>, pos: int, n: nat) -> Result<(int, int), ReadError> {
    if 0 <= pos && pos + n <= data.len() {
        Ok((be_val(data.subrange(pos, pos + n)), pos + n))
    } else {
        Err(ReadError::Truncated)
    }
}

/// `n` little-endian bytes at `pos`, as an unsigned value.
pub open spec fn parse_le(data: Seq<u8>, pos: int, n: nat) -> Result<(int, int), ReadError> {
    if 0 <= pos && pos + n <= data.len() {
        Ok((le_val(data.subrange(pos, pos + n)), pos + n))
    } else {
        Err(ReadError::Truncated)
    }
}

/// An unsigned varint, decoded to its unbounded value; `budget` caps the
/// number of bytes, and exceeding it yields `err`.
pub open spec fn parse_uvarint_raw(data: Seq<u8>, pos: int, budget: nat, err: ReadError) -> Result<
    (int, int),
    ReadError,
>
    decreases budget,
{
    if budget == 0 {
        Err(err)
    } else if !(0 <= pos < data.len()) {
        Err(ReadError::Truncated)
    } else {
        let b = data[pos];
        if b < 128 {
            Ok((b as int, pos + 1))
        } else {
            match parse_uvarint_raw(data, pos + 1, (budget - 1) as nat, err) {
                Ok((v, p)) => Ok(((b - 128) + 128 * v, p)),
                Err(er) => Err(er),
            }
        }
    }
}

/// An unsigned varint for a 32-bit target: at most five bytes, and the
/// value must fit 32 bits, else `VarIntRange`.
pub open spec fn parse_uvarint32(data: Seq<u8>, pos: int) -> Result<(int, int), ReadError> {
    match parse_uvarint_raw(data, pos, 5, ReadError::VarIntRange) {
        Ok((v, p)) => if v < 0x1_0000_0000 {
            Ok((v, p))
        } else {
            Err(ReadError::VarIntRange)
        },
        Err(er) => Err(er),
    }
}

/// An unsigned varint for a 64-bit target: at most ten bytes, and the
/// value must fit 64 bits, else `VarLongRange`.
pub open spec fn parse_uvarint64(data: Seq<u8>, pos: int) -> Result<(int, int), ReadError> {
    match parse_uvarint_raw(data, pos, 10, ReadError::VarLongRange) {
        Ok((v, p)) => if v < 0x1_0000_0000_0000_0000 {
            Ok((v, p))
        } else {
            Err(ReadError::VarLongRange)
        },
        Err(er) => Err(er),
    }
}

/// A zig-zag varint for a 32-bit target.
pub open spec fn parse_zigzag32(data: Seq<u8>, pos: int) -> Result<(i32, int), ReadError> {
    match parse_uvarint32(data, pos) {
        Ok((u, p)) => Ok((zigzag_decode(u) as i32, p)),
        Err(er) => Err(er),
    }
}

/// A zig-zag varint for a 64-bit target.
pub open spec fn parse_zigzag64(data: Seq<u8>, pos: int) -> Result<(i64, int), ReadError> {
    match parse_uvarint64(data, pos) {
        Ok((u, p)) => Ok((zigzag_decode(u) as i64, p)),
        Err(er) => Err(er),
    }
}

/// A signed byte payload.
pub open spec fn parse_i8(data: Seq<u8>, pos: int) -> Result<(i8, int), ReadError> {
    match parse_u8(data, pos) {
        Ok((b, p)) => Ok((i8_of_u8(b as int) as i8, p)),
        Err(er) => Err(er),
    }
}

/// A `Short` payload: 16-bit fixed-width under the dialect's byte order.
pub open spec fn parse_i16(data: Seq<u8>, pos: int, e: Endian) -> Result<(i16, int), ReadError> {
    let raw = match e {
        Endian::Big => parse_be(data, pos, 2),
        Endian::Little => parse_le(data, pos, 2),
        Endian::LittleVarInt => parse_le(data, pos, 2),
    };
    match raw {
        Ok((u, p)) => Ok((i16_of_u16(u) as i16, p)),
        Err(er) => Err(er),
    }
}

/// An unsigned 16-bit scalar under the dialect's byte order.
pub open spec fn parse_u16(data: Seq<u8>, pos: int, e: Endian) -> Result<(int, int), ReadError> {
    match e {
        Endian::Big => parse_be(data, pos, 2),
        Endian::Little => parse_le(data, pos, 2),
        Endian::LittleVarInt => parse_le(data, pos, 2),
    }
}

/// An `Int` payload: 32-bit fixed-width, or a zig-zag varint.
pub open spec fn parse_i32(data: Seq<u8>, pos: int, e: Endian) -> Result<(i32, int), ReadError> {
    match e {
        Endian::Big => match parse_be(data, pos, 4) {
            Ok((u, p)) => Ok((i32_of_u32(u) as i32, p)),
            Err(er) => Err(er),
        },
        Endian::Little => match parse_le(data, pos, 4) {
            Ok((u, p)) => Ok((i32_of_u32(u) as i32, p)),
            Err(er) => Err(er),
        },
        Endian::LittleVarInt => parse_zigzag32(data, pos),
    }
}

/// A `Long` payload: 64-bit fixed-width, or a zig-zag varint.
pub open spec fn parse_i64(data: Seq<u8>, pos: int, e: Endian) -> Result<(i64, int), ReadError> {
    match e {
        Endian::Big => match parse_be(data, pos, 8) {
            Ok((u, p)) => Ok((i64_of_u64(u) as i64, p)),
            Err(er) => Err(er),
        },
        Endian::Little => match parse_le(data, pos, 8) {
            Ok((u, p)) => Ok((i64_of_u64(u) as i64, p)),
            Err(er) => Err(er),
        },
        Endian::LittleVarInt => parse_zigzag64(data, pos),
    }
}

/// A `Float` payload's bit pattern.
pub open spec fn parse_f32(data: Seq<u8>, pos: int, e: Endian) -> Result<(u32, int), ReadError> {
    let raw = match e {
        Endian::Big => parse_be(data, pos, 4),
        Endian::Little => parse_le(data, pos, 4),
        Endian::LittleVarInt => parse_le(data, pos, 4),
    };
    match raw {
        Ok((u, p)) => Ok((u as u32, p)),
        Err(er) => Err(er),
    }
}

/// A `Double` payload's bit pattern.
pub open spec fn parse_f64(data: Seq<u8>, pos: int, e: Endian) -> Result<(u64, int), ReadError> {
    let raw = match e {
        Endian::Big => parse_be(data, pos, 8),
        Endian::Little => parse_le(data, pos, 8),
        Endian::LittleVarInt => parse_le(data, pos, 8),
    };
    match raw {
        Ok((u, p)) => Ok((u as u64, p)),
        Err(er) => Err(er),
    }
}

/// A string length: unsigned 16-bit fixed, or an unsigned varint.
pub open spec fn parse_str_len(data: Seq<u8>, pos: int, e: Endian) -> Result<(int, int), ReadError> {
    match e {
        Endian::Big => parse_be(data, pos, 2),
        Endian::Little => parse_le(data, pos, 2),
        Endian::LittleVarInt => parse_uvarint32(data, pos),
    }
}

/// A string: its length under the dialect, then that many raw bytes.
pub open spec fn parse_string(data: Seq<u8>, pos: int, e: Endian) -> Result<
    (Seq<u8>, int),
    ReadError,
> {
    match parse_str_len(data, pos, e) {
        Ok((n, p)) => if p + n <= data.len() {
            Ok((data.subrange(p, p + n), p + n))
        } else {
            Err(ReadError::Truncated)
        },
        Err(er) => Err(er),
    }
}

/// A list or array length: a signed 32-bit scalar under the dialect,
/// rejected if negative.
pub open spec fn parse_len(data: Seq<u8>, pos: int, e: Endian) -> Result<(int, int), ReadError> {
    match parse_i32(data, pos, e) {
        Ok((n, p)) => if n < 0 {
            Err(ReadError::NegativeLength)
        } else {
            Ok((n as int, p))
        },
        Err(er) => Err(er),
    }
}

/// A discriminator byte, rejected above 12.
pub open spec fn parse_tag_id(data: Seq<u8>, pos: int) -> Result<(TagId, int), ReadError> {
    match parse_u8(data, pos) {
        Ok((b, p)) => match spec_tag_id_of_byte(b) {
            Some(id) => Ok((id, p)),
            None => Err(ReadError::TagIDError(TagIDError::UnknownType)),
        },
        Err(er) => Err(er),
    }
}

/// Reads one byte.
pub fn read_unsigned_byte(data: &[u8], pos: usize) -> (r: Result<(u8, usize), ReadError>)
    ensures
        match parse_u8(data@, pos as int) {
            Ok((v, p)) => r matches Ok((rv, rp)) && rv == v && rp == p,
            Err(er) => r == Err::<(u8, usize), ReadError>(er),
        },
{
    if pos < data.len() {
        Ok((data[pos], pos + 1))
    } else {
        Err(ReadError::Truncated)
    }
}

/// Reads a signed byte.
pub fn read_byte(data: &[u8], pos: usize) -> (r: Result<(i8, usize), ReadError>)
    ensures
        match parse_i8(data@, pos as int) {
            Ok((v, p)) => r matches Ok((rv, rp)) && rv == v && rp == p,
            Err(er) => r == Err::<(i8, usize), ReadError>(er),
        },
{
    match read_unsigned_byte(data, pos) {
        Ok((b, p)) => Ok((u8_to_i8(b), p)),
        Err(er) => Err(er),
    }
}

/// Reads `n` big-endian bytes as an unsigned value.
pub fn read_be(data: &[u8], pos: usize, n: usize) -> (r: Result<(u64, usize), ReadError>)
    requires
        n <= 8,
    ensures
        match parse_be(data@, pos as int, n as nat) {
            Ok((v, p)) => r matches Ok((rv, rp)) && rv as int == v && rp == p,
            Err(er) => r == Err::<(u64, usize), ReadError>(er),
        },
{
    if pos > data.len() || n > data.len() - pos {
        return Err(ReadError::Truncated);
    }
    let mut v: u64 = 0;
    for i in 0..n
        invariant
            pos + n <= data@.len(),
            data@.len() <= usize::MAX,
            n <= 8,
            v as int == be_val(data@.subrange(pos as int, pos + i)),
            v < pow256(i as nat),
    {
        proof {
            lemma_pow256_pos(i as nat);
            lemma_pow256_values();
            assert(pow256(i as nat) * 256 == pow256((i + 1) as nat)) by {
                assert(pow256((i + 1) as nat) == 256 * pow256(i as nat));
            }
            assert(v * 256 + 255 < pow256((i + 1) as nat));
            assert(pow256((i + 1) as nat) <= pow256(8)) by {
                lemma_pow256_increases((i + 1) as nat, 8);
            }
        }
        v = v * 256 + (data[pos + i] as u64);
        proof {
            assert(data@.subrange(pos as int, pos + i + 1).drop_last() =~= data@.subrange(
                pos as int,
                pos + i,
            ));
            assert(data@.subrange(pos as int, pos + i + 1).last() == data@[pos + i]);
        }
    }
    Ok((v, pos + n))
}

/// Reads `n` little-endian bytes as an unsigned value.
pub fn read_le(data: &[u8], pos: usize, n: usize) -> (r: Result<(u64, usize), ReadError>)
    requires
        n <= 8,
    ensures
        match parse_le(data@, pos as int, n as nat) {
            Ok((v, p)) => r matches Ok((rv, rp)) && rv as int == v && rp == p,
            Err(er) => r == Err::<(u64, usize), ReadError>(er),
        },
{
    if pos > data.len() || n > data.len() - pos {
        return Err(ReadError::Truncated);
    }
    let mut v: u64 = 0;
    let mut j = n;
    while j > 0
        invariant
            pos + n <= data@.len(),
            data@.len() <= usize::MAX,
            n <= 8,
            j <= n,
            v as int == le_val(data@.subrange(pos + j, pos + n)),
            v < pow256((n - j) as nat),
        decreases j,
    {
        proof {
            lemma_pow256_pos((n - j) as nat);
            lemma_pow256_values();
            assert(pow256((n - j + 1) as nat) == 256 * pow256((n - j) as nat));
            assert(v * 256 + 255 < pow256((n - j + 1) as nat));
            assert(pow256((n - j + 1) as nat) <= pow256(8)) by {
                lemma_pow256_increases((n - j + 1) as nat, 8);
            }
        }
        j = j - 1;
        v = v * 256 + (data[pos + j] as u64);
        proof {
            assert(data@.subrange(pos + j, pos + n).subrange(
                1,
                (n - j) as int,
            ) =~= data@.subrange(pos + j + 1, pos + n));
        }
    }
    proof {
        assert(data@.subrange(pos as int, pos + n) == data@.subrange(pos + 0, pos + n));
    }
    Ok((v, pos + n))
}

/// `pow256` grows with its exponent.
pub proof fn lemma_pow256_increases(a: nat, b: nat)
    requires
        a <= b,
    ensures
        pow256(a) <= pow256(b),
    decreases b,
{
    if a < b {
        lemma_pow256_increases(a, (b - 1) as nat);
        lemma_pow256_pos((b - 1) as nat);
    }
}

/// Reads an unsigned varint with at most `budget` bytes.
fn read_uvarint_raw(data: &[u8], pos: usize, budget: u32, err: ReadError) -> (r: Result<
    (u64, usize),
    ReadError,
>)
    ensures
        match parse_uvarint_raw(data@, pos as int, budget as nat, err) {
            Ok((v, p)) => if v < 0x1_0000_0000_0000_0000 {
                r matches Ok((rv, rp)) && rv as int == v && rp == p
            } else {
                r == Err::<(u64, usize), ReadError>(err)
            },
            Err(er) => r == Err::<(u64, usize), ReadError>(er),
        },
    decreases budget,
{
    if budget == 0 {
        return Err(err);
    }
    if pos >= data.len() {
        return Err(ReadError::Truncated);
    }
    let b = data[pos];
    if b < 128 {
        Ok(((b as u64), pos + 1))
    } else {
        match read_uvarint_raw(data, pos + 1, budget - 1, err) {
            Ok((v, p)) => {
                let low = (b - 128) as u64;
                if v > (u64::MAX - low) / 128 {
                    proof {
                        let rec = parse_uvarint_raw(
                            data@,
                            pos + 1,
                            (budget - 1) as nat,
                            err,
                        );
                        assert(rec matches Ok((rv, _)) && rv < 0x1_0000_0000_0000_0000);
                        assert(low + 128 * (v as int) >= 0x1_0000_0000_0000_0000);
                    }
                    Err(err)
                } else {
                    Ok((low + 128 * v, p))
                }
            },
            Err(er) => {
                proof {
                    let rec = parse_uvarint_raw(data@, pos + 1, (budget - 1) as nat, err);
                    match rec {
                        Ok((rv, _)) => {
                            assert(rv >= 0x1_0000_0000_0000_0000);
                            assert((data@[pos as int] - 128) + 128 * rv
                                >= 0x1_0000_0000_0000_0000);
                        },
                        Err(_) => {},
                    }
                }
                Err(er)
            },
        }
    }
}

/// The raw varint value is non-negative and consumes at least one byte.
pub proof fn lemma_parse_uvarint_raw_bounds(data: Seq<u8>, pos: int, budget: nat, err: ReadError)
    ensures
        parse_uvarint_raw(data, pos, budget, err) matches Ok((v, p)) ==> 0 <= v && pos < p
            <= data.len(),
    decreases budget,
{
    if budget > 0 && 0 <= pos < data.len() && data[pos] >= 128 {
        lemma_parse_uvarint_raw_bounds(data, pos + 1, (budget - 1) as nat, err);
    }
}

/// Reads an unsigned varint bound for a 32-bit target.
pub fn read_var_int(data: &[u8], pos: usize) -> (r: Result<(u32, usize), ReadError>)
    ensures
        match parse_uvarint32(data@, pos as int) {
            Ok((v, p)) => r matches Ok((rv, rp)) && rv as int == v && rp == p,
            Err(er) => r == Err::<(u32, usize), ReadError>(er),
        },
{
    proof {
        lemma_parse_uvarint_raw_bounds(data@, pos as int, 5, ReadError::VarIntRange);
    }
    match read_uvarint_raw(data, pos, 5, ReadError::VarIntRange) {
        Ok((v, p)) => {
            if v < 0x1_0000_0000 {
                Ok((v as u32, p))
            } else {
                Err(ReadError::VarIntRange)
            }
        },
        Err(er) => Err(er),
    }
}

/// Reads an unsigned varint bound for a 64-bit target.
pub fn read_varint(data: &[u8], pos: usize) -> (r: Result<(u64, usize), ReadError>)
    ensures
        match parse_uvarint64(data@, pos as int) {
            Ok((v, p)) => r matches Ok((rv, rp)) && rv as int == v && rp == p,
            Err(er) => r == Err::<(u64, usize), ReadError>(er),
        },
{
    proof {
        lemma_parse_uvarint_raw_bounds(data@, pos as int, 10, ReadError::VarLongRange);
    }
    match read_uvarint_raw(data, pos, 10, ReadError::VarLongRange) {
        Ok((v, p)) => Ok((v, p)),
        Err(er) => Err(er),
    }
}

/// Reads a zig-zag varint for a 32-bit target.
pub fn read_var_int_zig_zag(data: &[u8], pos: usize) -> (r: Result<(i32, usize), ReadError>)
    ensures
        match parse_zigzag32(data@, pos as int) {
            Ok((v, p)) => r matches Ok((rv, rp)) && rv == v && rp == p,
            Err(er) => r == Err::<(i32, usize), ReadError>(er),
        },
{
    match read_var_int(data, pos) {
        Ok((u, p)) => Ok((zigzag_decode_i32(u), p)),
        Err(er) => Err(er),
    }
}

/// Reads a zig-zag varint for a 64-bit target.
pub fn read_var_long_zig_zag(data: &[u8], pos: usize) -> (r: Result<(i64, usize), ReadError>)
    ensures
        match parse_zigzag64(data@, pos as int) {
            Ok((v, p)) => r matches Ok((rv, rp)) && rv == v && rp == p,
            Err(er) => r == Err::<(i64, usize), ReadError>(er),
        },
{
    match read_varint(data, pos) {
        Ok((u, p)) => Ok((zigzag_decode_i64(u), p)),
        Err(er) => Err(er),
    }
}

/// Reads an unsigned 16-bit scalar under the dialect's byte order.
pub fn read_unsigned_short(data: &[u8], pos: usize, endian: Endian) -> (r: Result<
    (u16, usize),
    ReadError,
>)
    ensures
        match parse_u16(data@, pos as int, endian) {
            Ok((v, p)) => r matches Ok((rv, rp)) && rv as int == v && rp == p,
            Err(er) => r == Err::<(u16, usize), ReadError>(er),
        },
{
    let raw = match endian {
        Endian::Big => read_be(data, pos, 2),
        Endian::Little => read_le(data, pos, 2),
        Endian::LittleVarInt => read_le(data, pos, 2),
    };
    proof {
        if pos + 2 <= data@.len() {
            let sub = data@.subrange(pos as int, pos + 2);
            lemma_be_val_bound(sub);
            lemma_le_val_bound(sub);
            lemma_pow256_values();
        }
    }
    match raw {
        Ok((u, p)) => Ok((u as u16, p)),
        Err(er) => Err(er),
    }
}

/// Reads a `Short` payload.
pub fn read_short(data: &[u8], pos: usize, endian: Endian) -> (r: Result<(i16, usize), ReadError>)
    ensures
        match parse_i16(data@, pos as int, endian) {
            Ok((v, p)) => r matches Ok((rv, rp)) && rv == v && rp == p,
            Err(er) => r == Err::<(i16, usize), ReadError>(er),
        },
{
    let raw = match endian {
        Endian::Big => read_be(data, pos, 2),
        Endian::Little => read_le(data, pos, 2),
        Endian::LittleVarInt => read_le(data, pos, 2),
    };
    proof {
        if pos + 2 <= data@.len() {
            let sub = data@.subrange(pos as int, pos + 2);
            lemma_be_val_bound(sub);
            lemma_le_val_bound(sub);
            lemma_pow256_values();
        }
    }
    match raw {
        Ok((u, p)) => Ok((u64_to_i16(u), p)),
        Err(er) => Err(er),
    }
}

/// Reads an `Int` payload.
pub fn read_int(data: &[u8], pos: usize, endian: Endian) -> (r: Result<(i32, usize), ReadError>)
    ensures
        match parse_i32(data@, pos as int, endian) {
            Ok((v, p)) => r matches Ok((rv, rp)) && rv == v && rp == p,
            Err(er) => r == Err::<(i32, usize), ReadError>(er),
        },
{
    match endian {
        Endian::LittleVarInt => read_var_int_zig_zag(data, pos),
        _ => {
            let raw = match endian {
                Endian::Big => read_be(data, pos, 4),
                _ => read_le(data, pos, 4),
            };
            proof {
                if pos + 4 <= data@.len() {
                    let sub = data@.subrange(pos as int, pos + 4);
                    lemma_be_val_bound(sub);
                    lemma_le_val_bound(sub);
                    lemma_pow256_values();
                }
            }
            match raw {
                Ok((u, p)) => Ok((u64_to_i32(u), p)),
                Err(er) => Err(er),
            }
        },
    }
}

/// Reads a `Long` payload.
pub fn read_long(data: &[u8], pos: usize, endian: Endian) -> (r: Result<(i64, usize), ReadError>)
    ensures
        match parse_i64(data@, pos as int, endian) {
            Ok((v, p)) => r matches Ok((rv, rp)) && rv == v && rp == p,
            Err(er) => r == Err::<(i64, usize), ReadError>(er),
        },
{
    match endian {
        Endian::LittleVarInt => read_var_long_zig_zag(data, pos),
        _ => {
            let raw = match endian {
                Endian::Big => read_be(data, pos, 8),
                _ => read_le(data, pos, 8),
            };
            proof {
                if pos + 8 <= data@.len() {
                    let sub = data@.subrange(pos as int, pos + 8);
                    lemma_be_val_bound(sub);
                    lemma_le_val_bound(sub);
                    lemma_pow256_values();
                }
            }
            match raw {
                Ok((u, p)) => Ok((u64_to_i64(u), p)),
                Err(er) => Err(er),
            }
        },
    }
}

/// Reads a `Float` payload's bit pattern.
pub fn read_float(data: &[u8], pos: usize, endian: Endian) -> (r: Result<(u32, usize), ReadError>)
    ensures
        match parse_f32(data@, pos as int, endian) {
            Ok((v, p)) => r matches Ok((rv, rp)) && rv == v && rp == p,
            Err(er) => r == Err::<(u32, usize), ReadError>(er),
        },
{
    let raw = match endian {
        Endian::Big => read_be(data, pos, 4),
        _ => read_le(data, pos, 4),
    };
    proof {
        if pos + 4 <= data@.len() {
            let sub = data@.subrange(pos as int, pos + 4);
            lemma_be_val_bound(sub);
            lemma_le_val_bound(sub);
            lemma_pow256_values();
        }
    }
    match raw {
        Ok((u, p)) => Ok((u as u32, p)),
        Err(er) => Err(er),
    }
}

/// Reads a `Double` payload's bit pattern.
pub fn read_double(data: &[u8], pos: usize, endian: Endian) -> (r: Result<(u64, usize), ReadError>)
    ensures
        match parse_f64(data@, pos as int, endian) {
            Ok((v, p)) => r matches Ok((rv, rp)) && rv == v && rp == p,
            Err(er) => r == Err::<(u64, usize), ReadError>(er),
        },
{
    let raw = match endian {
        Endian::Big => read_be(data, pos, 8),
        _ => read_le(data, pos, 8),
    };
    match raw {
        Ok((u, p)) => Ok((u, p)),
        Err(er) => Err(er),
    }
}

/// Reads a string as its raw bytes.
pub fn read_string(data: &[u8], pos: usize, endian: Endian) -> (r: Result<
    (StringTag, usize),
    ReadError,
>)
    ensures
        match parse_string(data@, pos as int, endian) {
            Ok((s, p)) => r matches Ok((rs, rp)) && rs@ == s && rp == p,
            Err(er) => r == Err::<(StringTag, usize), ReadError>(er),
        },
{
    let got = match endian {
        Endian::Big => {
            let raw = read_be(data, pos, 2);
            match raw {
                Ok((u, p)) => Ok((u, p)),
                Err(er) => Err(er),
            }
        },
        Endian::Little => {
            let raw = read_le(data, pos, 2);
            match raw {
                Ok((u, p)) => Ok((u, p)),
                Err(er) => Err(er),
            }
        },
        Endian::LittleVarInt => {
            match read_var_int(data, pos) {
                Ok((u, p)) => Ok((u as u64, p)),
                Err(er) => Err(er),
            }
        },
    };
    match got {
        Ok((n64, p)) => {
            proof {
                lemma_parse_uvarint_raw_bounds(data@, pos as int, 5, ReadError::VarIntRange);
            }
            if p > data.len() || n64 > (data.len() - p) as u64 {
                return Err(ReadError::Truncated);
            }
            let n = n64 as usize;
            let sub = vstd::slice::slice_subrange(data, p, p + n);
            let v = vstd::slice::slice_to_vec(sub);
            Ok((v, p + n))
        },
        Err(er) => Err(er),
    }
}


/// A `ByteArray` payload: a length, then one signed byte per element.
pub open spec fn parse_byte_array(data: Seq<u8>, pos: int, e: Endian) -> Result<
    (Seq<i8>, int),
    ReadError,
> {
    match parse_len(data, pos, e) {
        Ok((n, p)) => if p + n <= data.len() {
            Ok((Seq::new(n as nat, |i: int| i8_of_u8(data[p + i] as int) as i8), p + n))
        } else {
            Err(ReadError::Truncated)
        },
        Err(er) => Err(er),
    }
}

/// `count` consecutive `Int` payloads.
pub open spec fn parse_i32s(data: Seq<u8>, pos: int, e: Endian, count: nat) -> Result<
    (Seq<i32>, int),
    ReadError,
>
    decreases count,
{
    if count == 0 {
        Ok((Seq::empty(), pos))
    } else {
        match parse_i32(data, pos, e) {
            Ok((v, p1)) => match parse_i32s(data, p1, e, (count - 1) as nat) {
                Ok((s, p)) => Ok((seq![v] + s, p)),
                Err(er) => Err(er),
            },
            Err(er) => Err(er),
        }
    }
}

/// `count` consecutive `Long` payloads.
pub open spec fn parse_i64s(data: Seq<u8>, pos: int, e: Endian, count: nat) -> Result<
    (Seq<i64>, int),
    ReadError,
>
    decreases count,
{
    if count == 0 {
        Ok((Seq::empty(), pos))
    } else {
        match parse_i64(data, pos, e) {
            Ok((v, p1)) => match parse_i64s(data, p1, e, (count - 1) as nat) {
                Ok((s, p)) => Ok((seq![v] + s, p)),
                Err(er) => Err(er),
            },
            Err(er) => Err(er),
        }
    }
}

/// An `IntArray` payload: a length, then that many `Int` payloads.
pub open spec fn parse_int_array(data: Seq<u8>, pos: int, e: Endian) -> Result<
    (Seq<i32>, int),
    ReadError,
> {
    match parse_len(data, pos, e) {
        Ok((n, p)) => parse_i32s(data, p, e, n as nat),
        Err(er) => Err(er),
    }
}

/// A `LongArray` payload: a length, then that many `Long` payloads.
pub open spec fn parse_long_array(data: Seq<u8>, pos: int, e: Endian) -> Result<
    (Seq<i64>, int),
    ReadError,
> {
    match parse_len(data, pos, e) {
        Ok((n, p)) => parse_i64s(data, p, e, n as nat),
        Err(er) => Err(er),
    }
}

/// A `List` payload: an element discriminator, a length, then that many
/// payloads of that one kind.
pub open spec fn parse_list(data: Seq<u8>, pos: int, e: Endian) -> Result<
    (Seq<SpecTag>, int),
    ReadError,
>
    decreases data.len() - pos, 2int,
{
    match parse_tag_id(data, pos) {
        Ok((eid, p1)) => match parse_len(data, p1, e) {
            Ok((n, p2)) => if !(pos < p2 <= data.len()) {
                Err(ReadError::Truncated)
            } else {
                parse_tags(data, p2, eid, e, n as nat)
            },
            Err(er) => Err(er),
        },
        Err(er) => Err(er),
    }
}

/// `count` consecutive payloads of one kind.
pub open spec fn parse_tags(data: Seq<u8>, pos: int, id: TagId, e: Endian, count: nat) -> Result<
    (Seq<SpecTag>, int),
    ReadError,
>
    decreases data.len() - pos, 4int,
{
    if count == 0 {
        Ok((Seq::empty(), pos))
    } else {
        match parse_payload(data, pos, id, e) {
            Ok((t, p1)) => if !(pos < p1 <= data.len()) {
                Err(ReadError::Truncated)
            } else {
                match parse_tags(data, p1, id, e, (count - 1) as nat) {
                    Ok((ts, p)) => Ok((seq![t] + ts, p)),
                    Err(er) => Err(er),
                }
            },
            Err(er) => Err(er),
        }
    }
}

/// The entries of a compound from `pos` on, given the keys already seen:
/// `(discriminator, key, payload)` triples up to an `End` discriminator.
/// A key equal to an earlier one is rejected.
pub open spec fn parse_entries(data: Seq<u8>, pos: int, e: Endian, seen: Seq<Seq<u8>>) -> Result<
    (Seq<(Seq<u8>, SpecTag)>, int),
    ReadError,
>
    decreases data.len() - pos, 1int,
{
    match parse_tag_id(data, pos) {
        Ok((id, p1)) => if id == TagId::End {
            Ok((Seq::empty(), p1))
        } else {
            match parse_string(data, p1, e) {
                Ok((name, p2)) => if seen.contains(name) {
                    Err(ReadError::DuplicateKey)
                } else if !(pos < p2 <= data.len()) {
                    Err(ReadError::Truncated)
                } else {
                    match parse_payload(data, p2, id, e) {
                        Ok((t, p3)) => if !(pos < p3 <= data.len()) {
                            Err(ReadError::Truncated)
                        } else {
                            match parse_entries(data, p3, e, seen.push(name)) {
                                Ok((rest, p4)) => Ok((seq![(name, t)] + rest, p4)),
                                Err(er) => Err(er),
                            }
                        },
                        Err(er) => Err(er),
                    }
                },
                Err(er) => Err(er),
            }
        },
        Err(er) => Err(er),
    }
}

/// A `Compound` payload: its entries, with no key seen yet.
pub open spec fn parse_compound(data: Seq<u8>, pos: int, e: Endian) -> Result<
    (Seq<(Seq<u8>, SpecTag)>, int),
    ReadError,
>
    decreases data.len() - pos, 2int,
{
    parse_entries(data, pos, e, Seq::empty())
}

/// The payload of a tag of kind `id`.  `End` never has a payload.
pub open spec fn parse_payload(data: Seq<u8>, pos: int, id: TagId, e: Endian) -> Result<
    (SpecTag, int),
    ReadError,
>
    decreases data.len() - pos, 3int,
{
    match id {
        TagId::End => Err(ReadError::TagIDError(TagIDError::UnexpectedEnd)),
        TagId::Byte => match parse_i8(data, pos) {
            Ok((v, p)) => Ok((SpecTag::Byte(v), p)),
            Err(er) => Err(er),
        },
        TagId::Short => match parse_i16(data, pos, e) {
            Ok((v, p)) => Ok((SpecTag::Short(v), p)),
            Err(er) => Err(er),
        },
        TagId::Int => match parse_i32(data, pos, e) {
            Ok((v, p)) => Ok((SpecTag::Int(v), p)),
            Err(er) => Err(er),
        },
        TagId::Long => match parse_i64(data, pos, e) {
            Ok((v, p)) => Ok((SpecTag::Long(v), p)),
            Err(er) => Err(er),
        },
        TagId::Float => match parse_f32(data, pos, e) {
            Ok((v, p)) => Ok((SpecTag::Float(v), p)),
            Err(er) => Err(er),
        },
        TagId::Double => match parse_f64(data, pos, e) {
            Ok((v, p)) => Ok((SpecTag::Double(v), p)),
            Err(er) => Err(er),
        },
        TagId::ByteArray => match parse_byte_array(data, pos, e) {
            Ok((v, p)) => Ok((SpecTag::ByteArray(v), p)),
            Err(er) => Err(er),
        },
        TagId::String => match parse_string(data, pos, e) {
            Ok((v, p)) => Ok((SpecTag::String(v), p)),
            Err(er) => Err(er),
        },
        TagId::List => match parse_list(data, pos, e) {
            Ok((ts, p)) => Ok((SpecTag::List(ts), p)),
            Err(er) => Err(er),
        },
        TagId::Compound => match parse_compound(data, pos, e) {
            Ok((es, p)) => Ok((SpecTag::Compound(es), p)),
            Err(er) => Err(er),
        },
        TagId::IntArray => match parse_int_array(data, pos, e) {
            Ok((v, p)) => Ok((SpecTag::IntArray(v), p)),
            Err(er) => Err(er),
        },
        TagId::LongArray => match parse_long_array(data, pos, e) {
            Ok((v, p)) => Ok((SpecTag::LongArray(v), p)),
            Err(er) => Err(er),
        },
    }
}

/// The 8-byte Bedrock file header: two unsigned little-endian 32-bit
/// words, the storage version and the payload length.
pub open spec fn parse_bedrock_header(data: Seq<u8>, pos: int) -> Result<
    ((int, int), int),
    ReadError,
> {
    if 0 <= pos && pos + 8 <= data.len() {
        Ok(
            (
                (le_val(data.subrange(pos, pos + 4)), le_val(data.subrange(pos + 4, pos + 8))),
                pos + 8,
            ),
        )
    } else {
        Err(ReadError::Truncated)
    }
}

/// A whole stream from `start`: a non-`End` discriminator, the root
/// name, and the root payload.  Trailing bytes are ignored.
pub open spec fn parse_root_at(data: Seq<u8>, e: Endian, start: int) -> Result<
    (Seq<u8>, SpecTag),
    ReadError,
> {
    match parse_tag_id(data, start) {
        Ok((id, p1)) => if id == TagId::End {
            Err(ReadError::TagIDError(TagIDError::UnexpectedEnd))
        } else {
            match parse_string(data, p1, e) {
                Ok((name, p2)) => match parse_payload(data, p2, id, e) {
                    Ok((t, _p3)) => Ok((name, t)),
                    Err(er) => Err(er),
                },
                Err(er) => Err(er),
            }
        },
        Err(er) => Err(er),
    }
}

/// A whole stream: the optional 8-byte header (read and discarded),
/// then the root tag with its name.
pub open spec fn parse_root(data: Seq<u8>, e: Endian, h: BedrockHeader) -> Result<
    (Seq<u8>, SpecTag),
    ReadError,
> {
    match h {
        BedrockHeader::With => match parse_bedrock_header(data, 0) {
            Ok((_hdr, p)) => parse_root_at(data, e, p),
            Err(er) => Err(er),
        },
        BedrockHeader::Without => parse_root_at(data, e, 0),
    }
}


pub proof fn lemma_parse_str_len_bounds(data: Seq<u8>, pos: int, e: Endian)
    ensures
        parse_str_len(data, pos, e) matches Ok((n, p)) ==> 0 <= pos < p <= data.len() && 0 <= n,
{
    lemma_parse_uvarint_raw_bounds(data, pos, 5, ReadError::VarIntRange);
    if 0 <= pos && pos + 2 <= data.len() {
        lemma_be_val_bound(data.subrange(pos, pos + 2));
        lemma_le_val_bound(data.subrange(pos, pos + 2));
    }
}

pub proof fn lemma_parse_string_bounds(data: Seq<u8>, pos: int, e: Endian)
    ensures
        parse_string(data, pos, e) matches Ok((s, p)) ==> 0 <= pos < p <= data.len(),
{
    lemma_parse_str_len_bounds(data, pos, e);
}

pub proof fn lemma_parse_i32_bounds(data: Seq<u8>, pos: int, e: Endian)
    ensures
        parse_i32(data, pos, e) matches Ok((v, p)) ==> 0 <= pos < p <= data.len(),
{
    lemma_parse_uvarint_raw_bounds(data, pos, 5, ReadError::VarIntRange);
}

pub proof fn lemma_parse_i64_bounds(data: Seq<u8>, pos: int, e: Endian)
    ensures
        parse_i64(data, pos, e) matches Ok((v, p)) ==> 0 <= pos < p <= data.len(),
{
    lemma_parse_uvarint_raw_bounds(data, pos, 10, ReadError::VarLongRange);
}

pub proof fn lemma_parse_len_bounds(data: Seq<u8>, pos: int, e: Endian)
    ensures
        parse_len(data, pos, e) matches Ok((n, p)) ==> 0 <= pos < p <= data.len() && 0 <= n
            <= 0x7fff_ffff,
{
    lemma_parse_i32_bounds(data, pos, e);
}

pub proof fn lemma_parse_i32s_bounds(data: Seq<u8>, pos: int, e: Endian, count: nat)
    ensures
        parse_i32s(data, pos, e, count) matches Ok((s, p)) ==> pos <= p && (p == pos || (0 <= pos
            && p <= data.len())) && s.len() == count,
    decreases count,
{
    if count > 0 {
        lemma_parse_i32_bounds(data, pos, e);
        match parse_i32(data, pos, e) {
            Ok((_, p1)) => {
                lemma_parse_i32s_bounds(data, p1, e, (count - 1) as nat);
            },
            Err(_) => {},
        }
    }
}

pub proof fn lemma_parse_i64s_bounds(data: Seq<u8>, pos: int, e: Endian, count: nat)
    ensures
        parse_i64s(data, pos, e, count) matches Ok((s, p)) ==> pos <= p && (p == pos || (0 <= pos
            && p <= data.len())) && s.len() == count,
    decreases count,
{
    if count > 0 {
        lemma_parse_i64_bounds(data, pos, e);
        match parse_i64(data, pos, e) {
            Ok((_, p1)) => {
                lemma_parse_i64s_bounds(data, p1, e, (count - 1) as nat);
            },
            Err(_) => {},
        }
    }
}

/// Any parsed payload consumes at least one byte and stays inside the
/// input.
pub proof fn lemma_parse_payload_bounds(data: Seq<u8>, pos: int, id: TagId, e: Endian)
    ensures
        parse_payload(data, pos, id, e) matches Ok((t, p)) ==> 0 <= pos < p <= data.len(),
    decreases data.len() - pos, 3int,
{
    match id {
        TagId::Int => {
            lemma_parse_i32_bounds(data, pos, e);
        },
        TagId::Long => {
            lemma_parse_i64_bounds(data, pos, e);
        },
        TagId::ByteArray => {
            lemma_parse_len_bounds(data, pos, e);
        },
        TagId::String => {
            lemma_parse_string_bounds(data, pos, e);
        },
        TagId::List => {
            lemma_parse_list_bounds(data, pos, e);
        },
        TagId::Compound => {
            lemma_parse_compound_bounds(data, pos, e);
        },
        TagId::IntArray => {
            lemma_parse_len_bounds(data, pos, e);
            match parse_len(data, pos, e) {
                Ok((n, p1)) => {
                    lemma_parse_i32s_bounds(data, p1, e, n as nat);
                },
                Err(_) => {},
            }
        },
        TagId::LongArray => {
            lemma_parse_len_bounds(data, pos, e);
            match parse_len(data, pos, e) {
                Ok((n, p1)) => {
                    lemma_parse_i64s_bounds(data, p1, e, n as nat);
                },
                Err(_) => {},
            }
        },
        _ => {},
    }
}

pub proof fn lemma_parse_list_bounds(data: Seq<u8>, pos: int, e: Endian)
    ensures
        parse_list(data, pos, e) matches Ok((ts, p)) ==> 0 <= pos < p <= data.len(),
    decreases data.len() - pos, 2int,
{
    match parse_tag_id(data, pos) {
        Ok((eid, p1)) => {
            lemma_parse_len_bounds(data, p1, e);
            match parse_len(data, p1, e) {
                Ok((n, p2)) => {
                    if pos < p2 <= data.len() {
                        lemma_parse_tags_bounds(data, p2, eid, e, n as nat);
                    }
                },
                Err(_) => {},
            }
        },
        Err(_) => {},
    }
}

pub proof fn lemma_parse_tags_bounds(data: Seq<u8>, pos: int, id: TagId, e: Endian, count: nat)
    ensures
        parse_tags(data, pos, id, e, count) matches Ok((ts, p)) ==> pos <= p && (p == pos || p
            <= data.len()) && ts.len() == count,
    decreases data.len() - pos, 4int,
{
    if count > 0 {
        lemma_parse_payload_bounds(data, pos, id, e);
        match parse_payload(data, pos, id, e) {
            Ok((t, p1)) => {
                if pos < p1 <= data.len() {
                    lemma_parse_tags_bounds(data, p1, id, e, (count - 1) as nat);
                }
            },
            Err(_) => {},
        }
    }
}

pub proof fn lemma_parse_compound_bounds(data: Seq<u8>, pos: int, e: Endian)
    ensures
        parse_compound(data, pos, e) matches Ok((es, p)) ==> 0 <= pos < p <= data.len(),
    decreases data.len() - pos, 2int,
{
    lemma_parse_entries_bounds(data, pos, e, Seq::empty());
}

pub proof fn lemma_parse_entries_bounds(data: Seq<u8>, pos: int, e: Endian, seen: Seq<Seq<u8>>)
    ensures
        parse_entries(data, pos, e, seen) matches Ok((es, p)) ==> 0 <= pos < p <= data.len(),
    decreases data.len() - pos, 1int,
{
    match parse_tag_id(data, pos) {
        Ok((id, p1)) => {
            if id != TagId::End {
                lemma_parse_string_bounds(data, p1, e);
                match parse_string(data, p1, e) {
                    Ok((name, p2)) => {
                        if !seen.contains(name) && pos < p2 <= data.len() {
                            lemma_parse_payload_bounds(data, p2, id, e);
                            match parse_payload(data, p2, id, e) {
                                Ok((t, p3)) => {
                                    if pos < p3 <= data.len() {
                                        lemma_parse_entries_bounds(data, p3, e, seen.push(name));
                                    }
                                },
                                Err(_) => {},
                            }
                        }
                    },
                    Err(_) => {},
                }
            }
        },
        Err(_) => {},
    }
}


/// Reads a discriminator byte.
pub fn read_tag_id(data: &[u8], pos: usize) -> (r: Result<(TagId, usize), ReadError>)
    ensures
        match parse_tag_id(data@, pos as int) {
            Ok((id, p)) => r matches Ok((rid, rp)) && rid == id && rp == p,
            Err(er) => r == Err::<(TagId, usize), ReadError>(er),
        },
{
    match read_unsigned_byte(data, pos) {
        Ok((b, p)) => match TagId::from_byte(b) {
            Ok(id) => Ok((id, p)),
            Err(er) => Err(ReadError::TagIDError(er)),
        },
        Err(er) => Err(er),
    }
}

/// Reads a list or array length, rejecting negative values.
pub fn read_len(data: &[u8], pos: usize, endian: Endian) -> (r: Result<(i32, usize), ReadError>)
    ensures
        match parse_len(data@, pos as int, endian) {
            Ok((n, p)) => r matches Ok((rn, rp)) && rn as int == n && rp == p,
            Err(er) => r == Err::<(i32, usize), ReadError>(er),
        },
{
    match read_int(data, pos, endian) {
        Ok((n, p)) => if n < 0 {
            Err(ReadError::NegativeLength)
        } else {
            Ok((n, p))
        },
        Err(er) => Err(er),
    }
}

/// Reads a `ByteArray` payload.
pub fn read_byte_array(data: &[u8], pos: usize, endian: Endian) -> (r: Result<
    (ByteArrayTag, usize),
    ReadError,
>)
    ensures
        match parse_byte_array(data@, pos as int, endian) {
            Ok((a, p)) => r matches Ok((ra, rp)) && ra.0@ == a && rp == p,
            Err(er) => r == Err::<(ByteArrayTag, usize), ReadError>(er),
        },
{
    match read_len(data, pos, endian) {
        Ok((n32, p)) => {
            proof {
                lemma_parse_len_bounds(data@, pos as int, endian);
            }
            let n = n32 as usize;
            if n > data.len() - p {
                return Err(ReadError::Truncated);
            }
            let mut v: Vec<i8> = Vec::new();
            for i in 0..n
                invariant
                    p + n <= data@.len(),
                    data@.len() <= usize::MAX,
                    v@.len() == i,
                    forall|j: int| 0 <= j < i ==> v@[j] as int == i8_of_u8(data@[p + j] as int),
            {
                v.push(u8_to_i8(data[p + i]));
            }
            proof {
                assert(v@ =~= Seq::new(n as nat, |i: int| i8_of_u8(data@[p + i] as int) as i8));
            }
            Ok((ByteArrayTag(v), p + n))
        },
        Err(er) => Err(er),
    }
}

/// Reads `count` consecutive `Int` payloads after those already in `acc`.
fn read_i32s(data: &[u8], pos: usize, endian: Endian, count: usize, acc: Vec<i32>) -> (r: Result<
    (Vec<i32>, usize),
    ReadError,
>)
    ensures
        match parse_i32s(data@, pos as int, endian, count as nat) {
            Ok((s, p)) => r matches Ok((v, rp)) && v@ == acc@ + s && rp == p,
            Err(er) => r == Err::<(Vec<i32>, usize), ReadError>(er),
        },
    decreases count,
{
    if count == 0 {
        proof {
            assert(acc@ + Seq::<i32>::empty() =~= acc@);
        }
        Ok((acc, pos))
    } else {
        match read_int(data, pos, endian) {
            Ok((x, p1)) => {
                let ghost acc0 = acc@;
                let mut acc2 = acc;
                acc2.push(x);
                let res = read_i32s(data, p1, endian, count - 1, acc2);
                proof {
                    match parse_i32s(data@, p1 as int, endian, (count - 1) as nat) {
                        Ok((s2, _)) => {
                            assert(acc0.push(x) + s2 =~= acc0 + (seq![x] + s2));
                        },
                        Err(_) => {},
                    }
                }
                res
            },
            Err(er) => Err(er),
        }
    }
}

/// Reads an `IntArray` payload.
pub fn read_int_array(data: &[u8], pos: usize, endian: Endian) -> (r: Result<
    (IntArrayTag, usize),
    ReadError,
>)
    ensures
        match parse_int_array(data@, pos as int, endian) {
            Ok((a, p)) => r matches Ok((ra, rp)) && ra.0@ == a && rp == p,
            Err(er) => r == Err::<(IntArrayTag, usize), ReadError>(er),
        },
{
    match read_len(data, pos, endian) {
        Ok((n32, p)) => {
            let acc: Vec<i32> = Vec::new();
            proof {
                assert(acc@ =~= Seq::<i32>::empty());
            }
            match read_i32s(data, p, endian, n32 as usize, acc) {
                Ok((v, rp)) => {
                    proof {
                        match parse_i32s(data@, p as int, endian, n32 as nat) {
                            Ok((s, _)) => {
                                assert(Seq::<i32>::empty() + s =~= s);
                            },
                            Err(_) => {},
                        }
                    }
                    Ok((IntArrayTag(v), rp))
                },
                Err(er) => Err(er),
            }
        },
        Err(er) => Err(er),
    }
}

/// Reads `count` consecutive `Long` payloads after those already in `acc`.
fn read_i64s(data: &[u8], pos: usize, endian: Endian, count: usize, acc: Vec<i64>) -> (r: Result<
    (Vec<i64>, usize),
    ReadError,
>)
    ensures
        match parse_i64s(data@, pos as int, endian, count as nat) {
            Ok((s, p)) => r matches Ok((v, rp)) && v@ == acc@ + s && rp == p,
            Err(er) => r == Err::<(Vec<i64>, usize), ReadError>(er),
        },
    decreases count,
{
    if count == 0 {
        proof {
            assert(acc@ + Seq::<i64>::empty() =~= acc@);
        }
        Ok((acc, pos))
    } else {
        match read_long(data, pos, endian) {
            Ok((x, p1)) => {
                let ghost acc0 = acc@;
                let mut acc2 = acc;
                acc2.push(x);
                let res = read_i64s(data, p1, endian, count - 1, acc2);
                proof {
                    match parse_i64s(data@, p1 as int, endian, (count - 1) as nat) {
                        Ok((s2, _)) => {
                            assert(acc0.push(x) + s2 =~= acc0 + (seq![x] + s2));
                        },
                        Err(_) => {},
                    }
                }
                res
            },
            Err(er) => Err(er),
        }
    }
}

/// Reads a `LongArray` payload.
pub fn read_long_array(data: &[u8], pos: usize, endian: Endian) -> (r: Result<
    (LongArrayTag, usize),
    ReadError,
>)
    ensures
        match parse_long_array(data@, pos as int, endian) {
            Ok((a, p)) => r matches Ok((ra, rp)) && ra.0@ == a && rp == p,
            Err(er) => r == Err::<(LongArrayTag, usize), ReadError>(er),
        },
{
    match read_len(data, pos, endian) {
        Ok((n32, p)) => {
            let acc: Vec<i64> = Vec::new();
            proof {
                assert(acc@ =~= Seq::<i64>::empty());
            }
            match read_i64s(data, p, endian, n32 as usize, acc) {
                Ok((v, rp)) => {
                    proof {
                        match parse_i64s(data@, p as int, endian, n32 as nat) {
                            Ok((s, _)) => {
                                assert(Seq::<i64>::empty() + s =~= s);
                            },
                            Err(_) => {},
                        }
                    }
                    Ok((LongArrayTag(v), rp))
                },
                Err(er) => Err(er),
            }
        },
        Err(er) => Err(er),
    }
}

/// Reads `count` consecutive payloads of kind `id` after those in `acc`.
fn read_tags(data: &[u8], pos: usize, endian: Endian, id: TagId, count: usize, acc: Vec<Tag>) -> (r:
    Result<(Vec<Tag>, usize), ReadError>)
    ensures
        match parse_tags(data@, pos as int, id, endian, count as nat) {
            Ok((s, p)) => r matches Ok((v, rp)) && tags_view(v@) == tags_view(acc@) + s && rp == p,
            Err(er) => r == Err::<(Vec<Tag>, usize), ReadError>(er),
        },
    decreases data@.len() - pos, 4int,
{
    if count == 0 {
        proof {
            assert(tags_view(acc@) + Seq::<SpecTag>::empty() =~= tags_view(acc@));
        }
        Ok((acc, pos))
    } else {
        match read_tag(data, pos, endian, id) {
            Ok((t, p1)) => {
                proof {
                    lemma_parse_payload_bounds(data@, pos as int, id, endian);
                }
                let ghost tspec = t@;
                let ghost acc0 = acc@;
                let mut acc2 = acc;
                acc2.push(t);
                proof {
                    lemma_tags_view_push(acc0, acc2@[acc0.len() as int]);
                    assert(tags_view(acc2@) == tags_view(acc0).push(tspec));
                }
                let res = read_tags(data, p1, endian, id, count - 1, acc2);
                proof {
                    match parse_tags(data@, p1 as int, id, endian, (count - 1) as nat) {
                        Ok((s2, _)) => {
                            assert(tags_view(acc0).push(tspec) + s2 =~= tags_view(acc0) + (seq![
                                tspec,
                            ] + s2));
                        },
                        Err(_) => {},
                    }
                }
                res
            },
            Err(er) => Err(er),
        }
    }
}

/// Reads a `List` payload.
pub fn read_list(data: &[u8], pos: usize, endian: Endian) -> (r: Result<
    (ListTag<Tag>, usize),
    ReadError,
>)
    ensures
        match parse_list(data@, pos as int, endian) {
            Ok((ts, p)) => r matches Ok((v, rp)) && tags_view(v@) == ts && rp == p,
            Err(er) => r == Err::<(ListTag<Tag>, usize), ReadError>(er),
        },
    decreases data@.len() - pos, 2int,
{
    match read_tag_id(data, pos) {
        Ok((eid, p1)) => {
            match read_len(data, p1, endian) {
                Ok((n, p2)) => {
                    proof {
                        lemma_parse_len_bounds(data@, p1 as int, endian);
                    }
                    let acc: Vec<Tag> = Vec::new();
                    match read_tags(data, p2, endian, eid, n as usize, acc) {
                        Ok((v, rp)) => {
                            proof {
                                match parse_tags(
                                    data@,
                                    p2 as int,
                                    eid,
                                    endian,
                                    n as nat,
                                ) {
                                    Ok((s, _)) => {
                                        assert(tags_view(Seq::<Tag>::empty()) + s =~= s);
                                    },
                                    Err(_) => {},
                                }
                            }
                            Ok((v, rp))
                        },
                        Err(er) => Err(er),
                    }
                },
                Err(er) => Err(er),
            }
        },
        Err(er) => Err(er),
    }
}

/// Whether `name` is already a key of one of the collected entries.
fn contains_name(acc: &Vec<(StringTag, Tag)>, name: &Vec<u8>) -> (b: bool)
    ensures
        b == entry_names(entries_view(acc@)).contains(name@),
{
    proof {
        lemma_entries_view_index(acc@);
    }
    let n = acc.len();
    for i in 0..n
        invariant
            n == acc@.len(),
            entries_view(acc@).len() == n,
            forall|j: int|
                0 <= j < n ==> entries_view(acc@)[j] == ((#[trigger] acc@[j]).0@, tag_view(
                    acc@[j].1,
                )),
            forall|j: int| 0 <= j < i ==> acc@[j].0@ != name@,
    {
        if eq_bytes(&acc[i].0, name) {
            proof {
                assert(entry_names(entries_view(acc@))[i as int] == name@);
            }
            return true;
        }
    }
    proof {
        assert forall|k: int|
            0 <= k < entry_names(entries_view(acc@)).len() implies entry_names(entries_view(acc@))[k]
            != name@ by {
            assert(entry_names(entries_view(acc@))[k] == acc@[k].0@);
        }
    }
    false
}

/// Reads compound entries until an `End` discriminator, after those in
/// `acc`; a key equal to an earlier one is rejected.
fn read_entries(data: &[u8], pos: usize, endian: Endian, acc: Vec<(StringTag, Tag)>) -> (r: Result<
    (Vec<(StringTag, Tag)>, usize),
    ReadError,
>)
    ensures
        match parse_entries(data@, pos as int, endian, entry_names(entries_view(acc@))) {
            Ok((es, p)) => r matches Ok((v, rp)) && entries_view(v@) == entries_view(acc@) + es
                && rp == p,
            Err(er) => r == Err::<(Vec<(StringTag, Tag)>, usize), ReadError>(er),
        },
    decreases data@.len() - pos, 1int,
{
    match read_tag_id(data, pos) {
        Ok((id, p1)) => {
            if id.to_byte() == 0 {
                proof {
                    assert(id == TagId::End);
                    assert(entries_view(acc@) + Seq::<(Seq<u8>, SpecTag)>::empty() =~= entries_view(
                        acc@,
                    ));
                }
                Ok((acc, p1))
            } else {
                proof {
                    assert(id != TagId::End);
                }
                match read_string(data, p1, endian) {
                    Ok((name, p2)) => {
                        if contains_name(&acc, &name) {
                            Err(ReadError::DuplicateKey)
                        } else {
                            proof {
                                lemma_parse_string_bounds(data@, p1 as int, endian);
                            }
                            match read_tag(data, p2, endian, id) {
                                Ok((t, p3)) => {
                                    proof {
                                        lemma_parse_payload_bounds(data@, p2 as int, id, endian);
                                    }
                                    let ghost nspec = name@;
                                    let ghost tspec = t@;
                                    let ghost acc0 = acc@;
                                    let mut acc2 = acc;
                                    acc2.push((name, t));
                                    proof {
                                        lemma_entries_view_push(
                                            acc0,
                                            acc2@[acc0.len() as int],
                                        );
                                        assert(entries_view(acc2@) == entries_view(acc0).push(
                                            (nspec, tspec),
                                        ));
                                        lemma_entry_names_push(
                                            entries_view(acc0),
                                            (nspec, tspec),
                                        );
                                    }
                                    let res = read_entries(data, p3, endian, acc2);
                                    proof {
                                        match parse_entries(
                                            data@,
                                            p3 as int,
                                            endian,
                                            entry_names(entries_view(acc0)).push(nspec),
                                        ) {
                                            Ok((es2, _)) => {
                                                assert(entries_view(acc0).push((nspec, tspec))
                                                    + es2 =~= entries_view(acc0) + (seq![
                                                    (nspec, tspec),
                                                ] + es2));
                                            },
                                            Err(_) => {},
                                        }
                                    }
                                    res
                                },
                                Err(er) => Err(er),
                            }
                        }
                    },
                    Err(er) => Err(er),
                }
            }
        },
        Err(er) => Err(er),
    }
}

/// Reads a `Compound` payload.
pub fn read_compound(data: &[u8], pos: usize, endian: Endian) -> (r: Result<
    (CompoundTag, usize),
    ReadError,
>)
    ensures
        match parse_compound(data@, pos as int, endian) {
            Ok((es, p)) => r matches Ok((c, rp)) && c@ == es && rp == p,
            Err(er) => r == Err::<(CompoundTag, usize), ReadError>(er),
        },
    decreases data@.len() - pos, 2int,
{
    let acc: Vec<(StringTag, Tag)> = Vec::new();
    proof {
        assert(entries_view(acc@) =~= Seq::<(Seq<u8>, SpecTag)>::empty());
        assert(entry_names(entries_view(acc@)) =~= Seq::<Seq<u8>>::empty());
    }
    match read_entries(data, pos, endian, acc) {
        Ok((v, p)) => {
            proof {
                match parse_entries(data@, pos as int, endian, Seq::empty()) {
                    Ok((es, _)) => {
                        assert(Seq::<(Seq<u8>, SpecTag)>::empty() + es =~= es);
                    },
                    Err(_) => {},
                }
            }
            Ok((CompoundTag { entries: v }, p))
        },
        Err(er) => Err(er),
    }
}

/// Reads a single payload of kind `tag_id`; `End` in payload position is
/// an error.
#[verifier::rlimit(100)]
pub fn read_tag(data: &[u8], pos: usize, endian: Endian, tag_id: TagId) -> (r: Result<
    (Tag, usize),
    ReadError,
>)
    ensures
        match parse_payload(data@, pos as int, tag_id, endian) {
            Ok((t, p)) => r matches Ok((rt, rp)) && rt@ == t && rp == p,
            Err(er) => r == Err::<(Tag, usize), ReadError>(er),
        },
    decreases data@.len() - pos, 3int,
{
    match tag_id {
        TagId::End => Err(ReadError::TagIDError(TagIDError::UnexpectedEnd)),
        TagId::Byte => match read_byte(data, pos) {
            Ok((v, p)) => Ok((Tag::Byte(v), p)),
            Err(er) => Err(er),
        },
        TagId::Short => match read_short(data, pos, endian) {
            Ok((v, p)) => Ok((Tag::Short(v), p)),
            Err(er) => Err(er),
        },
        TagId::Int => match read_int(data, pos, endian) {
            Ok((v, p)) => Ok((Tag::Int(v), p)),
            Err(er) => Err(er),
        },
        TagId::Long => match read_long(data, pos, endian) {
            Ok((v, p)) => Ok((Tag::Long(v), p)),
            Err(er) => Err(er),
        },
        TagId::Float => match read_float(data, pos, endian) {
            Ok((v, p)) => Ok((Tag::Float(v), p)),
            Err(er) => Err(er),
        },
        TagId::Double => match read_double(data, pos, endian) {
            Ok((v, p)) => Ok((Tag::Double(v), p)),
            Err(er) => Err(er),
        },
        TagId::ByteArray => match read_byte_array(data, pos, endian) {
            Ok((v, p)) => Ok((Tag::ByteArray(v), p)),
            Err(er) => Err(er),
        },
        TagId::String => match read_string(data, pos, endian) {
            Ok((v, p)) => Ok((Tag::String(v), p)),
            Err(er) => Err(er),
        },
        TagId::List => match read_list(data, pos, endian) {
            Ok((v, p)) => Ok((Tag::List(v), p)),
            Err(er) => Err(er),
        },
        TagId::Compound => match read_compound(data, pos, endian) {
            Ok((v, p)) => Ok((Tag::Compound(v), p)),
            Err(er) => Err(er),
        },
        TagId::IntArray => match read_int_array(data, pos, endian) {
            Ok((v, p)) => Ok((Tag::IntArray(v), p)),
            Err(er) => Err(er),
        },
        TagId::LongArray => match read_long_array(data, pos, endian) {
            Ok((v, p)) => Ok((Tag::LongArray(v), p)),
            Err(er) => Err(er),
        },
    }
}

/// Reads the 8-byte Bedrock header: storage version and payload length,
/// both little-endian.
pub fn read_bedrock_header(data: &[u8], pos: usize) -> (r: Result<(u32, u32, usize), ReadError>)
    ensures
        match parse_bedrock_header(data@, pos as int) {
            Ok(((sv, pl), p)) => r matches Ok((rsv, rpl, rp)) && rsv as int == sv && rpl as int
                == pl && rp == p,
            Err(er) => r == Err::<(u32, u32, usize), ReadError>(er),
        },
{
    match read_le(data, pos, 4) {
        Ok((sv, p1)) => match read_le(data, p1, 4) {
            Ok((pl, p2)) => {
                proof {
                    if pos + 8 <= data@.len() {
                        lemma_le_val_bound(data@.subrange(pos as int, pos + 4));
                        lemma_le_val_bound(data@.subrange(pos + 4, pos + 8));
                        lemma_pow256_values();
                    }
                }
                Ok((sv as u32, pl as u32, p2))
            },
            Err(er) => Err(er),
        },
        Err(er) => Err(er),
    }
}

/// Parses a whole stream into its root tag and root name under the
/// dialect, skipping the 8-byte header first when one is expected.
pub fn read_root(data: &[u8], endian: Endian, header: BedrockHeader) -> (r: Result<
    (StringTag, Tag),
    ReadError,
>)
    ensures
        match parse_root(data@, endian, header) {
            Ok((name, t)) => r matches Ok((rn, rt)) && rn@ == name && rt@ == t,
            Err(er) => r == Err::<(StringTag, Tag), ReadError>(er),
        },
{
    let start: usize = match header {
        BedrockHeader::With => {
            match read_bedrock_header(data, 0) {
                Ok((_sv, _pl, p)) => p,
                Err(er) => {
                    return Err(er);
                },
            }
        },
        BedrockHeader::Without => 0,
    };
    match read_tag_id(data, start) {
        Ok((id, p1)) => {
            if id.to_byte() == 0 {
                proof {
                    assert(id == TagId::End);
                }
                Err(ReadError::TagIDError(TagIDError::UnexpectedEnd))
            } else {
                proof {
                    assert(id != TagId::End);
                }
                match read_string(data, p1, endian) {
                    Ok((name, p2)) => match read_tag(data, p2, endian, id) {
                        Ok((t, _p3)) => Ok((name, t)),
                        Err(er) => Err(er),
                    },
                    Err(er) => Err(er),
                }
            }
        },
        Err(er) => Err(er),
    }
}

} // verus!
