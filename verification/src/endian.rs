//! Byte-order strategies as types: a trait whose implementors read the
//! integer scalars from a byte buffer under one fixed encoding, so that
//! generic code can be compiled once per strategy.

use vstd::prelude::*;

use crate::read::ReadError;
use crate::read::parse_be;
use crate::read::parse_le;
use crate::read::parse_uvarint64;
use crate::read::read_be;
use crate::read::read_le;
use crate::read::read_varint;
use crate::wire::i32_of_u32;
use crate::wire::i64_of_u64;
use crate::wire::lemma_be_val_bound;
use crate::wire::lemma_le_val_bound;
use crate::wire::pow256;
use crate::wire::u64_to_i32;
use crate::wire::u64_to_i64;

verus! {

/// How one strategy reads the three integer widths from a buffer; each
/// implementor gives the specification its reads are proved against.
pub trait EndianRead {
    /// What reading an unsigned 16-bit scalar at `pos` yields.
    spec fn spec_read_u16(data: Seq<u8>, pos: int) -> Result<(int, int), ReadError>;

    /// What reading a signed 32-bit scalar at `pos` yields.
    spec fn spec_read_i32(data: Seq<u8>, pos: int) -> Result<(i32, int), ReadError>;

    /// What reading a signed 64-bit scalar at `pos` yields.
    spec fn spec_read_i64(data: Seq<u8>, pos: int) -> Result<(i64, int), ReadError>;

    fn read_u16(data: &[u8], pos: usize) -> (r: Result<(u16, usize), ReadError>)
        ensures
            match Self::spec_read_u16(data@, pos as int) {
                Ok((v, p)) => r matches Ok((rv, rp)) && rv as int == v && rp == p,
                Err(er) => r == Err::<(u16, usize), ReadError>(er),
            },
    ;

    fn read_i32(data: &[u8], pos: usize) -> (r: Result<(i32, usize), ReadError>)
        ensures
            match Self::spec_read_i32(data@, pos as int) {
                Ok((v, p)) => r matches Ok((rv, rp)) && rv == v && rp == p,
                Err(er) => r == Err::<(i32, usize), ReadError>(er),
            },
    ;

    fn read_i64(data: &[u8], pos: usize) -> (r: Result<(i64, usize), ReadError>)
        ensures
            match Self::spec_read_i64(data@, pos as int) {
                Ok((v, p)) => r matches Ok((rv, rp)) && rv == v && rp == p,
                Err(er) => r == Err::<(i64, usize), ReadError>(er),
            },
    ;
}

/// Fixed-width big-endian reads.
#[derive(Debug, Clone, Copy, PartialEq, Eq, Structural)]
pub struct BigEndianOrder;

/// Fixed-width little-endian reads.
#[derive(Debug, Clone, Copy, PartialEq, Eq, Structural)]
pub struct LittleEndianOrder;

/// Unsigned varint reads, truncated into each requested width.
#[derive(Debug, Clone, Copy, PartialEq, Eq, Structural)]
pub struct LittleVarInt;

impl EndianRead for BigEndianOrder {
    open spec fn spec_read_u16(data: Seq<u8>, pos: int) -> Result<(int, int), ReadError> {
        parse_be(data, pos, 2)
    }

    open spec fn spec_read_i32(data: Seq<u8>, pos: int) -> Result<(i32, int), ReadError> {
        match parse_be(data, pos, 4) {
            Ok((u, p)) => Ok((i32_of_u32(u) as i32, p)),
            Err(er) => Err(er),
        }
    }

    open spec fn spec_read_i64(data: Seq<u8>, pos: int) -> Result<(i64, int), ReadError> {
        match parse_be(data, pos, 8) {
            Ok((u, p)) => Ok((i64_of_u64(u) as i64, p)),
            Err(er) => Err(er),
        }
    }

    fn read_u16(data: &[u8], pos: usize) -> (r: Result<(u16, usize), ReadError>) {
        proof {
            if pos + 2 <= data@.len() {
                lemma_be_val_bound(data@.subrange(pos as int, pos + 2));
                crate::read::lemma_pow256_values();
            }
        }
        match read_be(data, pos, 2) {
            Ok((u, p)) => Ok((u as u16, p)),
            Err(er) => Err(er),
        }
    }

    fn read_i32(data: &[u8], pos: usize) -> (r: Result<(i32, usize), ReadError>) {
        proof {
            if pos + 4 <= data@.len() {
                lemma_be_val_bound(data@.subrange(pos as int, pos + 4));
                crate::read::lemma_pow256_values();
            }
        }
        match read_be(data, pos, 4) {
            Ok((u, p)) => Ok((u64_to_i32(u), p)),
            Err(er) => Err(er),
        }
    }

    fn read_i64(data: &[u8], pos: usize) -> (r: Result<(i64, usize), ReadError>) {
        proof {
            if pos + 8 <= data@.len() {
                lemma_be_val_bound(data@.subrange(pos as int, pos + 8));
                crate::read::lemma_pow256_values();
            }
        }
        match read_be(data, pos, 8) {
            Ok((u, p)) => Ok((u64_to_i64(u), p)),
            Err(er) => Err(er),
        }
    }
}

impl EndianRead for LittleEndianOrder {
    open spec fn spec_read_u16(data: Seq<u8>, pos: int) -> Result<(int, int), ReadError> {
        parse_le(data, pos, 2)
    }

    open spec fn spec_read_i32(data: Seq<u8>, pos: int) -> Result<(i32, int), ReadError> {
        match parse_le(data, pos, 4) {
            Ok((u, p)) => Ok((i32_of_u32(u) as i32, p)),
            Err(er) => Err(er),
        }
    }

    open spec fn spec_read_i64(data: Seq<u8>, pos: int) -> Result<(i64, int), ReadError> {
        match parse_le(data, pos, 8) {
            Ok((u, p)) => Ok((i64_of_u64(u) as i64, p)),
            Err(er) => Err(er),
        }
    }

    fn read_u16(data: &[u8], pos: usize) -> (r: Result<(u16, usize), ReadError>) {
        proof {
            if pos + 2 <= data@.len() {
                lemma_le_val_bound(data@.subrange(pos as int, pos + 2));
                crate::read::lemma_pow256_values();
            }
        }
        match read_le(data, pos, 2) {
            Ok((u, p)) => Ok((u as u16, p)),
            Err(er) => Err(er),
        }
    }

    fn read_i32(data: &[u8], pos: usize) -> (r: Result<(i32, usize), ReadError>) {
        proof {
            if pos + 4 <= data@.len() {
                lemma_le_val_bound(data@.subrange(pos as int, pos + 4));
                crate::read::lemma_pow256_values();
            }
        }
        match read_le(data, pos, 4) {
            Ok((u, p)) => Ok((u64_to_i32(u), p)),
            Err(er) => Err(er),
        }
    }

    fn read_i64(data: &[u8], pos: usize) -> (r: Result<(i64, usize), ReadError>) {
        proof {
            if pos + 8 <= data@.len() {
                lemma_le_val_bound(data@.subrange(pos as int, pos + 8));
                crate::read::lemma_pow256_values();
            }
        }
        match read_le(data, pos, 8) {
            Ok((u, p)) => Ok((u64_to_i64(u), p)),
            Err(er) => Err(er),
        }
    }
}

impl EndianRead for LittleVarInt {
    open spec fn spec_read_u16(data: Seq<u8>, pos: int) -> Result<(int, int), ReadError> {
        match parse_uvarint64(data, pos) {
            Ok((u, p)) => Ok((u % 0x10000, p)),
            Err(er) => Err(er),
        }
    }

    open spec fn spec_read_i32(data: Seq<u8>, pos: int) -> Result<(i32, int), ReadError> {
        match parse_uvarint64(data, pos) {
            Ok((u, p)) => Ok((i32_of_u32(u % 0x1_0000_0000) as i32, p)),
            Err(er) => Err(er),
        }
    }

    open spec fn spec_read_i64(data: Seq<u8>, pos: int) -> Result<(i64, int), ReadError> {
        match parse_uvarint64(data, pos) {
            Ok((u, p)) => Ok((i64_of_u64(u) as i64, p)),
            Err(er) => Err(er),
        }
    }

    fn read_u16(data: &[u8], pos: usize) -> (r: Result<(u16, usize), ReadError>) {
        match read_varint(data, pos) {
            Ok((u, p)) => Ok(((u % 0x10000) as u16, p)),
            Err(er) => Err(er),
        }
    }

    fn read_i32(data: &[u8], pos: usize) -> (r: Result<(i32, usize), ReadError>) {
        match read_varint(data, pos) {
            Ok((u, p)) => Ok((u64_to_i32(u % 0x1_0000_0000), p)),
            Err(er) => Err(er),
        }
    }

    fn read_i64(data: &[u8], pos: usize) -> (r: Result<(i64, usize), ReadError>) {
        match read_varint(data, pos) {
            Ok((u, p)) => Ok((u64_to_i64(u), p)),
            Err(er) => Err(er),
        }
    }
}

/// Reads a signed 32-bit scalar under any byte-order strategy.
pub fn read_int<E: EndianRead>(data: &[u8], pos: usize) -> (r: Result<(i32, usize), ReadError>)
    ensures
        match E::spec_read_i32(data@, pos as int) {
            Ok((v, p)) => r matches Ok((rv, rp)) && rv == v && rp == p,
            Err(er) => r == Err::<(i32, usize), ReadError>(er),
        },
{
    E::read_i32(data, pos)
}

} // verus!
