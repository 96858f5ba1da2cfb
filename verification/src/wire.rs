//! Scalar wire encodings: little- and big-endian fixed-width integers,
//! unsigned LEB128-style varints, the zig-zag mapping between signed and
//! unsigned values, and the two's-complement reinterpretations that relate
//! the signed payload types to their unsigned wire images.

use vstd::prelude::*;

verus! {

/// 256 raised to `n`; the number of values of an `n`-byte field.
pub open spec fn pow256(n: nat) -> int
    decreases n,
{
    if n == 0 {
        1
    } else {
        256 * pow256((n - 1) as nat)
    }
}

pub proof fn lemma_pow256_pos(n: nat)
    ensures
        pow256(n) >= 1,
    decreases n,
{
    if n > 0 {
        lemma_pow256_pos((n - 1) as nat);
    }
}

/// The `n` little-endian bytes of `v`, least significant first.
pub open spec fn le_bytes(v: int, n: nat) -> Seq<u8>
    decreases n,
{
    if n == 0 {
        Seq::empty()
    } else {
        seq![(v % 256) as u8] + le_bytes(v / 256, (n - 1) as nat)
    }
}

/// The value of a little-endian byte sequence.
pub open spec fn le_val(s: Seq<u8>) -> int
    decreases s.len(),
{
    if s.len() == 0 {
        0
    } else {
        s[0] + 256 * le_val(s.subrange(1, s.len() as int))
    }
}

/// The `n` big-endian bytes of `v`, most significant first.
pub open spec fn be_bytes(v: int, n: nat) -> Seq<u8>
    decreases n,
{
    if n == 0 {
        Seq::empty()
    } else {
        be_bytes(v / 256, (n - 1) as nat).push((v % 256) as u8)
    }
}

/// The value of a big-endian byte sequence.
pub open spec fn be_val(s: Seq<u8>) -> int
    decreases s.len(),
{
    if s.len() == 0 {
        0
    } else {
        256 * be_val(s.drop_last()) + s.last()
    }
}

pub proof fn lemma_le_bytes_len(v: int, n: nat)
    ensures
        le_bytes(v, n).len() == n,
    decreases n,
{
    if n > 0 {
        lemma_le_bytes_len(v / 256, (n - 1) as nat);
    }
}

pub proof fn lemma_be_bytes_len(v: int, n: nat)
    ensures
        be_bytes(v, n).len() == n,
    decreases n,
{
    if n > 0 {
        lemma_be_bytes_len(v / 256, (n - 1) as nat);
    }
}

/// Decoding inverts encoding for values that fit in `n` bytes.
pub proof fn lemma_le_val_le_bytes(v: int, n: nat)
    requires
        0 <= v < pow256(n),
    ensures
        le_val(le_bytes(v, n)) == v,
    decreases n,
{
    if n > 0 {
        let rest = le_bytes(v / 256, (n - 1) as nat);
        lemma_le_bytes_len(v / 256, (n - 1) as nat);
        assert(le_bytes(v, n).subrange(1, le_bytes(v, n).len() as int) =~= rest);
        assert(0 <= v / 256 < pow256((n - 1) as nat)) by {
            lemma_pow256_pos((n - 1) as nat);
        }
        lemma_le_val_le_bytes(v / 256, (n - 1) as nat);
    }
}

/// Decoding inverts encoding for values that fit in `n` bytes.
pub proof fn lemma_be_val_be_bytes(v: int, n: nat)
    requires
        0 <= v < pow256(n),
    ensures
        be_val(be_bytes(v, n)) == v,
    decreases n,
{
    if n > 0 {
        let rest = be_bytes(v / 256, (n - 1) as nat);
        lemma_be_bytes_len(v / 256, (n - 1) as nat);
        assert(be_bytes(v, n).drop_last() =~= rest);
        assert(0 <= v / 256 < pow256((n - 1) as nat)) by {
            lemma_pow256_pos((n - 1) as nat);
        }
        lemma_be_val_be_bytes(v / 256, (n - 1) as nat);
    }
}

pub proof fn lemma_le_val_bound(s: Seq<u8>)
    ensures
        0 <= le_val(s) < pow256(s.len()),
    decreases s.len(),
{
    if s.len() > 0 {
        lemma_le_val_bound(s.subrange(1, s.len() as int));
    }
}

pub proof fn lemma_be_val_bound(s: Seq<u8>)
    ensures
        0 <= be_val(s) < pow256(s.len()),
    decreases s.len(),
{
    if s.len() > 0 {
        lemma_be_val_bound(s.drop_last());
    }
}

/// Appends the `n` little-endian bytes of `v`.
pub fn push_le_bytes(out: &mut Vec<u8>, v: u64, n: usize)
    ensures
        final(out)@ == old(out)@ + le_bytes(v as int, n as nat),
    decreases n,
{
    if n == 0 {
        proof {
            assert(out@ =~= old(out)@ + le_bytes(v as int, 0));
        }
    } else {
        out.push((v % 256) as u8);
        push_le_bytes(out, v / 256, n - 1);
        proof {
            assert(out@ =~= old(out)@ + le_bytes(v as int, n as nat));
        }
    }
}

/// Appends the `n` big-endian bytes of `v`.
pub fn push_be_bytes(out: &mut Vec<u8>, v: u64, n: usize)
    ensures
        final(out)@ == old(out)@ + be_bytes(v as int, n as nat),
    decreases n,
{
    if n == 0 {
        proof {
            assert(out@ =~= old(out)@ + be_bytes(v as int, 0));
        }
    } else {
        push_be_bytes(out, v / 256, n - 1);
        out.push((v % 256) as u8);
        proof {
            assert(out@ =~= old(out)@ + be_bytes(v as int, n as nat));
        }
    }
}

/// The unsigned wire image of a signed 8-bit value (two's complement).
pub open spec fn u8_of_i8(v: i8) -> int {
    if v >= 0 {
        v as int
    } else {
        v + 256
    }
}

/// The signed value of an unsigned 8-bit wire image.
pub open spec fn i8_of_u8(u: int) -> int {
    if u < 128 {
        u
    } else {
        u - 256
    }
}

pub open spec fn u16_of_i16(v: i16) -> int {
    if v >= 0 {
        v as int
    } else {
        v + 0x10000
    }
}

pub open spec fn i16_of_u16(u: int) -> int {
    if u < 0x8000 {
        u
    } else {
        u - 0x10000
    }
}

pub open spec fn u32_of_i32(v: i32) -> int {
    if v >= 0 {
        v as int
    } else {
        v + 0x1_0000_0000
    }
}

pub open spec fn i32_of_u32(u: int) -> int {
    if u < 0x8000_0000 {
        u
    } else {
        u - 0x1_0000_0000
    }
}

pub open spec fn u64_of_i64(v: i64) -> int {
    if v >= 0 {
        v as int
    } else {
        v + 0x1_0000_0000_0000_0000
    }
}

pub open spec fn i64_of_u64(u: int) -> int {
    if u < 0x8000_0000_0000_0000 {
        u
    } else {
        u - 0x1_0000_0000_0000_0000
    }
}

pub fn i8_to_u8(v: i8) -> (r: u8)
    ensures
        r as int == u8_of_i8(v),
{
    if v >= 0 {
        v as u8
    } else {
        ((v as i16) + 256) as u8
    }
}

pub fn u8_to_i8(u: u8) -> (r: i8)
    ensures
        r as int == i8_of_u8(u as int),
{
    if u < 128 {
        u as i8
    } else {
        ((u as i16) - 256) as i8
    }
}

pub fn i16_to_u64(v: i16) -> (r: u64)
    ensures
        r as int == u16_of_i16(v),
{
    if v >= 0 {
        v as u64
    } else {
        ((v as i32) + 0x10000) as u64
    }
}

pub fn u64_to_i16(u: u64) -> (r: i16)
    requires
        u < 0x10000,
    ensures
        r as int == i16_of_u16(u as int),
{
    if u < 0x8000 {
        u as i16
    } else {
        ((u as i32) - 0x10000) as i16
    }
}

pub fn i32_to_u64(v: i32) -> (r: u64)
    ensures
        r as int == u32_of_i32(v),
{
    if v >= 0 {
        v as u64
    } else {
        ((v as i64) + 0x1_0000_0000) as u64
    }
}

pub fn u64_to_i32(u: u64) -> (r: i32)
    requires
        u < 0x1_0000_0000,
    ensures
        r as int == i32_of_u32(u as int),
{
    if u < 0x8000_0000 {
        u as i32
    } else {
        ((u as i64) - 0x1_0000_0000) as i32
    }
}

pub fn i64_to_u64(v: i64) -> (r: u64)
    ensures
        r as int == u64_of_i64(v),
{
    if v >= 0 {
        v as u64
    } else {
        ((v as i128) + 0x1_0000_0000_0000_0000i128) as u64
    }
}

pub fn u64_to_i64(u: u64) -> (r: i64)
    ensures
        r as int == i64_of_u64(u as int),
{
    if u < 0x8000_0000_0000_0000 {
        u as i64
    } else {
        ((u as i128) - 0x1_0000_0000_0000_0000i128) as i64
    }
}

/// The unsigned varint encoding of `v`: seven payload bits per byte,
/// least significant group first, high bit set on every byte but the last.
pub open spec fn uvarint_bytes(v: int) -> Seq<u8>
    decreases v,
{
    if v < 128 {
        seq![v as u8]
    } else {
        seq![(v % 128 + 128) as u8] + uvarint_bytes(v / 128)
    }
}

pub proof fn lemma_uvarint_bytes_len(v: int, budget: nat)
    requires
        0 <= v < pow128(budget),
        budget >= 1,
    ensures
        1 <= uvarint_bytes(v).len() <= budget,
    decreases budget,
{
    if v >= 128 {
        assert(0 <= v / 128 < pow128((budget - 1) as nat));
        lemma_uvarint_bytes_len(v / 128, (budget - 1) as nat);
    }
}

/// 128 raised to `n`; the number of values of an `n`-group varint.
pub open spec fn pow128(n: nat) -> int
    decreases n,
{
    if n == 0 {
        1
    } else {
        128 * pow128((n - 1) as nat)
    }
}

pub proof fn lemma_pow128_pos(n: nat)
    ensures
        pow128(n) >= 1,
    decreases n,
{
    if n > 0 {
        lemma_pow128_pos((n - 1) as nat);
    }
}

/// The zig-zag image of a signed value: non-negative values map to the
/// even numbers, negative values to the odd ones.
pub open spec fn zigzag_encode(s: int) -> int {
    if s >= 0 {
        2 * s
    } else {
        -2 * s - 1
    }
}

/// The signed value of a zig-zag image; this is the arithmetic reading of
/// the canonical formula `(u >> 1) ^ -(u & 1)`.
pub open spec fn zigzag_decode(u: int) -> int {
    if u % 2 == 0 {
        u / 2
    } else {
        -(u / 2) - 1
    }
}

pub proof fn lemma_zigzag_roundtrip(s: int)
    ensures
        zigzag_decode(zigzag_encode(s)) == s,
        zigzag_encode(zigzag_decode(zigzag_encode(s))) == zigzag_encode(s),
{
}

/// Zig-zag maps the signed 32-bit range onto exactly the unsigned 32-bit
/// range, and likewise for 64 bits.
pub proof fn lemma_zigzag_ranges(s: int, u: int)
    ensures
        -0x8000_0000 <= s < 0x8000_0000 ==> 0 <= zigzag_encode(s) < 0x1_0000_0000,
        -0x8000_0000_0000_0000 <= s < 0x8000_0000_0000_0000 ==> 0 <= zigzag_encode(s)
            < 0x1_0000_0000_0000_0000,
        0 <= u < 0x1_0000_0000 ==> -0x8000_0000 <= zigzag_decode(u) < 0x8000_0000,
        0 <= u < 0x1_0000_0000_0000_0000 ==> -0x8000_0000_0000_0000 <= zigzag_decode(u)
            < 0x8000_0000_0000_0000,
{
}

/// Zig-zag encodes a signed 32-bit value into its unsigned wire image.
pub fn zigzag_encode_u32(s: i32) -> (u: u32)
    ensures
        u as int == zigzag_encode(s as int),
{
    if s >= 0 {
        (s as u32) * 2
    } else {
        (((-((s as i64) + 1)) as u32) * 2) + 1
    }
}

/// Zig-zag encodes a signed 64-bit value into its unsigned wire image.
pub fn zigzag_encode_u64(s: i64) -> (u: u64)
    ensures
        u as int == zigzag_encode(s as int),
{
    if s >= 0 {
        (s as u64) * 2
    } else {
        (((-(s + 1)) as u64) * 2) + 1
    }
}

/// Zig-zag decodes an unsigned 32-bit wire image.
pub fn zigzag_decode_i32(u: u32) -> (s: i32)
    ensures
        s as int == zigzag_decode(u as int),
{
    if u % 2 == 0 {
        (u / 2) as i32
    } else {
        -((u / 2) as i32) - 1
    }
}

/// Zig-zag decodes an unsigned 64-bit wire image.
pub fn zigzag_decode_i64(u: u64) -> (s: i64)
    ensures
        s as int == zigzag_decode(u as int),
{
    if u % 2 == 0 {
        (u / 2) as i64
    } else {
        -((u / 2) as i64) - 1
    }
}


/// Byte-for-byte equality of two byte vectors.
pub fn eq_bytes(a: &Vec<u8>, b: &Vec<u8>) -> (r: bool)
    ensures
        r == (a@ == b@),
{
    if a.len() != b.len() {
        proof {
            assert(a@.len() != b@.len());
        }
        return false;
    }
    let n = a.len();
    for i in 0..n
        invariant
            n == a@.len(),
            n == b@.len(),
            forall|j: int| 0 <= j < i ==> a@[j] == b@[j],
    {
        if a[i] != b[i] {
            return false;
        }
    }
    proof {
        assert(a@ =~= b@);
    }
    true
}


pub fn i16_to_u16(v: i16) -> (r: u16)
    ensures
        r as int == u16_of_i16(v),
{
    if v >= 0 {
        v as u16
    } else {
        ((v as i32) + 0x10000) as u16
    }
}

pub fn i32_to_u32(v: i32) -> (r: u32)
    ensures
        r as int == u32_of_i32(v),
{
    if v >= 0 {
        v as u32
    } else {
        ((v as i64) + 0x1_0000_0000) as u32
    }
}

} // verus!
