//! Fields packed into bytes: nibbles, bit pairs, single bits, signed bytes, little-endian words.

use vstd::prelude::*;

verus! {

/// The low four bits of a byte.
pub open spec fn low4(b: u8) -> int {
    b as int % 16
}

/// The high four bits of a byte.
pub open spec fn high4(b: u8) -> int {
    b as int / 16
}

/// The value of bit `k` of a byte counted as an integer, `2^k`.
pub open spec fn weight(k: int) -> int {
    if k == 0 {
        1
    } else if k == 1 {
        2
    } else if k == 2 {
        4
    } else if k == 3 {
        8
    } else if k == 4 {
        16
    } else if k == 5 {
        32
    } else if k == 6 {
        64
    } else {
        128
    }
}

/// Bit `k` of a byte, 0 or 1.
pub open spec fn bit_of(b: u8, k: int) -> int {
    (b as int / weight(k)) % 2
}

/// The two bits of a byte that start at bit `2 * k`.
pub open spec fn pair_of(b: u8, k: int) -> int {
    (b as int / weight(2 * k)) % 4
}

/// A byte read as a two's complement number.
pub open spec fn signed8(b: u8) -> int {
    if b < 128 {
        b as int
    } else {
        b - 256
    }
}

/// A two's complement number stored in a byte.
pub open spec fn unsigned8(v: i8) -> int {
    if v >= 0 {
        v as int
    } else {
        v + 256
    }
}

/// The 16-bit little-endian word at `at`.
pub open spec fn le16(s: Seq<u8>, at: int) -> int {
    s[at] + 256 * s[at + 1]
}

/// The 32-bit little-endian word at `at`.
pub open spec fn le32(s: Seq<u8>, at: int) -> int {
    le16(s, at) + 65536 * le16(s, at + 2)
}

/// The 64-bit little-endian word at `at`.
pub open spec fn le64(s: Seq<u8>, at: int) -> int {
    le32(s, at) + 4294967296 * le32(s, at + 4)
}

/// Reads the low four bits of a byte.
pub fn low_nibble(b: u8) -> (r: u8)
    ensures
        r == low4(b),
        r < 16,
{
    assert(b & 0x0f == b % 16) by (bit_vector);
    b & 0x0f
}

/// Reads the high four bits of a byte.
pub fn high_nibble(b: u8) -> (r: u8)
    ensures
        r == high4(b),
        r < 16,
{
    assert(b >> 4 == b / 16) by (bit_vector);
    b >> 4
}

/// Reads bit `k` of a byte.
pub fn bit(b: u8, k: u8) -> (r: u8)
    requires
        k < 8,
    ensures
        r == bit_of(b, k as int),
        r < 2,
{
    assert(k < 8 ==> (b >> k) & 1 == (if k == 0 { b % 2 } else if k == 1 { (b / 2) % 2 } else if k
        == 2 { (b / 4) % 2 } else if k == 3 { (b / 8) % 2 } else if k == 4 { (b / 16) % 2 } else if k
        == 5 { (b / 32) % 2 } else if k == 6 { (b / 64) % 2 } else { (b / 128) % 2 })) by (bit_vector);
    (b >> k) & 1
}

/// Reads the two bits of a byte that start at bit `2 * k`.
pub fn bit_pair(b: u8, k: u8) -> (r: u8)
    requires
        k < 4,
    ensures
        r == pair_of(b, k as int),
        r < 4,
{
    let s: u8 = 2 * k;
    assert(s < 8 && s % 2 == 0 ==> (b >> s) & 3 == (if s == 0 { b % 4 } else if s == 2 { (b / 4) % 4
    } else if s == 4 { (b / 16) % 4 } else { (b / 64) % 4 })) by (bit_vector);
    (b >> s) & 3
}

/// Reads a byte as a two's complement number.
pub fn signed(b: u8) -> (r: i8)
    ensures
        r == signed8(b),
{
    assert((b as i8) as int == (if b < 128 { b as int } else { b - 256 })) by (bit_vector);
    b as i8
}

/// Stores a two's complement number in a byte.
pub fn unsigned(v: i8) -> (r: u8)
    ensures
        r == unsigned8(v),
        signed8(r) == v,
{
    assert((v as u8) as int == (if v >= 0 { v as int } else { v + 256 })) by (bit_vector);
    v as u8
}

/// Reads the 16-bit little-endian word at `at`.
pub fn read_u16(s: &[u8], at: usize) -> (r: u16)
    requires
        at + 2 <= s@.len(),
    ensures
        r == le16(s@, at as int),
{
    let n: usize = s.len();
    s[at] as u16 + 256 * (s[at + 1] as u16)
}

/// Reads the 32-bit little-endian word at `at`.
pub fn read_u32(s: &[u8], at: usize) -> (r: u32)
    requires
        at + 4 <= s@.len(),
    ensures
        r == le32(s@, at as int),
{
    let n: usize = s.len();
    read_u16(s, at) as u32 + 65536 * (read_u16(s, at + 2) as u32)
}

/// Reads the 64-bit little-endian word at `at`.
pub fn read_u64(s: &[u8], at: usize) -> (r: u64)
    requires
        at + 8 <= s@.len(),
    ensures
        r == le64(s@, at as int),
{
    let n: usize = s.len();
    read_u32(s, at) as u64 + 4294967296 * (read_u32(s, at + 4) as u64)
}

} // verus!
