//! Little-endian fields of on-disk structures, and rounding of offsets.

use vstd::prelude::*;

verus! {

/// The 16-bit little-endian field at `at`.
pub open spec fn le16(s: Seq<u8>, at: int) -> u16 {
    (s[at] + 256 * s[at + 1]) as u16
}

/// The 32-bit little-endian field at `at`.
pub open spec fn le32(s: Seq<u8>, at: int) -> u32 {
    (s[at] + 256 * s[at + 1] + 65536 * s[at + 2] + 16777216 * s[at + 3]) as u32
}

/// The 64-bit little-endian field at `at`.
pub open spec fn le64(s: Seq<u8>, at: int) -> u64 {
    (le32(s, at) + 4294967296 * le32(s, at + 4)) as u64
}

/// Reads the 16-bit little-endian field at `at`.
pub fn read_le16(buf: &[u8], at: usize) -> (r: u16)
    requires
        at + 2 <= buf.len(),
    ensures
        r == le16(buf@, at as int),
        r == buf@[at as int] + 0x100 * buf@[at + 1],
{
    buf[at] as u16 + 256 * (buf[at + 1] as u16)
}

/// Reads the 32-bit little-endian field at `at`.
pub fn read_le32(buf: &[u8], at: usize) -> (r: u32)
    requires
        at + 4 <= buf.len(),
    ensures
        r == le32(buf@, at as int),
        r == buf@[at as int] + 0x100 * buf@[at + 1] + 0x1_0000 * buf@[at + 2] + 0x100_0000 * buf@[at
            + 3],
{
    buf[at] as u32 + 256 * (buf[at + 1] as u32) + 65536 * (buf[at + 2] as u32) + 16777216 * (
    buf[at + 3] as u32)
}

/// Reads the 64-bit little-endian field at `at`.
pub fn read_le64(buf: &[u8], at: usize) -> (r: u64)
    requires
        at + 8 <= buf.len(),
    ensures
        r == le64(buf@, at as int),
{
    read_le32(buf, at) as u64 + 4294967296 * (read_le32(buf, at + 4) as u64)
}

/// The bytes of a 16-bit little-endian field.
pub open spec fn packed16(n: u16) -> Seq<u8> {
    seq![(n as int % 256) as u8, (n as int / 256) as u8]
}

/// The bytes of a 32-bit little-endian field.
#[verifier::opaque]
pub open spec fn packed32(n: u32) -> Seq<u8> {
    packed16((n as int % 65536) as u16) + packed16((n as int / 65536) as u16)
}

/// The bytes of a 64-bit little-endian field.
#[verifier::opaque]
pub open spec fn packed64(n: u64) -> Seq<u8> {
    packed32((n as int % 4294967296) as u32) + packed32((n as int / 4294967296) as u32)
}

/// A field takes as many bytes as it has, and is read back from them.
pub proof fn law_packed_fields_are_read_back(before: Seq<u8>, after: Seq<u8>, n: u64)
    ensures
        packed16(n as u16).len() == 2,
        packed32(n as u32).len() == 4,
        packed64(n).len() == 8,
        le16(before + packed16(n as u16) + after, before.len() as int) == n as u16,
        le32(before + packed32(n as u32) + after, before.len() as int) == n as u32,
        le64(before + packed64(n) + after, before.len() as int) == n,
{
    let at = before.len() as int;
    let lo = (n as int % 4294967296) as u32;
    let hi = (n as int / 4294967296) as u32;
    reveal(packed64);
    lemma_packed32(before, packed32(hi) + after, lo);
    lemma_packed32(before + packed32(lo), after, hi);
    lemma_packed32(before, after, n as u32);
    let s = before + packed64(n) + after;
    assert(s =~= before + packed32(lo) + (packed32(hi) + after));
    assert(s =~= before + packed32(lo) + packed32(hi) + after);
    let s16 = before + packed16(n as u16) + after;
    assert(s16[at] == packed16(n as u16)[0]);
    assert(s16[at + 1] == packed16(n as u16)[1]);
}

/// A 32-bit field is read back from its bytes.
proof fn lemma_packed32(before: Seq<u8>, after: Seq<u8>, n: u32)
    ensures
        packed32(n).len() == 4,
        le32(before + packed32(n) + after, before.len() as int) == n,
{
    reveal(packed32);
    let at = before.len() as int;
    let s = before + packed32(n) + after;
    assert(s[at] == packed32(n)[0]);
    assert(s[at + 1] == packed32(n)[1]);
    assert(s[at + 2] == packed32(n)[2]);
    assert(s[at + 3] == packed32(n)[3]);
}

/// The least multiple of `unit` that is not below `x`.
pub open spec fn round_up(x: int, unit: int) -> int {
    (x + unit - 1) / unit * unit
}

/// Rounding up leads to the first multiple at or behind a number.
pub proof fn law_rounding_up(x: int, unit: int)
    requires
        unit > 0,
    ensures
        round_up(x, unit) % unit == 0,
        x <= round_up(x, unit) < x + unit,
{
    let n = (x + unit - 1) / unit;
    vstd::arithmetic::div_mod::lemma_fundamental_div_mod(x + unit - 1, unit);
    vstd::arithmetic::div_mod::lemma_mod_bound(x + unit - 1, unit);
    vstd::arithmetic::div_mod::lemma_mod_multiples_basic(n, unit);
    assert(unit * n == n * unit) by (nonlinear_arith);
}

/// The smaller of two numbers.
pub open spec fn least(a: int, b: int) -> int {
    if a <= b {
        a
    } else {
        b
    }
}

/// The larger of two numbers.
pub open spec fn greatest(a: int, b: int) -> int {
    if a >= b {
        a
    } else {
        b
    }
}

/// Returns the smaller of two offsets.
pub fn min_u64(a: u64, b: u64) -> (r: u64)
    ensures
        r == least(a as int, b as int),
        r <= a && r <= b,
        r == a || r == b,
{
    if a <= b {
        a
    } else {
        b
    }
}

/// Returns the larger of two offsets.
pub fn max_u64(a: u64, b: u64) -> (r: u64)
    ensures
        r == greatest(a as int, b as int),
        a <= r && b <= r,
        r == a || r == b,
{
    if a >= b {
        a
    } else {
        b
    }
}

} // verus!
