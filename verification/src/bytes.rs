//! Little-endian numbers in byte strings.

use vstd::prelude::*;

verus! {

/// The unsigned 16-bit number at `i`.
pub open spec fn u16_at(b: Seq<u8>, i: int) -> u16 {
    (b[i] + 256 * b[i + 1]) as u16
}

/// The unsigned 32-bit number at `i`.
pub open spec fn u32_at(b: Seq<u8>, i: int) -> u32 {
    (b[i] + 256 * b[i + 1] + 65536 * b[i + 2] + 16777216 * b[i + 3]) as u32
}

/// The signed number with the bits of `v`.
pub open spec fn signed_16(v: u16) -> i16 {
    (if v < 0x8000 {
        v as int
    } else {
        v - 0x1_0000
    }) as i16
}

/// The signed number with the bits of `v`.
pub open spec fn signed_32(v: u32) -> i32 {
    (if v < 0x8000_0000 {
        v as int
    } else {
        v - 0x1_0000_0000
    }) as i32
}

/// Reads an unsigned 16-bit number.
pub fn read_u16(b: &[u8], i: usize) -> (r: u16)
    requires
        i + 2 <= b@.len(),
    ensures
        r == u16_at(b@, i as int),
        r == b@[i as int] + 256 * b@[i + 1],
{
    b[i] as u16 + 256 * b[i + 1] as u16
}

/// Reads an unsigned 32-bit number.
pub fn read_u32(b: &[u8], i: usize) -> (r: u32)
    requires
        i + 4 <= b@.len(),
    ensures
        r == u32_at(b@, i as int),
        r == b@[i as int] + 256 * b@[i + 1] + 65536 * b@[i + 2] + 16777216 * b@[i + 3],
{
    b[i] as u32 + 256 * b[i + 1] as u32 + 65536 * b[i + 2] as u32 + 16777216 * b[i + 3] as u32
}

/// The signed number with the bits of `v`.
pub fn to_signed_16(v: u16) -> (r: i16)
    ensures
        r == signed_16(v),
{
    if v < 0x8000 {
        v as i16
    } else {
        (v as i32 - 0x1_0000) as i16
    }
}

/// The signed number with the bits of `v`.
pub fn to_signed_32(v: u32) -> (r: i32)
    ensures
        r == signed_32(v),
{
    if v < 0x8000_0000 {
        v as i32
    } else {
        (v as i64 - 0x1_0000_0000) as i32
    }
}

/// The signed 16-bit numbers that `b` holds one after the other; an odd byte at the end is left
/// out.
pub open spec fn i16_list(b: Seq<u8>) -> Seq<i16> {
    Seq::new((b.len() / 2) as nat, |i: int| signed_16(u16_at(b, 2 * i)))
}

/// The unsigned 32-bit numbers that `b` holds one after the other; up to three bytes at the end
/// are left out.
pub open spec fn u32_list(b: Seq<u8>) -> Seq<u32> {
    Seq::new((b.len() / 4) as nat, |i: int| u32_at(b, 4 * i))
}

/// The signed 32-bit numbers that `b` holds one after the other.
pub open spec fn i32_list(b: Seq<u8>) -> Seq<i32> {
    Seq::new((b.len() / 4) as nat, |i: int| signed_32(u32_at(b, 4 * i)))
}

/// Reads signed 16-bit numbers.
pub fn read_i16_list(b: &[u8]) -> (r: Vec<i16>)
    ensures
        r@ == i16_list(b@),
{
    let mut r: Vec<i16> = Vec::new();
    let total: usize = b.len();
    let n: usize = total / 2;
    let mut i: usize = 0;
    while i < n
        invariant
            total == b@.len(),
            i <= n == total / 2,
            r@ == i16_list(b@).take(i as int),
        decreases n - i,
    {
        r.push(to_signed_16(read_u16(b, 2 * i)));
        i += 1;
        assert(r@ =~= i16_list(b@).take(i as int));
    }
    assert(i16_list(b@).take(n as int) =~= i16_list(b@));
    r
}

/// Reads unsigned 32-bit numbers.
pub fn read_u32_list(b: &[u8]) -> (r: Vec<u32>)
    ensures
        r@ == u32_list(b@),
{
    let mut r: Vec<u32> = Vec::new();
    let total: usize = b.len();
    let n: usize = total / 4;
    let mut i: usize = 0;
    while i < n
        invariant
            total == b@.len(),
            i <= n == total / 4,
            r@ == u32_list(b@).take(i as int),
        decreases n - i,
    {
        r.push(read_u32(b, 4 * i));
        i += 1;
        assert(r@ =~= u32_list(b@).take(i as int));
    }
    assert(u32_list(b@).take(n as int) =~= u32_list(b@));
    r
}

/// Reads signed 32-bit numbers.
pub fn read_i32_list(b: &[u8]) -> (r: Vec<i32>)
    ensures
        r@ == i32_list(b@),
{
    let mut r: Vec<i32> = Vec::new();
    let total: usize = b.len();
    let n: usize = total / 4;
    let mut i: usize = 0;
    while i < n
        invariant
            total == b@.len(),
            i <= n == total / 4,
            r@ == i32_list(b@).take(i as int),
        decreases n - i,
    {
        r.push(to_signed_32(read_u32(b, 4 * i)));
        i += 1;
        assert(r@ =~= i32_list(b@).take(i as int));
    }
    assert(i32_list(b@).take(n as int) =~= i32_list(b@));
    r
}

} // verus!
