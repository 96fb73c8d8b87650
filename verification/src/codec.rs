//! Little-endian encoding and decoding of the fixed-width fields that make
//! up the region header and the free-run headers. Every multi-byte field in
//! the backing bytes is read and written through these helpers, so the
//! on-disk layout is pinned down in one place.

use vstd::prelude::*;
use vstd::pervasive::VecAdditionalExecFns;

verus! {

/// The 16-bit value encoded little-endian at `off`.
#[verifier::opaque]
pub open spec fn le16_at(m: Seq<u8>, off: int) -> int {
    m[off] as int + 0x100 * (m[off + 1] as int)
}

/// The 32-bit value encoded little-endian at `off`.
#[verifier::opaque]
pub open spec fn le32_at(m: Seq<u8>, off: int) -> int {
    m[off] as int + 0x100 * (m[off + 1] as int) + 0x10000 * (m[off + 2] as int) + 0x1000000 * (
    m[off + 3] as int)
}

/// The 64-bit value encoded little-endian at `off`.
#[verifier::opaque]
pub open spec fn le64_at(m: Seq<u8>, off: int) -> int {
    le32_at(m, off) + 0x1_0000_0000 * le32_at(m, off + 4)
}

/// Two byte images that agree on `[off, off + n)` encode the same fields
/// there; stated for each width so callers can frame writes.
pub proof fn lemma_le16_same(m1: Seq<u8>, m2: Seq<u8>, off: int)
    requires
        forall|i: int| off <= i < off + 2 ==> m1[i] == m2[i],
    ensures
        le16_at(m1, off) == le16_at(m2, off),
{
    reveal(le16_at);
}

pub proof fn lemma_le32_same(m1: Seq<u8>, m2: Seq<u8>, off: int)
    requires
        forall|i: int| off <= i < off + 4 ==> m1[i] == m2[i],
    ensures
        le32_at(m1, off) == le32_at(m2, off),
{
    reveal(le32_at);
}

pub proof fn lemma_le64_same(m1: Seq<u8>, m2: Seq<u8>, off: int)
    requires
        forall|i: int| off <= i < off + 8 ==> m1[i] == m2[i],
    ensures
        le64_at(m1, off) == le64_at(m2, off),
{
    reveal(le64_at);
    lemma_le32_same(m1, m2, off);
    lemma_le32_same(m1, m2, off + 4);
}

/// Reads the 16-bit little-endian field at `off`.
pub fn get_u16(m: &Vec<u8>, off: usize) -> (r: u16)
    requires
        off + 2 <= m@.len(),
    ensures
        r as int == le16_at(m@, off as int),
{
    proof {
        reveal(le16_at);
    }
    let _len = m.len();
    let b0 = m[off];
    let b1 = m[off + 1];
    b0 as u16 + (b1 as u16) * 0x100
}

/// Reads the 32-bit little-endian field at `off`.
pub fn get_u32(m: &Vec<u8>, off: usize) -> (r: u32)
    requires
        off + 4 <= m@.len(),
    ensures
        r as int == le32_at(m@, off as int),
{
    proof {
        reveal(le32_at);
    }
    let _len = m.len();
    let b0 = m[off];
    let b1 = m[off + 1];
    let b2 = m[off + 2];
    let b3 = m[off + 3];
    b0 as u32 + (b1 as u32) * 0x100 + (b2 as u32) * 0x10000 + (b3 as u32) * 0x1000000
}

/// Reads the 64-bit little-endian field at `off`.
pub fn get_u64(m: &Vec<u8>, off: usize) -> (r: u64)
    requires
        off + 8 <= m@.len(),
    ensures
        r as int == le64_at(m@, off as int),
{
    proof {
        reveal(le64_at);
    }
    let _len = m.len();
    let lo = get_u32(m, off);
    let hi = get_u32(m, off + 4);
    lo as u64 + (hi as u64) * 0x1_0000_0000
}

/// Reads the byte at `off`.
pub fn get_u8(m: &Vec<u8>, off: usize) -> (r: u8)
    requires
        off < m@.len(),
    ensures
        r == m@[off as int],
{
    m[off]
}

/// Writes the byte at `off`, leaving every other byte unchanged.
pub fn put_u8(m: &mut Vec<u8>, off: usize, v: u8)
    requires
        off < old(m)@.len(),
    ensures
        final(m)@.len() == old(m)@.len(),
        final(m)@[off as int] == v,
        forall|i: int| 0 <= i < old(m)@.len() && i != off ==> final(m)@[i] == old(m)@[i],
{
    m.set(off, v);
}

/// Writes the 16-bit field at `off` little-endian, leaving every byte
/// outside `[off, off + 2)` unchanged.
pub fn put_u16(m: &mut Vec<u8>, off: usize, v: u16)
    requires
        off + 2 <= old(m)@.len(),
    ensures
        final(m)@.len() == old(m)@.len(),
        le16_at(final(m)@, off as int) == v,
        forall|i: int|
            0 <= i < old(m)@.len() && !(off <= i < off + 2) ==> final(m)@[i] == old(m)@[i],
{
    let _len = m.len();
    proof {
        reveal(le16_at);
        assert(v & 0xff < 0x100 && (v >> 8) & 0xff < 0x100 && v == (v & 0xff) + 0x100 * ((v >> 8)
            & 0xff)) by (bit_vector);
    }
    m.set(off, (v & 0xff) as u8);
    m.set(off + 1, ((v >> 8) & 0xff) as u8);
}

/// Writes the 32-bit field at `off` little-endian, leaving every byte
/// outside `[off, off + 4)` unchanged.
pub fn put_u32(m: &mut Vec<u8>, off: usize, v: u32)
    requires
        off + 4 <= old(m)@.len(),
    ensures
        final(m)@.len() == old(m)@.len(),
        le32_at(final(m)@, off as int) == v,
        forall|i: int|
            0 <= i < old(m)@.len() && !(off <= i < off + 4) ==> final(m)@[i] == old(m)@[i],
{
    let _len = m.len();
    proof {
        reveal(le32_at);
        assert(v & 0xff < 0x100 && (v >> 8) & 0xff < 0x100 && (v >> 16) & 0xff < 0x100 && (v >> 24)
            & 0xff < 0x100 && v == (v & 0xff) + 0x100 * ((v >> 8) & 0xff) + 0x10000 * ((v >> 16)
            & 0xff) + 0x1000000 * ((v >> 24) & 0xff)) by (bit_vector);
    }
    m.set(off, (v & 0xff) as u8);
    m.set(off + 1, ((v >> 8) & 0xff) as u8);
    m.set(off + 2, ((v >> 16) & 0xff) as u8);
    m.set(off + 3, ((v >> 24) & 0xff) as u8);
}

/// Writes the 64-bit field at `off` little-endian, leaving every byte
/// outside `[off, off + 8)` unchanged.
pub fn put_u64(m: &mut Vec<u8>, off: usize, v: u64)
    requires
        off + 8 <= old(m)@.len(),
    ensures
        final(m)@.len() == old(m)@.len(),
        le64_at(final(m)@, off as int) == v,
        forall|i: int|
            0 <= i < old(m)@.len() && !(off <= i < off + 8) ==> final(m)@[i] == old(m)@[i],
{
    let _len = m.len();
    proof {
        reveal(le64_at);
        assert(v & 0xffff_ffff < 0x1_0000_0000 && (v >> 32) & 0xffff_ffff < 0x1_0000_0000 && v == (
        v & 0xffff_ffff) + 0x1_0000_0000 * ((v >> 32) & 0xffff_ffff)) by (bit_vector);
    }
    let lo = (v & 0xffff_ffff) as u32;
    let hi = ((v >> 32) & 0xffff_ffff) as u32;
    put_u32(m, off, lo);
    let ghost mid = m@;
    put_u32(m, off + 4, hi);
    proof {
        lemma_le32_same(mid, m@, off as int);
    }
}

} // verus!
