//! Storage core of a small relational database: a slotted page that
//! round-trips through a fixed-size byte buffer, heap files made of such
//! pages, a storage manager mapping containers to heap files, and in-memory
//! query operators (aggregation and joins) over the stored records.

pub mod ids;
pub mod page;
pub mod heapfile;
pub mod heapfileiter;
pub mod storage_manager;
pub mod tuple;
pub mod opiterator;
pub mod aggregate;
pub mod join;
mod seq_util;

use vstd::prelude::*;

verus! {

/// Number of bytes in one page, on disk and in memory.
pub const PAGE_SIZE: usize = 4096;

/// Fixed portion of a serialized page header, in bytes.
pub const FIXED_HEADER_SIZE: usize = 8;

/// Bytes each directory entry occupies in a serialized page header.
pub const HEADER_PER_VAL_SIZE: usize = 6;

/// The two bytes `lo`, `hi` read as a little-endian 16-bit integer.
pub open spec fn u16_le(lo: u8, hi: u8) -> u16 {
    (lo + 256 * (hi as u16)) as u16
}

/// Low byte of the little-endian encoding of `x`.
pub open spec fn lo16(x: u16) -> u8 {
    (x % 256) as u8
}

/// High byte of the little-endian encoding of `x`.
pub open spec fn hi16(x: u16) -> u8 {
    (x / 256) as u8
}

/// Encoding to two little-endian bytes and decoding back are inverses.
pub proof fn lemma_u16_le_round_trip(x: u16, lo: u8, hi: u8)
    ensures
        u16_le(lo16(x), hi16(x)) == x,
        lo16(u16_le(lo, hi)) == lo,
        hi16(u16_le(lo, hi)) == hi,
{
    assert(u16_le(lo16(x), hi16(x)) == x) by (bit_vector)
        requires lo16(x) == (x % 256) as u8 && hi16(x) == (x / 256) as u8;
    assert(lo16(u16_le(lo, hi)) == lo) by (bit_vector)
        requires u16_le(lo, hi) == (lo + 256 * (hi as u16)) as u16
            && lo16(u16_le(lo, hi)) == (u16_le(lo, hi) % 256) as u8;
    assert(hi16(u16_le(lo, hi)) == hi) by (bit_vector)
        requires u16_le(lo, hi) == (lo + 256 * (hi as u16)) as u16
            && hi16(u16_le(lo, hi)) == (u16_le(lo, hi) / 256) as u8;
}

/// Decode a little-endian 16-bit integer from two bytes.
pub fn u16_from_le(lo: u8, hi: u8) -> (r: u16)
    ensures
        r == u16_le(lo, hi),
{
    lo as u16 + 256 * (hi as u16)
}

/// Low byte of the little-endian encoding of `x`.
pub fn u16_lo(x: u16) -> (r: u8)
    ensures
        r == lo16(x),
{
    (x % 256) as u8
}

/// High byte of the little-endian encoding of `x`.
pub fn u16_hi(x: u16) -> (r: u8)
    ensures
        r == hi16(x),
{
    (x / 256) as u8
}

} // verus!
