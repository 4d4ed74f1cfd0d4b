//! Fixed-width integers stored in byte strings.
use vstd::prelude::*;

verus! {

/// The little-endian `u32` stored at `b[off..off + 4]`.
pub open spec fn le_u32_value(b: Seq<u8>, off: int) -> int {
    b[off] + b[off + 1] * 256 + b[off + 2] * 65536 + b[off + 3] * 16777216
}

/// The big-endian `u32` stored at `b[off..off + 4]`.
pub open spec fn be_u32_value(b: Seq<u8>, off: int) -> int {
    b[off] * 16777216 + b[off + 1] * 65536 + b[off + 2] * 256 + b[off + 3]
}

/// `u32::from_le_bytes([b0, b1, b2, b3])`.
pub fn u32_from_le(b0: u8, b1: u8, b2: u8, b3: u8) -> (r: u32)
    ensures
        r == b0 + b1 * 256 + b2 * 65536 + b3 * 16777216,
{
    (b0 as u32) + (b1 as u32) * 256 + (b2 as u32) * 65536 + (b3 as u32) * 16777216
}

/// `u32::from_be_bytes([b0, b1, b2, b3])`.
pub fn u32_from_be(b0: u8, b1: u8, b2: u8, b3: u8) -> (r: u32)
    ensures
        r == b0 * 16777216 + b1 * 65536 + b2 * 256 + b3,
{
    (b0 as u32) * 16777216 + (b1 as u32) * 65536 + (b2 as u32) * 256 + (b3 as u32)
}

/// The little-endian `u32` at `b[off..off + 4]`.
pub fn le_u32_at(b: &[u8], off: usize) -> (r: u32)
    requires
        off + 4 <= b.len(),
    ensures
        r == le_u32_value(b@, off as int),
{
    u32_from_le(b[off], b[off + 1], b[off + 2], b[off + 3])
}

/// Whether `b` starts with the two bytes `c0 c1`.
pub open spec fn starts2(b: Seq<u8>, c0: u8, c1: u8) -> bool {
    b.len() >= 2 && b[0] == c0 && b[1] == c1
}

/// Whether `b` starts with the three bytes `c0 c1 c2`.
pub open spec fn starts3(b: Seq<u8>, c0: u8, c1: u8, c2: u8) -> bool {
    b.len() >= 3 && b[0] == c0 && b[1] == c1 && b[2] == c2
}

/// Whether `b` starts with the four bytes `c0 c1 c2 c3`.
pub open spec fn starts4(b: Seq<u8>, c0: u8, c1: u8, c2: u8, c3: u8) -> bool {
    b.len() >= 4 && b[0] == c0 && b[1] == c1 && b[2] == c2 && b[3] == c3
}

pub fn has_prefix2(b: &[u8], c0: u8, c1: u8) -> (r: bool)
    ensures
        r == starts2(b@, c0, c1),
{
    b.len() >= 2 && b[0] == c0 && b[1] == c1
}

pub fn has_prefix3(b: &[u8], c0: u8, c1: u8, c2: u8) -> (r: bool)
    ensures
        r == starts3(b@, c0, c1, c2),
{
    b.len() >= 3 && b[0] == c0 && b[1] == c1 && b[2] == c2
}

pub fn has_prefix4(b: &[u8], c0: u8, c1: u8, c2: u8, c3: u8) -> (r: bool)
    ensures
        r == starts4(b@, c0, c1, c2, c3),
{
    b.len() >= 4 && b[0] == c0 && b[1] == c1 && b[2] == c2 && b[3] == c3
}

} // verus!
