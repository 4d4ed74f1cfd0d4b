//! BLP2 texture header inspection.
//!
//! Layout of the 148-byte header: magic `BLP2` (0..4), content type (4..8),
//! encoding (8), alpha depth (9), alpha encoding (10), has-mipmaps (11),
//! width (12..16), height (16..20), sixteen mipmap offsets (20..84) and
//! sixteen mipmap sizes (84..148), all integers little-endian.
use vstd::prelude::*;

use crate::bytes::{le_u32_value, starts4, u32_from_le};

verus! {

/// The bytes the header needs.
pub const BLP_HEADER_LEN: usize = 148;

/// Why a BLP header could not be read.
#[derive(Debug, Clone, Copy, PartialEq, Eq)]
pub enum BlpError {
    Truncated,
    Magic,
}

impl BlpError {
    pub open spec fn spec_message(self) -> Seq<char> {
        match self {
            BlpError::Truncated => "BLP header is truncated"@,
            BlpError::Magic => "unsupported BLP magic"@,
        }
    }

    /// The error's text.
    pub fn message(&self) -> (r: String)
        ensures
            r@ == self.spec_message(),
    {
        match self {
            BlpError::Truncated => "BLP header is truncated".to_owned(),
            BlpError::Magic => "unsupported BLP magic".to_owned(),
        }
    }
}

/// What a BLP2 header says.
#[derive(Debug, Clone, PartialEq, Eq)]
pub struct BlpHeader {
    pub magic: String,
    pub content_type: u32,
    pub encoding: u8,
    pub compression: String,
    pub alpha_depth: u8,
    pub alpha_encoding: u8,
    pub has_mipmaps: bool,
    pub width: u32,
    pub height: u32,
    pub mipmap_count: usize,
    pub mip0_offset: u32,
    pub mip0_size: u32,
}

/// `b` starts with the magic `BLP2`.
pub open spec fn is_blp2(b: Seq<u8>) -> bool {
    starts4(b, 0x42, 0x4C, 0x50, 0x32)
}

/// The compression that the encoding and alpha fields name.
pub open spec fn compression_name(encoding: u8, alpha_depth: u8, alpha_encoding: u8) -> Seq<char> {
    if encoding == 1 {
        "Paletted"@
    } else if encoding == 2 {
        if (alpha_depth == 0 || alpha_depth == 1) && alpha_encoding == 0 {
            "DXT1"@
        } else if (alpha_depth == 4 || alpha_depth == 8) && alpha_encoding == 1 {
            "DXT3"@
        } else if alpha_depth == 8 && alpha_encoding == 7 {
            "DXT5"@
        } else {
            "DXT/BCn"@
        }
    } else if encoding == 3 {
        "Raw BGRA"@
    } else {
        "Unknown"@
    }
}

/// The offset of mipmap `i` (of sixteen).
pub open spec fn mip_offset(b: Seq<u8>, i: int) -> int {
    le_u32_value(b, 20 + 4 * i)
}

/// The size of mipmap `i` (of sixteen).
pub open spec fn mip_size(b: Seq<u8>, i: int) -> int {
    le_u32_value(b, 84 + 4 * i)
}

/// How many of the first `n` mipmap slots have both an offset and a size.
pub open spec fn mips_present(b: Seq<u8>, n: nat) -> nat
    decreases n,
{
    if n == 0 {
        0
    } else {
        mips_present(b, (n - 1) as nat) + if mip_offset(b, n - 1) > 0 && mip_size(b, n - 1) > 0 {
            1nat
        } else {
            0nat
        }
    }
}

/// The header that `inspect` reads from `b` (which holds at least 148 bytes).
pub open spec fn header_matches(h: BlpHeader, b: Seq<u8>) -> bool {
    &&& h.magic@ == "BLP2"@
    &&& h.content_type == le_u32_value(b, 4)
    &&& h.encoding == b[8]
    &&& h.alpha_depth == b[9]
    &&& h.alpha_encoding == b[10]
    &&& h.has_mipmaps == (b[11] != 0)
    &&& h.compression@ == compression_name(b[8], b[9], b[10])
    &&& h.width == le_u32_value(b, 12)
    &&& h.height == le_u32_value(b, 16)
    &&& h.mipmap_count == mips_present(b, 16)
    &&& h.mip0_offset == mip_offset(b, 0)
    &&& h.mip0_size == mip_size(b, 0)
}

/// Reads the byte at `*pos` and moves past it.
pub fn read_u8(bytes: &[u8], pos: &mut usize) -> (r: Result<u8, BlpError>)
    ensures
        *old(pos) < bytes.len() ==> r == Ok::<u8, BlpError>(bytes@[*old(pos) as int]) && *final(pos)
            == *old(pos) + 1,
        *old(pos) >= bytes.len() ==> r == Err::<u8, BlpError>(BlpError::Truncated) && *final(pos)
            == *old(pos),
{
    if *pos < bytes.len() {
        let b = bytes[*pos];
        *pos = *pos + 1;
        Ok(b)
    } else {
        Err(BlpError::Truncated)
    }
}

/// Reads the little-endian `u32` at `*pos` and moves past it.
pub fn read_u32_le(bytes: &[u8], pos: &mut usize) -> (r: Result<u32, BlpError>)
    ensures
        *old(pos) + 4 <= bytes.len() ==> r == Ok::<u32, BlpError>(
            le_u32_value(bytes@, *old(pos) as int) as u32,
        ) && *final(pos) == *old(pos) + 4,
        *old(pos) + 4 > bytes.len() ==> r == Err::<u32, BlpError>(BlpError::Truncated)
            && *final(pos) == *old(pos),
{
    if *pos < bytes.len() && bytes.len() - *pos >= 4 {
        let p = *pos;
        let v = u32_from_le(bytes[p], bytes[p + 1], bytes[p + 2], bytes[p + 3]);
        *pos = p + 4;
        Ok(v)
    } else {
        Err(BlpError::Truncated)
    }
}

fn compression_of(encoding: u8, alpha_depth: u8, alpha_encoding: u8) -> (r: String)
    ensures
        r@ == compression_name(encoding, alpha_depth, alpha_encoding),
{
    if encoding == 1 {
        "Paletted".to_owned()
    } else if encoding == 2 {
        if (alpha_depth == 0 || alpha_depth == 1) && alpha_encoding == 0 {
            "DXT1".to_owned()
        } else if (alpha_depth == 4 || alpha_depth == 8) && alpha_encoding == 1 {
            "DXT3".to_owned()
        } else if alpha_depth == 8 && alpha_encoding == 7 {
            "DXT5".to_owned()
        } else {
            "DXT/BCn".to_owned()
        }
    } else if encoding == 3 {
        "Raw BGRA".to_owned()
    } else {
        "Unknown".to_owned()
    }
}

/// Reads the header of a BLP2 texture.
pub fn inspect(bytes: &[u8]) -> (r: Result<BlpHeader, BlpError>)
    ensures
        bytes.len() < BLP_HEADER_LEN ==> r == Err::<BlpHeader, BlpError>(BlpError::Truncated),
        bytes.len() >= BLP_HEADER_LEN && !is_blp2(bytes@) ==> r == Err::<BlpHeader, BlpError>(
            BlpError::Magic,
        ),
        bytes.len() >= BLP_HEADER_LEN && is_blp2(bytes@) ==> (r matches Ok(h) && header_matches(
            h,
            bytes@,
        )),
{
    if bytes.len() < BLP_HEADER_LEN {
        return Err(BlpError::Truncated);
    }
    if !(bytes[0] == 0x42 && bytes[1] == 0x4C && bytes[2] == 0x50 && bytes[3] == 0x32) {
        return Err(BlpError::Magic);
    }
    let mut pos: usize = 4;
    let content_type = read_u32_le(bytes, &mut pos)?;
    let encoding = read_u8(bytes, &mut pos)?;
    let alpha_depth = read_u8(bytes, &mut pos)?;
    let alpha_encoding = read_u8(bytes, &mut pos)?;
    let has_mips = read_u8(bytes, &mut pos)?;
    let width = read_u32_le(bytes, &mut pos)?;
    let height = read_u32_le(bytes, &mut pos)?;
    assert(pos == 20);

    let mut offsets: Vec<u32> = Vec::new();
    let mut i: usize = 0;
    while i < 16
        invariant
            bytes.len() >= BLP_HEADER_LEN,
            i <= 16,
            pos == 20 + 4 * i,
            offsets.len() == i,
            forall|k: int| 0 <= k < i ==> offsets@[k] == mip_offset(bytes@, k),
        decreases 16 - i,
    {
        let v = read_u32_le(bytes, &mut pos)?;
        offsets.push(v);
        i = i + 1;
    }
    let mut lengths: Vec<u32> = Vec::new();
    let mut i: usize = 0;
    while i < 16
        invariant
            bytes.len() >= BLP_HEADER_LEN,
            i <= 16,
            pos == 84 + 4 * i,
            lengths.len() == i,
            forall|k: int| 0 <= k < i ==> lengths@[k] == mip_size(bytes@, k),
        decreases 16 - i,
    {
        let v = read_u32_le(bytes, &mut pos)?;
        lengths.push(v);
        i = i + 1;
    }

    let mut mip_count: usize = 0;
    let mut i: usize = 0;
    while i < 16
        invariant
            i <= 16,
            offsets.len() == 16,
            lengths.len() == 16,
            forall|k: int| 0 <= k < 16 ==> offsets@[k] == mip_offset(bytes@, k),
            forall|k: int| 0 <= k < 16 ==> lengths@[k] == mip_size(bytes@, k),
            mip_count == mips_present(bytes@, i as nat),
            mip_count <= i,
        decreases 16 - i,
    {
        if offsets[i] > 0 && lengths[i] > 0 {
            mip_count = mip_count + 1;
        }
        i = i + 1;
    }

    Ok(
        BlpHeader {
            magic: "BLP2".to_owned(),
            content_type,
            encoding,
            compression: compression_of(encoding, alpha_depth, alpha_encoding),
            alpha_depth,
            alpha_encoding,
            has_mipmaps: has_mips != 0,
            width,
            height,
            mipmap_count: mip_count,
            mip0_offset: offsets[0],
            mip0_size: lengths[0],
        },
    )
}

} // verus!
