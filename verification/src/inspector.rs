//! Identification of an asset by its first bytes, and its header details.
use vstd::prelude::*;

use crate::blp::{self, is_blp2, BlpError, BLP_HEADER_LEN};
use crate::bytes::{be_u32_value, has_prefix2, has_prefix3, has_prefix4, starts2, starts3, starts4, u32_from_be};
use crate::db2::{self, is_db_magic, signature_chars, DbError};
use crate::number::{hex_byte, push_hex_byte};
use crate::text::string_of;
use crate::types::{AssetDetails, AssetInspection};

verus! {

/// Why an asset file could not be inspected.
#[derive(Debug, Clone, PartialEq, Eq)]
pub enum InspectError {
    /// The file could not be read; the text says why.
    Io(String),
}

impl InspectError {
    pub open spec fn spec_message(self) -> Seq<char> {
        match self {
            InspectError::Io(m) => "failed to read asset: "@ + m@,
        }
    }

    /// The error's text.
    pub fn message(&self) -> (r: String)
        ensures
            r@ == self.spec_message(),
    {
        match self {
            InspectError::Io(m) => string_of(
                &crate::text::concat_chars(
                    &crate::text::chars_of("failed to read asset: "),
                    &crate::text::chars_of(m.as_str()),
                ),
            ),
        }
    }
}

/// The kinds of asset the inspector tells apart.
#[derive(Debug, Clone, Copy, PartialEq, Eq)]
pub enum AssetKind {
    Blp2,
    Blte,
    Db,
    M2,
    Chunked,
    Ogg,
    Mp3,
    Unknown,
}

/// The kind of asset whose bytes are `b`, checked in this order.
pub open spec fn asset_kind(b: Seq<u8>) -> AssetKind {
    if is_blp2(b) {
        AssetKind::Blp2
    } else if starts4(b, 0x42, 0x4C, 0x54, 0x45) {
        AssetKind::Blte
    } else if is_db_magic(b) {
        AssetKind::Db
    } else if starts4(b, 0x4D, 0x44, 0x32, 0x30) || starts4(b, 0x4D, 0x44, 0x32, 0x31) {
        AssetKind::M2
    } else if starts4(b, 0x52, 0x45, 0x56, 0x4D) || starts4(b, 0x4D, 0x56, 0x45, 0x52) {
        AssetKind::Chunked
    } else if starts4(b, 0x4F, 0x67, 0x67, 0x53) {
        AssetKind::Ogg
    } else if starts3(b, 0x49, 0x44, 0x33) || starts2(b, 0xFF, 0xFB) || starts2(b, 0xFF, 0xF3) {
        AssetKind::Mp3
    } else {
        AssetKind::Unknown
    }
}

/// The name the inspector gives each kind.
pub open spec fn format_name(k: AssetKind) -> Seq<char> {
    match k {
        AssetKind::Blp2 => "BLP2"@,
        AssetKind::Blte => "BLTE"@,
        AssetKind::Db => "DBC/DB2"@,
        AssetKind::M2 => "M2 model"@,
        AssetKind::Chunked => "Chunked WoW asset"@,
        AssetKind::Ogg => "Ogg Vorbis"@,
        AssetKind::Mp3 => "MP3"@,
        AssetKind::Unknown => "Unknown"@,
    }
}

/// `format!("{:02X} {:02X} {:02X} {:02X}", b[0], b[1], b[2], b[3])`.
pub open spec fn magic_hex(b: Seq<u8>) -> Seq<char> {
    hex_byte(b[0]) + seq![' '] + hex_byte(b[1]) + seq![' '] + hex_byte(b[2]) + seq![' ']
        + hex_byte(b[3])
}

/// The details the inspector reports for bytes `b`.
pub open spec fn details_match(d: AssetDetails, b: Seq<u8>) -> bool {
    match asset_kind(b) {
        AssetKind::Blp2 => if b.len() >= BLP_HEADER_LEN {
            d matches AssetDetails::Blp(h) && blp::header_matches(h, b)
        } else {
            d matches AssetDetails::Error(m) && m@ == BlpError::Truncated.spec_message()
        },
        AssetKind::Blte => d matches AssetDetails::Blte { header_size, decoder_modes } && header_size
            == (if b.len() >= 8 {
            be_u32_value(b, 4)
        } else {
            0
        }) && decoder_modes.len() == 2 && decoder_modes@[0]@ == "N/raw"@ && decoder_modes@[1]@
            == "Z/zlib"@,
        AssetKind::Db => if b.len() >= 20 {
            d matches AssetDetails::Db(h) && db2::header_matches(h, b)
        } else {
            d matches AssetDetails::Error(m) && m@ == DbError::Truncated.spec_message()
        },
        AssetKind::M2 | AssetKind::Chunked => d matches AssetDetails::Magic(m) && m@
            == signature_chars(b),
        AssetKind::Ogg | AssetKind::Mp3 => d is Empty,
        AssetKind::Unknown => if b.len() >= 4 {
            d matches AssetDetails::MagicHex(m) && m@ == magic_hex(b)
        } else {
            d is Empty
        },
    }
}

/// Whether `bytes` starts with a DBC/DB2 family signature.
pub fn is_db_signature(bytes: &[u8]) -> (r: bool)
    ensures
        r == is_db_magic(bytes@),
{
    if bytes.len() < 4 {
        return false;
    }
    let b2 = bytes[2];
    let b3 = bytes[3];
    bytes[0] == 0x57 && bytes[1] == 0x44 && ((b2 == 0x42 && (b3 == 0x43 || b3 == 0x32 || b3 == 0x35
        || b3 == 0x36)) || (b2 == 0x43 && 0x31 <= b3 && b3 <= 0x36))
}

fn first_four_text(bytes: &[u8]) -> (r: String)
    requires
        bytes.len() >= 4,
    ensures
        r@ == signature_chars(bytes@),
{
    let mut v: Vec<char> = Vec::new();
    let mut i: usize = 0;
    while i < 4
        invariant
            bytes.len() >= 4,
            i <= 4,
            v@ == bytes@.take(i as int).map_values(|x: u8| x as char),
        decreases 4 - i,
    {
        v.push(bytes[i] as char);
        i = i + 1;
        assert(v@ =~= bytes@.take(i as int).map_values(|x: u8| x as char));
    }
    string_of(&v)
}

fn hex_text(bytes: &[u8]) -> (r: String)
    requires
        bytes.len() >= 4,
    ensures
        r@ == magic_hex(bytes@),
{
    let mut v: Vec<char> = Vec::new();
    push_hex_byte(&mut v, bytes[0]);
    v.push(' ');
    push_hex_byte(&mut v, bytes[1]);
    v.push(' ');
    push_hex_byte(&mut v, bytes[2]);
    v.push(' ');
    push_hex_byte(&mut v, bytes[3]);
    assert(v@ =~= magic_hex(bytes@));
    string_of(&v)
}

/// Identifies an asset from its bytes and reads what its header says.
pub fn inspect_bytes(label: &str, bytes: &[u8]) -> (r: AssetInspection)
    ensures
        r.path@ == label@,
        r.size == bytes.len(),
        r.format@ == format_name(asset_kind(bytes@)),
        details_match(r.details, bytes@),
{
    let size = bytes.len() as u64;
    let path = label.to_owned();
    if has_prefix4(bytes, 0x42, 0x4C, 0x50, 0x32) {
        let details = match blp::inspect(bytes) {
            Ok(h) => AssetDetails::Blp(h),
            Err(e) => AssetDetails::Error(e.message()),
        };
        AssetInspection { path, size, format: "BLP2".to_owned(), details }
    } else if has_prefix4(bytes, 0x42, 0x4C, 0x54, 0x45) {
        let header_size = if bytes.len() >= 8 {
            u32_from_be(bytes[4], bytes[5], bytes[6], bytes[7])
        } else {
            0
        };
        let mut decoder_modes: Vec<String> = Vec::new();
        decoder_modes.push("N/raw".to_owned());
        decoder_modes.push("Z/zlib".to_owned());
        AssetInspection {
            path,
            size,
            format: "BLTE".to_owned(),
            details: AssetDetails::Blte { header_size, decoder_modes },
        }
    } else if is_db_signature(bytes) {
        let details = match db2::inspect(bytes) {
            Ok(h) => AssetDetails::Db(h),
            Err(e) => AssetDetails::Error(e.message()),
        };
        AssetInspection { path, size, format: "DBC/DB2".to_owned(), details }
    } else if has_prefix4(bytes, 0x4D, 0x44, 0x32, 0x30) || has_prefix4(bytes, 0x4D, 0x44, 0x32, 0x31) {
        AssetInspection {
            path,
            size,
            format: "M2 model".to_owned(),
            details: AssetDetails::Magic(first_four_text(bytes)),
        }
    } else if has_prefix4(bytes, 0x52, 0x45, 0x56, 0x4D) || has_prefix4(bytes, 0x4D, 0x56, 0x45, 0x52) {
        AssetInspection {
            path,
            size,
            format: "Chunked WoW asset".to_owned(),
            details: AssetDetails::Magic(first_four_text(bytes)),
        }
    } else if has_prefix4(bytes, 0x4F, 0x67, 0x67, 0x53) {
        AssetInspection { path, size, format: "Ogg Vorbis".to_owned(), details: AssetDetails::Empty }
    } else if has_prefix3(bytes, 0x49, 0x44, 0x33) || has_prefix2(bytes, 0xFF, 0xFB) || has_prefix2(
        bytes,
        0xFF,
        0xF3,
    ) {
        AssetInspection { path, size, format: "MP3".to_owned(), details: AssetDetails::Empty }
    } else {
        let details = if bytes.len() >= 4 {
            AssetDetails::MagicHex(hex_text(bytes))
        } else {
            AssetDetails::Empty
        };
        AssetInspection { path, size, format: "Unknown".to_owned(), details }
    }
}

} // verus!
