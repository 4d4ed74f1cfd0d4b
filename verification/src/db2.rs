//! DBC/DB2 table header inspection.
use vstd::prelude::*;

use crate::bytes::{le_u32_value, u32_from_le};

verus! {

/// Why a table header could not be read.
#[derive(Debug, Clone, Copy, PartialEq, Eq)]
pub enum DbError {
    Truncated,
    Magic,
}

impl DbError {
    pub open spec fn spec_message(self) -> Seq<char> {
        match self {
            DbError::Truncated => "table header is truncated"@,
            DbError::Magic => "not a recognized DBC/DB2 family signature"@,
        }
    }

    /// The error's text.
    pub fn message(&self) -> (r: String)
        ensures
            r@ == self.spec_message(),
    {
        match self {
            DbError::Truncated => "table header is truncated".to_owned(),
            DbError::Magic => "not a recognized DBC/DB2 family signature".to_owned(),
        }
    }
}

/// The fields that WDB2, WDB5 and WDB6 headers add.
#[derive(Debug, Clone, Copy, PartialEq, Eq)]
pub struct Db2Extended {
    pub table_hash: u32,
    pub build: u32,
    pub min_id: u32,
    pub max_id: u32,
}

/// What a DBC/DB2 header says.
#[derive(Debug, Clone, PartialEq, Eq)]
pub struct DbHeader {
    pub signature: String,
    pub record_count: u32,
    pub field_count: u32,
    pub record_size: u32,
    pub string_table_size: u32,
    pub extended: Option<Db2Extended>,
}

/// `b` starts with one of the signatures WDBC, WDB2, WDB5, WDB6, WDC1 to WDC6.
pub open spec fn is_db_magic(b: Seq<u8>) -> bool {
    &&& b.len() >= 4
    &&& b[0] == 0x57 && b[1] == 0x44
    &&& (b[2] == 0x42 && (b[3] == 0x43 || b[3] == 0x32 || b[3] == 0x35 || b[3] == 0x36)) || (b[2]
        == 0x43 && 0x31 <= b[3] <= 0x36)
}

/// The signature is WDB2, WDB5 or WDB6, whose headers carry more fields.
pub open spec fn is_wdb_extended(b: Seq<u8>) -> bool {
    b[2] == 0x42 && (b[3] == 0x32 || b[3] == 0x35 || b[3] == 0x36)
}

/// The first four bytes as characters.
pub open spec fn signature_chars(b: Seq<u8>) -> Seq<char> {
    b.take(4).map_values(|x: u8| x as char)
}

/// The header that `inspect` reads from `b`, a table with a recognised signature.
pub open spec fn header_matches(h: DbHeader, b: Seq<u8>) -> bool {
    &&& h.signature@ == signature_chars(b)
    &&& h.record_count == le_u32_value(b, 4)
    &&& h.field_count == le_u32_value(b, 8)
    &&& h.record_size == le_u32_value(b, 12)
    &&& h.string_table_size == le_u32_value(b, 16)
    &&& if is_wdb_extended(b) && b.len() >= 48 {
        h.extended matches Some(e) && e.table_hash == le_u32_value(b, 20) && e.build
            == le_u32_value(b, 24) && e.min_id == le_u32_value(b, 32) && e.max_id == le_u32_value(
            b,
            36,
        )
    } else {
        h.extended is None
    }
}

/// The little-endian `u32` at `offset`, or `Truncated` where the bytes end first.
pub fn le_u32(bytes: &[u8], offset: usize) -> (r: Result<u32, DbError>)
    requires
        offset <= usize::MAX - 4,
    ensures
        offset + 4 <= bytes.len() ==> r == Ok::<u32, DbError>(
            le_u32_value(bytes@, offset as int) as u32,
        ),
        offset + 4 > bytes.len() ==> r == Err::<u32, DbError>(DbError::Truncated),
{
    if offset + 4 <= bytes.len() {
        Ok(u32_from_le(bytes[offset], bytes[offset + 1], bytes[offset + 2], bytes[offset + 3]))
    } else {
        Err(DbError::Truncated)
    }
}

fn signature_of(bytes: &[u8]) -> (r: String)
    requires
        bytes.len() >= 4,
    ensures
        r@ == signature_chars(bytes@),
{
    let mut v: Vec<char> = Vec::new();
    let mut i: usize = 0;
    while i < 4
        invariant
            bytes.len() >= 4,
            i <= 4,
            v@ == bytes@.take(i as int).map_values(|x: u8| x as char),
        decreases 4 - i,
    {
        v.push(bytes[i] as char);
        i = i + 1;
        assert(v@ =~= bytes@.take(i as int).map_values(|x: u8| x as char));
    }
    crate::text::string_of(&v)
}

/// Reads the header of a DBC/DB2 table.
pub fn inspect(bytes: &[u8]) -> (r: Result<DbHeader, DbError>)
    ensures
        bytes.len() < 20 ==> r == Err::<DbHeader, DbError>(DbError::Truncated),
        bytes.len() >= 20 && !is_db_magic(bytes@) ==> r == Err::<DbHeader, DbError>(
            DbError::Magic,
        ),
        bytes.len() >= 20 && is_db_magic(bytes@) ==> (r matches Ok(h) && header_matches(
            h,
            bytes@,
        )),
        bytes.len() >= 48 && (starts_wdb(bytes@, 0x32) || starts_wdb(bytes@, 0x35) || starts_wdb(
            bytes@,
            0x36,
        )) ==> (r matches Ok(h) && h.extended == Some(
            Db2Extended {
                table_hash: le_u32_value(bytes@, 20) as u32,
                build: le_u32_value(bytes@, 24) as u32,
                min_id: le_u32_value(bytes@, 32) as u32,
                max_id: le_u32_value(bytes@, 36) as u32,
            },
        )),
{
    if bytes.len() < 20 {
        return Err(DbError::Truncated);
    }
    let b2 = bytes[2];
    let b3 = bytes[3];
    let recognized = bytes[0] == 0x57 && bytes[1] == 0x44 && ((b2 == 0x42 && (b3 == 0x43 || b3
        == 0x32 || b3 == 0x35 || b3 == 0x36)) || (b2 == 0x43 && 0x31 <= b3 && b3 <= 0x36));
    if !recognized {
        return Err(DbError::Magic);
    }
    let record_count = le_u32(bytes, 4)?;
    let field_count = le_u32(bytes, 8)?;
    let record_size = le_u32(bytes, 12)?;
    let string_table_size = le_u32(bytes, 16)?;
    let extended = if b2 == 0x42 && (b3 == 0x32 || b3 == 0x35 || b3 == 0x36) && bytes.len() >= 48 {
        let table_hash = le_u32(bytes, 20)?;
        let build = le_u32(bytes, 24)?;
        let min_id = le_u32(bytes, 32)?;
        let max_id = le_u32(bytes, 36)?;
        Some(Db2Extended { table_hash, build, min_id, max_id })
    } else {
        None
    };
    Ok(
        DbHeader {
            signature: signature_of(bytes),
            record_count,
            field_count,
            record_size,
            string_table_size,
            extended,
        },
    )
}

/// The signature `W`, `D`, `B`, `c`: one of WDB2, WDB5 and WDB6 for `c`
/// `2`, `5` or `6`.
pub open spec fn starts_wdb(b: Seq<u8>, c: u8) -> bool {
    b.len() >= 4 && b[0] == 0x57 && b[1] == 0x44 && b[2] == 0x42 && b[3] == c
}

/// A WDB2, WDB5 or WDB6 table of at least 48 bytes reports the extended
/// fields: the table hash at 20, the build at 24, the lowest id at 32 and the
/// highest id at 36; a WDBC or WDC1 to WDC6 table reports none.
pub proof fn lemma_extended_fields(h: DbHeader, b: Seq<u8>)
    requires
        header_matches(h, b),
    ensures
        b.len() >= 48 && (starts_wdb(b, 0x32) || starts_wdb(b, 0x35) || starts_wdb(b, 0x36))
            ==> h.extended == Some(
            Db2Extended {
                table_hash: le_u32_value(b, 20) as u32,
                build: le_u32_value(b, 24) as u32,
                min_id: le_u32_value(b, 32) as u32,
                max_id: le_u32_value(b, 36) as u32,
            },
        ),
        starts_wdb(b, 0x43) || (b.len() >= 4 && b[0] == 0x57 && b[1] == 0x44 && b[2] == 0x43)
            ==> h.extended is None,
{
}

} // verus!
