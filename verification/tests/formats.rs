use wow_ripper::blp::{self, BlpError};
use wow_ripper::db2::{self, DbError};
use wow_ripper::inspector::{inspect_bytes, is_db_signature, InspectError};
use wow_ripper::types::AssetDetails;

fn put_u32(buf: &mut [u8], at: usize, v: u32) {
    buf[at..at + 4].copy_from_slice(&v.to_le_bytes());
}

fn blp_header() -> Vec<u8> {
    let mut b = vec![0u8; 148];
    b[0..4].copy_from_slice(b"BLP2");
    put_u32(&mut b, 4, 1);
    b[8] = 2;
    b[9] = 8;
    b[10] = 7;
    b[11] = 1;
    put_u32(&mut b, 12, 256);
    put_u32(&mut b, 16, 128);
    put_u32(&mut b, 20, 1172);
    put_u32(&mut b, 24, 66708);
    put_u32(&mut b, 28, 83092);
    put_u32(&mut b, 84, 65536);
    put_u32(&mut b, 88, 16384);
    put_u32(&mut b, 92, 0);
    b
}

#[test]
fn blp_header_fields() {
    let h = blp::inspect(&blp_header()).unwrap();
    assert_eq!(h.magic, "BLP2");
    assert_eq!(h.content_type, 1);
    assert_eq!(h.encoding, 2);
    assert_eq!(h.compression, "DXT5");
    assert_eq!(h.alpha_depth, 8);
    assert_eq!(h.alpha_encoding, 7);
    assert!(h.has_mipmaps);
    assert_eq!(h.width, 256);
    assert_eq!(h.height, 128);
    assert_eq!(h.mipmap_count, 2);
    assert_eq!(h.mip0_offset, 1172);
    assert_eq!(h.mip0_size, 65536);
}

#[test]
fn blp_compression_names() {
    let cases: [(u8, u8, u8, &str); 8] = [
        (1, 8, 0, "Paletted"),
        (2, 0, 0, "DXT1"),
        (2, 1, 0, "DXT1"),
        (2, 4, 1, "DXT3"),
        (2, 8, 1, "DXT3"),
        (2, 8, 3, "DXT/BCn"),
        (3, 8, 8, "Raw BGRA"),
        (9, 0, 0, "Unknown"),
    ];
    for (enc, depth, alpha, name) in cases {
        let mut b = blp_header();
        b[8] = enc;
        b[9] = depth;
        b[10] = alpha;
        assert_eq!(blp::inspect(&b).unwrap().compression, name);
    }
}

#[test]
fn blp_errors() {
    assert_eq!(blp::inspect(&blp_header()[..147]), Err(BlpError::Truncated));
    let mut b = blp_header();
    b[3] = b'1';
    assert_eq!(blp::inspect(&b), Err(BlpError::Magic));
    assert_eq!(BlpError::Truncated.message(), "BLP header is truncated");
    assert_eq!(BlpError::Magic.message(), "unsupported BLP magic");
}

#[test]
fn blp_cursor_reads() {
    let bytes = [1u8, 2, 3, 4, 5];
    let mut pos = 0usize;
    assert_eq!(blp::read_u32_le(&bytes, &mut pos), Ok(0x04030201));
    assert_eq!(pos, 4);
    assert_eq!(blp::read_u32_le(&bytes, &mut pos), Err(BlpError::Truncated));
    assert_eq!(blp::read_u8(&bytes, &mut pos), Ok(5));
    assert_eq!(blp::read_u8(&bytes, &mut pos), Err(BlpError::Truncated));
}

fn db_header(magic: &[u8; 4], len: usize) -> Vec<u8> {
    let mut b = vec![0u8; len];
    b[0..4].copy_from_slice(magic);
    for (i, v) in [10u32, 4, 16, 99, 0xAABBCCDD, 12345, 7, 1, 500].iter().enumerate() {
        if 4 + 4 * i + 4 <= len {
            put_u32(&mut b, 4 + 4 * i, *v);
        }
    }
    b
}

#[test]
fn db2_header_fields() {
    let h = db2::inspect(&db_header(b"WDB2", 48)).unwrap();
    assert_eq!(h.signature, "WDB2");
    assert_eq!((h.record_count, h.field_count, h.record_size, h.string_table_size), (10, 4, 16, 99));
    let e = h.extended.unwrap();
    assert_eq!((e.table_hash, e.build, e.min_id, e.max_id), (0xAABBCCDD, 12345, 1, 500));

    let h = db2::inspect(&db_header(b"WDC3", 48)).unwrap();
    assert_eq!(h.signature, "WDC3");
    assert!(h.extended.is_none());

    let h = db2::inspect(&db_header(b"WDB5", 47)).unwrap();
    assert!(h.extended.is_none());
}

#[test]
fn db2_errors() {
    assert_eq!(db2::inspect(&db_header(b"WDBC", 19)), Err(DbError::Truncated));
    assert_eq!(db2::inspect(&db_header(b"WDC7", 20)), Err(DbError::Magic));
    assert_eq!(db2::le_u32(&[1, 0, 0, 0, 2], 1), Ok(0x02000000));
    assert_eq!(db2::le_u32(&[1, 0, 0, 0, 2], 2), Err(DbError::Truncated));
    assert_eq!(DbError::Magic.message(), "not a recognized DBC/DB2 family signature");
    assert_eq!(DbError::Truncated.message(), "table header is truncated");
}

#[test]
fn db_signatures() {
    for sig in [b"WDBC", b"WDB2", b"WDB5", b"WDB6", b"WDC1", b"WDC2", b"WDC3", b"WDC4", b"WDC5", b"WDC6"] {
        assert!(is_db_signature(sig));
    }
    for sig in [&b"WDB3"[..], b"WDC0", b"WDC7", b"WDB", b"XDBC"] {
        assert!(!is_db_signature(sig));
    }
}

#[test]
fn inspect_identifies_formats() {
    let a = inspect_bytes("tex.blp", &blp_header());
    assert_eq!((a.path.as_str(), a.size, a.format.as_str()), ("tex.blp", 148, "BLP2"));
    assert!(matches!(a.details, AssetDetails::Blp(ref h) if h.width == 256));

    let a = inspect_bytes("short.blp", b"BLP2xx");
    assert_eq!(a.format, "BLP2");
    assert_eq!(a.details, AssetDetails::Error("BLP header is truncated".to_string()));

    let a = inspect_bytes("x.blte", &[b'B', b'L', b'T', b'E', 0, 0, 1, 2, 9]);
    assert_eq!(a.format, "BLTE");
    assert_eq!(
        a.details,
        AssetDetails::Blte { header_size: 258, decoder_modes: vec!["N/raw".to_string(), "Z/zlib".to_string()] }
    );
    let a = inspect_bytes("y.blte", b"BLTE");
    assert!(matches!(a.details, AssetDetails::Blte { header_size: 0, .. }));

    let a = inspect_bytes("t.db2", &db_header(b"WDC3", 20));
    assert_eq!(a.format, "DBC/DB2");
    assert!(matches!(a.details, AssetDetails::Db(ref h) if h.record_count == 10));
    let a = inspect_bytes("t.db2", b"WDC3abc");
    assert_eq!(a.details, AssetDetails::Error("table header is truncated".to_string()));

    assert_eq!(inspect_bytes("m", b"MD21....").format, "M2 model");
    assert_eq!(inspect_bytes("m", b"MD20").details, AssetDetails::Magic("MD20".to_string()));
    assert_eq!(inspect_bytes("w", b"REVM..").format, "Chunked WoW asset");
    assert_eq!(inspect_bytes("w", b"MVER..").details, AssetDetails::Magic("MVER".to_string()));
    assert_eq!(inspect_bytes("o", b"OggS").format, "Ogg Vorbis");
    assert_eq!(inspect_bytes("o", b"OggS").details, AssetDetails::Empty);
    assert_eq!(inspect_bytes("a", b"ID3x").format, "MP3");
    assert_eq!(inspect_bytes("a", &[0xFF, 0xFB]).format, "MP3");
    assert_eq!(inspect_bytes("a", &[0xFF, 0xF3, 1]).format, "MP3");

    let a = inspect_bytes("u", &[0x00, 0x1F, 0xAB, 0xFF, 0x10]);
    assert_eq!(a.format, "Unknown");
    assert_eq!(a.details, AssetDetails::MagicHex("00 1F AB FF".to_string()));
    let a = inspect_bytes("u", &[1, 2, 3]);
    assert_eq!(a.details, AssetDetails::Empty);
    assert_eq!(inspect_bytes("e", &[]).size, 0);
}

#[test]
fn inspect_error_text() {
    assert_eq!(InspectError::Io("gone".to_string()).message(), "failed to read asset: gone");
}
