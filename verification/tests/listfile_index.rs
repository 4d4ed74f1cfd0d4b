use wow_ripper::listfile::{extension_of, ListfileError, ListfileIndex};
use wow_ripper::types::{ExtensionCount, ListfileMatch};

fn m(id: u32, path: &str) -> ListfileMatch {
    ListfileMatch { file_data_id: id, path: path.to_string() }
}

const SAMPLE: &str = "\u{feff}300;Interface/Icons/INV_Sword.BLP\r\n\
# a comment\n\
\n\
   100 ; world/maps/azeroth.wdt  \n\
abc;skipped/because/id.txt\n\
200;\n\
+50;Sound/Music/theme.ogg\n\
100;world/maps/azeroth_dup.adt\n\
4294967296;too/big.txt\n\
7;Textures\\Minimap\\map.blp\n";

#[test]
fn load_parses_sorts_and_summarises() {
    let (index, summary) = ListfileIndex::load(SAMPLE).unwrap();
    assert_eq!(summary.entries, 5);
    let all = index.search("/", 100);
    assert_eq!(
        all,
        vec![
            m(50, "Sound/Music/theme.ogg"),
            m(100, "world/maps/azeroth.wdt"),
            m(100, "world/maps/azeroth_dup.adt"),
            m(300, "Interface/Icons/INV_Sword.BLP"),
        ]
    );
    assert_eq!(
        summary.extensions,
        vec![
            ExtensionCount { extension: "blp".to_string(), count: 2 },
            ExtensionCount { extension: "adt".to_string(), count: 1 },
            ExtensionCount { extension: "ogg".to_string(), count: 1 },
            ExtensionCount { extension: "wdt".to_string(), count: 1 },
        ]
    );
    let total: usize = summary.extensions.iter().map(|e| e.count).sum();
    assert_eq!(total, summary.entries);
}

#[test]
fn load_rejects_empty_listfiles() {
    assert_eq!(ListfileIndex::load("# nothing\n\nabc;x\n12;\n").unwrap_err(), ListfileError::Empty);
    assert_eq!(ListfileIndex::load("").unwrap_err(), ListfileError::Empty);
}

#[test]
fn extension_rules() {
    assert_eq!(extension_of("Interface\\Icons\\A.BLP"), "blp");
    assert_eq!(extension_of("noext"), "noext");
    assert_eq!(extension_of("dir.d/noext"), "(none)");
    assert_eq!(extension_of("a/b.tar.GZ"), "gz");
    assert_eq!(extension_of("a/b."), "");
}

#[test]
fn search_by_id_path_and_prefix() {
    let (index, _) = ListfileIndex::from_entries(vec![
        m(12, "a/x.blp"),
        m(1200, "b/y.m2"),
        m(7, "Sound/Theme12.ogg"),
        m(112, "c/z.wmo"),
    ]);
    assert_eq!(index.search(" 12 ", 10), vec![m(7, "Sound/Theme12.ogg"), m(12, "a/x.blp"), m(1200, "b/y.m2")]);
    assert_eq!(index.search("THEME", 10), vec![m(7, "Sound/Theme12.ogg")]);
    assert_eq!(index.search("+112", 10), vec![m(112, "c/z.wmo")]);
    assert_eq!(index.search("012", 10), vec![m(12, "a/x.blp")]);
    assert_eq!(index.search("   ", 10), Vec::<ListfileMatch>::new());
    assert_eq!(index.search("12", 0), vec![m(7, "Sound/Theme12.ogg")]);
    assert_eq!(index.search("12", 2).len(), 2);
}

#[test]
fn search_finds_every_indexed_id() {
    let entries = vec![m(5, "a"), m(4294967295, "b"), m(0, "c"), m(77, "d")];
    let (index, _) = ListfileIndex::from_entries(entries.clone());
    for e in entries {
        let found = index.search(&e.file_data_id.to_string(), 1);
        assert_eq!(found.len(), 1);
    }
}

#[test]
fn default_index_is_empty() {
    let index = ListfileIndex::default();
    assert!(index.search("a", 10).is_empty());
}

#[test]
fn listfile_error_texts() {
    assert_eq!(ListfileError::Empty.message(), "ListFile contained no FileDataID/path rows");
    assert_eq!(ListfileError::Io("denied".to_string()).message(), "failed to read ListFile: denied");
}

#[test]
fn search_ignores_query_case_and_padding() {
    let (index, _) = ListfileIndex::from_entries(vec![
        m(12, "Interface/Icons/Sword.blp"),
        m(30, "sound/interface.ogg"),
        m(7, "World/Maps/x.wdt"),
    ]);
    for q in ["interface", "ICONS", "12", "x.WDT", "nothing"] {
        let plain = index.search(q, 10);
        assert_eq!(index.search(&q.to_ascii_uppercase(), 10), plain);
        assert_eq!(index.search(&format!(" \t{q} \n"), 10), plain);
    }
    assert_eq!(index.search("  INTERFACE\t", 10).len(), 2);
}
