use wow_ripper::casc::{
    catalog_from_listing, extension_of, find_file_path, list_directory, normalize_directory,
    normalize_virtual_path, read_outcome, safe_virtual_path, CascSessionError,
};
use wow_ripper::types::{CascVirtualEntry, ListfileMatch};

fn m(id: u32, path: &str) -> ListfileMatch {
    ListfileMatch { file_data_id: id, path: path.to_string() }
}

#[test]
fn normalizes_separators_and_empty_parts() {
    assert_eq!(normalize_virtual_path("//a\\\\b///c.txt/"), "a/b/c.txt");
    assert_eq!(normalize_virtual_path(""), "");
    assert_eq!(normalize_virtual_path("\\/"), "");
    assert_eq!(normalize_directory(" World\\Maps\\"), " World/Maps");
    let once = normalize_virtual_path("x\\\\y//z");
    assert_eq!(normalize_virtual_path(&once), once);
}

#[test]
fn file_extensions() {
    assert_eq!(extension_of("Icon.BLP").as_deref(), Some("blp"));
    assert_eq!(extension_of("archive.tar.gz").as_deref(), Some("gz"));
    assert_eq!(extension_of("README"), None);
    assert_eq!(extension_of("trailing."), None);
}

#[test]
fn safe_paths() {
    assert_eq!(safe_virtual_path("a/./b\\c.txt"), Some(vec!["a".to_string(), "b".to_string(), "c.txt".to_string()]));
    assert_eq!(safe_virtual_path("./a"), None);
    assert_eq!(safe_virtual_path("a/../b"), None);
    assert_eq!(safe_virtual_path("/"), None);
    assert_eq!(safe_virtual_path("a/."), Some(vec!["a".to_string()]));
}

#[test]
fn catalog_filters_sorts_and_drops_repeats() {
    let listed = vec![
        (5, "World\\Maps\\b.wdt".to_string()),
        (3, "UNKNOWN".to_string()),
        (9, "world/maps/A.wdt".to_string()),
        (4, "Interface/x.blp".to_string()),
        (4, "interface/X.blp".to_string()),
        (2, "unknown".to_string()),
    ];
    let files = catalog_from_listing(listed);
    assert_eq!(
        files,
        vec![m(4, "Interface/x.blp"), m(9, "world/maps/A.wdt"), m(5, "World/Maps/b.wdt")]
    );
    for w in files.windows(2) {
        assert_ne!(w[0].file_data_id, w[1].file_data_id);
    }
}

fn folder(name: &str, path: &str) -> CascVirtualEntry {
    CascVirtualEntry { name: name.to_string(), path: path.to_string(), kind: "folder".to_string(), file_data_id: None, extension: None }
}

fn file(name: &str, path: &str, id: u32, ext: Option<&str>) -> CascVirtualEntry {
    CascVirtualEntry {
        name: name.to_string(),
        path: path.to_string(),
        kind: "file".to_string(),
        file_data_id: Some(id),
        extension: ext.map(|e| e.to_string()),
    }
}

#[test]
fn lists_folders_and_files() {
    let files = vec![
        m(1, "World/Maps/a.wdt"),
        m(2, "world/textures/b.blp"),
        m(3, "Sound/x.ogg"),
        m(4, "readme"),
        m(5, "Apple.TXT"),
    ];
    let root = list_directory(&files, "");
    assert_eq!(root.path, "");
    assert_eq!(root.folders, vec![folder("Sound", "Sound"), folder("World", "World")]);
    assert_eq!(root.files, vec![file("Apple.TXT", "Apple.TXT", 5, Some("txt")), file("readme", "readme", 4, None)]);

    let world = list_directory(&files, "\\WORLD\\");
    assert_eq!(world.path, "WORLD");
    assert_eq!(world.folders, vec![folder("Maps", "WORLD/Maps"), folder("textures", "WORLD/textures")]);
    assert!(world.files.is_empty());

    let maps = list_directory(&files, "world/maps");
    assert_eq!(maps.files, vec![file("a.wdt", "World/Maps/a.wdt", 1, Some("wdt"))]);
    assert!(maps.folders.is_empty());

    let exact = list_directory(&files, "readme");
    assert!(exact.files.is_empty() && exact.folders.is_empty());
}

#[test]
fn files_with_equal_names_keep_their_order() {
    let files = vec![m(8, "d/B.txt"), m(2, "d/a.txt"), m(7, "d/b.txt")];
    let l = list_directory(&files, "d");
    let ids: Vec<u32> = l.files.iter().map(|f| f.file_data_id.unwrap()).collect();
    assert_eq!(ids, vec![2, 8, 7]);
}

#[test]
fn finds_paths_by_id() {
    let files = vec![m(3, "a"), m(4, "b"), m(3, "c")];
    assert_eq!(find_file_path(&files, 3).as_deref(), Some("a"));
    assert_eq!(find_file_path(&files, 5), None);
}

#[test]
fn session_error_texts() {
    assert_eq!(CascSessionError::MissingFile(42).message(), "FileDataID 42 is not in the loaded catalog");
    assert_eq!(CascSessionError::Open("x".to_string()).message(), "CASC open failed: x");
    assert_eq!(
        CascSessionError::InstallRoot("D:/wow".to_string()).message(),
        "could not locate the shared WoW install root for D:/wow"
    );
    assert_eq!(CascSessionError::Write("disk".to_string()).message(), "failed to write extracted file: disk");
}

#[test]
fn normalizing_twice_changes_nothing() {
    for p in ["\\\\A\\b//c\\", "", "/", "x", "Interface/Icons\\\\INV.blp", "..\\a\\..\\b"] {
        let once = normalize_virtual_path(p);
        assert_eq!(normalize_virtual_path(&once), once);
    }
}

#[test]
fn safe_parts_never_climb() {
    for p in ["a/./b/c", "a\\..\\b", "./a", "a/b/.", "/x//y/", "...", ". ./a"] {
        if let Some(parts) = safe_virtual_path(p) {
            assert!(!parts.is_empty());
            for part in &parts {
                assert!(!part.is_empty() && part != "." && part != "..");
                assert!(!part.contains('/') && !part.contains('\\'));
            }
        }
    }
    assert_eq!(safe_virtual_path("a/./b/."), Some(vec!["a".to_string(), "b".to_string()]));
    assert_eq!(safe_virtual_path("a\\..\\b"), None);
    assert_eq!(safe_virtual_path("./a"), None);
    assert_eq!(
        safe_virtual_path("..."),
        Some(vec!["...".to_string()])
    );
}

#[test]
fn drive_paths_are_not_safe() {
    assert_eq!(safe_virtual_path("C:/Windows/x.dll"), None);
    assert_eq!(safe_virtual_path("\\c:\\x"), None);
    assert_eq!(safe_virtual_path("z:x"), None);
    assert_eq!(
        safe_virtual_path("a/C:/x"),
        Some(vec!["a".to_string(), "C:".to_string(), "x".to_string()])
    );
    assert_eq!(safe_virtual_path("1:x"), Some(vec!["1:x".to_string()]));
    assert_eq!(safe_virtual_path("C"), Some(vec!["C".to_string()]));
}

#[test]
fn storage_reads_keep_their_text() {
    assert_eq!(read_outcome(Ok(vec![1, 2, 3])), Ok(vec![1, 2, 3]));
    assert_eq!(
        read_outcome(Err("key not found".to_string())),
        Err(CascSessionError::Open("key not found".to_string()))
    );
    assert_eq!(
        read_outcome(Err("key not found".to_string())).unwrap_err().message(),
        "CASC open failed: key not found"
    );
}

#[test]
fn listing_ignores_request_spelling() {
    let files = vec![m(1, "World/Maps/a.wdt"), m(2, "world/textures/b.blp"), m(3, "World/c.txt")];
    let a = list_directory(&files, "World");
    let b = list_directory(&files, "\\\\WORLD//");
    assert_eq!(a.files, b.files);
    let names = |l: &wow_ripper::types::CascDirectoryListing| {
        l.folders.iter().map(|f| f.name.clone()).collect::<Vec<_>>()
    };
    assert_eq!(names(&a), names(&b));
    assert_eq!(names(&a), vec!["Maps".to_string(), "textures".to_string()]);
    assert_eq!(b.folders[0].path, "WORLD/Maps");
}
