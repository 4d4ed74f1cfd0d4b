use wow_ripper::build_info::{clean_column, normalize_token, row_match_score, BuildInfoRow};
use wow_ripper::casc::{normalize_virtual_path, safe_virtual_path};
use wow_ripper::listfile::extension_of;

#[test]
fn strips_build_info_type_suffix() {
    assert_eq!(clean_column("Build Key!HEX:16"), "Build Key");
    assert_eq!(clean_column("Version!STRING:0"), "Version");
}

#[test]
fn normalizes_product_folder_names() {
    assert_eq!(normalize_token("_classic_beta_"), "classicbeta");
    assert_eq!(normalize_token("wow_classic_beta"), "wowclassicbeta");
}

#[test]
fn prefers_specific_classic_branch() {
    let mut row = BuildInfoRow::new();
    row.insert("Product".to_string(), "wow_classic_beta".to_string());
    assert_eq!(row_match_score(&row, "classicbeta"), 80);
    assert_eq!(row_match_score(&row, "classic"), 40);
}

#[test]
fn normalizes_casc_paths() {
    assert_eq!(normalize_virtual_path(r"Interface\Icons\INV_Test.blp"), "Interface/Icons/INV_Test.blp");
}

#[test]
fn rejects_parent_traversal() {
    assert!(safe_virtual_path("../../secret.txt").is_none());
}

#[test]
fn extracts_extension() {
    assert_eq!(extension_of("interface/icons/test.blp"), "blp");
    assert_eq!(extension_of("path/noext"), "(none)");
}
