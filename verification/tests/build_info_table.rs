use wow_ripper::build_info::{
    best_matching_row, first_value, inspect_install, normalize_token, BuildInfoError, BuildInfoRow,
};

const TABLE: &str = "Branch!STRING:0|Active!DEC:1|Build Key!HEX:16|CDN Key!HEX:16|Version!STRING:0|Product!STRING:0|Tags!STRING:0\r\n\
eu|1|aaaa|bbbb|11.0.7.58238|wow|EU\r\n\
\r\n\
eu|1|cccc|dddd|1.15.5.57979|wow_classic_era|EU\r\n\
eu|0|eeee|ffff|4.4.1.57916|wow_classic|EU\r\n";

fn row(pairs: &[(&str, &str)]) -> BuildInfoRow {
    let mut r = BuildInfoRow::new();
    for (k, v) in pairs {
        r.insert(k.to_string(), v.to_string());
    }
    r
}

#[test]
fn picks_row_matching_folder() {
    let info = inspect_install("C:/Games/World of Warcraft/_classic_era_", Some("_classic_era_"), TABLE).unwrap();
    assert_eq!(info.path, "C:/Games/World of Warcraft/_classic_era_");
    assert_eq!(info.product, "wow_classic_era");
    assert_eq!(info.version, "1.15.5.57979");
    assert_eq!(info.build_key.as_deref(), Some("cccc"));
    assert_eq!(info.cdn_key.as_deref(), Some("dddd"));
    assert_eq!(info.branch.as_deref(), Some("eu"));
    assert_eq!(info.active_rows, 2);
    assert_eq!(info.rows.len(), 3);
    assert_eq!(info.rows[2].get("Product").as_deref(), Some("wow_classic"));
    assert_eq!(info.rows[0].entries().len(), 7);
}

#[test]
fn falls_back_to_first_active_row() {
    let info = inspect_install("/wow/_retail_", Some("_retail_"), TABLE).unwrap();
    assert_eq!(info.product, "wow");
    let info = inspect_install("/wow", None, TABLE).unwrap();
    assert_eq!(info.product, "wow");
    let info = inspect_install("/wow/___", Some("___"), TABLE).unwrap();
    assert_eq!(info.product, "wow");
}

#[test]
fn inactive_rows_are_not_matched() {
    let info = inspect_install("/wow/_classic_", Some("_classic_"), TABLE).unwrap();
    assert_eq!(info.product, "wow_classic_era");
}

#[test]
fn defaults_when_columns_are_missing() {
    let text = "Region!STRING:0|Active!DEC:1\nus|1\n";
    let info = inspect_install("/x", None, text).unwrap();
    assert_eq!(info.product, "World of Warcraft");
    assert_eq!(info.version, "Unknown build");
    assert_eq!(info.build_key, None);
    assert_eq!(info.active_rows, 1);
    let text = "Product|Version\nwow|\n";
    let info = inspect_install("/x", None, text).unwrap();
    assert_eq!(info.version, "Unknown build");
}

#[test]
fn all_inactive_uses_first_row() {
    let text = "Product|Active\nwow_beta|0\nwow_ptr|0\n";
    let info = inspect_install("/x", Some("wow_ptr"), text).unwrap();
    assert_eq!(info.product, "wow_beta");
    assert_eq!(info.active_rows, 0);
}

#[test]
fn malformed_tables() {
    assert!(matches!(inspect_install("/x", None, ""), Err(BuildInfoError::Malformed)));
    assert!(matches!(inspect_install("/x", None, "  \n\t\n"), Err(BuildInfoError::Malformed)));
    assert!(matches!(inspect_install("/x", None, "Product|Version\n\n"), Err(BuildInfoError::Malformed)));
}

#[test]
fn short_rows_and_repeated_columns() {
    let text = "A|B|A\n1|2\n";
    let info = inspect_install("/x", None, text).unwrap();
    let r = &info.rows[0];
    assert_eq!(r.get("A").as_deref(), Some(""));
    assert_eq!(r.get("B").as_deref(), Some("2"));
    assert_eq!(r.entries().len(), 2);
}

#[test]
fn insert_then_get() {
    let mut r = row(&[("Product", "wow"), ("Branch", "us")]);
    r.insert("Product".to_string(), "wowt".to_string());
    assert_eq!(r.get("Product").as_deref(), Some("wowt"));
    assert_eq!(r.get("Branch").as_deref(), Some("us"));
    assert_eq!(r.get("Tags"), None);
    assert_eq!(r.entries().len(), 2);
    assert_eq!(r.entries()[0].0, "Product");
}

#[test]
fn best_row_is_last_among_equals() {
    let a = row(&[("Product", "wow_classic")]);
    let b = row(&[("Product", "wow_classic_era")]);
    let c = row(&[("Product", "wow_classic")]);
    let rows = vec![&a, &b, &c];
    let best = best_matching_row(&rows, "classic").unwrap();
    assert!(std::ptr::eq(best, &c));
    let best = best_matching_row(&rows, "classicera").unwrap();
    assert!(std::ptr::eq(best, &b));
    assert!(best_matching_row(&rows, "retail").is_none());
}

#[test]
fn first_value_stops_at_first_present_name() {
    let r = row(&[("Branch", ""), ("Tags", "EU")]);
    assert_eq!(first_value(&r, &vec!["Product", "Branch", "Tags"]), None);
    assert_eq!(first_value(&r, &vec!["Product", "Tags"]).as_deref(), Some("EU"));
}

#[test]
fn build_info_error_texts() {
    assert_eq!(
        BuildInfoError::Missing("D:/Games/wow".to_string()).message(),
        ".build.info was not found in D:/Games/wow or its parent folder"
    );
    assert_eq!(BuildInfoError::Io("denied".to_string()).message(), "failed to read .build.info: denied");
    assert_eq!(BuildInfoError::Malformed.message(), ".build.info is empty or malformed");
}

#[test]
fn token_normalizing_is_idempotent() {
    for v in ["_classic_beta_", "World of Warcraft", "wow-PTR 2", "", "Ünïcode"] {
        let once = normalize_token(v);
        assert_eq!(normalize_token(&once), once);
    }
    assert_eq!(normalize_token("wow-PTR 2"), "wowptr2");
    assert_eq!(normalize_token("Ünïcode"), "ncode");
}
