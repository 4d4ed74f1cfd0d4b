use wow_ripper::commands::{search_limit, user_path};
use wow_ripper::installs::candidate;
use wow_ripper::number::{decimal_chars, parse_u32_chars};
use wow_ripper::order::{sort_indices, SortKey};

#[test]
fn user_paths_are_trimmed_and_unquoted() {
    assert_eq!(user_path("  \"C:\\Games\\World of Warcraft\"  "), "C:\\Games\\World of Warcraft");
    assert_eq!(user_path("\""), "\"");
    assert_eq!(user_path("\"\""), "");
    assert_eq!(user_path(" /opt/wow "), "/opt/wow");
    assert_eq!(user_path("\"half"), "\"half");
}

#[test]
fn search_limits() {
    assert_eq!(search_limit(None), 250);
    assert_eq!(search_limit(Some(0)), 1);
    assert_eq!(search_limit(Some(5000)), 2000);
    assert_eq!(search_limit(Some(17)), 17);
}

#[test]
fn install_candidates() {
    let c = candidate("/g/WoW".to_string(), Some("WoW".to_string()), true);
    assert_eq!((c.path.as_str(), c.label.as_str(), c.has_build_info), ("/g/WoW", "WoW", true));
    let c = candidate("/".to_string(), None, false);
    assert_eq!(c.label, "World of Warcraft");
}

#[test]
fn decimal_text_round_trips() {
    for n in [0u32, 7, 10, 99, 12345, u32::MAX] {
        let text = decimal_chars(n);
        assert_eq!(text.iter().collect::<String>(), n.to_string());
        assert_eq!(parse_u32_chars(&text), Some(n));
    }
    assert_eq!(parse_u32_chars(&"+42".chars().collect()), Some(42));
    assert_eq!(parse_u32_chars(&"-1".chars().collect()), None);
    assert_eq!(parse_u32_chars(&"+".chars().collect()), None);
    assert_eq!(parse_u32_chars(&"4294967296".chars().collect()), None);
    assert_eq!(parse_u32_chars(&"".chars().collect()), None);
}

#[test]
fn stable_index_sort() {
    let key = |major: u64, text: &str| SortKey { major, text: text.chars().collect(), minor: 0 };
    let keys = vec![key(1, "b"), key(0, "z"), key(1, "a"), key(1, "b"), key(0, "z")];
    assert_eq!(sort_indices(&keys), vec![1, 4, 2, 0, 3]);
}
