use srs_parser::utils::SrsList;

const LIST: &str = r#"
static const char *lists[][2] = {
    {"geoip-ru", "https://example.org/geoip-ru.srs"},
    {"geosite-ru-blocked",   "https://example.org/geosite-ru-blocked.srs"},
    {"broken", ""},
    {"", "https://example.org/empty-name.srs"},
    {"geoip-ru", "https://example.org/duplicate.srs"},
};
"#;

#[test]
fn entries_are_read_in_order() {
    let list = SrsList::from_text(LIST);
    let keys: Vec<&str> = list.rules.iter().map(|r| r.key.as_str()).collect();
    assert_eq!(keys, vec!["geoip-ru", "geosite-ru-blocked", "geoip-ru"]);
    assert_eq!(list.rules[1].value, "https://example.org/geosite-ru-blocked.srs");
}

#[test]
fn target_of_first_rule_with_name() {
    let list = SrsList::from_text(LIST);
    assert_eq!(list.find("geosite-ru-blocked"), Some(1));
    assert_eq!(
        list.geodb_target("geoip-ru"),
        Some(("geodb/geoip-ru".to_string(), "https://example.org/geoip-ru.srs".to_string()))
    );
    assert_eq!(list.geodb_target("missing"), None);
}
