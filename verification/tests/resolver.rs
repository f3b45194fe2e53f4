use lanscan::resolver::hostname_or_unknown;

#[test]
fn failed_lookup_shows_unknown() {
    assert_eq!(hostname_or_unknown(None), "(unknown)");
}

#[test]
fn found_name_is_shown() {
    assert_eq!(hostname_or_unknown(Some("router.local".to_string())), "router.local");
}
