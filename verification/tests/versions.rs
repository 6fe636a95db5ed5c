use manga_eroico::versions::{
    artifact_file_name, decimal_string, first_name_with_version, latest_version, next_version, parse_u32,
    parse_version_name, versions_in,
};

#[test]
fn version_file_names_round_trip() {
    assert_eq!(artifact_file_name(1, "json"), "v0001.json");
    assert_eq!(artifact_file_name(12345, "png"), "v12345.png");
    for v in [0u32, 1, 9, 10, 999, 10000, u32::MAX] {
        assert_eq!(parse_version_name(&artifact_file_name(v, "json")), Some(v));
    }
}

#[test]
fn version_names_that_do_not_parse() {
    assert_eq!(parse_version_name("x0001.json"), None);
    assert_eq!(parse_version_name("v.json"), None);
    assert_eq!(parse_version_name("v99999999999.json"), None);
    assert_eq!(parse_version_name("v12"), Some(12));
}

#[test]
fn versions_increment_and_latest_wins() {
    assert_eq!(next_version(&[]), 1);
    assert_eq!(next_version(&[1, 3, 2]), 4);
    assert_eq!(latest_version(&[]), None);
    assert_eq!(latest_version(&[1, 3, 2]), Some(3));
    let names: Vec<String> = ["v0001.json", "notes.txt", "v0002.json"].iter().map(|s| s.to_string()).collect();
    assert_eq!(versions_in(&names), vec![1, 2]);
    assert_eq!(first_name_with_version(&names, 2), Some(2));
    assert_eq!(first_name_with_version(&names, 5), None);
}

#[test]
fn decimal_parsing_and_printing() {
    let digits: Vec<char> = "+42".chars().collect();
    assert_eq!(parse_u32(&digits), Some(42));
    let big: Vec<char> = "4294967296".chars().collect();
    assert_eq!(parse_u32(&big), None);
    assert_eq!(decimal_string(0), "0");
    assert_eq!(decimal_string(1234567890123), "1234567890123");
}
