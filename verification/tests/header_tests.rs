use dumbbell::header::Header;

fn header(name: &str, values: &[&str]) -> Header {
    Header {
        name: name.to_string(),
        values: values.iter().map(|v| v.to_string()).collect(),
    }
}

#[test]
fn no_colon_is_name_only() {
    let h = Header::parse_header("Accept");
    assert_eq!(h, header("Accept", &[]));
}

#[test]
fn empty_string_parses_to_empty_name() {
    let h = Header::parse_header("");
    assert_eq!(h, header("", &[]));
}

#[test]
fn single_value() {
    let h = Header::parse_header("Content-Type:application/json");
    assert_eq!(h, header("Content-Type", &["application/json"]));
}

#[test]
fn empty_segments_are_values() {
    let h = Header::parse_header("a::b");
    assert_eq!(h, header("a", &["", "b"]));
}

#[test]
fn value_count_is_colon_count() {
    assert_eq!(Header::parse_header("x").values.len(), 0);
    assert_eq!(Header::parse_header("x:1").values.len(), 1);
    assert_eq!(Header::parse_header("x:1:2:3").values.len(), 3);
    assert_eq!(Header::parse_header(":::").values.len(), 3);
}

#[test]
fn order_and_duplicates_preserved() {
    let h = Header::parse_header("k:v1:v2:v1");
    assert_eq!(h, header("k", &["v1", "v2", "v1"]));
}

#[test]
fn leading_colon_gives_empty_name() {
    let h = Header::parse_header(":v");
    assert_eq!(h, header("", &["v"]));
}

#[test]
fn trailing_colon_gives_empty_value() {
    let h = Header::parse_header("k:");
    assert_eq!(h, header("k", &[""]));
}

#[test]
fn serialize_joins_with_colons() {
    let h = header("k", &["v1", "v2"]);
    assert_eq!(h.to_raw_string(), "k:v1:v2");
    assert_eq!(header("k", &[]).to_raw_string(), "k");
    assert_eq!(header("", &[]).to_raw_string(), "");
}

#[test]
fn round_trip_restores_header() {
    let cases = [
        header("Content-Type", &["application/json"]),
        header("k", &["v1", "v2", "v1"]),
        header("k", &["", ""]),
        header("", &["v"]),
        header("Accept", &[]),
    ];
    for h in cases {
        let raw = h.to_raw_string();
        assert_eq!(Header::parse_header(&raw), h);
    }
}
