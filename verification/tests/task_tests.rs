use dumbbell::header::Header;
use dumbbell::task::{parse_u32, Inputs, ParseFailure, Task};

fn inputs(endpoint: &str, body: Option<&str>, threads: &str, requests: &str, headers: &[&str]) -> Inputs {
    Inputs {
        endpoint: endpoint.to_string(),
        body: body.map(|b| b.to_string()),
        threads: threads.to_string(),
        requests: requests.to_string(),
        headers: headers.iter().map(|h| h.to_string()).collect(),
    }
}

#[test]
fn build_with_defaults_and_one_header() {
    let t = Task::new_from_input(&inputs(
        "http://x",
        Some("hi"),
        "10",
        "100",
        &["Content-Type:application/json"],
    ))
    .unwrap();
    assert_eq!(t.endpoint, "http://x");
    assert_eq!(t.body, Some("hi".to_string()));
    assert_eq!(t.threads, 10);
    assert_eq!(t.requests, 100);
    assert_eq!(
        t.headers,
        vec![Header {
            name: "Content-Type".to_string(),
            values: vec!["application/json".to_string()],
        }]
    );
}

#[test]
fn negative_threads_fails() {
    let r = Task::new_from_input(&inputs("http://x", None, "-5", "100", &[]));
    assert_eq!(r, Err(ParseFailure::InvalidNumber));
}

#[test]
fn non_numeric_threads_fails() {
    let r = Task::new_from_input(&inputs("http://x", None, "abc", "100", &[]));
    assert_eq!(r, Err(ParseFailure::InvalidNumber));
}

#[test]
fn bad_threads_fails_even_with_bad_requests_and_headers() {
    let r = Task::new_from_input(&inputs("http://x", None, "-5", "also-bad", &["a:b"]));
    assert_eq!(r, Err(ParseFailure::InvalidNumber));
}

#[test]
fn non_numeric_requests_fails() {
    let r = Task::new_from_input(&inputs("http://x", None, "10", "1e3", &[]));
    assert_eq!(r, Err(ParseFailure::InvalidNumber));
}

#[test]
fn empty_header_list_succeeds() {
    let t = Task::new_from_input(&inputs("http://x", None, "10", "100", &[])).unwrap();
    assert_eq!(t.headers, vec![]);
}

#[test]
fn absent_body_stays_absent() {
    let t = Task::new_from_input(&inputs("http://x", None, "1", "1", &[])).unwrap();
    assert_eq!(t.body, None);
}

#[test]
fn empty_body_is_not_absent() {
    let t = Task::new_from_input(&inputs("http://x", Some(""), "1", "1", &[])).unwrap();
    assert_eq!(t.body, Some(String::new()));
}

#[test]
fn headers_keep_input_order() {
    let t = Task::new_from_input(&inputs("http://x", None, "1", "1", &["b:2", "a:1", "b:2"]))
        .unwrap();
    let names: Vec<&str> = t.headers.iter().map(|h| h.name.as_str()).collect();
    assert_eq!(names, vec!["b", "a", "b"]);
}

#[test]
fn build_is_idempotent() {
    let i = inputs("http://x", Some("hi"), "3", "7", &["k:v1:v2", "a"]);
    let t1 = Task::new_from_input(&i).unwrap();
    let t2 = Task::new_from_input(&i).unwrap();
    assert_eq!(t1, t2);
}

#[test]
fn reserializing_headers_round_trips() {
    let i = inputs("http://x", None, "1", "0", &["k:v1:v2", "Accept", "a::b"]);
    let t = Task::new_from_input(&i).unwrap();
    for h in &t.headers {
        assert_eq!(&Header::parse_header(&h.to_raw_string()), h);
    }
}

#[test]
fn parse_u32_accepts_plain_decimals() {
    assert_eq!(parse_u32("0"), Ok(0));
    assert_eq!(parse_u32("42"), Ok(42));
    assert_eq!(parse_u32("007"), Ok(7));
    assert_eq!(parse_u32("4294967295"), Ok(u32::MAX));
}

#[test]
fn parse_u32_rejects_malformed_input() {
    assert_eq!(parse_u32(""), Err(ParseFailure::InvalidNumber));
    assert_eq!(parse_u32("+5"), Err(ParseFailure::InvalidNumber));
    assert_eq!(parse_u32("-5"), Err(ParseFailure::InvalidNumber));
    assert_eq!(parse_u32(" 5"), Err(ParseFailure::InvalidNumber));
    assert_eq!(parse_u32("5 "), Err(ParseFailure::InvalidNumber));
    assert_eq!(parse_u32("1.0"), Err(ParseFailure::InvalidNumber));
    assert_eq!(parse_u32("abc"), Err(ParseFailure::InvalidNumber));
}

#[test]
fn parse_u32_rejects_overflow() {
    assert_eq!(parse_u32("4294967296"), Err(ParseFailure::InvalidNumber));
    assert_eq!(parse_u32("99999999999999999999"), Err(ParseFailure::InvalidNumber));
}

#[test]
fn zero_requests_is_allowed() {
    let t = Task::new_from_input(&inputs("http://x", None, "10", "0", &[])).unwrap();
    assert_eq!(t.requests, 0);
}
