use devsync::kv::StrMap;
use devsync::strutil::{merge_paths, parse_u64, split_path, u64_to_string, i64_to_string};
use devsync::wire::{build_request, Request, Response, WireError};

fn request_err(text: &str) -> WireError {
    match Request::parse(text) {
        Err(e) => e,
        Ok(_) => panic!("expected a wire error"),
    }
}

fn response_err(text: &str) -> WireError {
    match Response::parse(text) {
        Err(e) => e,
        Ok(_) => panic!("expected a wire error"),
    }
}

#[test]
fn split_path_drops_empty_segments() {
    let segs = split_path("/a//b/".to_owned());
    assert_eq!(segs, vec!["a".to_owned(), "b".to_owned()]);
    assert_eq!(split_path("".to_owned()), Vec::<String>::new());
}

#[test]
fn merge_paths_joins_segments() {
    assert_eq!(merge_paths("/a/b/".to_owned(), "/c".to_owned()), "a/b/c");
    assert_eq!(merge_paths("".to_owned(), "x".to_owned()), "x");
}

#[test]
fn decimal_conversions() {
    assert_eq!(u64_to_string(0), "0");
    assert_eq!(u64_to_string(40718), "40718");
    assert_eq!(i64_to_string(-255), "-255");
    assert_eq!(i64_to_string(i64::MIN), "-9223372036854775808");
    assert_eq!(parse_u64("18446744073709551615"), Some(u64::MAX));
    assert_eq!(parse_u64("18446744073709551616"), None);
    assert_eq!(parse_u64(""), None);
    assert_eq!(parse_u64("12x"), None);
}

#[test]
fn response_new_and_not_found() {
    let ok = Response::new();
    assert_eq!(ok.into_string(), "HTTP/1.1 200 Ok\r\n\r\n\r\n\r\n");
    let nf = Response::not_found();
    assert_eq!(nf.into_string(), "HTTP/1.1 404 NotFound\r\n\r\n\r\n404 Not found\r\n");
}

#[test]
fn request_stringify_format() {
    let mut headers = StrMap::new();
    headers.insert("Host".to_owned(), "example".to_owned());
    let req = Request {
        uri: "a/b".to_owned(),
        method: "GET".to_owned(),
        headers,
        body: "hi".to_owned(),
    };
    assert_eq!(req.stringify(), "GET /a/b HTTP/1.1\r\nHost: example\r\n\r\nhi\r\n");
}

#[test]
fn build_request_format() {
    let mut headers = StrMap::new();
    headers.insert("A".to_owned(), "1".to_owned());
    headers.insert("B".to_owned(), "2".to_owned());
    let text = build_request("POST", "x/y", &headers, "body");
    assert_eq!(text, "POST /x/y HTTP/1.1\r\nA: 1\r\nB: 2\r\n\r\nbody");
}

#[test]
fn parse_request_round_trip() {
    let text = "GET /a/b HTTP/1.1\r\nHost: h\r\nContent-Length: 5\r\n\r\nhello";
    let req = Request::parse(text).expect("request is well formed");
    assert_eq!(req.method, "GET");
    assert_eq!(req.uri, "/a/b");
    assert_eq!(req.headers.get("Host"), Some(&"h".to_owned()));
    assert_eq!(req.body, "hello");
}

#[test]
fn parse_request_empty_is_rejected() {
    assert_eq!(request_err(""), WireError::Empty);
    assert_eq!(request_err("   \r\n"), WireError::Empty);
}

#[test]
fn parse_request_bad_header() {
    let text = "GET / HTTP/1.1\r\nNoSeparator\r\n\r\n";
    assert_eq!(request_err(text), WireError::BadHeader);
}

#[test]
fn parse_request_bad_length() {
    let text = "GET / HTTP/1.1\r\nContent-Length: ten\r\n\r\n";
    assert_eq!(request_err(text), WireError::BadLength);
}

#[test]
fn parse_response_round_trip() {
    let text = "HTTP/1.1 201 Created\r\nContent-Length: 2\r\n\r\nokextra";
    let resp = Response::parse(text).expect("response is well formed");
    assert_eq!(resp.status_code, 201);
    assert_eq!(resp.status, "Created");
    assert_eq!(resp.body, "ok");
}

#[test]
fn parse_response_truncated_body_is_shortened() {
    let text = "HTTP/1.1 200 Ok\r\nContent-Length: 99\r\n\r\nshort";
    let resp = Response::parse(text).expect("response is well formed");
    assert_eq!(resp.body, "short");
}

#[test]
fn parse_response_rejects_non_2xx() {
    let text = "HTTP/1.1 500 ServerError\r\n\r\n";
    assert_eq!(response_err(text), WireError::NonSuccess(500));
}

#[test]
fn parse_response_bad_status_line() {
    assert_eq!(response_err("HTTP/1.1 200\r\n\r\n"), WireError::BadStatusLine);
    assert_eq!(response_err("HTTP/1.1 abc Ok\r\n\r\n"), WireError::BadStatusLine);
}

#[test]
fn header_fold_keeps_later_value() {
    let text = "HTTP/1.1 200 Ok\r\nX: 1\r\nX: 2\r\n\r\n";
    let resp = Response::parse(text).expect("response is well formed");
    assert_eq!(resp.headers.get("X"), Some(&"2".to_owned()));
}
