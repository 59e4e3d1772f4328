use httpfetch::http::{HttpRequest, Method};
use httpfetch::response::{parse, split_response};
use httpfetch::Error;

#[test]
fn bare_get_request_serializes_exactly() {
    let req = HttpRequest::new();
    let bytes = req.serialize("example.com", "/");
    let expected = "GET / HTTP/1.1\r\nHost: example.com\r\nContent-Length: 0\r\nConnection: Close\r\n\r\n\r\n\r\n";
    assert_eq!(bytes, expected.as_bytes().to_vec());
}

#[test]
fn request_with_headers_and_body_serializes_exactly() {
    let req = HttpRequest::new()
        .set_method(Method::POST)
        .set_headers(vec![("Content-Type".to_string(), "text/plain".to_string())])
        .set_body(b"hello".to_vec());
    let bytes = req.serialize("example.com", "/upload");
    let expected = "POST /upload HTTP/1.1\r\nHost: example.com\r\nContent-Type: text/plain\r\nContent-Length: 5\r\nConnection: Close\r\n\r\nhello\r\n\r\n";
    assert_eq!(bytes, expected.as_bytes().to_vec());
}

#[test]
fn content_length_is_derived_from_the_body() {
    let req = HttpRequest::new();
    assert_eq!(req.get_content_length(), 0);
    assert!(req.get_body().is_none());
    let req = req.set_body(b"hello".to_vec());
    assert_eq!(req.get_content_length(), 5);
    assert_eq!(req.get_body().as_ref().map(|b| b.len()), Some(5));
}

#[test]
fn header_getter_returns_what_was_set() {
    let req = HttpRequest::new().set_headers(vec![
        ("A".to_string(), "1".to_string()),
        ("B".to_string(), "2".to_string()),
    ]);
    let hs = req.get_headers();
    assert_eq!(hs.len(), 2);
    assert_eq!(hs[0], ("A".to_string(), "1".to_string()));
    assert_eq!(hs[1], ("B".to_string(), "2".to_string()));
}

#[test]
fn serialized_request_parses_back_with_headers_and_body_kept() {
    let req = HttpRequest::new()
        .set_headers(vec![
            ("Content-Type".to_string(), "text/plain".to_string()),
            ("X-Token".to_string(), "abc".to_string()),
        ])
        .set_body(b"hello".to_vec());
    let bytes = req.serialize("example.com", "/");
    let text = String::from_utf8(bytes).unwrap();
    let resp = parse(&text).unwrap();
    assert_eq!(resp.status_line, "GET / HTTP/1.1");
    assert_eq!(resp.body, "hello");
    assert!(resp.headers.contains(&("Content-Type".to_string(), "text/plain".to_string())));
    assert!(resp.headers.contains(&("X-Token".to_string(), "abc".to_string())));
    assert!(resp.headers.contains(&("Host".to_string(), "example.com".to_string())));
    assert!(resp.headers.contains(&("Content-Length".to_string(), "5".to_string())));
    assert!(resp.headers.contains(&("Connection".to_string(), "Close".to_string())));
}

#[test]
fn response_scenario_splits_into_status_headers_body() {
    let raw = "HTTP/1.1 200 OK\r\nContent-Type: text/plain\r\n\r\nhello";
    let resp = parse(raw).unwrap();
    assert_eq!(resp.status_line, "HTTP/1.1 200 OK");
    assert_eq!(resp.headers, vec![("Content-Type".to_string(), "text/plain".to_string())]);
    assert_eq!(resp.body, "hello");
}

#[test]
fn empty_and_separator_free_text_do_not_parse() {
    assert!(parse("").is_none());
    assert!(parse("HTTP/1.1 200 OK\r\nContent-Type: text/plain\r\n").is_none());
    assert!(split_response("no separator").is_none());
}

#[test]
fn body_stops_at_the_next_separator() {
    let raw = "HTTP/1.1 200 OK\r\n\r\nbody\r\n\r\nignored";
    let resp = parse(raw).unwrap();
    assert_eq!(resp.body, "body");
    assert_eq!(resp.headers.len(), 0);
}

#[test]
fn header_lines_without_divider_are_passed_over() {
    let raw = "HTTP/1.1 200 OK\r\nbroken-line\r\nGood: yes\r\n\r\n";
    let resp = parse(raw).unwrap();
    assert_eq!(resp.headers, vec![("Good".to_string(), "yes".to_string())]);
}

#[test]
fn split_response_keeps_head_and_body() {
    let raw = "HTTP/1.1 200 OK\r\nA: b\r\n\r\nhello";
    let (head, body) = split_response(raw).unwrap();
    assert_eq!(head, "HTTP/1.1 200 OK\r\nA: b");
    assert_eq!(body, "hello");
}

#[test]
fn decimal_rendering_is_exact() {
    assert_eq!(httpfetch::http::usize_dec_string(0), "0");
    assert_eq!(httpfetch::http::usize_dec_string(7), "7");
    assert_eq!(httpfetch::http::usize_dec_string(10905), "10905");
}

#[test]
fn error_messages_are_exact() {
    assert_eq!(Error::ParseUrlError.message(), "URL parsing error");
    assert_eq!(Error::ResponseParseError.message(), "Response parsing error");
    assert_eq!(
        Error::StreamconnectionError("refused".to_string()).message(),
        "Error establishing connection: refused"
    );
}
