use minihttp::data::{Method, Version};
use minihttp::parser::{parse, ParseResult};

#[test]
fn http10_get_success_root() {
    let req = b"GET /\r\n";
    let res = parse(req);
    assert!(res.is_complete());
}

#[test]
fn http09_get_success_foo_bar() {
    let req = b"GET /foo/bar\r\n";
    let res = parse(req);
    assert!(res.is_complete());
}

#[test]
fn http10_get_partial_root() {
    let req = b"GET /\r";
    let res = parse(req);
    assert!(res.is_partial());
}

#[test]
#[should_panic]
fn http10_post_failure() {
    let req = b"POST /\r\n";
    let res = parse(req);
    assert!(res.is_complete());
}

#[test]
fn http10_curl_request() {
    let req = b"GET /Calgo.toml HTTP/1.0\r\nHost: localhost:8080\r\nUser-Agent: curl/7.52.1\r\nAccept: */*\r\n\r\n";
    let res = parse(req);
    assert!(res.is_complete());
    let res = match res {
        ParseResult::Complete(r) => r,
        _ => unreachable!(),
    };
    assert_eq!(res.method, Method::Get);
    assert_eq!(res.path, "/Calgo.toml");
    assert_eq!(res.version, Version::HTTP10);
}

#[test]
fn fallback_to_09() {
    let res = match parse(b"GET /\r\n") {
        ParseResult::Complete(r) => r,
        _ => unreachable!(),
    };
    assert_eq!(res.method, Method::Get);
    assert_eq!(res.path, "/");
    assert_eq!(res.version, Version::HTTP09);
    assert!(res.headers.is_empty());
    assert!(res.body.is_none());
}

#[test]
fn priority_of_10_over_09() {
    let res = match parse(b"GET / HTTP/1.0\r\nHost: x\r\n\r\n") {
        ParseResult::Complete(r) => r,
        _ => unreachable!(),
    };
    assert_eq!(res.version, Version::HTTP10);
    assert_eq!(res.path, "/");
    assert_eq!(res.headers.len(), 1);
    assert_eq!(res.headers[0].0, "Host");
    assert_eq!(res.headers[0].1, Some(b"x".to_vec()));
}

#[test]
fn rejection_under_both_dialects() {
    let res = parse(b"POST /\r\n");
    assert!(matches!(res, ParseResult::Error));
}

#[test]
fn content_length_gates_completion() {
    let head = b"GET / HTTP/1.0\r\nContent-Length: 10\r\n\r\n";
    let mut short = head.to_vec();
    short.extend_from_slice(b"12345678");
    assert!(parse(&short).is_partial());
    let mut full = head.to_vec();
    full.extend_from_slice(b"1234567890");
    let res = match parse(&full) {
        ParseResult::Complete(r) => r,
        _ => unreachable!(),
    };
    assert_eq!(res.body, Some(b"1234567890".to_vec()));
}

#[test]
fn trailing_bytes_after_body_are_ignored() {
    let mut req = b"GET / HTTP/1.0\r\nContent-Length: 3\r\n\r\n".to_vec();
    req.extend_from_slice(b"abcdef");
    let res = match parse(&req) {
        ParseResult::Complete(r) => r,
        _ => unreachable!(),
    };
    assert_eq!(res.body, Some(b"abc".to_vec()));
}

#[test]
fn duplicate_header_keeps_last_value() {
    let res = match parse(b"GET / HTTP/1.0\r\nA: 1\r\nA: 2\r\n\r\n") {
        ParseResult::Complete(r) => r,
        _ => unreachable!(),
    };
    let hits: Vec<_> = res.headers.iter().filter(|p| p.0 == "A").collect();
    assert_eq!(hits.len(), 1);
    assert_eq!(hits[0].1, Some(b"2".to_vec()));
}

#[test]
fn partial_inside_version_token() {
    let res = parse(b"POST / HTTP/1.");
    assert!(res.is_partial());
}

#[test]
fn extension_method_keeps_verb_text() {
    let res = match parse(b"FROB /thing HTTP/1.0\r\n\r\n") {
        ParseResult::Complete(r) => r,
        _ => unreachable!(),
    };
    assert_eq!(res.method, Method::Ext("FROB".to_string()));
    assert_eq!(res.path, "/thing");
}

#[test]
fn bad_content_length_fails_10_but_wins_as_09() {
    // The 1.0 reading rejects the unparsable length; the 0.9 fallback then
    // accepts the whole line as a path.
    let res = match parse(b"GET / HTTP/1.0\r\nContent-Length: ten\r\n\r\n") {
        ParseResult::Complete(r) => r,
        _ => unreachable!(),
    };
    assert_eq!(res.version, Version::HTTP09);
}

#[test]
fn bad_content_length_under_post_is_rejected() {
    let res = parse(b"POST / HTTP/1.0\r\nContent-Length: ten\r\n\r\n");
    assert!(matches!(res, ParseResult::Error));
}

#[test]
fn content_length_without_value_is_rejected() {
    let res = parse(b"POST / HTTP/1.0\r\nContent-Length: \r\n\r\n");
    assert!(matches!(res, ParseResult::Error));
}

#[test]
fn empty_buffer_is_rejected() {
    let res = parse(b"");
    assert!(matches!(res, ParseResult::Error));
}

#[test]
fn header_without_value_parses() {
    let res = match parse(b"GET / HTTP/1.0\r\nX-Flag: \r\n\r\n") {
        ParseResult::Complete(r) => r,
        _ => unreachable!(),
    };
    assert_eq!(res.headers.len(), 1);
    assert_eq!(res.headers[0].0, "X-Flag");
    assert_eq!(res.headers[0].1, None);
}
