use minihttp::data::{Response, Status, Version};

fn rendered(res: &Response) -> Vec<u8> {
    let mut wire = Vec::new();
    res.print_http(&mut wire);
    wire
}

#[test]
fn round_trip_auto_content_length() {
    let mut res = Response::new(Status::Okay);
    res.body = Some(b"hello".to_vec());
    let wire = rendered(&res);
    assert_eq!(wire, b"HTTP/1.0 200 Ok\r\nContent-Length: 5\r\n\r\nhello".to_vec());
}

#[test]
fn empty_body_still_counted() {
    let mut res = Response::new(Status::Okay);
    res.body = Some(Vec::new());
    let wire = rendered(&res);
    assert_eq!(wire, b"HTTP/1.0 200 Ok\r\nContent-Length: 0\r\n\r\n".to_vec());
}

#[test]
fn status_lines_keep_wire_phrases() {
    assert_eq!(
        rendered(&Response::new(Status::BadRequest)),
        b"HTTP/1.0 400 Bad Request\r\n\r\n".to_vec()
    );
    assert_eq!(
        rendered(&Response::new(Status::NotFound)),
        b"HTTP/1.0 404 Not Fonud\r\n\r\n".to_vec()
    );
    assert_eq!(
        rendered(&Response::new(Status::InternalServerError)),
        b"HTTP/1.0 500 Internal Server Error\r\n\r\n".to_vec()
    );
}

#[test]
fn dialect_09_sends_raw_body_only() {
    let mut res = Response::new(Status::Okay);
    res.version = Version::HTTP09;
    res.body = Some(b"hello".to_vec());
    assert_eq!(rendered(&res), b"hello".to_vec());
}

#[test]
fn dialect_09_empty() {
    let mut res = Response::new(Status::NotFound);
    res.version = Version::HTTP09;
    assert_eq!(rendered(&res), b"".to_vec());
}

#[test]
fn set_header_rejects_line_breaks() {
    let mut res = Response::new(Status::Okay);
    assert!(!res.set_header("X-Bad".to_string(), Some(b"a\r\nb".to_vec())));
    assert!(!res.set_header("X\rY".to_string(), None));
    assert!(!res.set_header("X\nY".to_string(), Some(b"v".to_vec())));
    assert_eq!(rendered(&res), b"HTTP/1.0 200 Ok\r\n\r\n".to_vec());
}

#[test]
fn set_and_get_header() {
    let mut res = Response::new(Status::Okay);
    assert!(res.set_header("Server".to_string(), Some(b"mini".to_vec())));
    assert_eq!(res.get_header("Server"), Some(&b"mini".to_vec()));
    assert_eq!(res.get_header("Absent"), None);
}

#[test]
fn set_header_overwrites_previous_value() {
    let mut res = Response::new(Status::Okay);
    assert!(res.set_header("Server".to_string(), Some(b"one".to_vec())));
    assert!(res.set_header("Server".to_string(), Some(b"two".to_vec())));
    assert_eq!(res.get_header("Server"), Some(&b"two".to_vec()));
    let wire = rendered(&res);
    assert_eq!(wire, b"HTTP/1.0 200 Ok\r\nServer: two\r\n\r\n".to_vec());
}

#[test]
fn header_without_value_renders_bare_colon() {
    let mut res = Response::new(Status::Okay);
    assert!(res.set_header("X-Empty".to_string(), None));
    assert_eq!(res.get_header("X-Empty"), None);
    assert_eq!(rendered(&res), b"HTTP/1.0 200 Ok\r\nX-Empty:\r\n\r\n".to_vec());
}

#[test]
fn explicit_content_length_suppresses_auto_header() {
    let mut res = Response::new(Status::Okay);
    assert!(res.set_header("Content-Length".to_string(), Some(b"2".to_vec())));
    res.body = Some(b"hi".to_vec());
    assert_eq!(
        rendered(&res),
        b"HTTP/1.0 200 Ok\r\nContent-Length: 2\r\n\r\nhi".to_vec()
    );
}

#[test]
fn large_length_renders_all_digits() {
    let mut res = Response::new(Status::Okay);
    res.body = Some(vec![120u8; 1234]);
    let wire = rendered(&res);
    let head = b"HTTP/1.0 200 Ok\r\nContent-Length: 1234\r\n\r\n";
    assert_eq!(&wire[..head.len()], &head[..]);
    assert_eq!(wire.len(), head.len() + 1234);
}
