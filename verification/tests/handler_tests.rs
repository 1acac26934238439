use minihttp::data::{Status, Version};
use minihttp::handler::{CanonOutcome, Decision, FileHandler, ReadOutcome};
use minihttp::parser::{parse, ParseResult};
use minihttp::server::{Server, SessionAction};

#[test]
fn target_path_strips_leading_separators() {
    let fh = FileHandler::new("/srv/www".to_string());
    assert_eq!(fh.target_path("/index.html"), "/srv/www/index.html");
    assert_eq!(fh.target_path("///a/b"), "/srv/www/a/b");
    assert_eq!(fh.target_path("plain"), "/srv/www/plain");
    assert_eq!(fh.target_path(""), "/srv/www/");
}

#[test]
fn target_path_keeps_dotdot_for_canonicalization() {
    let fh = FileHandler::new("/srv/www".to_string());
    assert_eq!(fh.target_path("../../etc/passwd"), "/srv/www/../../etc/passwd");
}

#[test]
fn contains_respects_component_boundaries() {
    let fh = FileHandler::new("/srv/www".to_string());
    assert!(fh.contains("/srv/www"));
    assert!(fh.contains("/srv/www/a/b"));
    assert!(!fh.contains("/srv/www2"));
    assert!(!fh.contains("/etc/passwd"));
    let root = FileHandler::new("/".to_string());
    assert!(root.contains("/etc"));
}

#[test]
fn traversal_resolves_to_bad_request() {
    let fh = FileHandler::new("/srv/www".to_string());
    match fh.decide(CanonOutcome::Canonical("/etc/passwd".to_string())) {
        Decision::Respond(r) => {
            assert_eq!(r.status, Status::BadRequest);
            assert!(r.body.is_none());
        },
        Decision::Read(_) => panic!("an escaped path must never be read"),
    }
}

#[test]
fn contained_path_is_read() {
    let fh = FileHandler::new("/srv/www".to_string());
    match fh.decide(CanonOutcome::Canonical("/srv/www/index.html".to_string())) {
        Decision::Read(p) => assert_eq!(p, "/srv/www/index.html"),
        Decision::Respond(_) => panic!("a contained path must be read"),
    }
}

#[test]
fn canonicalization_failures_map_to_statuses() {
    let fh = FileHandler::new("/srv/www".to_string());
    match fh.decide(CanonOutcome::MissingPath) {
        Decision::Respond(r) => assert_eq!(r.status, Status::NotFound),
        _ => panic!(),
    }
    match fh.decide(CanonOutcome::OtherFailure) {
        Decision::Respond(r) => assert_eq!(r.status, Status::InternalServerError),
        _ => panic!(),
    }
}

#[test]
fn read_outcomes_map_to_statuses() {
    let fh = FileHandler::new("/srv/www".to_string());
    let ok = fh.respond(ReadOutcome::Content(b"hi".to_vec()));
    assert_eq!(ok.status, Status::Okay);
    assert_eq!(ok.body, Some(b"hi".to_vec()));
    let missing = fh.respond(ReadOutcome::MissingFile);
    assert_eq!(missing.status, Status::NotFound);
    assert!(missing.body.is_none());
    let failed = fh.respond(ReadOutcome::ReadFailure);
    assert_eq!(failed.status, Status::InternalServerError);
    assert!(failed.body.is_none());
}

#[test]
fn end_to_end_index_html() {
    let _server = Server::new();
    let req = match parse(b"GET /index.html HTTP/1.0\r\n\r\n") {
        ParseResult::Complete(r) => r,
        _ => unreachable!(),
    };
    assert_eq!(req.version, Version::HTTP10);
    let fh = FileHandler::new("/root".to_string());
    let target = fh.target_path(&req.path);
    assert_eq!(target, "/root/index.html");
    // the canonical form of an existing target equals the joined path here
    let res = match fh.decide(CanonOutcome::Canonical(target)) {
        Decision::Read(_) => fh.respond(ReadOutcome::Content(b"hi".to_vec())),
        Decision::Respond(r) => r,
    };
    assert_eq!(res.status, Status::Okay);
    assert_eq!(res.body, Some(b"hi".to_vec()));
    let mut wire = Vec::new();
    res.print_http(&mut wire);
    assert_eq!(wire, b"HTTP/1.0 200 Ok\r\nContent-Length: 2\r\n\r\nhi".to_vec());
}

#[test]
fn end_to_end_missing_file() {
    let req = match parse(b"GET /missing HTTP/1.0\r\n\r\n") {
        ParseResult::Complete(r) => r,
        _ => unreachable!(),
    };
    let fh = FileHandler::new("/root".to_string());
    let _target = fh.target_path(&req.path);
    // a missing target fails to canonicalize with a not-found error
    let res = match fh.decide(CanonOutcome::MissingPath) {
        Decision::Respond(r) => r,
        Decision::Read(_) => unreachable!(),
    };
    assert_eq!(res.status, Status::NotFound);
    assert!(res.body.is_none());
    let mut wire = Vec::new();
    res.print_http(&mut wire);
    assert_eq!(wire, b"HTTP/1.0 404 Not Fonud\r\n\r\n".to_vec());
}

#[test]
fn session_steps_cover_all_outcomes() {
    let server = Server::new();
    match server.on_data(b"GET /\r") {
        SessionAction::Wait => {},
        _ => panic!("an unterminated line must wait for more bytes"),
    }
    match server.on_data(b"POST /\r\n") {
        SessionAction::Reply(r) => {
            assert_eq!(r.status, Status::BadRequest);
            assert!(r.body.is_none());
            assert_eq!(r.version, Version::HTTP10);
        },
        _ => panic!("rejected bytes must earn a Bad Request"),
    }
    match server.on_data(b"GET /index.html HTTP/1.0\r\n\r\n") {
        SessionAction::Dispatch(req) => assert_eq!(req.path, "/index.html"),
        _ => panic!("a complete request must be dispatched"),
    }
}
