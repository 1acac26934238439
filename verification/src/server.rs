//! The per-connection session owner.
//!
//! A session accumulates the bytes of one request and answers exactly once.
//! The transport work — accepting, reading, writing — happens outside the
//! library; the decision taken after every received chunk is made here.

use vstd::prelude::*;

use crate::data::{Request, Response, Status, Version};
use crate::parser::{parse, ParseResult, SpecParse};

verus! {

/// What the session does next with the bytes received so far.
pub enum SessionAction {
    /// A valid prefix: read more bytes and ask again.
    Wait,
    /// A terminal verdict on the bytes alone: write this response, close.
    Reply(Response),
    /// A complete request: hand it to the file handler, answer, close.
    Dispatch(Request),
}

/// Owns the engine driving one connection at a time.
#[derive(Clone, Copy, Debug)]
pub struct Server;

impl Server {
    /// A fresh server.
    pub fn new() -> (s: Self)
        ensures
            s == Server,
    {
        Server
    }

    /// One decision step of the session loop: parse the accumulated bytes
    /// and choose what follows.  A still-arriving request waits; bytes that
    /// can never parse under either dialect earn a Bad Request with an
    /// empty body under 1.0 framing; a complete request is handed on.
    pub fn on_data(&self, buf: &[u8]) -> (a: SessionAction)
        ensures
            match crate::parser::spec_parse(buf@) {
                SpecParse::Partial => a is Wait,
                SpecParse::Error => a matches SessionAction::Reply(r) && r.status
                    == Status::BadRequest && r.version == Version::HTTP10 && r.body is None
                    && r.hdrs().len() == 0 && r.wf(),
                SpecParse::Complete(sr) => a matches SessionAction::Dispatch(q) && q@ == sr
                    && q.wf(),
            },
    {
        match parse(buf) {
            ParseResult::Partial => SessionAction::Wait,
            ParseResult::Error => SessionAction::Reply(Response::new(Status::BadRequest)),
            ParseResult::Complete(q) => SessionAction::Dispatch(q),
        }
    }
}

} // verus!
