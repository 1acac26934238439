//! The path-confinement file handler.
//!
//! The handler owns a canonical root directory as text.  It joins a request
//! path onto that root, and once the joined path has been canonicalized (a
//! filesystem step that happens outside the library), it refuses any result
//! that does not stay under the root — canonicalization first, containment
//! second, so a symlink cannot escape unseen.  Read outcomes map to the
//! fixed statuses of the protocol.

use vstd::prelude::*;

use crate::data::{Response, Status, Version};

verus! {

/// What canonicalizing the joined target path produced.  The filesystem
/// walk itself happens outside the library and reports back through this
/// type as plain values.
pub enum CanonOutcome {
    /// The canonical, absolute, symlink-free form of the target.
    Canonical(String),
    /// The target does not exist.
    MissingPath,
    /// Any other failure while canonicalizing.
    OtherFailure,
}

/// What reading the target file produced.
pub enum ReadOutcome {
    /// The whole file.
    Content(Vec<u8>),
    /// The file does not exist.
    MissingFile,
    /// Any other failure while opening or reading.
    ReadFailure,
}

/// The handler's verdict on one request: open and read this canonical
/// path, or send this response unchanged.
pub enum Decision {
    Read(String),
    Respond(Response),
}

/// The path with its leading separators removed, so that it joins as a
/// relative path.
pub open spec fn strip_slashes(p: Seq<char>) -> Seq<char>
    decreases p.len(),
{
    if p.len() > 0 && p[0] == '/' {
        strip_slashes(p.skip(1))
    } else {
        p
    }
}

/// The joined target: the root, a separator, and the stripped request
/// path.
pub open spec fn spec_target(root: Seq<char>, path: Seq<char>) -> Seq<char> {
    root + "/"@ + strip_slashes(path)
}

/// Containment of one canonical path under another: the root is a prefix,
/// and the prefix ends on a path-component boundary.
pub open spec fn path_contained(root: Seq<char>, target: Seq<char>) -> bool {
    &&& root.is_prefix_of(target)
    &&& (target.len() == root.len() || target[root.len() as int] == '/' || (root.len() > 0
        && root[root.len() - 1] == '/'))
}

/// Serves files from one canonical root directory.
pub struct FileHandler {
    root: String,
}

impl FileHandler {
    /// The root directory as text.
    pub closed spec fn root_text(&self) -> Seq<char> {
        self.root@
    }

    /// A handler confined to the given canonical root.
    pub fn new(root: String) -> (h: FileHandler)
        ensures
            h.root_text() == root@,
    {
        FileHandler { root }
    }

    /// The request path, made relative and joined onto the root.
    pub fn target_path(&self, path: &str) -> (t: String)
        ensures
            t@ == spec_target(self.root_text(), path@),
    {
        let n = path.unicode_len();
        let mut k: usize = 0;
        proof {
            assert(path@.skip(0) =~= path@);
        }
        loop
            invariant
                k <= n,
                n == path@.len(),
                strip_slashes(path@) == strip_slashes(path@.skip(k as int)),
            ensures
                k <= n == path@.len(),
                strip_slashes(path@) == path@.skip(k as int),
            decreases n - k,
        {
            if k == n {
                proof {
                    assert(path@.skip(k as int) =~= Seq::<char>::empty());
                }
                break;
            }
            if path.get_char(k) != '/' {
                break;
            }
            proof {
                assert(path@.skip(k as int).skip(1) =~= path@.skip(k as int + 1));
            }
            k = k + 1;
        }
        let rest = path.substring_char(k, n);
        let mut t = self.root.clone();
        t.append("/");
        t.append(rest);
        t
    }

    /// True when the canonical target stays under the root: the root is a
    /// prefix and ends on a component boundary.
    pub fn contains(&self, target: &str) -> (b: bool)
        ensures
            b == path_contained(self.root_text(), target@),
    {
        let rl = self.root.as_str().unicode_len();
        let tl = target.unicode_len();
        if rl > tl {
            return false;
        }
        let mut k: usize = 0;
        loop
            invariant
                k <= rl <= tl,
                rl == self.root@.len(),
                tl == target@.len(),
                forall|t: int| 0 <= t < k ==> self.root@[t] == target@[t],
            ensures
                rl == self.root@.len(),
                tl == target@.len(),
                forall|t: int| 0 <= t < rl ==> self.root@[t] == target@[t],
            decreases rl - k,
        {
            if k == rl {
                break;
            }
            if self.root.as_str().get_char(k) != target.get_char(k) {
                proof {
                    assert(!self.root@.is_prefix_of(target@)) by {
                        if self.root@.is_prefix_of(target@) {
                            assert(target@.subrange(0, rl as int)[k as int] == target@[k as int]);
                        }
                    }
                }
                return false;
            }
            k = k + 1;
        }
        proof {
            assert(self.root@ =~= target@.subrange(0, rl as int));
        }
        if tl == rl {
            return true;
        }
        if target.get_char(rl) == '/' {
            return true;
        }
        if rl > 0 && self.root.as_str().get_char(rl - 1) == '/' {
            return true;
        }
        false
    }

    /// The verdict on the canonicalization outcome.  A canonical path that
    /// does not stay under the root is answered with Bad Request and is
    /// never read — the traversal defense; a missing target is Not Found;
    /// any other canonicalization failure is an internal error.
    pub fn decide(&self, c: CanonOutcome) -> (d: Decision)
        ensures
            match c {
                CanonOutcome::Canonical(p) => {
                    if path_contained(self.root_text(), p@) {
                        d matches Decision::Read(q) && q@ == p@
                    } else {
                        d matches Decision::Respond(r) && r.status == Status::BadRequest
                            && r.version == Version::HTTP10 && r.body is None && r.hdrs().len()
                            == 0 && r.wf()
                    }
                },
                CanonOutcome::MissingPath => d matches Decision::Respond(r) && r.status
                    == Status::NotFound && r.version == Version::HTTP10 && r.body is None
                    && r.hdrs().len() == 0 && r.wf(),
                CanonOutcome::OtherFailure => d matches Decision::Respond(r) && r.status
                    == Status::InternalServerError && r.version == Version::HTTP10 && r.body
                    is None && r.hdrs().len() == 0 && r.wf(),
            },
    {
        match c {
            CanonOutcome::Canonical(p) => {
                if self.contains(p.as_str()) {
                    Decision::Read(p)
                } else {
                    Decision::Respond(Response::new(Status::BadRequest))
                }
            },
            CanonOutcome::MissingPath => Decision::Respond(Response::new(Status::NotFound)),
            CanonOutcome::OtherFailure => Decision::Respond(
                Response::new(Status::InternalServerError),
            ),
        }
    }

    /// The response owed for a read outcome: the file bytes under Ok, Not
    /// Found for a missing file, an internal error otherwise.
    pub fn respond(&self, r: ReadOutcome) -> (resp: Response)
        ensures
            match r {
                ReadOutcome::Content(b) => resp.status == Status::Okay
                    && crate::data::opt_bytes(resp.body) == Some(b@),
                ReadOutcome::MissingFile => resp.status == Status::NotFound && resp.body is None,
                ReadOutcome::ReadFailure => resp.status == Status::InternalServerError
                    && resp.body is None,
            },
            resp.version == Version::HTTP10,
            resp.hdrs().len() == 0,
            resp.wf(),
    {
        match r {
            ReadOutcome::Content(b) => {
                let mut resp = Response::new(Status::Okay);
                resp.body = Some(b);
                resp
            },
            ReadOutcome::MissingFile => Response::new(Status::NotFound),
            ReadOutcome::ReadFailure => Response::new(Status::InternalServerError),
        }
    }
}

} // verus!
