//! The data model: protocol versions, methods, statuses, requests and
//! responses, together with their mathematical views.

use vstd::prelude::*;

use vstd::utf8::{decode_utf8, encode_utf8, encode_utf8_decode_utf8};

verus! {

/// A protocol dialect: HTTP/0.9 or HTTP/1.0.
#[derive(Debug, Clone, PartialEq, Eq, Hash, Structural)]
pub enum Version {
    HTTP09,
    HTTP10,
}

impl Default for Version {
    /// The default dialect is HTTP/1.0.
    fn default() -> (v: Self)
        ensures
            v == Version::HTTP10,
    {
        Version::HTTP10
    }
}

/// A request method: the three verbs of RFC 1945 plus extension methods,
/// which carry their raw verb text.
#[derive(Debug, Clone, PartialEq, Eq)]
pub enum Method {
    Get,
    Head,
    Post,
    Ext(String),
}

/// The mathematical value of a [`Method`]: an extension verb is its text.
#[verifier::ext_equal]
pub ghost enum SpecMethod {
    Get,
    Head,
    Post,
    Ext(Seq<char>),
}

impl View for Method {
    type V = SpecMethod;

    open spec fn view(&self) -> SpecMethod {
        match self {
            Method::Get => SpecMethod::Get,
            Method::Head => SpecMethod::Head,
            Method::Post => SpecMethod::Post,
            Method::Ext(s) => SpecMethod::Ext(s@),
        }
    }
}

impl Default for Method {
    /// The default method is GET.
    fn default() -> (m: Self)
        ensures
            m == Method::Get,
    {
        Method::Get
    }
}

/// A response status.
#[derive(Debug, Clone, PartialEq, Eq, Hash, Structural)]
pub enum Status {
    /// 200 Ok
    Okay,
    /// 400 Bad Request
    BadRequest,
    /// 404 Not Found (spelled `Not Fonud` on the wire, kept for compatibility)
    NotFound,
    /// 500 Internal Server Error
    InternalServerError,
}

impl Default for Status {
    /// The default status is Ok.
    fn default() -> (s: Self)
        ensures
            s == Status::Okay,
    {
        Status::Okay
    }
}

/// Header fields are kept as a list of pairs: a name and an optional value.
/// A name that occurs in the list occurs exactly once (`names_unique`); a
/// repeated insertion overwrites the previous value.
pub open spec fn names_unique(prs: Seq<(String, Option<Vec<u8>>)>) -> bool {
    forall|j1: int, j2: int| 0 <= j1 < j2 < prs.len() ==> prs[j1].0@ != prs[j2].0@
}

/// The view of an optional owned byte value.
pub open spec fn opt_bytes(v: Option<Vec<u8>>) -> Option<Seq<u8>> {
    match v {
        Some(b) => Some(b@),
        None => None,
    }
}

/// True when some pair of the list carries the given name.
pub open spec fn has_name(prs: Seq<(String, Option<Vec<u8>>)>, k: Seq<char>) -> bool {
    exists|j: int| 0 <= j < prs.len() && prs[j].0@ == k
}

/// The value stored under the given name (meaningful when the names are
/// unique and the name is present).
pub open spec fn name_value(prs: Seq<(String, Option<Vec<u8>>)>, k: Seq<char>) -> Option<
    Seq<u8>,
> {
    opt_bytes(prs[choose|j: int| 0 <= j < prs.len() && prs[j].0@ == k].1)
}

/// The list of header pairs as a mapping from names to optional values.
pub open spec fn hdr_map(prs: Seq<(String, Option<Vec<u8>>)>) -> Map<Seq<char>, Option<Seq<u8>>> {
    Map::new(|k: Seq<char>| has_name(prs, k), |k: Seq<char>| name_value(prs, k))
}

/// An empty pair list maps no name.
pub proof fn lemma_hdr_map_empty(prs: Seq<(String, Option<Vec<u8>>)>)
    requires
        prs.len() == 0,
    ensures
        hdr_map(prs) == Map::<Seq<char>, Option<Seq<u8>>>::empty(),
{
    assert(hdr_map(prs) =~= Map::<Seq<char>, Option<Seq<u8>>>::empty());
}

/// A parsed request.
#[derive(Debug, Clone, PartialEq, Eq)]
pub struct Request {
    pub path: String,
    pub method: Method,
    pub version: Version,
    /// Header names are compared case-sensitively, a documented
    /// simplification; a repeated name overwrites the previous value.
    pub headers: Vec<(String, Option<Vec<u8>>)>,
    pub body: Option<Vec<u8>>,
}

/// The mathematical value of a [`Request`].
#[verifier::ext_equal]
pub ghost struct SpecRequest {
    pub method: SpecMethod,
    pub path: Seq<char>,
    pub version: Version,
    pub headers: Map<Seq<char>, Option<Seq<u8>>>,
    pub body: Option<Seq<u8>>,
}

impl View for Request {
    type V = SpecRequest;

    open spec fn view(&self) -> SpecRequest {
        SpecRequest {
            method: self.method@,
            path: self.path@,
            version: self.version,
            headers: hdr_map(self.headers@),
            body: opt_bytes(self.body),
        }
    }
}

impl Request {
    /// Structural well-formedness: each header name occurs at most once.
    pub open spec fn wf(&self) -> bool {
        names_unique(self.headers@)
    }

    /// A fresh request with the given method and path; the other fields take
    /// their default values.
    pub fn new(method: Method, path: String) -> (r: Request)
        ensures
            r@.method == method@,
            r@.path == path@,
            r@.version == Version::HTTP10,
            r@.headers == Map::<Seq<char>, Option<Seq<u8>>>::empty(),
            r.headers@.len() == 0,
            r@.body is None,
            r.wf(),
    {
        let r = Request { path, method, ..Default::default() };
        proof {
            lemma_hdr_map_empty(r.headers@);
        }
        r
    }
}

impl Default for Request {
    /// An empty GET request for the empty path under the default dialect.
    fn default() -> (r: Self)
        ensures
            r@.method == SpecMethod::Get,
            r@.path == Seq::<char>::empty(),
            r@.version == Version::HTTP10,
            r.headers@.len() == 0,
            r@.body is None,
            r.wf(),
    {
        Request {
            path: String::new(),
            method: Method::Get,
            version: Version::HTTP10,
            headers: Vec::new(),
            body: None,
        }
    }
}


/// Byte-for-byte equality of two slices.
pub(crate) fn bytes_eq(a: &[u8], b: &[u8]) -> (r: bool)
    ensures
        r == (a@ == b@),
{
    if a.len() != b.len() {
        return false;
    }
    let mut k: usize = 0;
    while k < a.len()
        invariant
            k <= a@.len(),
            a@.len() == b@.len(),
            forall|t: int| 0 <= t < k ==> a@[t] == b@[t],
        decreases a@.len() - k,
    {
        if a[k] != b[k] {
            return false;
        }
        k = k + 1;
    }
    proof {
        assert(a@ =~= b@);
    }
    true
}

/// With unique names, the stored value under a present name is the value of
/// the one pair that carries it.
pub proof fn lemma_name_value(prs: Seq<(String, Option<Vec<u8>>)>, k: Seq<char>, j: int)
    requires
        names_unique(prs),
        0 <= j < prs.len(),
        prs[j].0@ == k,
    ensures
        has_name(prs, k),
        name_value(prs, k) == opt_bytes(prs[j].1),
{
    let jc = choose|t: int| 0 <= t < prs.len() && prs[t].0@ == k;
    assert(0 <= jc < prs.len() && prs[jc].0@ == k);
    assert(jc == j);
}

/// The index of the pair that carries the given name, if any.
pub(crate) fn find_name(headers: &Vec<(String, Option<Vec<u8>>)>, name: &String) -> (r: Option<usize>)
    ensures
        match r {
            Some(j) => j < headers@.len() && headers@[j as int].0@ == name@,
            None => forall|t: int| 0 <= t < headers@.len() ==> headers@[t].0@ != name@,
        },
{
    let n = headers.len();
    let mut j: usize = 0;
    while j < n
        invariant
            j <= n == headers@.len(),
            forall|t: int| 0 <= t < j ==> headers@[t].0@ != name@,
        decreases n - j,
    {
        if headers[j].0 == *name {
            return Some(j);
        }
        j = j + 1;
    }
    None
}

/// Stores a header: a repeated name overwrites the previous value, so the
/// names stay unique and the mapping gains exactly this entry.
pub(crate) fn insert_header(headers: &mut Vec<(String, Option<Vec<u8>>)>, name: String, value: Option<Vec<u8>>)
    requires
        names_unique(old(headers)@),
    ensures
        names_unique(final(headers)@),
        hdr_map(final(headers)@) == hdr_map(old(headers)@).insert(
            name@,
            opt_bytes(value),
        ),
        forall|t: int|
            0 <= t < final(headers)@.len() ==> final(headers)@[t] == (name, value)
                || exists|t0: int|
                0 <= t0 < old(headers)@.len() && final(headers)@[t] == #[trigger] old(
                    headers,
                )@[t0],
{
    let ghost prs0 = headers@;
    let found = find_name(headers, &name);
    let ghost j_removed: Option<int> = match found {
        Some(j) => Some(j as int),
        None => None,
    };
    match found {
        Some(j) => {
            headers.remove(j);
        },
        None => {},
    }
    let ghost mid = headers@;
    proof {
        match j_removed {
            Some(j) => {
                assert(mid =~= prs0.remove(j));
                assert forall|t: int| 0 <= t < mid.len() implies #[trigger] mid[t].0@ != name@ by {
                    if t < j {
                        assert(mid[t] == prs0[t]);
                    } else {
                        assert(mid[t] == prs0[t + 1]);
                    }
                }
            },
            None => {},
        }
        assert(names_unique(mid)) by {
            match j_removed {
                Some(j) => {
                    assert forall|t1: int, t2: int|
                        0 <= t1 < t2 < mid.len() implies mid[t1].0@ != mid[t2].0@ by {
                        assert(mid[t1] == (if t1 < j { prs0[t1] } else { prs0[t1 + 1] }));
                        assert(mid[t2] == (if t2 < j { prs0[t2] } else { prs0[t2 + 1] }));
                    }
                },
                None => {},
            }
        }
    }
    headers.push((name, value));
    proof {
        let new = headers@;
        let tgt = hdr_map(prs0).insert(name@, opt_bytes(value));
        assert(new[new.len() - 1] == (name, value));
        assert(names_unique(new));
        assert forall|k: Seq<char>| #[trigger] has_name(new, k) implies (k == name@
            || has_name(prs0, k)) by {
            if k != name@ {
                let t = choose|t: int| 0 <= t < new.len() && new[t].0@ == k;
                assert(t < mid.len() && new[t] == mid[t]);
                match j_removed {
                    Some(j) => {
                        assert(mid[t] == (if t < j { prs0[t] } else { prs0[t + 1] }));
                        if t < j {
                            assert(prs0[t].0@ == k);
                        } else {
                            assert(prs0[t + 1].0@ == k);
                        }
                    },
                    None => {},
                }
            }
        }
        assert forall|k: Seq<char>| #[trigger] has_name(prs0, k) && k != name@
            implies has_name(new, k) && name_value(new, k)
            == name_value(prs0, k) by {
            let t0 = choose|t: int| 0 <= t < prs0.len() && prs0[t].0@ == k;
            let u: int = match j_removed {
                Some(j) => {
                    assert(t0 != j);
                    if t0 < j {
                        assert(mid[t0] == prs0[t0]);
                        t0
                    } else {
                        assert(mid[t0 - 1] == prs0[t0]);
                        t0 - 1
                    }
                },
                None => t0,
            };
            assert(0 <= u < mid.len() && mid[u] == prs0[t0]);
            assert(new[u].0@ == k);
            lemma_name_value(new, k, u);
            lemma_name_value(prs0, k, t0);
        }
        assert(has_name(new, name@)) by {
            assert(new[new.len() - 1].0@ == name@);
        }
        lemma_name_value(new, name@, new.len() - 1);
        assert(hdr_map(new) =~= tgt);
    }
}


/// Text equality, decided byte-for-byte on the UTF-8 encodings.
pub(crate) fn str_eq(a: &str, b: &str) -> (r: bool)
    ensures
        r == (a@ == b@),
{
    let e = bytes_eq(a.as_bytes(), b.as_bytes());
    proof {
        encode_utf8_decode_utf8(a@);
        encode_utf8_decode_utf8(b@);
        assert(decode_utf8(encode_utf8(a@)) == a@);
        assert(decode_utf8(encode_utf8(b@)) == b@);
    }
    e
}

/// True when no byte of the sequence is a carriage return or a line feed.
pub open spec fn crlf_free(b: Seq<u8>) -> bool {
    forall|k: int| 0 <= k < b.len() ==> b[k] != 13u8 && b[k] != 10u8
}

/// Exec check for `crlf_free`.
fn crlf_free_exec(b: &[u8]) -> (r: bool)
    ensures
        r == crlf_free(b@),
{
    let n = b.len();
    let mut k: usize = 0;
    while k < n
        invariant
            k <= n == b@.len(),
            forall|t: int| 0 <= t < k ==> b@[t] != 13u8 && b@[t] != 10u8,
        decreases n - k,
    {
        let c = b[k];
        if c == 13 || c == 10 {
            return false;
        }
        k = k + 1;
    }
    true
}

/// A stored header pair is wire-safe: no line break hides in the encoded
/// name or in the value.
pub open spec fn hdr_ok(p: (String, Option<Vec<u8>>)) -> bool {
    &&& crlf_free(encode_utf8(p.0@))
    &&& match p.1 {
        Some(v) => crlf_free(v@),
        None => true,
    }
}

/// The fixed status line of each status, under the 1.0 dialect.  The
/// reason phrases — including the historical spelling of 404 — are wire
/// format and must not change.
pub open spec fn status_line(st: Status) -> Seq<u8> {
    match st {
        Status::Okay => encode_utf8("HTTP/1.0 200 Ok\r\n"@),
        Status::BadRequest => encode_utf8("HTTP/1.0 400 Bad Request\r\n"@),
        Status::NotFound => encode_utf8("HTTP/1.0 404 Not Fonud\r\n"@),
        Status::InternalServerError => encode_utf8("HTTP/1.0 500 Internal Server Error\r\n"@),
    }
}

/// One rendered header line: the name, a colon (with a space only before a
/// present value), the value, the terminator.
pub open spec fn render_hdr(p: (String, Option<Vec<u8>>)) -> Seq<u8> {
    encode_utf8(p.0@) + (match p.1 {
        Some(v) => seq![58u8, 32u8] + v@,
        None => seq![58u8],
    }) + seq![13u8, 10u8]
}

/// The header lines from position `j` on, in storage order.
pub open spec fn render_hdrs_from(prs: Seq<(String, Option<Vec<u8>>)>, j: int) -> Seq<u8>
    decreases prs.len() - j,
    when 0 <= j <= prs.len()
{
    if j == prs.len() {
        Seq::empty()
    } else {
        render_hdr(prs[j]) + render_hdrs_from(prs, j + 1)
    }
}

/// All rendered header lines.
pub open spec fn render_hdrs(prs: Seq<(String, Option<Vec<u8>>)>) -> Seq<u8> {
    render_hdrs_from(prs, 0)
}

/// The decimal digits of a non-negative number, most significant first.
pub open spec fn dec_digits(n: int) -> Seq<u8>
    decreases n,
    when n >= 0
{
    if n < 10 {
        seq![(48 + n) as u8]
    } else {
        dec_digits(n / 10).push((48 + (n % 10)) as u8)
    }
}

/// Appends the decimal digits of `n`.
fn push_dec(out: &mut Vec<u8>, n: usize)
    ensures
        final(out)@ == old(out)@ + dec_digits(n as int),
    decreases n,
{
    if n < 10 {
        out.push(48 + n as u8);
        proof {
            assert(final(out)@ =~= old(out)@ + dec_digits(n as int));
        }
    } else {
        push_dec(out, n / 10);
        out.push(48 + (n % 10) as u8);
        proof {
            assert(final(out)@ =~= old(out)@ + dec_digits(n as int));
        }
    }
}

/// The stored header block of a response.  Its pair list is private:
/// values enter only through [`Response::set_header`], which refuses
/// embedded line breaks, so no stored header can ever break the framing.
#[derive(Debug, Clone, PartialEq, Eq)]
pub struct Headers {
    pairs: Vec<(String, Option<Vec<u8>>)>,
}

impl Headers {
    /// The stored pairs, in storage order.
    pub closed spec fn pairs(&self) -> Seq<(String, Option<Vec<u8>>)> {
        self.pairs@
    }
}

/// The response sent back over the wire.
#[derive(Debug, Clone, PartialEq, Eq)]
pub struct Response {
    pub status: Status,
    pub version: Version,
    pub headers: Headers,
    pub body: Option<Vec<u8>>,
}

impl Response {
    /// The stored header pairs, in storage order.
    pub open spec fn hdrs(&self) -> Seq<(String, Option<Vec<u8>>)> {
        self.headers.pairs()
    }

    /// The stored headers as a mapping from names to optional values.
    pub open spec fn hmap(&self) -> Map<Seq<char>, Option<Seq<u8>>> {
        hdr_map(self.hdrs())
    }

    /// Well-formedness: unique names, and no stored name or value holds a
    /// raw line break.
    pub open spec fn wf(&self) -> bool {
        &&& names_unique(self.hdrs())
        &&& forall|j: int| 0 <= j < self.hdrs().len() ==> hdr_ok(#[trigger] self.hdrs()[j])
    }

    /// The body bytes, empty when no body is set.
    pub open spec fn body_bytes(&self) -> Seq<u8> {
        match self.body {
            Some(b) => b@,
            None => Seq::empty(),
        }
    }

    /// The computed `Content-Length` line: present exactly when a body is
    /// set and no explicit `Content-Length` header is stored.
    pub open spec fn auto_cl(&self) -> Seq<u8> {
        if !has_name(self.hdrs(), "Content-Length"@) && self.body is Some {
            encode_utf8("Content-Length: "@) + dec_digits(self.body_bytes().len() as int) + seq![
                13u8,
                10u8,
            ]
        } else {
            Seq::empty()
        }
    }

    /// The full 1.0 rendering: status line, stored header lines, the
    /// computed `Content-Length` if owed, the empty line, the body.
    pub open spec fn render10(&self) -> Seq<u8> {
        status_line(self.status) + render_hdrs(self.hdrs()) + self.auto_cl() + seq![13u8, 10u8]
            + self.body_bytes()
    }

    /// The wire rendering under the response's own dialect: 0.9 sends the
    /// raw body alone, with no status line and no headers.
    pub open spec fn render(&self) -> Seq<u8> {
        match self.version {
            Version::HTTP09 => self.body_bytes(),
            Version::HTTP10 => self.render10(),
        }
    }

    /// A fresh response with the given status; the other fields take their
    /// default values.
    pub fn new(status: Status) -> (r: Response)
        ensures
            r.status == status,
            r.version == Version::HTTP10,
            r.hdrs().len() == 0,
            r.hmap() == Map::<Seq<char>, Option<Seq<u8>>>::empty(),
            r.body is None,
            r.wf(),
    {
        let r = Response { status, ..Default::default() };
        proof {
            lemma_hdr_map_empty(r.headers.pairs@);
        }
        r
    }

    /// The value stored under `name`: present exactly when the header is
    /// stored with a value.
    pub fn get_header<'slf>(&'slf self, name: &str) -> (r: Option<&'slf Vec<u8>>)
        requires
            self.wf(),
        ensures
            match r {
                Some(v) => self.hmap().contains_key(name@) && self.hmap()[name@] == Some(v@),
                None => !self.hmap().contains_key(name@) || self.hmap()[name@] is None,
            },
    {
        let n = self.headers.pairs.len();
        let mut j: usize = 0;
        while j < n
            invariant
                j <= n == self.headers.pairs@.len(),
                self.wf(),
                forall|t: int| 0 <= t < j ==> self.headers.pairs@[t].0@ != name@,
            decreases n - j,
        {
            if str_eq(self.headers.pairs[j].0.as_str(), name) {
                proof {
                    lemma_name_value(self.headers.pairs@, name@, j as int);
                }
                match &self.headers.pairs[j].1 {
                    Some(v) => {
                        return Some(v);
                    },
                    None => {
                        return None;
                    },
                }
            }
            j = j + 1;
        }
        None
    }

    /// True when a header of that name is stored, with or without a value.
    fn has_hdr(&self, name: &str) -> (r: bool)
        ensures
            r == has_name(self.headers.pairs@, name@),
    {
        let n = self.headers.pairs.len();
        let mut j: usize = 0;
        while j < n
            invariant
                j <= n == self.headers.pairs@.len(),
                forall|t: int| 0 <= t < j ==> self.headers.pairs@[t].0@ != name@,
            decreases n - j,
        {
            if str_eq(self.headers.pairs[j].0.as_str(), name) {
                return true;
            }
            j = j + 1;
        }
        false
    }

    /// Stores a header, refusing any name or value that carries a raw line
    /// break; a repeated name overwrites the previous value.  Returns
    /// whether the pair was accepted.
    pub fn set_header(&mut self, name: String, value: Option<Vec<u8>>) -> (ok: bool)
        requires
            old(self).wf(),
        ensures
            final(self).wf(),
            ok == hdr_ok((name, value)),
            ok ==> final(self).hmap() == old(self).hmap().insert(name@, opt_bytes(value)),
            final(self).status == old(self).status,
            final(self).version == old(self).version,
            final(self).body == old(self).body,
            !ok ==> *final(self) == *old(self),
    {
        if !crlf_free_exec(name.as_str().as_bytes()) {
            return false;
        }
        match &value {
            Some(v) => {
                if !crlf_free_exec(v.as_slice()) {
                    return false;
                }
            },
            None => {},
        }
        let ghost pair = (name, value);
        insert_header(&mut self.headers.pairs, name, value);
        proof {
            assert forall|j: int| 0 <= j < self.headers.pairs@.len() implies hdr_ok(
                #[trigger] self.headers.pairs@[j],
            ) by {
                if self.headers.pairs@[j] != pair {
                    let t0 = choose|t0: int|
                        0 <= t0 < old(self).headers.pairs@.len() && self.headers.pairs@[j] == old(
                            self,
                        ).headers.pairs@[t0];
                    assert(hdr_ok(old(self).headers.pairs@[t0]));
                }
            }
        }
        true
    }

    /// Renders the response into `out` under its own dialect.
    pub fn print_http(&self, out: &mut Vec<u8>)
        requires
            self.wf(),
        ensures
            final(out)@ == old(out)@ + self.render(),
    {
        match self.version {
            Version::HTTP09 => self.print_http09(out),
            Version::HTTP10 => self.print_http10(out),
        }
    }

    /// The 1.0 rendering, per RFC 1945 section 6.
    #[verifier::rlimit(50)]
    fn print_http10(&self, out: &mut Vec<u8>)
        requires
            self.wf(),
        ensures
            final(out)@ == old(out)@ + self.render10(),
    {
        match self.status {
            Status::Okay => out.extend_from_slice("HTTP/1.0 200 Ok\r\n".as_bytes()),
            Status::BadRequest => out.extend_from_slice("HTTP/1.0 400 Bad Request\r\n".as_bytes()),
            Status::NotFound => out.extend_from_slice("HTTP/1.0 404 Not Fonud\r\n".as_bytes()),
            Status::InternalServerError => out.extend_from_slice(
                "HTTP/1.0 500 Internal Server Error\r\n".as_bytes(),
            ),
        }
        let ghost base = out@;
        proof {
            assert(base == old(out)@ + status_line(self.status));
        }
        let n = self.headers.pairs.len();
        let mut j: usize = 0;
        while j < n
            invariant
                j <= n == self.headers.pairs@.len(),
                base + render_hdrs(self.headers.pairs@) == out@ + render_hdrs_from(
                    self.headers.pairs@,
                    j as int,
                ),
            decreases n - j,
        {
            let ghost o0 = out@;
            out.extend_from_slice(self.headers.pairs[j].0.as_str().as_bytes());
            match &self.headers.pairs[j].1 {
                Some(v) => {
                    out.push(58);
                    out.push(32);
                    out.extend_from_slice(v.as_slice());
                },
                None => {
                    out.push(58);
                },
            }
            out.push(13);
            out.push(10);
            proof {
                assert(out@ =~= o0 + render_hdr(self.headers.pairs@[j as int]));
                assert(o0 + (render_hdr(self.headers.pairs@[j as int]) + render_hdrs_from(
                    self.headers.pairs@,
                    j + 1,
                )) =~= (o0 + render_hdr(self.headers.pairs@[j as int])) + render_hdrs_from(
                    self.headers.pairs@,
                    j + 1,
                ));
            }
            j = j + 1;
        }
        proof {
            assert(out@ + render_hdrs_from(self.headers.pairs@, n as int) =~= out@);
            assert(out@ == base + render_hdrs(self.headers.pairs@));
        }
        let ghost base2 = out@;
        if !self.has_hdr("Content-Length") {
            match &self.body {
                Some(b) => {
                    out.extend_from_slice("Content-Length: ".as_bytes());
                    push_dec(out, b.len());
                    out.push(13);
                    out.push(10);
                    proof {
                        assert(out@ =~= base2 + self.auto_cl());
                    }
                },
                None => {
                    proof {
                        assert(out@ =~= base2 + self.auto_cl());
                    }
                },
            }
        } else {
            proof {
                assert(out@ =~= base2 + self.auto_cl());
            }
        }
        let ghost base3 = out@;
        out.push(13);
        out.push(10);
        match &self.body {
            Some(v) => {
                out.extend_from_slice(v.as_slice());
            },
            None => {},
        }
        proof {
            assert(out@ =~= base3 + seq![13u8, 10u8] + self.body_bytes());
            assert(final(out)@ =~= old(out)@ + self.render10());
        }
    }

    /// The 0.9 rendering: the raw body bytes, nothing else.
    fn print_http09(&self, out: &mut Vec<u8>)
        ensures
            final(out)@ == old(out)@ + self.body_bytes(),
    {
        match &self.body {
            Some(b) => {
                out.extend_from_slice(b.as_slice());
            },
            None => {
                proof {
                    assert(out@ =~= out@ + self.body_bytes());
                }
            },
        }
    }
}

impl Default for Response {
    /// An Ok response under the default dialect, with no headers and no
    /// body.
    fn default() -> (r: Self)
        ensures
            r.status == Status::Okay,
            r.version == Version::HTTP10,
            r.hdrs().len() == 0,
            r.body is None,
            r.wf(),
    {
        Response { status: Status::Okay, version: Version::HTTP10, headers: Headers { pairs: Vec::new() }, body: None }
    }
}


/// Round-trip law of the serializer: an Ok response under the 1.0 dialect
/// with a body and no explicit `Content-Length` header renders with a
/// computed `Content-Length: <byte length>` line, and the rendered bytes
/// end in exactly the body, byte for byte.
pub proof fn lemma_render_round_trip(resp: Response)
    requires
        resp.wf(),
        resp.status == Status::Okay,
        resp.version == Version::HTTP10,
        resp.body is Some,
        !has_name(resp.hdrs(), "Content-Length"@),
    ensures
        resp.render() == status_line(Status::Okay) + render_hdrs(resp.hdrs()) + encode_utf8(
            "Content-Length: "@,
        ) + dec_digits(resp.body_bytes().len() as int) + seq![13u8, 10u8] + seq![13u8, 10u8]
            + resp.body_bytes(),
        resp.render().skip(resp.render().len() - resp.body_bytes().len())
            == resp.body_bytes(),
{
    assert(resp.render() =~= status_line(Status::Okay) + render_hdrs(resp.hdrs()) + encode_utf8(
        "Content-Length: "@,
    ) + dec_digits(resp.body_bytes().len() as int) + seq![13u8, 10u8] + seq![13u8, 10u8]
        + resp.body_bytes());
    assert(resp.render().skip(resp.render().len() - resp.body_bytes().len())
        =~= resp.body_bytes());
}


/// Duplicate-header law: storing a value under a name that is already
/// mapped keeps only the later value — the earlier one is discarded, for
/// request parsing and response mutation alike.
pub proof fn lemma_duplicate_header_last_wins(
    m: Map<Seq<char>, Option<Seq<u8>>>,
    name: Seq<char>,
    v1: Option<Seq<u8>>,
    v2: Option<Seq<u8>>,
)
    ensures
        m.insert(name, v1).insert(name, v2) == m.insert(name, v2),
{
    assert(m.insert(name, v1).insert(name, v2) =~= m.insert(name, v2));
}

} // verus!
