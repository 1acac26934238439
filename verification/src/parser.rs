//! The incremental request parser for the two dialects.
//!
//! `parse` may be called repeatedly on a growing buffer.  Its whole behaviour
//! is specified by `spec_parse`, a mathematical parser over byte sequences:
//! HTTP/1.0 is attempted first, and on a structural error the buffer is
//! re-read under the HTTP/0.9 grammar.

use vstd::prelude::*;

use crate::data::{bytes_eq, insert_header, Method, Request, SpecMethod, SpecRequest, Version};
use vstd::utf8::{
    decode_utf8, is_leading_byte_width_1, partial_valid_utf8, partial_valid_utf8_extend_ascii_block,
    valid_utf8,
};

verus! {

broadcast use vstd::seq_lib::group_seq_properties;

/// One step of the byte-level grammar: a value together with the index of
/// the first byte after it, a request for more bytes, or a rejection.
pub ghost enum SpecStep<T> {
    Done(T, int),
    More,
    Fail,
}

/// The outcome of a whole parse attempt at the byte level.
pub ghost enum SpecParse {
    Complete(SpecRequest),
    Partial,
    Error,
}

/// The space byte.
pub open spec fn space_pred() -> spec_fn(u8) -> bool {
    |x: u8| x == 32u8
}

/// The bytes that end a request path: space, tab, LF, CR.
pub open spec fn uri_delim() -> spec_fn(u8) -> bool {
    |x: u8| x == 32u8 || x == 9u8 || x == 10u8 || x == 13u8
}

/// The carriage-return byte.
pub open spec fn cr_pred() -> spec_fn(u8) -> bool {
    |x: u8| x == 13u8
}

/// The literal `\r\n`.
pub open spec fn crlf() -> Seq<u8> {
    seq![13u8, 10u8]
}

/// The literal `: ` that separates a header name from its value.
pub open spec fn colon_sp() -> Seq<u8> {
    seq![58u8, 32u8]
}

/// The literal `HTTP/1.0`.
pub open spec fn http10_lit() -> Seq<u8> {
    seq![72u8, 84u8, 84u8, 80u8, 47u8, 49u8, 46u8, 48u8]
}

/// The literal `GET ` that opens an HTTP/0.9 request.
pub open spec fn get_sp() -> Seq<u8> {
    seq![71u8, 69u8, 84u8, 32u8]
}

/// The method token `GET`.
pub open spec fn get_tok() -> Seq<u8> {
    seq![71u8, 69u8, 84u8]
}

/// The method token `HEAD`.
pub open spec fn head_tok() -> Seq<u8> {
    seq![72u8, 69u8, 65u8, 68u8]
}

/// The method token `POST`.
pub open spec fn post_tok() -> Seq<u8> {
    seq![80u8, 79u8, 83u8, 84u8]
}

/// The header name `Content-Length`, compared case-sensitively.
pub open spec fn cl_key() -> Seq<u8> {
    seq![67u8, 111u8, 110u8, 116u8, 101u8, 110u8, 116u8, 45u8, 76u8, 101u8, 110u8, 103u8, 116u8, 104u8]
}

/// The index of the first byte at or after `i` satisfying `p`, if any.
pub open spec fn find_from(b: Seq<u8>, i: int, p: spec_fn(u8) -> bool) -> Option<int>
    decreases b.len() - i,
    when 0 <= i <= b.len()
{
    if i == b.len() {
        None
    } else if p(b[i]) {
        Some(i)
    } else {
        find_from(b, i + 1, p)
    }
}

/// What `find_from` returns: the first hit, or a miss over the whole range.
pub proof fn lemma_find_char(b: Seq<u8>, i: int, p: spec_fn(u8) -> bool)
    requires
        0 <= i <= b.len(),
    ensures
        match find_from(b, i, p) {
            Some(j) => i <= j < b.len() && p(b[j]) && (forall|k: int| i <= k < j ==> !p(b[k])),
            None => forall|k: int| i <= k < b.len() ==> !p(b[k]),
        },
    decreases b.len() - i,
{
    if i < b.len() && !p(b[i]) {
        lemma_find_char(b, i + 1, p);
    }
}

/// The bytes a header name may contain: letters, digits, and the fixed
/// punctuation set of RFC 1945 tokens.
pub open spec fn is_token_byte(x: u8) -> bool {
    (97 <= x <= 122) || (65 <= x <= 90) || (48 <= x <= 57) || x == 33 || x == 35 || x == 36 || x
        == 37 || x == 38 || x == 39 || x == 42 || x == 43 || x == 45 || x == 46 || x == 94 || x
        == 95 || x == 96 || x == 124 || x == 126
}

/// The index of the first byte at or after `i` that is not a token byte
/// (or the end of the buffer).
pub open spec fn token_end(b: Seq<u8>, i: int) -> int
    decreases b.len() - i,
    when 0 <= i <= b.len()
{
    if i == b.len() {
        i
    } else if is_token_byte(b[i]) {
        token_end(b, i + 1)
    } else {
        i
    }
}

/// What `token_end` returns: the end of the maximal run of token bytes.
pub proof fn lemma_token_end(b: Seq<u8>, i: int)
    requires
        0 <= i <= b.len(),
    ensures
        i <= token_end(b, i) <= b.len(),
        forall|k: int| i <= k < token_end(b, i) ==> is_token_byte(b[k]),
        token_end(b, i) < b.len() ==> !is_token_byte(b[token_end(b, i)]),
    decreases b.len() - i,
{
    if i < b.len() && is_token_byte(b[i]) {
        lemma_token_end(b, i + 1);
    }
}

/// True when the literal occurs in `b` starting at `i`.
pub open spec fn sw(b: Seq<u8>, i: int, lit: Seq<u8>) -> bool {
    0 <= i && i + lit.len() <= b.len() && b.subrange(i, i + lit.len()) == lit
}

/// True when the buffer ends strictly inside the literal: every byte from
/// `i` on matches the literal, but the buffer stops short of its end.
pub open spec fn lit_prefix(b: Seq<u8>, i: int, lit: Seq<u8>) -> bool {
    0 <= i <= b.len() && b.len() - i < lit.len() && b.subrange(i, b.len() as int) == lit.take(
        b.len() - i,
    )
}

/// A fixed literal: consumed whole, or the bytes are rejected.
pub open spec fn sp_fixed(b: Seq<u8>, i: int, lit: Seq<u8>) -> SpecStep<()> {
    if sw(b, i, lit) {
        SpecStep::Done((), i + lit.len())
    } else {
        SpecStep::Fail
    }
}

/// The version token `HTTP/1.0`.  A buffer that ends inside the literal is
/// still arriving; one that diverges from it is rejected.
pub open spec fn sp_version(b: Seq<u8>, i: int) -> SpecStep<()> {
    if sw(b, i, http10_lit()) {
        SpecStep::Done((), i + http10_lit().len())
    } else if lit_prefix(b, i, http10_lit()) {
        SpecStep::More
    } else {
        SpecStep::Fail
    }
}

/// The method token: the bytes before the first space.  A buffer with no
/// space is rejected; a token that is none of the fixed verbs must decode
/// as text to become an extension method.
pub open spec fn sp_method(b: Seq<u8>, i: int) -> SpecStep<Seq<u8>> {
    match find_from(b, i, space_pred()) {
        None => SpecStep::Fail,
        Some(p) => {
            let tok = b.subrange(i, p);
            if valid_utf8(tok) {
                SpecStep::Done(tok, p)
            } else {
                SpecStep::Fail
            }
        },
    }
}

/// The structured method a token denotes.
pub open spec fn method_of(tok: Seq<u8>) -> SpecMethod {
    if tok == get_tok() {
        SpecMethod::Get
    } else if tok == head_tok() {
        SpecMethod::Head
    } else if tok == post_tok() {
        SpecMethod::Post
    } else {
        SpecMethod::Ext(decode_utf8(tok))
    }
}

/// The request path: the bytes before the first space, tab, CR or LF.  It
/// must decode as text.
pub open spec fn sp_uri(b: Seq<u8>, i: int) -> SpecStep<Seq<u8>> {
    match find_from(b, i, uri_delim()) {
        None => SpecStep::Fail,
        Some(p) => {
            let s = b.subrange(i, p);
            if valid_utf8(s) {
                SpecStep::Done(s, p)
            } else {
                SpecStep::Fail
            }
        },
    }
}

/// A header value: the bytes before the first CR, which must be followed
/// by LF.  The position returned is that of the CR itself.
pub open spec fn sp_field_value(b: Seq<u8>, i: int) -> SpecStep<Seq<u8>> {
    match find_from(b, i, cr_pred()) {
        None => SpecStep::Fail,
        Some(p) => {
            if p + 1 < b.len() && b[p + 1] == 10u8 {
                SpecStep::Done(b.subrange(i, p), p)
            } else {
                SpecStep::Fail
            }
        },
    }
}

/// One header line: `name: value\r\n`, the value absent when the CRLF
/// follows the separator immediately.
pub open spec fn sp_header(b: Seq<u8>, i: int) -> SpecStep<(Seq<u8>, Option<Seq<u8>>)> {
    let ne = token_end(b, i);
    let name = b.subrange(i, ne);
    match sp_fixed(b, ne, colon_sp()) {
        SpecStep::Fail => SpecStep::Fail,
        SpecStep::More => SpecStep::More,
        SpecStep::Done(_, j) => {
            if sw(b, j, crlf()) {
                SpecStep::Done((name, None), j + 2)
            } else {
                match sp_field_value(b, j) {
                    SpecStep::Fail => SpecStep::Fail,
                    SpecStep::More => SpecStep::More,
                    SpecStep::Done(v, p) => match sp_fixed(b, p, crlf()) {
                        SpecStep::Fail => SpecStep::Fail,
                        SpecStep::More => SpecStep::More,
                        SpecStep::Done(_, k) => SpecStep::Done((name, Some(v)), k),
                    },
                }
            }
        },
    }
}

/// A decimal digit.
pub open spec fn is_digit(x: u8) -> bool {
    48 <= x <= 57
}

pub open spec fn all_digits(v: Seq<u8>) -> bool {
    forall|k: int| 0 <= k < v.len() ==> is_digit(v[k])
}

/// The number a digit string denotes.
pub open spec fn digits_val(v: Seq<u8>) -> int
    decreases v.len(),
{
    if v.len() == 0 {
        0
    } else {
        digits_val(v.drop_last()) * 10 + (v.last() - 48)
    }
}

/// The machine-readable value of a `Content-Length` header: an optional
/// leading plus sign, then at least one digit, and the value must fit the
/// machine word, exactly as the standard library parses an unsigned number.
pub open spec fn sp_content_length(v: Seq<u8>) -> Option<int> {
    let d = if v.len() >= 1 && v[0] == 43u8 {
        v.subrange(1, v.len() as int)
    } else {
        v
    };
    if d.len() >= 1 && all_digits(d) && digits_val(d) <= usize::MAX as int {
        Some(digits_val(d))
    } else {
        None
    }
}

/// `sp_header` advances and stays inside the buffer when it completes.
pub proof fn lemma_sp_header_bounds(b: Seq<u8>, i: int)
    requires
        0 <= i <= b.len(),
    ensures
        match sp_header(b, i) {
            SpecStep::Done(_, j) => i + 4 <= j <= b.len(),
            _ => true,
        },
{
    lemma_token_end(b, i);
    let ne = token_end(b, i);
    if sw(b, ne, colon_sp()) {
        let j = ne + 2;
        if !sw(b, j, crlf()) {
            lemma_find_char(b, j, cr_pred());
        }
    }
}

/// The header section: lines until the empty line, recording every header
/// in the mapping (a repeated name overwrites the previous value) and
/// remembering the last valid `Content-Length`.  The returned index is that
/// of the empty line's CR.
pub open spec fn sp_headers(
    b: Seq<u8>,
    i: int,
    m: Map<Seq<char>, Option<Seq<u8>>>,
    cl: Option<int>,
) -> SpecStep<(Map<Seq<char>, Option<Seq<u8>>>, Option<int>)>
    decreases b.len() - i,
    when 0 <= i <= b.len()
    via sp_headers_dec
{
    if sw(b, i, crlf()) {
        SpecStep::Done((m, cl), i)
    } else {
        match sp_header(b, i) {
            SpecStep::Fail => SpecStep::Fail,
            SpecStep::More => SpecStep::More,
            SpecStep::Done((name, value), j) => {
                let m2 = m.insert(decode_utf8(name), value);
                if name == cl_key() {
                    match value {
                        None => SpecStep::Fail,
                        Some(v) => match sp_content_length(v) {
                            None => SpecStep::Fail,
                            Some(n) => sp_headers(b, j, m2, Some(n)),
                        },
                    }
                } else {
                    sp_headers(b, j, m2, cl)
                }
            },
        }
    }
}

#[via_fn]
proof fn sp_headers_dec(b: Seq<u8>, i: int, m: Map<Seq<char>, Option<Seq<u8>>>, cl: Option<int>) {
    lemma_sp_header_bounds(b, i);
}

/// The HTTP/1.0 request line: method, space, path, space, version, CRLF.
pub open spec fn sp_request_line(b: Seq<u8>, i: int) -> SpecStep<(Seq<u8>, Seq<u8>)> {
    match sp_method(b, i) {
        SpecStep::Fail => SpecStep::Fail,
        SpecStep::More => SpecStep::More,
        SpecStep::Done(mt, p1) => match sp_fixed(b, p1, seq![32u8]) {
            SpecStep::Fail => SpecStep::Fail,
            SpecStep::More => SpecStep::More,
            SpecStep::Done(_, p2) => match sp_uri(b, p2) {
                SpecStep::Fail => SpecStep::Fail,
                SpecStep::More => SpecStep::More,
                SpecStep::Done(path, p3) => match sp_fixed(b, p3, seq![32u8]) {
                    SpecStep::Fail => SpecStep::Fail,
                    SpecStep::More => SpecStep::More,
                    SpecStep::Done(_, p4) => match sp_version(b, p4) {
                        SpecStep::Fail => SpecStep::Fail,
                        SpecStep::More => SpecStep::More,
                        SpecStep::Done(_, p5) => match sp_fixed(b, p5, crlf()) {
                            SpecStep::Fail => SpecStep::Fail,
                            SpecStep::More => SpecStep::More,
                            SpecStep::Done(_, p6) => SpecStep::Done((mt, path), p6),
                        },
                    },
                },
            },
        },
    }
}

/// The whole HTTP/1.0 grammar.  After the empty line, a recorded
/// `Content-Length` demands exactly that many body bytes; absent one, the
/// request has no body.  Trailing bytes are ignored.
pub open spec fn spec_parse_10(b: Seq<u8>) -> SpecParse {
    match sp_request_line(b, 0) {
        SpecStep::Fail => SpecParse::Error,
        SpecStep::More => SpecParse::Partial,
        SpecStep::Done((mt, path), i) => match sp_headers(b, i, Map::empty(), None) {
            SpecStep::Fail => SpecParse::Error,
            SpecStep::More => SpecParse::Partial,
            SpecStep::Done((m, cl), k) => {
                let j = k + 2;
                match cl {
                    None => SpecParse::Complete(
                        SpecRequest {
                            method: method_of(mt),
                            path: decode_utf8(path),
                            version: Version::HTTP10,
                            headers: m,
                            body: None,
                        },
                    ),
                    Some(n) => if j + n <= b.len() {
                        SpecParse::Complete(
                            SpecRequest {
                                method: method_of(mt),
                                path: decode_utf8(path),
                                version: Version::HTTP10,
                                headers: m,
                                body: Some(b.subrange(j, j + n)),
                            },
                        )
                    } else {
                        SpecParse::Partial
                    },
                }
            },
        },
    }
}

/// The HTTP/0.9 grammar: the literal `GET `, then a path that runs to a
/// final CRLF.  A missing terminator never rejects — the request may still
/// be arriving — but a path that does not decode as text does.
pub open spec fn spec_parse_09(b: Seq<u8>) -> SpecParse {
    if !sw(b, 0, get_sp()) {
        SpecParse::Error
    } else if !(b.len() >= 6 && b.subrange(b.len() - 2, b.len() as int) == crlf()) {
        SpecParse::Partial
    } else {
        let path = b.subrange(4, b.len() - 2);
        if valid_utf8(path) {
            SpecParse::Complete(
                SpecRequest {
                    method: SpecMethod::Get,
                    path: decode_utf8(path),
                    version: Version::HTTP09,
                    headers: Map::empty(),
                    body: None,
                },
            )
        } else {
            SpecParse::Error
        }
    }
}

/// The dispatcher: HTTP/1.0 first; a buffer that looks like an in-progress
/// 1.0 request is never reinterpreted, and only a structural 1.0 error
/// falls back to the 0.9 grammar.
pub open spec fn spec_parse(b: Seq<u8>) -> SpecParse {
    match spec_parse_10(b) {
        SpecParse::Complete(r) => SpecParse::Complete(r),
        SpecParse::Partial => SpecParse::Partial,
        SpecParse::Error => spec_parse_09(b),
    }
}

/// The outcome of a parse attempt: a finished value, a request for more
/// bytes, or a permanent rejection of the bytes seen so far.
pub enum ParseResult<T> {
    Complete(T),
    Partial,
    Error,
}

impl<T> ParseResult<T> {
    /// True exactly on `Complete`.
    pub fn is_complete(&self) -> (b: bool)
        ensures
            b == (self is Complete),
    {
        match self {
            ParseResult::Complete(_) => true,
            _ => false,
        }
    }

    /// True exactly on `Partial`.
    pub fn is_partial(&self) -> (b: bool)
        ensures
            b == (self is Partial),
    {
        match self {
            ParseResult::Partial => true,
            _ => false,
        }
    }
}


/// Every sequence of bytes below 0x80 is valid UTF-8.
proof fn lemma_ascii_valid(b: Seq<u8>)
    requires
        forall|k: int| 0 <= k < b.len() ==> b[k] < 128,
    ensures
        valid_utf8(b),
{
    assert(b.subrange(0, 0) =~= Seq::<u8>::empty());
    assert(valid_utf8(b.subrange(0, 0)));
    assert(partial_valid_utf8(b, 0));
    assert(forall|i: int| 0 <= i < b.len() ==> #[trigger] is_leading_byte_width_1(b[i]));
    partial_valid_utf8_extend_ascii_block(b, 0, b.len() as int);
    assert(b.subrange(0, b.len() as int) =~= b);
}

/// Relies on the standard library's `String::from_utf8`: it succeeds exactly
/// on UTF-8 input, and the string it returns decodes those bytes.
#[verifier::external_body]
fn bytes_to_string(v: Vec<u8>) -> (r: Option<String>)
    ensures
        match r {
            Some(s) => valid_utf8(v@) && s@ == decode_utf8(v@),
            None => !valid_utf8(v@),
        },
{
    match String::from_utf8(v) {
        Ok(s) => Some(s),
        Err(_) => None,
    }
}

/// The bytes of `buf` from `i` (inclusive) to `j` (exclusive), as an owned
/// vector.
fn copy_range(buf: &[u8], i: usize, j: usize) -> (v: Vec<u8>)
    requires
        i <= j <= buf@.len(),
    ensures
        v@ == buf@.subrange(i as int, j as int),
{
    let mut v: Vec<u8> = Vec::new();
    let mut k = i;
    while k < j
        invariant
            i <= k <= j <= buf@.len(),
            v@ == buf@.subrange(i as int, k as int),
        decreases j - k,
    {
        v.push(buf[k]);
        k = k + 1;
        proof {
            assert(v@ =~= buf@.subrange(i as int, k as int));
        }
    }
    v
}


/// True when the literal stands in `buf` at position `i`.
fn starts_with_at(buf: &[u8], i: usize, lit: &[u8]) -> (r: bool)
    requires
        i <= buf@.len(),
    ensures
        r == sw(buf@, i as int, lit@),
{
    let n = buf.len();
    if n - i < lit.len() {
        return false;
    }
    let mut k: usize = 0;
    while k < lit.len()
        invariant
            k <= lit@.len(),
            i + lit@.len() <= buf@.len(),
            buf@.len() <= usize::MAX,
            forall|t: int| 0 <= t < k ==> buf@[i + t] == lit@[t],
        decreases lit@.len() - k,
    {
        if buf[i + k] != lit[k] {
            proof {
                assert(!sw(buf@, i as int, lit@)) by {
                    if sw(buf@, i as int, lit@) {
                        assert(buf@.subrange(i as int, i + lit@.len())[k as int] == lit@[k as int]);
                    }
                }
            }
            return false;
        }
        k = k + 1;
    }
    proof {
        assert(buf@.subrange(i as int, i + lit@.len()) =~= lit@);
    }
    true
}

/// The first space at or after `i`.
fn find_space(buf: &[u8], i: usize) -> (r: Option<usize>)
    requires
        i <= buf@.len(),
    ensures
        match r {
            Some(p) => i <= p < buf@.len() && find_from(buf@, i as int, space_pred()) == Some(
                p as int,
            ),
            None => find_from(buf@, i as int, space_pred()) is None,
        },
{
    let mut j = i;
    while j < buf.len()
        invariant
            i <= j <= buf@.len(),
            forall|k: int| i <= k < j ==> buf@[k] != 32u8,
        decreases buf@.len() - j,
    {
        if buf[j] == 32 {
            proof {
                lemma_find_char(buf@, i as int, space_pred());
            }
            return Some(j);
        }
        j = j + 1;
    }
    proof {
        lemma_find_char(buf@, i as int, space_pred());
    }
    None
}

/// The first path delimiter (space, tab, LF, CR) at or after `i`.
fn find_uri_delim(buf: &[u8], i: usize) -> (r: Option<usize>)
    requires
        i <= buf@.len(),
    ensures
        match r {
            Some(p) => i <= p < buf@.len() && find_from(buf@, i as int, uri_delim()) == Some(
                p as int,
            ),
            None => find_from(buf@, i as int, uri_delim()) is None,
        },
{
    let mut j = i;
    while j < buf.len()
        invariant
            i <= j <= buf@.len(),
            forall|k: int|
                i <= k < j ==> buf@[k] != 32u8 && buf@[k] != 9u8 && buf@[k] != 10u8 && buf@[k]
                    != 13u8,
        decreases buf@.len() - j,
    {
        let c = buf[j];
        if c == 32 || c == 9 || c == 10 || c == 13 {
            proof {
                lemma_find_char(buf@, i as int, uri_delim());
            }
            return Some(j);
        }
        j = j + 1;
    }
    proof {
        lemma_find_char(buf@, i as int, uri_delim());
    }
    None
}

/// The first carriage return at or after `i`.
fn find_cr(buf: &[u8], i: usize) -> (r: Option<usize>)
    requires
        i <= buf@.len(),
    ensures
        match r {
            Some(p) => i <= p < buf@.len() && find_from(buf@, i as int, cr_pred()) == Some(
                p as int,
            ),
            None => find_from(buf@, i as int, cr_pred()) is None,
        },
{
    let mut j = i;
    while j < buf.len()
        invariant
            i <= j <= buf@.len(),
            forall|k: int| i <= k < j ==> buf@[k] != 13u8,
        decreases buf@.len() - j,
    {
        if buf[j] == 13 {
            proof {
                lemma_find_char(buf@, i as int, cr_pred());
            }
            return Some(j);
        }
        j = j + 1;
    }
    proof {
        lemma_find_char(buf@, i as int, cr_pred());
    }
    None
}

/// True exactly on the bytes `is_token_byte` admits.
fn token_byte(x: u8) -> (r: bool)
    ensures
        r == is_token_byte(x),
{
    (97 <= x && x <= 122) || (65 <= x && x <= 90) || (48 <= x && x <= 57) || x == 33 || x == 35
        || x == 36 || x == 37 || x == 38 || x == 39 || x == 42 || x == 43 || x == 45 || x == 46
        || x == 94 || x == 95 || x == 96 || x == 124 || x == 126
}

/// The end of the run of token bytes that starts at `i`.
fn scan_token_end(buf: &[u8], i: usize) -> (e: usize)
    requires
        i <= buf@.len(),
    ensures
        e as int == token_end(buf@, i as int),
        i <= e <= buf@.len(),
{
    let mut j = i;
    while j < buf.len() && token_byte(buf[j])
        invariant
            i <= j <= buf@.len(),
            token_end(buf@, i as int) == token_end(buf@, j as int),
        decreases buf@.len() - j,
    {
        j = j + 1;
    }
    j
}


/// A fixed literal at position `i`: past it, or the bytes are rejected.
fn parse_fixed(buf: &[u8], i: usize, lit: &[u8]) -> (r: ParseResult<usize>)
    requires
        i <= buf@.len(),
    ensures
        match sp_fixed(buf@, i as int, lit@) {
            SpecStep::Done(_, j) => r matches ParseResult::Complete(p) && p as int == j && p
                <= buf@.len(),
            SpecStep::Fail => r is Error,
            SpecStep::More => true,
        },
{
    // pins the buffer length as a machine word, for the bound on `i + lit.len()`
    let _n = buf.len();
    if starts_with_at(buf, i, lit) {
        ParseResult::Complete(i + lit.len())
    } else {
        ParseResult::Error
    }
}

/// A single space.
fn parse_sp(buf: &[u8], i: usize) -> (r: ParseResult<usize>)
    requires
        i <= buf@.len(),
    ensures
        match sp_fixed(buf@, i as int, seq![32u8]) {
            SpecStep::Done(_, j) => r matches ParseResult::Complete(p) && p as int == j && p
                <= buf@.len(),
            SpecStep::Fail => r is Error,
            SpecStep::More => true,
        },
{
    let lit = [32u8];
    proof {
        assert(lit@ =~= seq![32u8]);
    }
    parse_fixed(buf, i, lit.as_slice())
}

/// The line terminator.
fn parse_crlf(buf: &[u8], i: usize) -> (r: ParseResult<usize>)
    requires
        i <= buf@.len(),
    ensures
        match sp_fixed(buf@, i as int, crlf()) {
            SpecStep::Done(_, j) => r matches ParseResult::Complete(p) && p as int == j && p
                <= buf@.len(),
            SpecStep::Fail => r is Error,
            SpecStep::More => true,
        },
{
    let lit = [13u8, 10u8];
    proof {
        assert(lit@ =~= crlf());
    }
    parse_fixed(buf, i, lit.as_slice())
}

/// The version token, with its three-way outcome.
fn parse_http10_version(buf: &[u8], i: usize) -> (r: ParseResult<usize>)
    requires
        i <= buf@.len(),
    ensures
        match sp_version(buf@, i as int) {
            SpecStep::Done(_, j) => r matches ParseResult::Complete(p) && p as int == j && p
                <= buf@.len(),
            SpecStep::More => r is Partial,
            SpecStep::Fail => r is Error,
        },
{
    let lit = [72u8, 84u8, 84u8, 80u8, 47u8, 49u8, 46u8, 48u8];
    proof {
        assert(lit@ =~= http10_lit());
    }
    let n = buf.len();
    let mut k: usize = 0;
    while k < 8 && k < n - i
        invariant
            k <= 8,
            i <= n,
            n == buf@.len(),
            i + k <= n,
            lit@ == http10_lit(),
            forall|t: int| 0 <= t < k ==> buf@[i + t] == http10_lit()[t],
        decreases 8 - k,
    {
        if buf[i + k] != lit[k] {
            proof {
                if sw(buf@, i as int, http10_lit()) {
                    assert(buf@.subrange(i as int, i + 8)[k as int] == http10_lit()[k as int]);
                }
                if lit_prefix(buf@, i as int, http10_lit()) {
                    assert(buf@.subrange(i as int, buf@.len() as int)[k as int] == http10_lit()
                        .take(buf@.len() - i)[k as int]);
                }
            }
            return ParseResult::Error;
        }
        k = k + 1;
    }
    if k == 8 {
        proof {
            assert(buf@.subrange(i as int, i + 8) =~= http10_lit());
        }
        ParseResult::Complete(i + 8)
    } else {
        proof {
            assert(buf@.subrange(i as int, buf@.len() as int) =~= http10_lit().take(
                buf@.len() - i,
            ));
        }
        ParseResult::Partial
    }
}

/// The method token, mapped to its structured form.
fn parse_method(buf: &[u8], i: usize) -> (r: ParseResult<(Method, usize)>)
    requires
        i <= buf@.len(),
    ensures
        match sp_method(buf@, i as int) {
            SpecStep::Done(t, p) => r matches ParseResult::Complete((m, pp)) && pp as int == p
                && pp <= buf@.len() && m@ == method_of(t),
            SpecStep::Fail => r is Error,
            SpecStep::More => true,
        },
{
    match find_space(buf, i) {
        None => ParseResult::Error,
        Some(p) => {
            let tok = copy_range(buf, i, p);
            let get_arr = [71u8, 69u8, 84u8];
            let head_arr = [72u8, 69u8, 65u8, 68u8];
            let post_arr = [80u8, 79u8, 83u8, 84u8];
            proof {
                assert(get_arr@ =~= get_tok());
                assert(head_arr@ =~= head_tok());
                assert(post_arr@ =~= post_tok());
            }
            if bytes_eq(tok.as_slice(), get_arr.as_slice()) {
                proof {
                    lemma_ascii_valid(tok@);
                }
                ParseResult::Complete((Method::Get, p))
            } else if bytes_eq(tok.as_slice(), head_arr.as_slice()) {
                proof {
                    lemma_ascii_valid(tok@);
                }
                ParseResult::Complete((Method::Head, p))
            } else if bytes_eq(tok.as_slice(), post_arr.as_slice()) {
                proof {
                    lemma_ascii_valid(tok@);
                }
                ParseResult::Complete((Method::Post, p))
            } else {
                match bytes_to_string(tok) {
                    None => ParseResult::Error,
                    Some(s) => ParseResult::Complete((Method::Ext(s), p)),
                }
            }
        },
    }
}

/// The request path, decoded to owned text.
fn parse_uri(buf: &[u8], i: usize) -> (r: ParseResult<(String, usize)>)
    requires
        i <= buf@.len(),
    ensures
        match sp_uri(buf@, i as int) {
            SpecStep::Done(t, p) => r matches ParseResult::Complete((s, pp)) && pp as int == p
                && pp <= buf@.len() && s@ == decode_utf8(t),
            SpecStep::Fail => r is Error,
            SpecStep::More => true,
        },
{
    match find_uri_delim(buf, i) {
        None => ParseResult::Error,
        Some(p) => {
            let raw = copy_range(buf, i, p);
            match bytes_to_string(raw) {
                None => ParseResult::Error,
                Some(s) => ParseResult::Complete((s, p)),
            }
        },
    }
}

/// A header value, up to the CR that must introduce the terminator.
fn parse_header_field_value(buf: &[u8], i: usize) -> (r: ParseResult<(Vec<u8>, usize)>)
    requires
        i <= buf@.len(),
    ensures
        match sp_field_value(buf@, i as int) {
            SpecStep::Done(v, p) => r matches ParseResult::Complete((vv, pp)) && pp as int == p
                && pp <= buf@.len() && vv@ == v,
            SpecStep::Fail => r is Error,
            SpecStep::More => true,
        },
{
    let n = buf.len();
    match find_cr(buf, i) {
        None => ParseResult::Error,
        Some(p) => {
            if p + 1 < n {
                if buf[p + 1] == 10 {
                    ParseResult::Complete((copy_range(buf, i, p), p))
                } else {
                    ParseResult::Error
                }
            } else {
                ParseResult::Error
            }
        },
    }
}

/// A header name: the maximal run of token bytes at `i`, kept raw.
fn parse_token(buf: &[u8], i: usize) -> (r: (Vec<u8>, usize))
    requires
        i <= buf@.len(),
    ensures
        r.1 as int == token_end(buf@, i as int),
        i <= r.1 <= buf@.len(),
        r.0@ == buf@.subrange(i as int, token_end(buf@, i as int)),
{
    let e = scan_token_end(buf, i);
    (copy_range(buf, i, e), e)
}

/// The request body: exactly `size` bytes when they have all arrived.
fn parse_body(buf: &[u8], i: usize, size: usize) -> (r: ParseResult<(Vec<u8>, usize)>)
    requires
        i <= buf@.len(),
    ensures
        i + size <= buf@.len() ==> (r matches ParseResult::Complete((v, j)) && v@ == buf@.subrange(
            i as int,
            i + size,
        ) && j == i + size),
        i + size > buf@.len() ==> r is Partial,
{
    if size <= buf.len() - i {
        ParseResult::Complete((copy_range(buf, i, i + size), i + size))
    } else {
        ParseResult::Partial
    }
}

/// A Simple-Request: the literal `GET `, a path, a final CRLF.
fn parse_09(buf: &[u8]) -> (r: ParseResult<Request>)
    ensures
        match spec_parse_09(buf@) {
            SpecParse::Complete(sr) => r matches ParseResult::Complete(q) && q@ == sr && q.wf(),
            SpecParse::Partial => r is Partial,
            SpecParse::Error => r is Error,
        },
{
    let n = buf.len();
    let get_arr = [71u8, 69u8, 84u8, 32u8];
    proof {
        assert(get_arr@ =~= get_sp());
    }
    if !starts_with_at(buf, 0, get_arr.as_slice()) {
        return ParseResult::Error;
    }
    let crlf_arr = [13u8, 10u8];
    proof {
        assert(crlf_arr@ =~= crlf());
    }
    if n < 6 {
        return ParseResult::Partial;
    }
    if !starts_with_at(buf, n - 2, crlf_arr.as_slice()) {
        return ParseResult::Partial;
    }
    let path_bytes = copy_range(buf, 4, n - 2);
    match bytes_to_string(path_bytes) {
        None => ParseResult::Error,
        Some(s) => {
            let mut req = Request::new(Method::Get, s);
            req.version = Version::HTTP09;
            proof {
                match spec_parse_09(buf@) {
                    SpecParse::Complete(sr) => {
                        assert(req@ =~= sr);
                    },
                    _ => {},
                }
            }
            ParseResult::Complete(req)
        },
    }
}


/// A digit string denotes a non-negative number.
proof fn lemma_digits_val_nonneg(v: Seq<u8>)
    requires
        all_digits(v),
    ensures
        digits_val(v) >= 0,
    decreases v.len(),
{
    if v.len() > 0 {
        assert(all_digits(v.drop_last())) by {
            assert(forall|k: int| 0 <= k < v.len() - 1 ==> v.drop_last()[k] == v[k]);
        }
        lemma_digits_val_nonneg(v.drop_last());
    }
}

/// Extending a digit string never shrinks its value.
proof fn lemma_digits_val_take(v: Seq<u8>, m: int)
    requires
        all_digits(v),
        0 <= m <= v.len(),
    ensures
        digits_val(v.take(m)) <= digits_val(v),
    decreases v.len() - m,
{
    assert(all_digits(v.take(m))) by {
        assert(forall|k: int| 0 <= k < m ==> v.take(m)[k] == v[k]);
    }
    if m < v.len() {
        lemma_digits_val_take(v, m + 1);
        assert(v.take(m + 1).drop_last() =~= v.take(m));
        lemma_digits_val_nonneg(v.take(m));
        assert(digits_val(v.take(m + 1)) == digits_val(v.take(m)) * 10 + (v.take(m + 1).last()
            - 48));
    } else {
        assert(v.take(m) =~= v);
    }
}

/// The numeric value of a `Content-Length` header, exactly as the standard
/// library would parse an unsigned machine word.
fn parse_content_length(v: &[u8]) -> (r: Option<usize>)
    ensures
        match sp_content_length(v@) {
            Some(n) => r matches Some(u) && u as int == n,
            None => r is None,
        },
{
    let n = v.len();
    let mut idx: usize = 0;
    if n >= 1 && v[0] == 43 {
        idx = 1;
    }
    let ghost d: Seq<u8> = if v@.len() >= 1 && v@[0] == 43u8 {
        v@.subrange(1, v@.len() as int)
    } else {
        v@
    };
    if idx == n {
        return None;
    }
    let mut acc: usize = 0;
    let mut k = idx;
    while k < n
        invariant
            idx <= k <= n,
            n == v@.len(),
            idx == 1 ==> v@.len() >= 1 && v@[0] == 43u8,
            idx == 0 ==> !(v@.len() >= 1 && v@[0] == 43u8),
            idx <= 1,
            d == (if v@.len() >= 1 && v@[0] == 43u8 {
                v@.subrange(1, v@.len() as int)
            } else {
                v@
            }),
            d.len() == n - idx,
            forall|t: int| 0 <= t < d.len() ==> d[t] == v@[idx + t],
            all_digits(d.take(k - idx)),
            acc as int == digits_val(d.take(k - idx)),
        decreases n - k,
    {
        let c = v[k];
        if c < 48 || c > 57 {
            proof {
                assert(!is_digit(d[k - idx]));
            }
            return None;
        }
        let dig = (c - 48) as usize;
        let acc10 = match acc.checked_mul(10) {
            Some(x) => x,
            None => {
                proof {
                    assert(d.take(k - idx + 1).drop_last() =~= d.take(k - idx));
                    assert(digits_val(d.take(k - idx + 1)) > usize::MAX as int);
                    if all_digits(d) {
                        lemma_digits_val_take(d, k - idx + 1);
                    }
                }
                return None;
            },
        };
        let acc2 = match acc10.checked_add(dig) {
            Some(x) => x,
            None => {
                proof {
                    assert(d.take(k - idx + 1).drop_last() =~= d.take(k - idx));
                    assert(digits_val(d.take(k - idx + 1)) > usize::MAX as int);
                    if all_digits(d) {
                        lemma_digits_val_take(d, k - idx + 1);
                    }
                }
                return None;
            },
        };
        proof {
            assert(d.take(k - idx + 1).drop_last() =~= d.take(k - idx));
            assert(d.take(k - idx + 1).last() == d[k - idx]);
        }
        acc = acc2;
        k = k + 1;
    }
    proof {
        assert(d.take(d.len() as int) =~= d);
    }
    Some(acc)
}





/// One header line, with the raw name kept for the `Content-Length` check.
fn parse_header(buf: &[u8], i: usize) -> (r: ParseResult<((Vec<u8>, String, Option<Vec<u8>>), usize)>)
    requires
        i <= buf@.len(),
    ensures
        match sp_header(buf@, i as int) {
            SpecStep::Done((nm, vl), j) => r matches ParseResult::Complete(((nb, ns, vv), jj))
                && jj as int == j && jj <= buf@.len() && nb@ == nm && ns@ == decode_utf8(nm)
                && crate::data::opt_bytes(vv) == vl,
            SpecStep::Fail => r is Error,
            SpecStep::More => true,
        },
{
    // pins the buffer length as a machine word, for the bound on `j + 2`
    let _n = buf.len();
    let (name_bytes, ne) = parse_token(buf, i);
    let colon_arr = [58u8, 32u8];
    proof {
        assert(colon_arr@ =~= colon_sp());
    }
    let j = match parse_fixed(buf, ne, colon_arr.as_slice()) {
        ParseResult::Complete(x) => x,
        _ => {
            return ParseResult::Error;
        },
    };
    proof {
        lemma_token_end(buf@, i as int);
        assert forall|k: int| 0 <= k < name_bytes@.len() implies name_bytes@[k] < 128 by {
            assert(name_bytes@[k] == buf@[i + k]);
            assert(is_token_byte(buf@[i + k]));
        }
        lemma_ascii_valid(name_bytes@);
    }
    let name2 = copy_range(buf, i, ne);
    let name_s = match bytes_to_string(name2) {
        Some(x) => x,
        None => {
            proof {
                assert(false);
            }
            return ParseResult::Error;
        },
    };
    let crlf_arr = [13u8, 10u8];
    proof {
        assert(crlf_arr@ =~= crlf());
    }
    if starts_with_at(buf, j, crlf_arr.as_slice()) {
        ParseResult::Complete(((name_bytes, name_s, None), j + 2))
    } else {
        match parse_header_field_value(buf, j) {
            ParseResult::Complete((v, p)) => {
                match parse_crlf(buf, p) {
                    ParseResult::Complete(k) => ParseResult::Complete(
                        ((name_bytes, name_s, Some(v)), k),
                    ),
                    _ => ParseResult::Error,
                }
            },
            _ => ParseResult::Error,
        }
    }
}

/// The Request-Line of a Full-Request.
fn parse_request_line(buf: &[u8], i: usize) -> (r: ParseResult<((Method, String), usize)>)
    requires
        i <= buf@.len(),
    ensures
        match sp_request_line(buf@, i as int) {
            SpecStep::Done((mt, pt), j) => r matches ParseResult::Complete(((m, s), jj))
                && jj as int == j && jj <= buf@.len() && m@ == method_of(mt) && s@ == decode_utf8(
                pt,
            ),
            SpecStep::Fail => r is Error,
            SpecStep::More => r is Partial,
        },
{
    let (m, p1) = match parse_method(buf, i) {
        ParseResult::Complete(x) => x,
        ParseResult::Partial => {
            return ParseResult::Partial;
        },
        ParseResult::Error => {
            return ParseResult::Error;
        },
    };
    let p2 = match parse_sp(buf, p1) {
        ParseResult::Complete(x) => x,
        ParseResult::Partial => {
            return ParseResult::Partial;
        },
        ParseResult::Error => {
            return ParseResult::Error;
        },
    };
    let (path_s, p3) = match parse_uri(buf, p2) {
        ParseResult::Complete(x) => x,
        ParseResult::Partial => {
            return ParseResult::Partial;
        },
        ParseResult::Error => {
            return ParseResult::Error;
        },
    };
    let p4 = match parse_sp(buf, p3) {
        ParseResult::Complete(x) => x,
        ParseResult::Partial => {
            return ParseResult::Partial;
        },
        ParseResult::Error => {
            return ParseResult::Error;
        },
    };
    let p5 = match parse_http10_version(buf, p4) {
        ParseResult::Complete(x) => x,
        ParseResult::Partial => {
            return ParseResult::Partial;
        },
        ParseResult::Error => {
            return ParseResult::Error;
        },
    };
    let p6 = match parse_crlf(buf, p5) {
        ParseResult::Complete(x) => x,
        ParseResult::Partial => {
            return ParseResult::Partial;
        },
        ParseResult::Error => {
            return ParseResult::Error;
        },
    };
    ParseResult::Complete(((m, path_s), p6))
}

/// A Full-Request: request line, header lines, the empty line, and a body
/// of exactly `Content-Length` bytes when that header was recorded.
fn parse_10(buf: &[u8]) -> (r: ParseResult<Request>)
    ensures
        match spec_parse_10(buf@) {
            SpecParse::Complete(sr) => r matches ParseResult::Complete(q) && q@ == sr && q.wf(),
            SpecParse::Partial => r is Partial,
            SpecParse::Error => r is Error,
        },
{
    let n = buf.len();
    let ((method, path), i0) = match parse_request_line(buf, 0) {
        ParseResult::Complete(x) => x,
        ParseResult::Partial => {
            return ParseResult::Partial;
        },
        ParseResult::Error => {
            return ParseResult::Error;
        },
    };
    let ghost sm_tok: Seq<u8> = sp_request_line(buf@, 0)->Done_0.0;
    let ghost sp_path: Seq<u8> = sp_request_line(buf@, 0)->Done_0.1;
    let mut req = Request::new(method, path);
    let mut content_length: Option<usize> = None;
    let mut pos = i0;
    let crlf_arr = [13u8, 10u8];
    let cl_arr = [
        67u8,
        111u8,
        110u8,
        116u8,
        101u8,
        110u8,
        116u8,
        45u8,
        76u8,
        101u8,
        110u8,
        103u8,
        116u8,
        104u8,
    ];
    proof {
        assert(crlf_arr@ =~= crlf());
        assert(cl_arr@ =~= cl_key());
        crate::data::lemma_hdr_map_empty(req.headers@);
    }
    loop
        invariant
            n == buf@.len(),
            pos <= n,
            crlf_arr@ == crlf(),
            cl_arr@ == cl_key(),
            sp_request_line(buf@, 0) == SpecStep::Done((sm_tok, sp_path), i0 as int),
            req.wf(),
            req@.method == method_of(sm_tok),
            req@.path == decode_utf8(sp_path),
            req@.version == Version::HTTP10,
            req@.body is None,
            sp_headers(buf@, i0 as int, Map::empty(), None) == sp_headers(
                buf@,
                pos as int,
                req@.headers,
                match content_length {
                    Some(u) => Some(u as int),
                    None => None,
                },
            ),
        ensures
            pos + 2 <= n,
            sw(buf@, pos as int, crlf()),
            sp_headers(buf@, i0 as int, Map::empty(), None) == SpecStep::Done(
                (
                    req@.headers,
                    match content_length {
                        Some(u) => Some(u as int),
                        None => None,
                    },
                ),
                pos as int,
            ),
            n == buf@.len(),
            req.wf(),
            req@.method == method_of(sm_tok),
            req@.path == decode_utf8(sp_path),
            req@.version == Version::HTTP10,
            req@.body is None,
            sp_request_line(buf@, 0) == SpecStep::Done((sm_tok, sp_path), i0 as int),
        decreases n - pos,
    {
        if starts_with_at(buf, pos, crlf_arr.as_slice()) {
            break;
        }
        let ((name_bytes, name_s, value), j) = match parse_header(buf, pos) {
            ParseResult::Complete(x) => x,
            ParseResult::Partial => {
                return ParseResult::Partial;
            },
            ParseResult::Error => {
                return ParseResult::Error;
            },
        };
        proof {
            lemma_sp_header_bounds(buf@, pos as int);
        }
        if bytes_eq(name_bytes.as_slice(), cl_arr.as_slice()) {
            match &value {
                None => {
                    return ParseResult::Error;
                },
                Some(v) => {
                    match parse_content_length(v.as_slice()) {
                        None => {
                            return ParseResult::Error;
                        },
                        Some(u) => {
                            content_length = Some(u);
                        },
                    }
                },
            }
        }
        insert_header(&mut req.headers, name_s, value);
        pos = j;
    }
    pos = pos + 2;
    match content_length {
        None => {
            proof {
                match spec_parse_10(buf@) {
                    SpecParse::Complete(sr) => {
                        assert(req@ =~= sr);
                    },
                    _ => {},
                }
            }
            ParseResult::Complete(req)
        },
        Some(size) => {
            match parse_body(buf, pos, size) {
                ParseResult::Complete((body, _)) => {
                    req.body = Some(body);
                    proof {
                        match spec_parse_10(buf@) {
                            SpecParse::Complete(sr) => {
                                assert(req@ =~= sr);
                            },
                            _ => {},
                        }
                    }
                    ParseResult::Complete(req)
                },
                _ => ParseResult::Partial,
            }
        },
    }
}

/// Parses one request from the bytes received so far: a Full-Request when
/// the 1.0 grammar accepts or still awaits them, a Simple-Request when it
/// rejects them structurally.
pub fn parse(buf: &[u8]) -> (r: ParseResult<Request>)
    ensures
        match spec_parse(buf@) {
            SpecParse::Complete(sr) => r matches ParseResult::Complete(q) && q@ == sr && q.wf(),
            SpecParse::Partial => r is Partial,
            SpecParse::Error => r is Error,
        },
{
    match parse_10(buf) {
        ParseResult::Complete(t) => ParseResult::Complete(t),
        ParseResult::Partial => ParseResult::Partial,
        ParseResult::Error => parse_09(buf),
    }
}

/// The 0.9 fallback keeps a `GET `-opening buffer alive: such a buffer is
/// never rejected outright, so long as a terminated request line still
/// decodes as text.  (A terminated line that is not text is invalid under
/// both dialects, and is rejected.)
pub proof fn lemma_get_prefix_never_error(b: Seq<u8>)
    requires
        sw(b, 0, get_sp()),
        (b.len() >= 6 && b.subrange(b.len() - 2, b.len() as int) == crlf()) ==> valid_utf8(
            b.subrange(4, b.len() - 2),
        ),
    ensures
        !(spec_parse(b) is Error),
{
}

/// Monotonicity under the 0.9 reading: if a prefix of the buffer opened
/// with `GET ` and did not parse to an error, no extension of it parses to
/// an error either, so long as a terminated request line still decodes as
/// text.
/// A literal at the head of a prefix stands at the head of the whole.
proof fn lemma_sw_take(b: Seq<u8>, n: int, lit: Seq<u8>)
    requires
        lit.len() <= n <= b.len(),
        sw(b.take(n), 0, lit),
    ensures
        sw(b, 0, lit),
{
    assert(b.take(n).subrange(0, lit.len() as int) =~= b.subrange(0, lit.len() as int));
}

pub proof fn lemma_parse_monotone(b: Seq<u8>, n: int)
    requires
        4 <= n <= b.len(),
        !(spec_parse(b.take(n)) is Error),
        sw(b.take(n), 0, get_sp()),
        (b.len() >= 6 && b.subrange(b.len() - 2, b.len() as int) == crlf()) ==> valid_utf8(
            b.subrange(4, b.len() - 2),
        ),
    ensures
        !(spec_parse(b) is Error),
{
    lemma_sw_take(b, n, get_sp());
    lemma_get_prefix_never_error(b);
}

/// A hit found inside the prefix is the hit in the whole buffer.
proof fn lemma_find_stable(b: Seq<u8>, n: int, i: int, p: spec_fn(u8) -> bool)
    requires
        0 <= i <= n <= b.len(),
        find_from(b.take(n), i, p) is Some,
    ensures
        find_from(b, i, p) == find_from(b.take(n), i, p),
{
    let a = b.take(n);
    lemma_find_char(a, i, p);
    lemma_find_char(b, i, p);
    let j = find_from(a, i, p)->Some_0;
    assert(a[j] == b[j]);
    match find_from(b, i, p) {
        Some(j2) => {
            if j2 < j {
                assert(!p(a[j2]));
                assert(a[j2] == b[j2]);
            } else if j2 > j {
                assert(!p(b[j]));
            }
        },
        None => {
            assert(!p(b[j]));
        },
    }
}

/// A token run that ends inside the prefix ends there in the whole buffer.
proof fn lemma_token_end_stable(b: Seq<u8>, n: int, i: int)
    requires
        0 <= i <= n <= b.len(),
        token_end(b.take(n), i) < n,
    ensures
        token_end(b, i) == token_end(b.take(n), i),
{
    let a = b.take(n);
    lemma_token_end(a, i);
    lemma_token_end(b, i);
    let te = token_end(a, i);
    let te2 = token_end(b, i);
    assert(a[te] == b[te]);
    if te2 < te {
        assert(is_token_byte(a[te2]));
        assert(a[te2] == b[te2]);
    } else if te2 > te {
        assert(is_token_byte(b[te]));
    }
}

/// A literal that fits inside the prefix stands there exactly when it
/// stands in the whole buffer.
proof fn lemma_sw_stable(b: Seq<u8>, n: int, i: int, lit: Seq<u8>)
    requires
        0 <= i,
        i + lit.len() <= n <= b.len(),
    ensures
        sw(b.take(n), i, lit) == sw(b, i, lit),
{
    assert(b.take(n).subrange(i, i + lit.len() as int) =~= b.subrange(i, i + lit.len() as int));
}

/// A header line completed inside the prefix reads the same from the whole
/// buffer.
proof fn lemma_sp_header_stable(b: Seq<u8>, n: int, i: int)
    requires
        0 <= i <= n <= b.len(),
        sp_header(b.take(n), i) is Done,
    ensures
        sp_header(b, i) == sp_header(b.take(n), i),
{
    let a = b.take(n);
    let te = token_end(a, i);
    lemma_token_end(a, i);
    assert(sw(a, te, colon_sp()));
    lemma_token_end_stable(b, n, i);
    assert(a.subrange(i, te) =~= b.subrange(i, te));
    lemma_sw_stable(b, n, te, colon_sp());
    let j0 = te + 2;
    if sw(a, j0, crlf()) {
        lemma_sw_stable(b, n, j0, crlf());
    } else {
        assert(sp_field_value(a, j0) is Done);
        lemma_find_char(a, j0, cr_pred());
        let cp = find_from(a, j0, cr_pred())->Some_0;
        assert(cp + 1 < n && a[cp + 1] == 10u8);
        lemma_sw_stable(b, n, j0, crlf());
        lemma_find_stable(b, n, j0, cr_pred());
        assert(a[cp + 1] == b[cp + 1]);
        assert(a.subrange(j0, cp) =~= b.subrange(j0, cp));
        assert(sw(a, cp, crlf()));
        lemma_sw_stable(b, n, cp, crlf());
    }
}

/// A header section completed inside the prefix reads the same from the
/// whole buffer.
proof fn lemma_sp_headers_stable(
    b: Seq<u8>,
    n: int,
    i: int,
    m: Map<Seq<char>, Option<Seq<u8>>>,
    cl: Option<int>,
)
    requires
        0 <= i <= n <= b.len(),
        sp_headers(b.take(n), i, m, cl) is Done,
    ensures
        sp_headers(b, i, m, cl) == sp_headers(b.take(n), i, m, cl),
    decreases n - i,
{
    let a = b.take(n);
    if sw(a, i, crlf()) {
        lemma_sw_stable(b, n, i, crlf());
    } else {
        assert(sp_header(a, i) is Done);
        lemma_sp_header_bounds(a, i);
        lemma_sw_stable(b, n, i, crlf());
        lemma_sp_header_stable(b, n, i);
        let nm = sp_header(a, i)->Done_0.0;
        let vl = sp_header(a, i)->Done_0.1;
        let j = sp_header(a, i)->Done_1;
        let m2 = m.insert(decode_utf8(nm), vl);
        if nm == cl_key() {
            let v = vl->Some_0;
            let cn = sp_content_length(v)->Some_0;
            lemma_sp_headers_stable(b, n, j, m2, Some(cn));
        } else {
            lemma_sp_headers_stable(b, n, j, m2, cl);
        }
    }
}

/// A request line completed inside the prefix reads the same from the
/// whole buffer.
proof fn lemma_sp_request_line_stable(b: Seq<u8>, n: int, i: int)
    requires
        0 <= i <= n <= b.len(),
        sp_request_line(b.take(n), i) is Done,
    ensures
        sp_request_line(b, i) == sp_request_line(b.take(n), i),
{
    let a = b.take(n);
    lemma_find_char(a, i, space_pred());
    let p1 = find_from(a, i, space_pred())->Some_0;
    lemma_find_stable(b, n, i, space_pred());
    assert(a.subrange(i, p1) =~= b.subrange(i, p1));
    lemma_sw_stable(b, n, p1, seq![32u8]);
    let p2 = p1 + 1;
    lemma_find_char(a, p2, uri_delim());
    let p3 = find_from(a, p2, uri_delim())->Some_0;
    lemma_find_stable(b, n, p2, uri_delim());
    assert(a.subrange(p2, p3) =~= b.subrange(p2, p3));
    lemma_sw_stable(b, n, p3, seq![32u8]);
    let p4 = p3 + 1;
    assert(sw(a, p4, http10_lit()));
    lemma_sw_stable(b, n, p4, http10_lit());
    let p5 = p4 + 8;
    lemma_sw_stable(b, n, p5, crlf());
}

/// The header section starts no earlier than where it began and stops at
/// an empty line that lies inside the buffer.
proof fn lemma_sp_headers_bounds(
    b: Seq<u8>,
    i: int,
    m: Map<Seq<char>, Option<Seq<u8>>>,
    cl: Option<int>,
)
    requires
        0 <= i <= b.len(),
        cl matches Some(c) ==> c >= 0,
    ensures
        match sp_headers(b, i, m, cl) {
            SpecStep::Done((mc, cc), k) => i <= k && k + 2 <= b.len() && sw(b, k, crlf()) && (
            cc matches Some(c) ==> c >= 0),
            _ => true,
        },
    decreases b.len() - i,
{
    if !sw(b, i, crlf()) {
        match sp_header(b, i) {
            SpecStep::Done((nm, vl), j) => {
                lemma_sp_header_bounds(b, i);
                let m2 = m.insert(decode_utf8(nm), vl);
                if nm == cl_key() {
                    match vl {
                        None => {},
                        Some(v) => match sp_content_length(v) {
                            None => {},
                            Some(cn) => {
                                let d = if v.len() >= 1 && v[0] == 43u8 {
                                    v.subrange(1, v.len() as int)
                                } else {
                                    v
                                };
                                assert(all_digits(d));
                                lemma_digits_val_nonneg(d);
                                lemma_sp_headers_bounds(b, j, m2, Some(cn));
                            },
                        },
                    }
                } else {
                    lemma_sp_headers_bounds(b, j, m2, cl);
                }
            },
            _ => {},
        }
    }
}

/// Monotonicity of a finished 1.0 parse: whatever bytes arrive after a
/// buffer the 1.0 grammar accepted, the whole buffer still parses to the
/// very same request.
#[verifier::rlimit(60)]
pub proof fn lemma_parse_monotone_complete(b: Seq<u8>, n: int)
    requires
        0 <= n <= b.len(),
        spec_parse_10(b.take(n)) is Complete,
    ensures
        spec_parse_10(b) == spec_parse_10(b.take(n)),
        spec_parse(b) == spec_parse_10(b.take(n)),
{
    let a = b.take(n);
    assert(sp_request_line(a, 0) is Done);
    lemma_sp_request_line_stable(b, n, 0);
    let i0 = sp_request_line(a, 0)->Done_1;
    assert(0 <= i0 <= n) by {
        lemma_request_line_bounds(a, 0);
    }
    assert(sp_headers(a, i0, Map::empty(), None) is Done);
    lemma_sp_headers_stable(b, n, i0, Map::empty(), None);
    lemma_sp_headers_bounds(a, i0, Map::<Seq<char>, Option<Seq<u8>>>::empty(), None);
    let k = sp_headers(a, i0, Map::empty(), None)->Done_1;
    let cl = sp_headers(a, i0, Map::empty(), None)->Done_0.1;
    assert(0 <= k && k + 2 <= n);
    match cl {
        None => {},
        Some(sz) => {
            assert(k + 2 + sz <= n);
            assert(a.subrange(k + 2, k + 2 + sz) =~= b.subrange(k + 2, k + 2 + sz));
        },
    }
}

/// The request line never runs past the end of the buffer.
proof fn lemma_request_line_bounds(b: Seq<u8>, i: int)
    requires
        0 <= i <= b.len(),
    ensures
        match sp_request_line(b, i) {
            SpecStep::Done(_, j) => i <= j <= b.len(),
            _ => true,
        },
{
    lemma_find_char(b, i, space_pred());
    if find_from(b, i, space_pred()) is Some {
        let p1 = find_from(b, i, space_pred())->Some_0;
        lemma_find_char(b, p1 + 1, uri_delim());
    }
}

/// Monotonicity of a 1.0 request awaiting its body: once the header
/// section is complete, further bytes can only finish the request or leave
/// it partial, never reject it.
pub proof fn lemma_parse_monotone_body(b: Seq<u8>, n: int)
    requires
        0 <= n <= b.len(),
        spec_parse_10(b.take(n)) is Partial,
        sp_request_line(b.take(n), 0) is Done,
        sp_headers(
            b.take(n),
            sp_request_line(b.take(n), 0)->Done_1,
            Map::empty(),
            None,
        ) is Done,
    ensures
        !(spec_parse(b) is Error),
{
    let a = b.take(n);
    lemma_sp_request_line_stable(b, n, 0);
    let i0 = sp_request_line(a, 0)->Done_1;
    assert(0 <= i0 <= n) by {
        lemma_request_line_bounds(a, 0);
    }
    lemma_sp_headers_stable(b, n, i0, Map::empty(), None);
}

/// Priority law of the dispatcher: a buffer the 1.0 grammar accepts is
/// never reinterpreted under 0.9, and one it still awaits is never
/// reinterpreted either — only a structural 1.0 error reaches the 0.9
/// reading.
pub proof fn lemma_dialect_priority(b: Seq<u8>)
    ensures
        spec_parse_10(b) is Complete ==> spec_parse(b) == spec_parse_10(b),
        spec_parse_10(b) is Partial ==> spec_parse(b) is Partial,
        spec_parse_10(b) is Error ==> spec_parse(b) == spec_parse_09(b),
{
}


/// Monotonicity of the dispatcher, assembled from the three lemmas above:
/// when a prefix of the buffer parsed to Complete or Partial, the grown
/// buffer never parses to Error — except where the bytes themselves are
/// invalid under both dialects (a prefix stuck inside the version token
/// whose extension diverges from the literal, or a terminated `GET ` line
/// that no longer decodes as text).  The last hypothesis names the cases
/// that remain covered.
pub proof fn lemma_parse_monotonicity(b: Seq<u8>, n: int)
    requires
        0 <= n <= b.len(),
        !(spec_parse(b.take(n)) is Error),
        ({
            ||| (4 <= n && sw(b.take(n), 0, get_sp()) && ((b.len() >= 6 && b.subrange(
                b.len() - 2,
                b.len() as int,
            ) == crlf()) ==> valid_utf8(b.subrange(4, b.len() - 2))))
            ||| spec_parse_10(b.take(n)) is Complete
            ||| (spec_parse_10(b.take(n)) is Partial && sp_request_line(b.take(n), 0) is Done
                && sp_headers(
                b.take(n),
                sp_request_line(b.take(n), 0)->Done_1,
                Map::empty(),
                None,
            ) is Done)
        }),
    ensures
        !(spec_parse(b) is Error),
{
    let a = b.take(n);
    if spec_parse_10(a) is Complete {
        lemma_parse_monotone_complete(b, n);
    } else if spec_parse_10(a) is Partial && sp_request_line(a, 0) is Done && sp_headers(
        a,
        sp_request_line(a, 0)->Done_1,
        Map::empty(),
        None,
    ) is Done {
        lemma_parse_monotone_body(b, n);
    } else {
        lemma_parse_monotone(b, n);
    }
}
} // verus!

