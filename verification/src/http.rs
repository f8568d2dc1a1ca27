//! The HTTP side of the client's local proxy: collecting the request head, and reading
//! from its first line where to connect.
use vstd::prelude::*;
use vstd::utf8::*;
use vstd::string::StringExecFns;
use crate::wire::{str_utf8_error, str_utf8_error_text, string_from_utf8};
use crate::text::{
    first_index, last_index, find_first, find_last, spec_parse_u16, parse_u16, lemma_ascii_cut_valid, lemma_first_index, lemma_last_index,
    u16_parse_error, u16_parse_error_text,
};

verus! {

/// The most header bytes collected before the request is given up.
pub const MAX_HEADER_BYTES: usize = 65536;

/// Where collecting a request head stands after the latest byte.
#[derive(Debug, Clone, Copy, PartialEq, Eq, Structural)]
pub enum HeaderScan {
    /// The bytes end with the blank line that closes the head.
    Complete,
    /// The head is longer than [`MAX_HEADER_BYTES`] without being closed.
    TooLarge,
    /// Another byte is needed.
    NeedMore,
}

/// The bytes end with CR LF CR LF.
pub open spec fn ends_with_blank_line(buf: Seq<u8>) -> bool {
    buf.len() >= 4 && buf.subrange(buf.len() - 4, buf.len() as int) == seq![13u8, 10u8, 13u8, 10u8]
}

/// The decision taken after each byte of the head is received.
pub open spec fn spec_scan_headers(buf: Seq<u8>) -> HeaderScan {
    if ends_with_blank_line(buf) {
        HeaderScan::Complete
    } else if buf.len() > MAX_HEADER_BYTES {
        HeaderScan::TooLarge
    } else {
        HeaderScan::NeedMore
    }
}

/// Decides, after each received byte, whether the request head is complete.
pub fn scan_headers(buf: &[u8]) -> (r: HeaderScan)
    ensures
        r == spec_scan_headers(buf@),
{
    let n = buf.len();
    if n >= 4 && buf[n - 4] == 13 && buf[n - 3] == 10 && buf[n - 2] == 13 && buf[n - 1] == 10 {
        assert(buf@.subrange(n - 4, n as int) =~= seq![13u8, 10u8, 13u8, 10u8]);
        return HeaderScan::Complete;
    }
    proof {
        if n >= 4 {
            let t = buf@.subrange(n - 4, n as int);
            if t == seq![13u8, 10u8, 13u8, 10u8] {
                assert(t[0] == buf@[n - 4]);
                assert(t[1] == buf@[n - 3]);
                assert(t[2] == buf@[n - 2]);
                assert(t[3] == buf@[n - 1]);
            }
        }
    }
    if n > MAX_HEADER_BYTES {
        HeaderScan::TooLarge
    } else {
        HeaderScan::NeedMore
    }
}

/// Where to connect for a proxied HTTP request.
pub struct HttpTarget {
    pub host: String,
    pub port: u16,
    /// What to answer the client before relaying (the CONNECT confirmation, or nothing).
    pub reply: Vec<u8>,
    /// What to send the target before relaying (the request head of a plain request, or
    /// nothing).
    pub preamble: Vec<u8>,
}

/// The abstract value of an [`HttpTarget`].
pub struct HttpTargetView {
    pub host: Seq<char>,
    pub port: u16,
    pub reply: Seq<u8>,
    pub preamble: Seq<u8>,
}

impl View for HttpTarget {
    type V = HttpTargetView;

    open spec fn view(&self) -> HttpTargetView {
        HttpTargetView { host: self.host@, port: self.port, reply: self.reply@, preamble: self.preamble@ }
    }
}

/// Why a request head is refused.
pub enum HttpError {
    /// The head is not UTF-8; the text is the error `std::str::from_utf8` gives for it.
    InvalidUtf8(String),
    /// The head has no line ending.
    EmptyRequest,
    /// The request line names no target.
    MissingTarget,
    /// A CONNECT target without a `:port`.
    InvalidConnectTarget(String),
    /// The port is not a 16-bit decimal number; the text is the error `str::parse::<u16>`
    /// gives for it.
    InvalidPort(String),
    /// A plain request whose target is not an `http://` URL.
    ExpectedHttpUrl(String),
}

/// The abstract value of an [`HttpError`].
pub enum HttpErrorView {
    InvalidUtf8(Seq<char>),
    EmptyRequest,
    MissingTarget,
    InvalidConnectTarget(Seq<char>),
    InvalidPort(Seq<char>),
    ExpectedHttpUrl(Seq<char>),
}

impl View for HttpError {
    type V = HttpErrorView;

    open spec fn view(&self) -> HttpErrorView {
        match self {
            HttpError::InvalidUtf8(t) => HttpErrorView::InvalidUtf8(t@),
            HttpError::EmptyRequest => HttpErrorView::EmptyRequest,
            HttpError::MissingTarget => HttpErrorView::MissingTarget,
            HttpError::InvalidConnectTarget(t) => HttpErrorView::InvalidConnectTarget(t@),
            HttpError::InvalidPort(t) => HttpErrorView::InvalidPort(t@),
            HttpError::ExpectedHttpUrl(t) => HttpErrorView::ExpectedHttpUrl(t@),
        }
    }
}

/// The message reported for a refused request head.
pub open spec fn http_error_text(e: HttpErrorView) -> Seq<char> {
    match e {
        HttpErrorView::InvalidUtf8(t) => t,
        HttpErrorView::EmptyRequest => "empty HTTP request"@,
        HttpErrorView::MissingTarget => "missing HTTP target"@,
        HttpErrorView::InvalidConnectTarget(t) => "invalid CONNECT target: "@ + t,
        HttpErrorView::InvalidPort(t) => t,
        HttpErrorView::ExpectedHttpUrl(t) => "expected http:// URL, got: "@ + t,
    }
}

impl HttpError {
    /// The message reported for this refusal.
    pub fn message(&self) -> (s: String)
        ensures
            s@ == http_error_text(self@),
    {
        match self {
            HttpError::InvalidUtf8(t) => t.clone(),
            HttpError::EmptyRequest => String::from_str("empty HTTP request"),
            HttpError::MissingTarget => String::from_str("missing HTTP target"),
            HttpError::InvalidConnectTarget(t) => {
                let mut s = String::from_str("invalid CONNECT target: ");
                s.append(t.as_str());
                s
            },
            HttpError::InvalidPort(t) => t.clone(),
            HttpError::ExpectedHttpUrl(t) => {
                let mut s = String::from_str("expected http:// URL, got: ");
                s.append(t.as_str());
                s
            },
        }
    }
}

/// The abstract value of a parse result.
pub open spec fn parse_view(r: Result<HttpTarget, HttpError>) -> Result<HttpTargetView, HttpErrorView> {
    match r {
        Ok(t) => Ok(t@),
        Err(e) => Err(e@),
    }
}

/// Position of the first CR LF, or the length when there is none.
pub open spec fn first_crlf(s: Seq<u8>) -> int
    decreases s.len(),
{
    if s.len() < 2 {
        s.len() as int
    } else if s[0] == 13 && s[1] == 10 {
        0
    } else {
        1 + first_crlf(s.drop_first())
    }
}

/// The method that opens a tunnel.
pub open spec fn connect_method() -> Seq<u8> {
    seq![67u8, 79u8, 78u8, 78u8, 69u8, 67u8, 84u8]
}

/// The scheme a plain proxied request's target starts with.
pub open spec fn http_scheme() -> Seq<u8> {
    seq![104u8, 116u8, 116u8, 112u8, 58u8, 47u8, 47u8]
}

/// The answer to a CONNECT: `HTTP/1.1 200 Connection Established`, then a blank line.
pub open spec fn connect_established_reply() -> Seq<u8> {
    seq![
        72u8, 84u8, 84u8, 80u8, 47u8, 49u8, 46u8, 49u8, 32u8, 50u8, 48u8, 48u8, 32u8, 67u8, 111u8,
        110u8, 110u8, 101u8, 99u8, 116u8, 105u8, 111u8, 110u8, 32u8, 69u8, 115u8, 116u8, 97u8,
        98u8, 108u8, 105u8, 115u8, 104u8, 101u8, 100u8, 13u8, 10u8, 13u8, 10u8,
    ]
}

/// The target of the request line: its second space-separated word.
pub open spec fn request_target(line: Seq<u8>, m: int) -> Seq<u8> {
    let after = line.subrange(m + 1, line.len() as int);
    after.subrange(0, first_index(after, 32))
}

/// Reading a request head: the request line is `METHOD TARGET ...`. A CONNECT target is
/// `host:port`; any other target is an `http://` URL whose authority gives the host and
/// an optional port (80 by default), and the whole head is passed on to the target.
pub open spec fn spec_parse_request(h: Seq<u8>) -> Result<HttpTargetView, HttpErrorView> {
    if !valid_utf8(h) {
        Err(HttpErrorView::InvalidUtf8(str_utf8_error_text(h)))
    } else if first_crlf(h) >= h.len() {
        Err(HttpErrorView::EmptyRequest)
    } else {
        let line = h.subrange(0, first_crlf(h));
        let m = first_index(line, 32);
        if m >= line.len() {
            Err(HttpErrorView::MissingTarget)
        } else {
            let target = request_target(line, m);
            if line.subrange(0, m) == connect_method() {
                spec_connect_target(target)
            } else {
                spec_plain_target(target, h)
            }
        }
    }
}

/// A CONNECT target `host:port`, split at its last colon.
pub open spec fn spec_connect_target(target: Seq<u8>) -> Result<HttpTargetView, HttpErrorView> {
    let k = last_index(target, 58);
    if k < 0 {
        Err(HttpErrorView::InvalidConnectTarget(decode_utf8(target)))
    } else {
        match spec_parse_u16(target.subrange(k + 1, target.len() as int)) {
            None => Err(HttpErrorView::InvalidPort(u16_parse_error_text(decode_utf8(target.subrange(k + 1, target.len() as int))))),
            Some(port) => Ok(
                HttpTargetView {
                    host: decode_utf8(target.subrange(0, k)),
                    port,
                    reply: connect_established_reply(),
                    preamble: Seq::empty(),
                },
            ),
        }
    }
}

/// A plain request's target `http://host[:port]/...`; the head `h` is passed on.
pub open spec fn spec_plain_target(target: Seq<u8>, h: Seq<u8>) -> Result<HttpTargetView, HttpErrorView> {
    if !(target.len() >= 7 && target.subrange(0, 7) == http_scheme()) {
        Err(HttpErrorView::ExpectedHttpUrl(decode_utf8(target)))
    } else {
        let rest = target.subrange(7, target.len() as int);
        let authority = rest.subrange(0, first_index(rest, 47));
        let k = last_index(authority, 58);
        if k >= 0 {
            match spec_parse_u16(authority.subrange(k + 1, authority.len() as int)) {
                None => Err(HttpErrorView::InvalidPort(
                    u16_parse_error_text(decode_utf8(authority.subrange(k + 1, authority.len() as int))),
                )),
                Some(port) => Ok(
                    HttpTargetView { host: decode_utf8(authority.subrange(0, k)), port, reply: Seq::empty(), preamble: h },
                ),
            }
        } else {
            Ok(HttpTargetView { host: decode_utf8(authority), port: 80, reply: Seq::empty(), preamble: h })
        }
    }
}

/// A CR LF pair starts at `j`.
pub open spec fn crlf_at(s: Seq<u8>, j: int) -> bool {
    0 <= j && j + 1 < s.len() && s[j] == 13 && s[j + 1] == 10
}

proof fn lemma_first_crlf(s: Seq<u8>, i: int)
    requires
        0 <= i <= s.len(),
        forall|j: int| 0 <= j < i ==> !#[trigger] crlf_at(s, j),
        i == s.len() || crlf_at(s, i),
    ensures
        first_crlf(s) == i,
    decreases s.len(),
{
    if s.len() >= 2 && i > 0 {
        assert(!crlf_at(s, 0));
        let t = s.drop_first();
        assert forall|j: int| 0 <= j < i - 1 implies !#[trigger] crlf_at(t, j) by {
            assert(t[j] == s[j + 1]);
            if j + 1 < t.len() {
                assert(t[j + 1] == s[j + 2]);
            }
            assert(!crlf_at(s, j + 1));
        }
        if i < s.len() {
            assert(t[i - 1] == s[i]);
            assert(t[i] == s[i + 1]);
        }
        lemma_first_crlf(t, i - 1);
    }
}

fn find_crlf(s: &[u8]) -> (i: usize)
    ensures
        i as int == first_crlf(s@),
        i <= s@.len(),
        i < s@.len() ==> crlf_at(s@, i as int),
{
    let n = s.len();
    if n < 2 {
        return n;
    }
    let mut i: usize = 0;
    while i + 1 < n && !(s[i] == 13 && s[i + 1] == 10)
        invariant
            n == s@.len(),
            i + 1 <= n,
            forall|j: int| 0 <= j < i ==> !#[trigger] crlf_at(s@, j),
        decreases n - i,
    {
        i = i + 1;
    }
    if i + 1 == n {
        proof {
            assert forall|j: int| 0 <= j < n implies !#[trigger] crlf_at(s@, j) by {
                if j == i {
                }
            }
            lemma_first_crlf(s@, n as int);
        }
        return n;
    }
    proof { lemma_first_crlf(s@, i as int); }
    i
}

fn bytes_equal(s: &[u8], from: usize, expected: &[u8]) -> (r: bool)
    requires
        from + expected.len() <= s.len(),
    ensures
        r == (s@.subrange(from as int, from + expected@.len()) == expected@),
{
    let mut i: usize = 0;
    while i < expected.len()
        invariant
            i <= expected@.len(),
            from + expected.len() <= s.len(),
            forall|j: int| 0 <= j < i ==> s@[from + j] == expected@[j],
        decreases expected@.len() - i,
    {
        if s[from + i] != expected[i] {
            proof {
                let t = s@.subrange(from as int, from + expected@.len());
                assert(t[i as int] == s@[from + i]);
            }
            return false;
        }
        i = i + 1;
    }
    assert(s@.subrange(from as int, from + expected@.len()) =~= expected@);
    true
}

fn text_of(h: &[u8], a: usize, b: usize) -> (s: String)
    requires
        valid_utf8(h@),
        a <= b <= h@.len(),
        a == 0 || h@[a - 1] < 128,
        b == h@.len() || h@[b as int] < 128,
    ensures
        s@ == decode_utf8(h@.subrange(a as int, b as int)),
{
    proof { lemma_ascii_cut_valid(h@, a as int, b as int); }
    let bytes = vstd::slice::slice_to_vec(vstd::slice::slice_subrange(h, a, b));
    match string_from_utf8(bytes) {
        Ok(s) => s,
        Err(_) => {
            assert(false);
            String::new()
        },
    }
}

fn parse_connect_target(h: &[u8], a: usize, b: usize) -> (r: Result<HttpTarget, HttpError>)
    requires
        valid_utf8(h@),
        0 < a <= b < h@.len(),
        h@[a - 1] < 128,
        h@[b as int] < 128,
    ensures
        parse_view(r) == spec_connect_target(h@.subrange(a as int, b as int)),
{
    let ghost target = h@.subrange(a as int, b as int);
    let k = find_last(h, a, b, 58);
    if k == a {
        return Err(HttpError::InvalidConnectTarget(text_of(h, a, b)));
    }
    assert(h@.subrange(k as int, b as int) =~= target.subrange(k - a, target.len() as int));
    let port = match parse_u16(vstd::slice::slice_subrange(h, k, b)) {
        None => {
            let text = text_of(h, k, b);
            return Err(HttpError::InvalidPort(u16_parse_error(text.as_str())));
        },
        Some(p) => p,
    };
    let host = text_of(h, a, k - 1);
    assert(h@.subrange(a as int, k - 1) =~= target.subrange(0, k - a - 1));
    let reply = vec![
        72u8, 84u8, 84u8, 80u8, 47u8, 49u8, 46u8, 49u8, 32u8, 50u8, 48u8, 48u8, 32u8, 67u8, 111u8,
        110u8, 110u8, 101u8, 99u8, 116u8, 105u8, 111u8, 110u8, 32u8, 69u8, 115u8, 116u8, 97u8,
        98u8, 108u8, 105u8, 115u8, 104u8, 101u8, 100u8, 13u8, 10u8, 13u8, 10u8,
    ];
    Ok(HttpTarget { host, port, reply, preamble: Vec::new() })
}

fn parse_plain_target(headers: Vec<u8>, a: usize, b: usize) -> (r: Result<HttpTarget, HttpError>)
    requires
        valid_utf8(headers@),
        0 < a <= b < headers@.len(),
        headers@[a - 1] < 128,
        headers@[b as int] < 128,
    ensures
        parse_view(r) == spec_plain_target(headers@.subrange(a as int, b as int), headers@),
{
    let h = headers.as_slice();
    let ghost target = h@.subrange(a as int, b as int);
    let scheme: [u8; 7] = [104, 116, 116, 112, 58, 47, 47];
    assert(scheme@ =~= http_scheme());
    let has_scheme = b - a >= 7 && bytes_equal(h, a, scheme.as_slice());
    proof {
        if b - a >= 7 {
            assert(h@.subrange(a as int, a + 7) =~= target.subrange(0, 7));
        }
    }
    if !has_scheme {
        return Err(HttpError::ExpectedHttpUrl(text_of(h, a, b)));
    }
    let start = a + 7;
    let ghost rest = target.subrange(7, target.len() as int);
    assert(rest =~= h@.subrange(start as int, b as int));
    assert(h@[start - 1] == target[6]);
    let e = find_first(h, start, b, 47);
    let ghost authority = rest.subrange(0, first_index(rest, 47));
    assert(authority =~= h@.subrange(start as int, e as int));
    let k = find_last(h, start, e, 58);
    if k > start {
        assert(h@.subrange(k as int, e as int) =~= authority.subrange(k - start, authority.len() as int));
        let port = match parse_u16(vstd::slice::slice_subrange(h, k, e)) {
            None => {
                let text = text_of(h, k, e);
                return Err(HttpError::InvalidPort(u16_parse_error(text.as_str())));
            },
            Some(p) => p,
        };
        let host = text_of(h, start, k - 1);
        assert(h@.subrange(start as int, k - 1) =~= authority.subrange(0, k - start - 1));
        Ok(HttpTarget { host, port, reply: Vec::new(), preamble: headers })
    } else {
        let host = text_of(h, start, e);
        Ok(HttpTarget { host, port: 80, reply: Vec::new(), preamble: headers })
    }
}

/// Reads from a complete request head where to connect, what to answer the client, and
/// what to pass on to the target.
pub fn parse_request(headers: Vec<u8>) -> (r: Result<HttpTarget, HttpError>)
    ensures
        parse_view(r) == spec_parse_request(headers@),
{
    let h = headers.as_slice();
    match str_utf8_error(h) {
        Some(t) => {
            return Err(HttpError::InvalidUtf8(t));
        },
        None => {},
    }
    let e = find_crlf(h);
    if e >= h.len() {
        return Err(HttpError::EmptyRequest);
    }
    let ghost line = h@.subrange(0, e as int);
    let m = find_first(h, 0, e, 32);
    if m >= e {
        return Err(HttpError::MissingTarget);
    }
    let t = find_first(h, m + 1, e, 32);
    assert(line.subrange(m + 1, line.len() as int) =~= h@.subrange(m + 1, e as int));
    assert(request_target(line, m as int) =~= h@.subrange(m + 1, t as int));
    let connect: [u8; 7] = [67, 79, 78, 78, 69, 67, 84];
    assert(connect@ =~= connect_method());
    let is_connect = m == 7 && bytes_equal(h, 0, connect.as_slice());
    assert(line.subrange(0, m as int) =~= h@.subrange(0, m as int));
    if is_connect {
        parse_connect_target(h, m + 1, t)
    } else {
        parse_plain_target(headers, m + 1, t)
    }
}

/// What an accepted request head asks of the proxy: for a CONNECT, answer the client with
/// the confirmation and pass nothing on; for a plain request, answer nothing and pass the
/// whole head on to the target.
pub proof fn lemma_http_reply_and_preamble(h: Seq<u8>)
    ensures
        spec_parse_request(h) matches Ok(t) ==> (
            (t.reply == connect_established_reply() && t.preamble == Seq::<u8>::empty())
            || (t.reply == Seq::<u8>::empty() && t.preamble == h)),
{
}

/// Only a head that ends with a blank line is complete, and a head is given up only once
/// it is longer than the limit.
pub proof fn lemma_scan_headers(buf: Seq<u8>)
    ensures
        spec_scan_headers(buf) == HeaderScan::Complete <==> ends_with_blank_line(buf),
        spec_scan_headers(buf) == HeaderScan::TooLarge ==> buf.len() > MAX_HEADER_BYTES,
        buf.len() <= MAX_HEADER_BYTES && !ends_with_blank_line(buf) ==> spec_scan_headers(buf) == HeaderScan::NeedMore,
{
}

/// The first CR LF is one, and none comes before it.
proof fn lemma_first_crlf_props(s: Seq<u8>)
    ensures
        0 <= first_crlf(s) <= s.len(),
        first_crlf(s) < s.len() ==> crlf_at(s, first_crlf(s)),
        forall|j: int| 0 <= j < first_crlf(s) ==> !#[trigger] crlf_at(s, j),
    decreases s.len(),
{
    if s.len() >= 2 && !(s[0] == 13 && s[1] == 10) {
        let t = s.drop_first();
        lemma_first_crlf_props(t);
        assert forall|j: int| 0 <= j < first_crlf(s) implies !#[trigger] crlf_at(s, j) by {
            if j > 0 {
                assert(!crlf_at(t, j - 1));
                assert(t[j - 1] == s[j]);
                if j < t.len() {
                    assert(t[j] == s[j + 1]);
                }
            }
        }
        if first_crlf(s) < s.len() {
            let k = first_crlf(t);
            assert(crlf_at(t, k));
            assert(t[k] == s[k + 1] && t[k + 1] == s[k + 2]);
        }
    }
}

/// The first `c` is one, and none comes before it.
proof fn lemma_first_index_props(s: Seq<u8>, c: u8)
    ensures
        0 <= first_index(s, c) <= s.len(),
        first_index(s, c) < s.len() ==> s[first_index(s, c)] == c,
        forall|j: int| 0 <= j < first_index(s, c) ==> s[j] != c,
    decreases s.len(),
{
    if s.len() > 0 && s[0] != c {
        let t = s.drop_first();
        lemma_first_index_props(t, c);
        assert forall|j: int| 0 <= j < first_index(s, c) implies s[j] != c by {
            if j > 0 {
                assert(t[j - 1] == s[j]);
            }
        }
    }
}

/// The request line starts with the method `CONNECT` and a space.
pub open spec fn is_connect_request(h: Seq<u8>) -> bool {
    h.len() >= 8 && h.subrange(0, 8) == seq![67u8, 79u8, 78u8, 78u8, 69u8, 67u8, 84u8, 32u8]
}

/// A CONNECT opens a tunnel and anything else is forwarded: when a head is accepted, a
/// request whose line starts with `CONNECT ` is answered with the confirmation and nothing is
/// passed on; any other request is answered with nothing and its whole head is passed on to
/// the target.
pub proof fn lemma_connect_tunnels_plain_forwards(h: Seq<u8>)
    ensures
        spec_parse_request(h) matches Ok(t) ==> (is_connect_request(h) ==> t.reply == connect_established_reply()
            && t.preamble.len() == 0),
        spec_parse_request(h) matches Ok(t) ==> (!is_connect_request(h) ==> t.reply.len() == 0 && t.preamble == h),
{
    if spec_parse_request(h) is Ok {
        let c8 = seq![67u8, 79u8, 78u8, 78u8, 69u8, 67u8, 84u8, 32u8];
        lemma_first_crlf_props(h);
        let e = first_crlf(h);
        let line = h.subrange(0, e);
        let m = first_index(line, 32);
        lemma_first_index_props(line, 32);
        if is_connect_request(h) {
            assert(crlf_at(h, e));
            if e < 8 {
                assert(h[e] == h.subrange(0, 8)[e]);
            }
            assert forall|j: int| 0 <= j < 7 implies line[j] != 32u8 by {
                assert(line[j] == h.subrange(0, 8)[j]);
            }
            assert(line[7] == h.subrange(0, 8)[7]);
            lemma_first_index(line, 32, 7);
            assert(line.subrange(0, 7) =~= connect_method()) by {
                assert forall|j: int| 0 <= j < 7 implies line.subrange(0, 7)[j] == connect_method()[j] by {
                    assert(line[j] == h.subrange(0, 8)[j]);
                }
            }
        } else {
            if line.subrange(0, m) == connect_method() {
                assert(line.subrange(0, m).len() == connect_method().len());
                assert(m == 7);
                assert(h.subrange(0, 8) =~= c8) by {
                    assert forall|j: int| 0 <= j < 8 implies h.subrange(0, 8)[j] == c8[j] by {
                        assert(h[j] == line[j]);
                        if j < 7 {
                            assert(line.subrange(0, m)[j] == line[j]);
                        }
                    }
                }
            }
        }
    }
}

/// The URL of a plain request: `http://`, the authority, `/`, the path.
pub open spec fn plain_url(a: Seq<u8>, path: Seq<u8>) -> Seq<u8> {
    seq![104u8, 116u8, 116u8, 112u8, 58u8, 47u8, 47u8] + a + seq![47u8] + path
}

/// The request line of a plain request: `METHOD URL VERSION`.
pub open spec fn plain_line(method: Seq<u8>, a: Seq<u8>, path: Seq<u8>, version: Seq<u8>) -> Seq<u8> {
    method + seq![32u8] + (plain_url(a, path) + seq![32u8] + version)
}

/// A plain request head: `METHOD http://A/P VERSION`, CR LF, then the rest of the head.
pub open spec fn plain_request_head(method: Seq<u8>, a: Seq<u8>, path: Seq<u8>, version: Seq<u8>, rest: Seq<u8>) -> Seq<u8> {
    plain_line(method, a, path, version) + seq![13u8, 10u8] + rest
}

/// The URL's bytes: no CR anywhere, and no space.
proof fn lemma_plain_url_bytes(a: Seq<u8>, path: Seq<u8>)
    requires
        forall|i: int| 0 <= i < a.len() ==> #[trigger] a[i] != 47u8 && a[i] != 58u8 && a[i] != 32u8 && a[i] != 13u8,
        forall|i: int| 0 <= i < path.len() ==> #[trigger] path[i] != 32u8 && path[i] != 13u8,
    ensures
        forall|k: int| 0 <= k < plain_url(a, path).len() ==> #[trigger] plain_url(a, path)[k] != 32u8
            && plain_url(a, path)[k] != 13u8,
{
    let scheme = seq![104u8, 116u8, 116u8, 112u8, 58u8, 47u8, 47u8];
    let url = plain_url(a, path);
    assert forall|k: int| 0 <= k < url.len() implies #[trigger] url[k] != 32u8 && url[k] != 13u8 by {
        if k < 7 {
            assert(url[k] == scheme[k]);
        } else if k < 7 + a.len() {
            assert(url[k] == a[k - 7]);
        } else if k > 7 + a.len() {
            assert(url[k] == path[k - 8 - a.len()]);
        }
    }
}

/// The request line holds no CR; its method ends at the first space and its target, the
/// URL, at the next.
proof fn lemma_plain_line(method: Seq<u8>, a: Seq<u8>, path: Seq<u8>, version: Seq<u8>)
    requires
        forall|i: int| 0 <= i < method.len() ==> #[trigger] method[i] != 32u8 && method[i] != 13u8,
        forall|i: int| 0 <= i < a.len() ==> #[trigger] a[i] != 47u8 && a[i] != 58u8 && a[i] != 32u8 && a[i] != 13u8,
        forall|i: int| 0 <= i < path.len() ==> #[trigger] path[i] != 32u8 && path[i] != 13u8,
        forall|i: int| 0 <= i < version.len() ==> #[trigger] version[i] != 13u8,
    ensures
        forall|j: int| 0 <= j < plain_line(method, a, path, version).len() ==> #[trigger] plain_line(method, a, path, version)[j] != 13u8,
        first_index(plain_line(method, a, path, version), 32) == method.len(),
        plain_line(method, a, path, version).subrange(0, method.len() as int) == method,
        request_target(plain_line(method, a, path, version), method.len() as int) == plain_url(a, path),
{
    let url = plain_url(a, path);
    let after = url + seq![32u8] + version;
    let line = plain_line(method, a, path, version);
    let p0 = method.len() as int;
    let q = url.len() as int;
    lemma_plain_url_bytes(a, path);
    assert forall|k: int| 0 <= k < after.len() implies #[trigger] after[k] != 13u8 by {
        if k < q {
            assert(after[k] == url[k]);
        } else if k > q {
            assert(after[k] == version[k - q - 1]);
        }
    }
    assert forall|j: int| 0 <= j < line.len() implies #[trigger] line[j] != 13u8 by {
        if j < p0 {
            assert(line[j] == method[j]);
        } else if j > p0 {
            assert(line[j] == after[j - p0 - 1]);
        }
    }
    assert forall|j: int| 0 <= j < p0 implies line[j] != 32u8 by {
        assert(line[j] == method[j]);
    }
    lemma_first_index(line, 32, p0);
    assert(line.subrange(0, p0) =~= method);
    assert(line.subrange(p0 + 1, line.len() as int) =~= after);
    assert forall|k: int| 0 <= k < q implies after[k] != 32u8 by {
        assert(after[k] == url[k]);
    }
    lemma_first_index(after, 32, q);
    assert(after.subrange(0, q) =~= url);
}

/// A plain URL's host is its authority, with port 80.
proof fn lemma_plain_url_target(a: Seq<u8>, path: Seq<u8>, h: Seq<u8>)
    requires
        forall|i: int| 0 <= i < a.len() ==> #[trigger] a[i] != 47u8 && a[i] != 58u8 && a[i] != 32u8 && a[i] != 13u8,
    ensures
        spec_plain_target(plain_url(a, path), h) == Ok::<HttpTargetView, HttpErrorView>(
            HttpTargetView { host: decode_utf8(a), port: 80, reply: Seq::empty(), preamble: h },
        ),
{
    let url = plain_url(a, path);
    assert(url.subrange(0, 7) =~= http_scheme());
    let tail = url.subrange(7, url.len() as int);
    assert(tail =~= a + seq![47u8] + path);
    assert forall|k: int| 0 <= k < a.len() implies tail[k] != 47u8 by {
        assert(tail[k] == a[k]);
    }
    lemma_first_index(tail, 47, a.len() as int);
    assert(tail.subrange(0, a.len() as int) =~= a);
    lemma_last_index(a, 58, -1);
}

/// The authority of a plain request's URL ends at the first `/` after the scheme: for a
/// request `METHOD http://A/P ...` whose method is not CONNECT and whose authority `A` has
/// no `/`, `:`, space or CR, the host is exactly `A`, the port is 80, nothing is answered
/// and the whole head is passed on, whatever the path `P` (without space or CR).
pub proof fn lemma_plain_host_is_authority(
    method: Seq<u8>,
    a: Seq<u8>,
    path: Seq<u8>,
    version: Seq<u8>,
    rest: Seq<u8>,
)
    requires
        method != connect_method(),
        forall|i: int| 0 <= i < method.len() ==> #[trigger] method[i] != 32u8 && method[i] != 13u8,
        forall|i: int| 0 <= i < a.len() ==> #[trigger] a[i] != 47u8 && a[i] != 58u8 && a[i] != 32u8 && a[i] != 13u8,
        forall|i: int| 0 <= i < path.len() ==> #[trigger] path[i] != 32u8 && path[i] != 13u8,
        forall|i: int| 0 <= i < version.len() ==> #[trigger] version[i] != 13u8,
        valid_utf8(plain_request_head(method, a, path, version, rest)),
    ensures
        spec_parse_request(plain_request_head(method, a, path, version, rest)) == Ok::<HttpTargetView, HttpErrorView>(
            HttpTargetView {
                host: decode_utf8(a),
                port: 80,
                reply: Seq::empty(),
                preamble: plain_request_head(method, a, path, version, rest),
            },
        ),
{
    let h = plain_request_head(method, a, path, version, rest);
    let line = plain_line(method, a, path, version);
    let ll = line.len() as int;
    lemma_plain_line(method, a, path, version);
    assert forall|j: int| 0 <= j < ll implies !#[trigger] crlf_at(h, j) by {
        assert(h[j] == line[j]);
    }
    assert(h[ll] == 13u8 && h[ll + 1] == 10u8);
    lemma_first_crlf(h, ll);
    assert(h.subrange(0, ll) =~= line);
    lemma_plain_url_target(a, path, h);
}

} // verus!
