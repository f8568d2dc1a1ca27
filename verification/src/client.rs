//! Client-side rules: which local proxy a listen URL asks for, and the list of saved
//! server node ids.
use vstd::prelude::*;
use vstd::string::StringExecFns;
use crate::text::{chars_of, string_of_chars, chars_equal};

verus! {

/// The kind of local proxy the client runs.
#[derive(Debug, Clone, Copy, PartialEq, Eq, Structural)]
pub enum ProxyType {
    Socks5,
    Http,
}

/// What `str::to_lowercase` makes of a string.
pub uninterp spec fn lowercase(s: Seq<char>) -> Seq<char>;

/// Every character is ASCII.
pub open spec fn is_ascii_chars(s: Seq<char>) -> bool {
    forall|i: int| 0 <= i < s.len() ==> (#[trigger] s[i] as u32) < 128
}

/// ASCII letters made lowercase, every other character kept.
pub open spec fn ascii_lower(s: Seq<char>) -> Seq<char> {
    Seq::new(s.len(), |i: int| if 'A' <= s[i] && s[i] <= 'Z' { ((s[i] as u32) + 32) as char } else { s[i] })
}

/// The lowercase form of a scheme: for ASCII text, its letters made lowercase.
pub open spec fn lower_text(s: Seq<char>) -> Seq<char> {
    if is_ascii_chars(s) {
        ascii_lower(s)
    } else {
        lowercase(s)
    }
}

/// Lowercases a string.
///
/// Calls `str::to_lowercase`; trusted to return a value determined by the characters
/// alone which, for ASCII text, maps `A`–`Z` to `a`–`z` and keeps every other character
/// (Unicode's lowercase mapping of ASCII). The mapping of other characters is not stated.
#[verifier::external_body]
fn to_lowercase(s: &str) -> (r: String)
    ensures
        r@ == lowercase(s@),
        is_ascii_chars(s@) ==> r@ == ascii_lower(s@),
{
    s.to_lowercase()
}

/// `://` starts at position `i`.
pub open spec fn scheme_sep_at(u: Seq<char>, i: int) -> bool {
    0 <= i && i + 3 <= u.len() && u[i] == ':' && u[i + 1] == '/' && u[i + 2] == '/'
}

/// Position of the first `://`, or the length when there is none.
pub open spec fn first_scheme_sep(u: Seq<char>) -> int
    decreases u.len(),
{
    if u.len() < 3 {
        u.len() as int
    } else if scheme_sep_at(u, 0) {
        0
    } else {
        1 + first_scheme_sep(u.drop_first())
    }
}

/// The proxy kind a lowercased scheme names.
pub open spec fn proxy_kind(lower: Seq<char>) -> Option<ProxyType> {
    if lower == seq!['s', 'o', 'c', 'k', 's', '5'] {
        Some(ProxyType::Socks5)
    } else if lower == seq!['h', 't', 't', 'p'] {
        Some(ProxyType::Http)
    } else {
        None
    }
}

/// A listen URL `scheme://address`, split at its first `://`, with the scheme compared
/// case-insensitively to `socks5` and `http`. `None` for any other URL.
pub open spec fn spec_proxy_url(u: Seq<char>) -> Option<(ProxyType, Seq<char>)> {
    let i = first_scheme_sep(u);
    if i >= u.len() {
        None
    } else {
        match proxy_kind(lower_text(u.subrange(0, i))) {
            Some(t) => Some((t, u.subrange(i + 3, u.len() as int))),
            None => None,
        }
    }
}

proof fn lemma_first_scheme_sep(u: Seq<char>, i: int)
    requires
        0 <= i <= u.len(),
        forall|j: int| 0 <= j < i ==> !#[trigger] scheme_sep_at(u, j),
        i == u.len() || scheme_sep_at(u, i),
        i < u.len() || forall|j: int| 0 <= j < u.len() ==> !#[trigger] scheme_sep_at(u, j),
    ensures
        first_scheme_sep(u) == i,
    decreases u.len(),
{
    if u.len() >= 3 && i > 0 {
        assert(!scheme_sep_at(u, 0));
        let t = u.drop_first();
        assert forall|j: int| 0 <= j < t.len() && (j < i - 1 || i == u.len()) implies !#[trigger] scheme_sep_at(t, j) by {
            assert(!scheme_sep_at(u, j + 1));
            if j + 3 <= t.len() {
                assert(t[j] == u[j + 1] && t[j + 1] == u[j + 2] && t[j + 2] == u[j + 3]);
            }
        }
        if i < u.len() {
            assert(t[i - 1] == u[i] && t[i] == u[i + 1] && t[i + 1] == u[i + 2]);
        }
        lemma_first_scheme_sep(t, i - 1);
    }
}

/// Position of the first `://` in `u`, or its length.
fn find_scheme_sep(u: &[char]) -> (i: usize)
    ensures
        i == first_scheme_sep(u@),
        i < u@.len() ==> scheme_sep_at(u@, i as int),
{
    let n = u.len();
    let mut i: usize = 0;
    while n - i >= 3 && !(u[i] == ':' && u[i + 1] == '/' && u[i + 2] == '/')
        invariant
            n == u@.len(),
            i <= n,
            forall|j: int| 0 <= j < i ==> !#[trigger] scheme_sep_at(u@, j),
        decreases n - i,
    {
        i = i + 1;
    }
    if n - i < 3 {
        proof {
            assert forall|j: int| 0 <= j < n implies !#[trigger] scheme_sep_at(u@, j) by {
                if j >= i {
                }
            }
            lemma_first_scheme_sep(u@, n as int);
        }
        return n;
    }
    proof { lemma_first_scheme_sep(u@, i as int); }
    i
}

/// The kind of local proxy a lowercased scheme names: `socks5` or `http`.
pub fn proxy_type_of_scheme(lower: &str) -> (r: Option<ProxyType>)
    ensures
        r == proxy_kind(lower@),
{
    let lower_chars = chars_of(lower);
    let socks5: [char; 6] = ['s', 'o', 'c', 'k', 's', '5'];
    let http: [char; 4] = ['h', 't', 't', 'p'];
    assert(socks5@ =~= seq!['s', 'o', 'c', 'k', 's', '5']);
    assert(http@ =~= seq!['h', 't', 't', 'p']);
    if chars_equal(lower_chars.as_slice(), socks5.as_slice()) {
        Some(ProxyType::Socks5)
    } else if chars_equal(lower_chars.as_slice(), http.as_slice()) {
        Some(ProxyType::Http)
    } else {
        None
    }
}

/// Splits a listen URL: its characters, the position of its first `://`, and the proxy
/// kind its lowercased scheme names.
fn split_proxy_url(url: &str) -> (r: (Vec<char>, usize, Option<ProxyType>))
    ensures
        r.0@ == url@,
        r.1 == first_scheme_sep(url@),
        r.1 < url@.len() ==> scheme_sep_at(url@, r.1 as int),
        r.1 < url@.len() ==> r.2 == proxy_kind(lower_text(url@.subrange(0, r.1 as int))),
{
    let cs = chars_of(url);
    let i = find_scheme_sep(cs.as_slice());
    if i >= cs.len() {
        return (cs, i, None);
    }
    let prefix = string_of_chars(cs.as_slice(), 0, i);
    let lower = to_lowercase(prefix.as_str());
    let kind = proxy_type_of_scheme(lower.as_str());
    (cs, i, kind)
}

/// Reads the kind of local proxy and the address to listen on from a listen URL such as
/// `socks5://127.0.0.1:1080`.
pub fn get_proxy_addr_and_type(url: &str) -> (r: (ProxyType, String))
    requires
        spec_proxy_url(url@) is Some,
    ensures
        spec_proxy_url(url@) == Some((r.0, r.1@)),
{
    let (cs, i, kind) = split_proxy_url(url);
    let typ = match kind {
        Some(t) => t,
        None => {
            assert(false);
            ProxyType::Http
        },
    };
    assert(i + 3 <= cs.len());
    (typ, string_of_chars(cs.as_slice(), i + 3, cs.len()))
}

/// Why a listen URL is refused.
pub enum ProxyUrlError {
    /// No `://` separates a scheme from the address.
    InvalidFormat,
    /// The scheme, as written, names neither proxy kind.
    UnsupportedType(String),
}

/// The abstract value of a [`ProxyUrlError`].
pub enum ProxyUrlErrorView {
    InvalidFormat,
    UnsupportedType(Seq<char>),
}

impl View for ProxyUrlError {
    type V = ProxyUrlErrorView;

    open spec fn view(&self) -> ProxyUrlErrorView {
        match self {
            ProxyUrlError::InvalidFormat => ProxyUrlErrorView::InvalidFormat,
            ProxyUrlError::UnsupportedType(p) => ProxyUrlErrorView::UnsupportedType(p@),
        }
    }
}

/// Why a listen URL that [`spec_proxy_url`] refuses is refused: it has no `://`, or the
/// scheme before it names no proxy kind.
pub open spec fn spec_proxy_url_error(u: Seq<char>) -> ProxyUrlErrorView {
    let i = first_scheme_sep(u);
    if i >= u.len() {
        ProxyUrlErrorView::InvalidFormat
    } else {
        ProxyUrlErrorView::UnsupportedType(u.subrange(0, i))
    }
}

impl ProxyUrlError {
    /// The message the client stops with.
    pub fn message(&self) -> (s: String)
        ensures
            self is InvalidFormat ==> s@ == "Invalid format: must be protocol://host:port"@,
            self matches ProxyUrlError::UnsupportedType(p) ==> s@ == "Unsupported proxy type: "@ + p@,
    {
        match self {
            ProxyUrlError::InvalidFormat => String::from_str("Invalid format: must be protocol://host:port"),
            ProxyUrlError::UnsupportedType(p) => {
                let mut s = String::from_str("Unsupported proxy type: ");
                s.append(p.as_str());
                s
            },
        }
    }
}

/// Like [`get_proxy_addr_and_type`], but says why a URL without `://`, or with a scheme
/// other than `socks5` and `http`, is refused.
pub fn try_get_proxy_addr_and_type(url: &str) -> (r: Result<(ProxyType, String), ProxyUrlError>)
    ensures
        r is Ok <==> spec_proxy_url(url@) is Some,
        r matches Ok(p) ==> spec_proxy_url(url@) == Some((p.0, p.1@)),
        r matches Err(e) ==> e@ == spec_proxy_url_error(url@),
{
    let (cs, i, kind) = split_proxy_url(url);
    if i >= cs.len() {
        return Err(ProxyUrlError::InvalidFormat);
    }
    if kind.is_none() {
        return Err(ProxyUrlError::UnsupportedType(string_of_chars(cs.as_slice(), 0, i)));
    }
    Ok(get_proxy_addr_and_type(url))
}

} // verus!
