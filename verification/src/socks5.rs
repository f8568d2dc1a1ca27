//! The SOCKS5 handshake of the client's local proxy, as a sequence of decisions on the
//! bytes received so far. The caller reads what is asked for, sends the replies, and
//! relays the stream once a target is accepted.
use vstd::prelude::*;
use vstd::utf8::*;
use crate::wire::{be16_at, read_be16_at, string_from_utf8, string_utf8_error_text};
use crate::text::{
    decimal, push_decimal, decimal_string, hex_chars, hex_encode, lemma_encode_utf8_concat, lemma_encode_ascii,
    string_of_encoding,
};
use vstd::string::StringExecFns;

verus! {

broadcast use vstd::utf8::encode_utf8_valid_utf8, vstd::utf8::encode_utf8_decode_utf8;

/// Where the SOCKS5 client wants to connect.
pub enum Socks5Target {
    /// An IPv4 address.
    Ipv4([u8; 4]),
    /// A host name.
    Domain(String),
    /// An IPv6 address.
    Ipv6([u8; 16]),
}

/// The abstract value of a [`Socks5Target`].
pub enum Socks5TargetView {
    Ipv4(Seq<u8>),
    Domain(Seq<char>),
    Ipv6(Seq<u8>),
}

impl View for Socks5Target {
    type V = Socks5TargetView;

    open spec fn view(&self) -> Socks5TargetView {
        match self {
            Socks5Target::Ipv4(a) => Socks5TargetView::Ipv4(a@),
            Socks5Target::Domain(d) => Socks5TargetView::Domain(d@),
            Socks5Target::Ipv6(a) => Socks5TargetView::Ipv6(a@),
        }
    }
}

/// Why a SOCKS5 handshake failed.
#[derive(Debug, PartialEq, Eq)]
pub enum Socks5Error {
    /// The greeting does not start with version 5.
    UnsupportedVersion(u8),
    /// The client offered no method the proxy accepts (only "no authentication" is).
    NoAcceptableAuth,
    /// The request does not start with version 5.
    ExpectedSocks5(u8),
    /// The request's command is not CONNECT.
    UnsupportedCommand(u8),
    /// The requested host name is not UTF-8; the text is the error `String::from_utf8`
    /// gives for it.
    InvalidDomainName(String),
    /// The request's address type is none of IPv4, host name, IPv6.
    UnsupportedAddressType(u8),
}

/// The abstract value of a [`Socks5Error`].
pub enum Socks5ErrorView {
    UnsupportedVersion(u8),
    NoAcceptableAuth,
    ExpectedSocks5(u8),
    UnsupportedCommand(u8),
    InvalidDomainName(Seq<char>),
    UnsupportedAddressType(u8),
}

impl View for Socks5Error {
    type V = Socks5ErrorView;

    open spec fn view(&self) -> Socks5ErrorView {
        match self {
            Socks5Error::UnsupportedVersion(v) => Socks5ErrorView::UnsupportedVersion(*v),
            Socks5Error::NoAcceptableAuth => Socks5ErrorView::NoAcceptableAuth,
            Socks5Error::ExpectedSocks5(v) => Socks5ErrorView::ExpectedSocks5(*v),
            Socks5Error::UnsupportedCommand(c) => Socks5ErrorView::UnsupportedCommand(*c),
            Socks5Error::InvalidDomainName(t) => Socks5ErrorView::InvalidDomainName(t@),
            Socks5Error::UnsupportedAddressType(a) => Socks5ErrorView::UnsupportedAddressType(*a),
        }
    }
}

/// The message reported for a failed handshake.
pub open spec fn socks5_error_text(e: Socks5ErrorView) -> Seq<char> {
    match e {
        Socks5ErrorView::UnsupportedVersion(v) => "unsupported SOCKS version: "@ + decimal(v as nat),
        Socks5ErrorView::NoAcceptableAuth => "client offered no acceptable auth methods"@,
        Socks5ErrorView::ExpectedSocks5(v) => "expected SOCKS5 in request, got version "@ + decimal(v as nat),
        Socks5ErrorView::UnsupportedCommand(c) => "unsupported SOCKS5 command: 0x"@ + hex_chars(seq![c])
            + " (only CONNECT supported)"@,
        Socks5ErrorView::InvalidDomainName(t) => t,
        Socks5ErrorView::UnsupportedAddressType(a) => "unsupported SOCKS5 address type: 0x"@ + hex_chars(seq![a]),
    }
}

impl Socks5Error {
    /// The message reported for this failure; codes are written as `0x` and two
    /// hexadecimal digits.
    pub fn message(&self) -> (s: String)
        ensures
            s@ == socks5_error_text(self@),
    {
        match self {
            Socks5Error::UnsupportedVersion(v) => {
                let mut s = String::from_str("unsupported SOCKS version: ");
                s.append(decimal_string(*v as u64).as_str());
                s
            },
            Socks5Error::NoAcceptableAuth => String::from_str("client offered no acceptable auth methods"),
            Socks5Error::ExpectedSocks5(v) => {
                let mut s = String::from_str("expected SOCKS5 in request, got version ");
                s.append(decimal_string(*v as u64).as_str());
                s
            },
            Socks5Error::UnsupportedCommand(c) => {
                let code = [*c];
                assert(code@ =~= seq![*c]);
                let mut s = String::from_str("unsupported SOCKS5 command: 0x");
                s.append(hex_encode(code.as_slice()).as_str());
                s.append(" (only CONNECT supported)");
                s
            },
            Socks5Error::InvalidDomainName(t) => t.clone(),
            Socks5Error::UnsupportedAddressType(a) => {
                let code = [*a];
                assert(code@ =~= seq![*a]);
                let mut s = String::from_str("unsupported SOCKS5 address type: 0x");
                s.append(hex_encode(code.as_slice()).as_str());
                s
            },
        }
    }
}

/// What the caller does next in a handshake phase.
pub enum Socks5Action {
    /// Receive until the phase's buffer holds `needed` bytes, then decide again.
    Read { needed: usize },
    /// Send `reply` (when not empty) and abandon the connection with `error`.
    Refuse { reply: Vec<u8>, error: Socks5Error },
    /// The greeting took `used` bytes and is accepted: send `reply`, then read the request.
    Greeted { reply: Vec<u8>, used: usize },
    /// The request took `used` bytes and is accepted: send `reply`, then relay the stream
    /// to `target` at `port`.
    Connect { reply: Vec<u8>, target: Socks5Target, port: u16, used: usize },
}

/// The abstract value of a [`Socks5Action`].
pub enum Socks5ActionView {
    Read { needed: int },
    Refuse { reply: Seq<u8>, error: Socks5ErrorView },
    Greeted { reply: Seq<u8>, used: int },
    Connect { reply: Seq<u8>, target: Socks5TargetView, port: u16, used: int },
}

impl View for Socks5Action {
    type V = Socks5ActionView;

    open spec fn view(&self) -> Socks5ActionView {
        match self {
            Socks5Action::Read { needed } => Socks5ActionView::Read { needed: *needed as int },
            Socks5Action::Refuse { reply, error } => Socks5ActionView::Refuse { reply: reply@, error: error@ },
            Socks5Action::Greeted { reply, used } => Socks5ActionView::Greeted { reply: reply@, used: *used as int },
            Socks5Action::Connect { reply, target, port, used } => Socks5ActionView::Connect {
                reply: reply@,
                target: target@,
                port: *port,
                used: *used as int,
            },
        }
    }
}

/// Reply choosing "no authentication".
pub open spec fn reply_method_selected() -> Seq<u8> {
    seq![5u8, 0u8]
}

/// Reply saying no offered method is acceptable.
pub open spec fn reply_no_acceptable_method() -> Seq<u8> {
    seq![5u8, 0xFFu8]
}

/// Reply saying the command is not supported.
pub open spec fn reply_command_not_supported() -> Seq<u8> {
    seq![5u8, 7u8, 0u8, 1u8, 0u8, 0u8, 0u8, 0u8, 0u8, 0u8]
}

/// Reply saying the connection succeeded.
pub open spec fn reply_succeeded() -> Seq<u8> {
    seq![5u8, 0u8, 0u8, 1u8, 0u8, 0u8, 0u8, 0u8, 0u8, 0u8]
}

/// The greeting phase: version 5, a method count, the methods; "no authentication"
/// (method 0) must be among them.
pub open spec fn spec_greeting_step(buf: Seq<u8>) -> Socks5ActionView {
    if buf.len() < 1 {
        Socks5ActionView::Read { needed: 1 }
    } else if buf[0] != 5 {
        Socks5ActionView::Refuse { reply: Seq::empty(), error: Socks5ErrorView::UnsupportedVersion(buf[0]) }
    } else if buf.len() < 2 {
        Socks5ActionView::Read { needed: 2 }
    } else if buf.len() < 2 + buf[1] {
        Socks5ActionView::Read { needed: 2 + buf[1] }
    } else if !buf.subrange(2, 2 + buf[1]).contains(0u8) {
        Socks5ActionView::Refuse { reply: reply_no_acceptable_method(), error: Socks5ErrorView::NoAcceptableAuth }
    } else {
        Socks5ActionView::Greeted { reply: reply_method_selected(), used: 2 + buf[1] }
    }
}

/// The request phase: version 5, command, reserved byte, address type, address, port.
/// Only CONNECT is served; the address is 4 bytes (IPv4), a length-prefixed host name, or
/// 16 bytes (IPv6); the port is big-endian.
pub open spec fn spec_request_step(buf: Seq<u8>) -> Socks5ActionView {
    if buf.len() < 1 {
        Socks5ActionView::Read { needed: 1 }
    } else if buf[0] != 5 {
        Socks5ActionView::Refuse { reply: Seq::empty(), error: Socks5ErrorView::ExpectedSocks5(buf[0]) }
    } else if buf.len() < 4 {
        Socks5ActionView::Read { needed: 4 }
    } else if buf[1] != 1 {
        Socks5ActionView::Refuse { reply: reply_command_not_supported(), error: Socks5ErrorView::UnsupportedCommand(buf[1]) }
    } else if buf[3] == 1 {
        if buf.len() < 10 {
            Socks5ActionView::Read { needed: 10 }
        } else {
            Socks5ActionView::Connect {
                reply: reply_succeeded(),
                target: Socks5TargetView::Ipv4(buf.subrange(4, 8)),
                port: be16_at(buf, 8),
                used: 10,
            }
        }
    } else if buf[3] == 3 {
        if buf.len() < 5 {
            Socks5ActionView::Read { needed: 5 }
        } else if buf.len() < 5 + buf[4] {
            Socks5ActionView::Read { needed: 5 + buf[4] }
        } else if !valid_utf8(buf.subrange(5, 5 + buf[4])) {
            Socks5ActionView::Refuse {
                reply: Seq::empty(),
                error: Socks5ErrorView::InvalidDomainName(string_utf8_error_text(buf.subrange(5, 5 + buf[4]))),
            }
        } else if buf.len() < 7 + buf[4] {
            Socks5ActionView::Read { needed: 7 + buf[4] }
        } else {
            Socks5ActionView::Connect {
                reply: reply_succeeded(),
                target: Socks5TargetView::Domain(decode_utf8(buf.subrange(5, 5 + buf[4]))),
                port: be16_at(buf, 5 + buf[4]),
                used: 7 + buf[4],
            }
        }
    } else if buf[3] == 4 {
        if buf.len() < 22 {
            Socks5ActionView::Read { needed: 22 }
        } else {
            Socks5ActionView::Connect {
                reply: reply_succeeded(),
                target: Socks5TargetView::Ipv6(buf.subrange(4, 20)),
                port: be16_at(buf, 20),
                used: 22,
            }
        }
    } else {
        Socks5ActionView::Refuse { reply: Seq::empty(), error: Socks5ErrorView::UnsupportedAddressType(buf[3]) }
    }
}

/// Decides the greeting phase on the bytes received so far.
pub fn greeting_step(buf: &[u8]) -> (r: Socks5Action)
    ensures
        r@ == spec_greeting_step(buf@),
{
    if buf.len() < 1 {
        return Socks5Action::Read { needed: 1 };
    }
    let version = buf[0];
    if version != 5 {
        return Socks5Action::Refuse { reply: Vec::new(), error: Socks5Error::UnsupportedVersion(version) };
    }
    if buf.len() < 2 {
        return Socks5Action::Read { needed: 2 };
    }
    let nmethods = buf[1] as usize;
    if buf.len() < 2 + nmethods {
        return Socks5Action::Read { needed: 2 + nmethods };
    }
    let mut i: usize = 2;
    let mut found = false;
    while i < 2 + nmethods
        invariant
            2 <= i <= 2 + nmethods <= buf@.len(),
            nmethods == buf@[1],
            found <==> exists|j: int| 2 <= j < i && buf@[j] == 0u8,
        decreases 2 + nmethods - i,
    {
        if buf[i] == 0 {
            found = true;
        }
        i = i + 1;
    }
    proof {
        let m = buf@.subrange(2, 2 + nmethods as int);
        if found {
            let j = choose|j: int| 2 <= j < i && buf@[j] == 0u8;
            assert(m[j - 2] == 0u8);
        } else {
            assert forall|k: int| 0 <= k < m.len() implies m[k] != 0u8 by {
                assert(m[k] == buf@[k + 2]);
            }
        }
    }
    if !found {
        return Socks5Action::Refuse { reply: vec![0x05u8, 0xFFu8], error: Socks5Error::NoAcceptableAuth };
    }
    Socks5Action::Greeted { reply: vec![0x05u8, 0x00u8], used: 2 + nmethods }
}

/// Decides the request phase on the bytes received since the greeting.
pub fn request_step(buf: &[u8]) -> (r: Socks5Action)
    ensures
        r@ == spec_request_step(buf@),
{
    if buf.len() < 1 {
        return Socks5Action::Read { needed: 1 };
    }
    let version = buf[0];
    if version != 5 {
        return Socks5Action::Refuse { reply: Vec::new(), error: Socks5Error::ExpectedSocks5(version) };
    }
    if buf.len() < 4 {
        return Socks5Action::Read { needed: 4 };
    }
    let cmd = buf[1];
    let atyp = buf[3];
    if cmd != 0x01 {
        return Socks5Action::Refuse {
            reply: vec![0x05u8, 0x07u8, 0x00u8, 0x01u8, 0u8, 0u8, 0u8, 0u8, 0u8, 0u8],
            error: Socks5Error::UnsupportedCommand(cmd),
        };
    }
    if atyp == 0x01 {
        if buf.len() < 10 {
            return Socks5Action::Read { needed: 10 };
        }
        let addr: [u8; 4] = [buf[4], buf[5], buf[6], buf[7]];
        assert(addr@ =~= buf@.subrange(4, 8));
        let port = read_be16_at(buf, 8);
        Socks5Action::Connect {
            reply: vec![0x05u8, 0x00u8, 0x00u8, 0x01u8, 0u8, 0u8, 0u8, 0u8, 0u8, 0u8],
            target: Socks5Target::Ipv4(addr),
            port,
            used: 10,
        }
    } else if atyp == 0x03 {
        if buf.len() < 5 {
            return Socks5Action::Read { needed: 5 };
        }
        let len = buf[4] as usize;
        if buf.len() < 5 + len {
            return Socks5Action::Read { needed: 5 + len };
        }
        let name = vstd::slice::slice_to_vec(vstd::slice::slice_subrange(buf, 5, 5 + len));
        let host = match string_from_utf8(name) {
            Err(t) => {
                return Socks5Action::Refuse { reply: Vec::new(), error: Socks5Error::InvalidDomainName(t) };
            },
            Ok(h) => h,
        };
        if buf.len() < 7 + len {
            return Socks5Action::Read { needed: 7 + len };
        }
        let port = read_be16_at(buf, 5 + len);
        Socks5Action::Connect {
            reply: vec![0x05u8, 0x00u8, 0x00u8, 0x01u8, 0u8, 0u8, 0u8, 0u8, 0u8, 0u8],
            target: Socks5Target::Domain(host),
            port,
            used: 7 + len,
        }
    } else if atyp == 0x04 {
        if buf.len() < 22 {
            return Socks5Action::Read { needed: 22 };
        }
        let addr: [u8; 16] = [
            buf[4], buf[5], buf[6], buf[7], buf[8], buf[9], buf[10], buf[11],
            buf[12], buf[13], buf[14], buf[15], buf[16], buf[17], buf[18], buf[19],
        ];
        assert(addr@ =~= buf@.subrange(4, 20));
        let port = read_be16_at(buf, 20);
        Socks5Action::Connect {
            reply: vec![0x05u8, 0x00u8, 0x00u8, 0x01u8, 0u8, 0u8, 0u8, 0u8, 0u8, 0u8],
            target: Socks5Target::Ipv6(addr),
            port,
            used: 22,
        }
    } else {
        Socks5Action::Refuse { reply: Vec::new(), error: Socks5Error::UnsupportedAddressType(atyp) }
    }
}

/// The dotted-decimal rendering of an IPv4 address.
pub open spec fn spec_dotted(a: Seq<u8>) -> Seq<char> {
    decimal(a[0] as nat) + seq!['.'] + decimal(a[1] as nat) + seq!['.'] + decimal(a[2] as nat) + seq!['.']
        + decimal(a[3] as nat)
}

impl Socks5Target {
    /// The host the target names as text: dotted decimal for IPv4, the name itself for a
    /// host name. IPv6 addresses are rendered by the standard library's address type,
    /// which the caller holds.
    pub fn host_text(&self) -> (r: Option<String>)
        ensures
            self matches Socks5Target::Ipv4(a) ==> (r matches Some(s) && s@ == spec_dotted(a@)),
            self matches Socks5Target::Domain(d) ==> (r matches Some(s) && s@ == d@),
            self is Ipv6 ==> r is None,
    {
        match self {
            Socks5Target::Ipv4(a) => {
                let mut bytes: Vec<u8> = Vec::new();
                let ghost mut cs: Seq<char> = Seq::empty();
                let mut i: usize = 0;
                while i < 4
                    invariant
                        i <= 4,
                        bytes@ == encode_utf8(cs),
                        i == 0 ==> cs == Seq::<char>::empty(),
                        i >= 1 ==> cs == spec_dotted_prefix(a@, i as int),
                    decreases 4 - i,
                {
                    let ghost before = cs;
                    if i > 0 {
                        bytes.push(46u8);
                        proof {
                            lemma_encode_ascii(seq!['.']);
                            assert(encode_utf8(seq!['.']) =~= seq![46u8]);
                            lemma_encode_utf8_concat(cs, seq!['.']);
                            cs = cs + seq!['.'];
                        }
                    }
                    let ghost mid = cs;
                    push_decimal(&mut bytes, a[i] as u64);
                    proof {
                        lemma_encode_utf8_concat(mid, decimal(a@[i as int] as nat));
                        cs = mid + decimal(a@[i as int] as nat);
                        if i == 0 {
                            assert(cs =~= decimal(a@[0] as nat));
                        } else {
                            assert(cs =~= spec_dotted_prefix(a@, i + 1));
                        }
                    }
                    i = i + 1;
                }
                proof {
                    reveal_with_fuel(spec_dotted_prefix, 4);
                    assert(cs =~= spec_dotted(a@));
                }
                Some(string_of_encoding(bytes, Ghost(spec_dotted(a@))))
            },
            Socks5Target::Domain(d) => Some(d.clone()),
            Socks5Target::Ipv6(_) => None,
        }
    }
}

/// The first `k` parts of a dotted-decimal rendering, joined by dots.
pub open spec fn spec_dotted_prefix(a: Seq<u8>, k: int) -> Seq<char>
    decreases k,
{
    if k <= 1 {
        decimal(a[0] as nat)
    } else {
        spec_dotted_prefix(a, k - 1) + seq!['.'] + decimal(a[k - 1] as nat)
    }
}

/// The greeting a SOCKS5 client sends: version 5, the number of methods, the methods.
pub open spec fn socks5_greeting_bytes(methods: Seq<u8>) -> Seq<u8> {
    seq![5u8, methods.len() as u8] + methods
}

/// The CONNECT request a SOCKS5 client sends for a target and port.
pub open spec fn socks5_connect_bytes(target: Socks5TargetView, port: u16) -> Seq<u8> {
    seq![5u8, 1u8, 0u8] + match target {
        Socks5TargetView::Ipv4(a) => seq![1u8] + a,
        Socks5TargetView::Domain(d) => seq![3u8, encode_utf8(d).len() as u8] + encode_utf8(d),
        Socks5TargetView::Ipv6(a) => seq![4u8] + a,
    } + crate::wire::be16(port)
}

/// A target a request can carry: four or sixteen address bytes, or a host name of at
/// most 255 bytes.
pub open spec fn well_formed_target(t: Socks5TargetView) -> bool {
    match t {
        Socks5TargetView::Ipv4(a) => a.len() == 4,
        Socks5TargetView::Domain(d) => encode_utf8(d).len() < 256,
        Socks5TargetView::Ipv6(a) => a.len() == 16,
    }
}

/// Only CONNECT is served: a version 5 request of at least four bytes whose command is not
/// 1 is refused, whatever follows, with the "command not supported" reply and the command
/// it named; and every request that is accepted is a version 5 CONNECT.
pub proof fn lemma_only_connect_served(buf: Seq<u8>)
    ensures
        buf.len() >= 4 && buf[0] == 5 && buf[1] != 1 ==> spec_request_step(buf) == (Socks5ActionView::Refuse {
            reply: seq![5u8, 7u8, 0u8, 1u8, 0u8, 0u8, 0u8, 0u8, 0u8, 0u8],
            error: Socks5ErrorView::UnsupportedCommand(buf[1]),
        }),
        spec_request_step(buf) is Connect ==> buf.len() >= 4 && buf[0] == 5 && buf[1] == 1,
{
}

/// A greeting that offers "no authentication" is accepted with the reply choosing it,
/// whatever the client sends after it.
pub proof fn lemma_greeting_accepted(methods: Seq<u8>, rest: Seq<u8>)
    requires
        methods.len() < 256,
        methods.contains(0u8),
    ensures
        spec_greeting_step(socks5_greeting_bytes(methods) + rest) == (Socks5ActionView::Greeted {
            reply: reply_method_selected(),
            used: 2 + methods.len() as int,
        }),
{
    let buf = socks5_greeting_bytes(methods) + rest;
    assert(buf[1] == methods.len());
    assert(buf.subrange(2, 2 + methods.len() as int) =~= methods);
}

/// A greeting that does not offer "no authentication" is refused with the reply that
/// says so.
pub proof fn lemma_greeting_refused(methods: Seq<u8>, rest: Seq<u8>)
    requires
        methods.len() < 256,
        !methods.contains(0u8),
    ensures
        spec_greeting_step(socks5_greeting_bytes(methods) + rest) == (Socks5ActionView::Refuse {
            reply: reply_no_acceptable_method(),
            error: Socks5ErrorView::NoAcceptableAuth,
        }),
{
    let buf = socks5_greeting_bytes(methods) + rest;
    assert(buf[1] == methods.len());
    assert(buf.subrange(2, 2 + methods.len() as int) =~= methods);
}

/// A CONNECT request for a well-formed target is accepted with the target and port the
/// client asked for, and takes exactly the request's bytes.
pub proof fn lemma_connect_roundtrip(target: Socks5TargetView, port: u16, rest: Seq<u8>)
    requires
        well_formed_target(target),
    ensures
        spec_request_step(socks5_connect_bytes(target, port) + rest) == (Socks5ActionView::Connect {
            reply: reply_succeeded(),
            target,
            port,
            used: socks5_connect_bytes(target, port).len() as int,
        }),
{
    let enc = socks5_connect_bytes(target, port);
    let buf = enc + rest;
    let q = enc.len() - 2;
    assert(buf.subrange(q, q + 2) =~= crate::wire::be16(port));
    crate::wire::lemma_be16_roundtrip(port, buf, q);
    match target {
        Socks5TargetView::Ipv4(a) => {
            assert(buf.subrange(4, 8) =~= a);
        },
        Socks5TargetView::Domain(d) => {
            let b = encode_utf8(d);
            assert(buf[4] == b.len());
            assert(buf.subrange(5, 5 + b.len() as int) =~= b);
        },
        Socks5TargetView::Ipv6(a) => {
            assert(buf.subrange(4, 20) =~= a);
        },
    }
}

/// Every decision moves the handshake on: a read asks for more bytes than are held, and
/// an accepted phase takes some, but no more than are held.
pub proof fn lemma_steps_make_progress(buf: Seq<u8>)
    ensures
        spec_greeting_step(buf) matches Socks5ActionView::Read { needed } ==> needed > buf.len(),
        spec_greeting_step(buf) matches Socks5ActionView::Greeted { used, .. } ==> 0 < used <= buf.len(),
        spec_request_step(buf) matches Socks5ActionView::Read { needed } ==> needed > buf.len(),
        spec_request_step(buf) matches Socks5ActionView::Connect { used, .. } ==> 0 < used <= buf.len(),
{
}

} // verus!
