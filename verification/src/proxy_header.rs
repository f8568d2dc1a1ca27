//! The header a client sends first on a TCP-proxy stream: which host and port the
//! server should connect to, and with which permissions.
use vstd::prelude::*;
use vstd::utf8::*;
use crate::bits::{pack_bits, spec_pack_bits};
use crate::text::{last_index, lemma_last_index, spec_parse_u16};
use crate::wire::{
    Decoded, WireError, WireErrorView, makes_progress, decode_view, spec_string_at, wire_string, fits_wire_string, be16, be16_at,
    push_string, push_be16, read_string_at, read_be16_at, lemma_string_roundtrip, lemma_string_prefix,
    lemma_be16_roundtrip,
};

verus! {

broadcast use vstd::utf8::encode_utf8_valid_utf8, vstd::utf8::encode_utf8_decode_utf8;

/// Bit of the flag byte that grants reading.
pub const FLAG_CAN_READ: u8 = 0b0000_0001;
/// Bit of the flag byte that grants writing.
pub const FLAG_CAN_WRITE: u8 = 0b0000_0010;
/// Bit of the flag byte that grants executing.
pub const FLAG_CAN_EXECUTE: u8 = 0b0000_0100;

/// Target of a proxied TCP connection, as carried on the wire.
pub struct ProxyHeader {
    pub version: u8,
    pub host: String,
    pub port: u16,
    pub can_read: bool,
    pub can_write: bool,
    pub can_execute: bool,
}

/// The abstract value of a [`ProxyHeader`].
pub struct ProxyHeaderView {
    pub version: u8,
    pub host: Seq<char>,
    pub port: u16,
    pub can_read: bool,
    pub can_write: bool,
    pub can_execute: bool,
}

impl View for ProxyHeader {
    type V = ProxyHeaderView;

    open spec fn view(&self) -> ProxyHeaderView {
        ProxyHeaderView {
            version: self.version,
            host: self.host@,
            port: self.port,
            can_read: self.can_read,
            can_write: self.can_write,
            can_execute: self.can_execute,
        }
    }
}

/// The flag byte: read, write and execute in bits 0, 1 and 2, the other bits clear.
pub open spec fn proxy_flags(h: ProxyHeaderView) -> u8 {
    spec_pack_bits(seq![h.can_read, h.can_write, h.can_execute, false, false, false, false, false])
}

/// The bytes `write_to_stream` sends: version, host as a length-prefixed string,
/// big-endian port, flag byte.
pub open spec fn spec_proxy_header_bytes(h: ProxyHeaderView) -> Seq<u8> {
    seq![h.version] + wire_string(h.host) + be16(h.port) + seq![proxy_flags(h)]
}

/// Decoding the body of a version 1 header (everything after the version byte) that
/// starts at `p`.
pub open spec fn spec_target_v1_at(buf: Seq<u8>, p: int) -> Result<Decoded<ProxyHeaderView>, WireErrorView> {
    match spec_string_at(buf, p) {
        Err(e) => Err(e),
        Ok(Decoded::Incomplete { needed }) => Ok(Decoded::Incomplete { needed }),
        Ok(Decoded::Complete { value: host, used }) => {
            let q = used as int;
            if buf.len() < q + 3 {
                Ok(Decoded::Incomplete { needed: (q + 3) as usize })
            } else {
                let flags = buf[q + 2];
                Ok(
                    Decoded::Complete {
                        value: ProxyHeaderView {
                            version: 1,
                            host,
                            port: be16_at(buf, q),
                            can_read: flags & FLAG_CAN_READ != 0,
                            can_write: flags & FLAG_CAN_WRITE != 0,
                            can_execute: flags & FLAG_CAN_EXECUTE != 0,
                        },
                        used: (q + 3) as usize,
                    },
                )
            }
        },
    }
}

/// Decoding a whole header: a version byte, which must be 1, then the version 1 body.
pub open spec fn spec_read_proxy_header(buf: Seq<u8>) -> Result<Decoded<ProxyHeaderView>, WireErrorView> {
    if buf.len() < 1 {
        Ok(Decoded::Incomplete { needed: 1 })
    } else if buf[0] != 1 {
        Err(WireErrorView::UnsupportedVersion(buf[0]))
    } else {
        spec_target_v1_at(buf, 1)
    }
}

impl ProxyHeader {
    /// The header the client sends for a proxied connection: version 1, asking to read
    /// from `host` at `port`, neither writing nor executing.
    pub fn client_request(host: String, port: u16) -> (h: ProxyHeader)
        ensures
            h.version == 1,
            h.host@ == host@,
            h.port == port,
            h.can_read,
            !h.can_write,
            !h.can_execute,
    {
        ProxyHeader { version: 1, host, port, can_read: true, can_write: false, can_execute: false }
    }

    /// Appends the header's wire form to `stream`.
    pub fn write_to_stream(&self, stream: &mut Vec<u8>)
        ensures
            final(stream)@ == old(stream)@ + spec_proxy_header_bytes(self@),
    {
        stream.push(self.version);
        push_string(stream, &self.host);
        push_be16(stream, self.port);
        let flags = pack_bits([self.can_read, self.can_write, self.can_execute, false, false, false, false, false]);
        assert([self.can_read, self.can_write, self.can_execute, false, false, false, false, false]@
            =~= seq![self.can_read, self.can_write, self.can_execute, false, false, false, false, false]);
        stream.push(flags);
        assert(stream@ =~= old(stream)@ + spec_proxy_header_bytes(self@));
    }
}

fn read_target_v1_at(buf: &[u8], p: usize) -> (r: Result<Decoded<ProxyHeader>, WireError>)
    requires
        p <= 1,
    ensures
        decode_view(r) == spec_target_v1_at(buf@, p as int),
        makes_progress(r, buf@.len()),
{
    match read_string_at(buf, p) {
        Err(e) => Err(e),
        Ok(Decoded::Incomplete { needed }) => Ok(Decoded::Incomplete { needed }),
        Ok(Decoded::Complete { value: host, used }) => {
            if buf.len() < used + 3 {
                Ok(Decoded::Incomplete { needed: used + 3 })
            } else {
                let port = read_be16_at(buf, used);
                let flags = buf[used + 2];
                Ok(
                    Decoded::Complete {
                        value: ProxyHeader {
                            host,
                            port,
                            version: 1,
                            can_read: (flags & FLAG_CAN_READ) != 0,
                            can_write: (flags & FLAG_CAN_WRITE) != 0,
                            can_execute: (flags & FLAG_CAN_EXECUTE) != 0,
                        },
                        used: used + 3,
                    },
                )
            }
        },
    }
}

/// Decodes the body of a version 1 header, the version byte already taken off.
pub fn read_target_v1(stream: &[u8]) -> (r: Result<Decoded<ProxyHeader>, WireError>)
    ensures
        decode_view(r) == spec_target_v1_at(stream@, 0),
        makes_progress(r, stream@.len()),
{
    read_target_v1_at(stream, 0)
}

/// Decodes a header from the front of `stream`; only version 1 is understood.
pub fn read_proxy_header(stream: &[u8]) -> (r: Result<Decoded<ProxyHeader>, WireError>)
    ensures
        decode_view(r) == spec_read_proxy_header(stream@),
        makes_progress(r, stream@.len()),
{
    if stream.len() < 1 {
        return Ok(Decoded::Incomplete { needed: 1 });
    }
    let version = stream[0];
    if version != 1 {
        return Err(WireError::UnsupportedVersion(version));
    }
    read_target_v1_at(stream, 1)
}

proof fn lemma_flags_roundtrip(r: bool, w: bool, x: bool)
    ensures
        ({
            let f = spec_pack_bits(seq![r, w, x, false, false, false, false, false]);
            &&& (f & FLAG_CAN_READ != 0) == r
            &&& (f & FLAG_CAN_WRITE != 0) == w
            &&& (f & FLAG_CAN_EXECUTE != 0) == x
        }),
{
    let f = spec_pack_bits(seq![r, w, x, false, false, false, false, false]);
    assert(f == (if r { 1u8 } else { 0u8 }) | (if w { 2u8 } else { 0u8 }) | (if x { 4u8 } else { 0u8 }) | 0u8 | 0u8 | 0u8 | 0u8 | 0u8);
    let a: u8 = if r { 1u8 } else { 0u8 };
    let b: u8 = if w { 2u8 } else { 0u8 };
    let c: u8 = if x { 4u8 } else { 0u8 };
    assert(((a | b | c | 0u8 | 0u8 | 0u8 | 0u8 | 0u8) & 1u8 != 0) == (a == 1u8)
        && ((a | b | c | 0u8 | 0u8 | 0u8 | 0u8 | 0u8) & 2u8 != 0) == (b == 2u8)
        && ((a | b | c | 0u8 | 0u8 | 0u8 | 0u8 | 0u8) & 4u8 != 0) == (c == 4u8)) by (bit_vector)
        requires
            a == 0u8 || a == 1u8,
            b == 0u8 || b == 2u8,
            c == 0u8 || c == 4u8,
    ;
}

/// A version 1 header whose host fits the 16-bit length field is read back exactly
/// from its wire form, whatever bytes follow it on the stream.
pub proof fn lemma_proxy_header_roundtrip(h: ProxyHeaderView, rest: Seq<u8>)
    requires
        h.version == 1,
        fits_wire_string(h.host),
    ensures
        spec_read_proxy_header(spec_proxy_header_bytes(h) + rest) == Ok::<Decoded<ProxyHeaderView>, WireErrorView>(
            Decoded::Complete { value: h, used: spec_proxy_header_bytes(h).len() as usize },
        ),
{
    let enc = spec_proxy_header_bytes(h);
    let buf = enc + rest;
    let w = wire_string(h.host);
    let n = w.len() as int;
    assert(buf.subrange(1, 1 + n) =~= w);
    lemma_string_roundtrip(h.host, buf, 1);
    assert(buf.subrange(1 + n, 3 + n) =~= be16(h.port));
    lemma_be16_roundtrip(h.port, buf, 1 + n);
    assert(buf[3 + n] == proxy_flags(h));
    lemma_flags_roundtrip(h.can_read, h.can_write, h.can_execute);
}

/// On a strict prefix of a version 1 header's wire form, decoding asks for more bytes,
/// and never for bytes beyond the header.
pub proof fn lemma_proxy_header_prefix(h: ProxyHeaderView, k: int)
    requires
        h.version == 1,
        fits_wire_string(h.host),
        0 <= k < spec_proxy_header_bytes(h).len(),
    ensures
        spec_read_proxy_header(spec_proxy_header_bytes(h).subrange(0, k)) matches Ok(Decoded::Incomplete { needed })
            && k < needed <= spec_proxy_header_bytes(h).len(),
{
    let enc = spec_proxy_header_bytes(h);
    let buf = enc.subrange(0, k);
    let w = wire_string(h.host);
    let n = w.len() as int;
    if k >= 1 {
        if k < 1 + n {
            assert(buf.subrange(1, k) =~= w.subrange(0, k - 1));
            lemma_string_prefix(h.host, buf, 1);
        } else {
            assert(buf.subrange(1, 1 + n) =~= w);
            lemma_string_roundtrip(h.host, buf, 1);
        }
    }
}

} // verus!

verus! {

/// The server side of the TCP proxy: connects to the target a [`ProxyHeader`] names and
/// relays bytes both ways.
#[derive(Debug, Clone, Copy)]
pub struct ProxyServerProtocolV1;

/// The `host:port` address the server dials for a header.
pub open spec fn spec_tcp_target(h: ProxyHeaderView) -> Seq<char> {
    h.host + seq![':'] + crate::text::decimal(h.port as nat)
}

impl ProxyServerProtocolV1 {
    /// The address to dial: the host, a colon, and the port in decimal.
    pub fn tcp_target(&self, header: &ProxyHeader) -> (target: String)
        ensures
            target@ == spec_tcp_target(header@),
    {
        let mut bytes: Vec<u8> = Vec::new();
        crate::wire::append_bytes(&mut bytes, crate::wire::utf8_bytes(&header.host));
        bytes.push(58u8);
        crate::text::push_decimal(&mut bytes, header.port as u64);
        proof {
            let cs = spec_tcp_target(header@);
            crate::text::lemma_encode_utf8_concat(header.host@, seq![':']);
            crate::text::lemma_encode_utf8_concat(header.host@ + seq![':'], crate::text::decimal(header.port as nat));
            crate::text::lemma_encode_ascii(seq![':']);
            assert(encode_utf8(seq![':']) =~= seq![58u8]);
            assert(bytes@ =~= encode_utf8(cs));
        }
        crate::text::string_of_encoding(bytes, Ghost(spec_tcp_target(header@)))
    }
}

/// The server dials what the client asked for: the dial address, as bytes, splits at its
/// last `:` into the header's host and a port text that `u16` parsing reads back as the
/// header's port, for every host (an IPv6 host's own colons come before it) and every port.
pub proof fn lemma_tcp_target_splits(h: ProxyHeaderView)
    ensures
        last_index(encode_utf8(spec_tcp_target(h)), 58) == encode_utf8(h.host).len(),
        encode_utf8(spec_tcp_target(h)).subrange(0, encode_utf8(h.host).len() as int) == encode_utf8(h.host),
        spec_parse_u16(
            encode_utf8(spec_tcp_target(h)).subrange(
                encode_utf8(h.host).len() + 1int,
                encode_utf8(spec_tcp_target(h)).len() as int,
            ),
        ) == Some(h.port),
{
    let host = encode_utf8(h.host);
    let dec = crate::text::decimal(h.port as nat);
    let db = encode_utf8(dec);
    crate::text::lemma_encode_utf8_concat(h.host, seq![':']);
    crate::text::lemma_encode_utf8_concat(h.host + seq![':'], dec);
    crate::text::lemma_encode_ascii(seq![':']);
    assert(encode_utf8(seq![':']) =~= seq![58u8]);
    crate::text::lemma_decimal_digits(h.port as nat);
    let t = encode_utf8(spec_tcp_target(h));
    assert(t =~= host + seq![58u8] + db);
    let k = host.len() as int;
    assert forall|j: int| k < j < t.len() implies t[j] != 58u8 by {
        assert(t[j] == db[j - k - 1]);
        assert(crate::text::is_digit(db[j - k - 1]));
    }
    lemma_last_index(t, 58, k);
    assert(t.subrange(0, k) =~= host);
    assert(t.subrange(k + 1, t.len() as int) =~= db);
    assert(crate::text::is_digit(db[0]));
    assert(crate::text::unsigned_digits(db) == db);
}

} // verus!
