//! The ping exchange a client uses to check that the server is reachable: the server
//! answers a ping header with the same header.
use vstd::prelude::*;
use vstd::string::StringExecFns;
use vstd::utf8::*;
use crate::wire::{
    Decoded, WireError, WireErrorView, makes_progress, decode_view, spec_string_at, wire_string, fits_wire_string, push_string,
    read_string_at, lemma_string_roundtrip, lemma_string_prefix,
};

verus! {

/// A ping (or its echo): protocol version and a free-form message.
pub struct PingHeader {
    pub version: u8,
    pub msg: String,
}

/// The abstract value of a [`PingHeader`].
pub struct PingHeaderView {
    pub version: u8,
    pub msg: Seq<char>,
}

impl View for PingHeader {
    type V = PingHeaderView;

    open spec fn view(&self) -> PingHeaderView {
        PingHeaderView { version: self.version, msg: self.msg@ }
    }
}

/// The bytes `write_to_stream` sends: version, then the message as a length-prefixed string.
pub open spec fn spec_ping_bytes(h: PingHeaderView) -> Seq<u8> {
    seq![h.version] + wire_string(h.msg)
}

/// What `from_stream` makes of the bytes received so far.
pub open spec fn spec_ping_from_stream(buf: Seq<u8>) -> Result<Decoded<PingHeaderView>, WireErrorView> {
    if buf.len() < 1 {
        Ok(Decoded::Incomplete { needed: 1 })
    } else {
        match spec_string_at(buf, 1) {
            Err(e) => Err(e),
            Ok(Decoded::Incomplete { needed }) => Ok(Decoded::Incomplete { needed }),
            Ok(Decoded::Complete { value, used }) => Ok(
                Decoded::Complete { value: PingHeaderView { version: buf[0], msg: value }, used },
            ),
        }
    }
}

impl PingHeader {
    /// The ping the client sends to check that the server is reachable: version 1, message
    /// `ping`.
    pub fn ping() -> (h: PingHeader)
        ensures
            h.version == 1,
            h.msg@ == "ping"@,
    {
        PingHeader { version: 1, msg: String::from_str("ping") }
    }

    /// Appends the header's wire form to `stream`.
    pub fn write_to_stream(&self, stream: &mut Vec<u8>)
        ensures
            final(stream)@ == old(stream)@ + spec_ping_bytes(self@),
    {
        stream.push(self.version);
        push_string(stream, &self.msg);
        assert(stream@ =~= old(stream)@ + spec_ping_bytes(self@));
    }

    /// Decodes a header from the front of `stream`.
    pub fn from_stream(stream: &[u8]) -> (r: Result<Decoded<Self>, WireError>)
        ensures
            decode_view(r) == spec_ping_from_stream(stream@),
            makes_progress(r, stream@.len()),
    {
        if stream.len() < 1 {
            return Ok(Decoded::Incomplete { needed: 1 });
        }
        let version = stream[0];
        match read_string_at(stream, 1) {
            Err(e) => Err(e),
            Ok(Decoded::Incomplete { needed }) => Ok(Decoded::Incomplete { needed }),
            Ok(Decoded::Complete { value, used }) => Ok(
                Decoded::Complete { value: PingHeader { version, msg: value }, used },
            ),
        }
    }

    /// Whether this reply echoes the message of `ping`.
    pub fn answers(&self, ping: &PingHeader) -> (r: bool)
        ensures
            r == (self.msg@ == ping.msg@),
    {
        self.msg == ping.msg
    }
}

/// A ping whose message fits the length field is read back exactly from its wire form,
/// whatever follows it on the stream.
pub proof fn lemma_ping_roundtrip(h: PingHeaderView, rest: Seq<u8>)
    requires
        fits_wire_string(h.msg),
    ensures
        spec_ping_from_stream(spec_ping_bytes(h) + rest) == Ok::<Decoded<PingHeaderView>, WireErrorView>(
            Decoded::Complete { value: h, used: spec_ping_bytes(h).len() as usize },
        ),
{
    let buf = spec_ping_bytes(h) + rest;
    let w = wire_string(h.msg);
    assert(buf.subrange(1, 1 + w.len() as int) =~= w);
    lemma_string_roundtrip(h.msg, buf, 1);
}

/// On a strict prefix of a ping's wire form, decoding asks for more bytes, and never for
/// bytes beyond the header.
pub proof fn lemma_ping_prefix(h: PingHeaderView, k: int)
    requires
        fits_wire_string(h.msg),
        0 <= k < spec_ping_bytes(h).len(),
    ensures
        spec_ping_from_stream(spec_ping_bytes(h).subrange(0, k)) matches Ok(Decoded::Incomplete { needed })
            && k < needed <= spec_ping_bytes(h).len(),
{
    let buf = spec_ping_bytes(h).subrange(0, k);
    let w = wire_string(h.msg);
    if k >= 1 {
        assert(buf.subrange(1, k) =~= w.subrange(0, k - 1));
        lemma_string_prefix(h.msg, buf, 1);
    }
}

/// The ping service answers a ping with the ping itself.
#[derive(Debug, Clone, Copy)]
pub struct PingServerProtocolV1;

impl PingServerProtocolV1 {
    /// The reply to a received ping.
    pub fn reply(&self, ping: PingHeader) -> (pong: PingHeader)
        ensures
            pong@ == ping@,
    {
        ping
    }
}

} // verus!
