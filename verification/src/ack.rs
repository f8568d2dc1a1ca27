//! Acknowledgements: a status byte, followed by a message when the status is an error.
use vstd::prelude::*;
use vstd::utf8::*;
use crate::wire::{
    Decoded, wire_string, fits_wire_string, be16, be16_at, push_string, read_be16_at,
    string_from_utf8_lossy, utf8_lossy, lemma_be16_roundtrip,
};

verus! {

broadcast use vstd::utf8::encode_utf8_valid_utf8, vstd::utf8::encode_utf8_decode_utf8;

/// A status reply: `ack == 0` means success, anything else an error explained by `msg`.
pub struct Ack {
    pub ack: u8,
    pub msg: Option<String>,
}

/// The abstract value of an [`Ack`].
pub struct AckView {
    pub ack: u8,
    pub msg: Option<Seq<char>>,
}

impl View for Ack {
    type V = AckView;

    open spec fn view(&self) -> AckView {
        AckView {
            ack: self.ack,
            msg: match self.msg {
                Some(m) => Some(m@),
                None => None,
            },
        }
    }
}

/// The text a receiver makes of message bytes: their decoding when they are UTF-8,
/// otherwise the lossy conversion of `String::from_utf8_lossy`.
pub open spec fn lossy_text(bytes: Seq<u8>) -> Seq<char> {
    if valid_utf8(bytes) {
        decode_utf8(bytes)
    } else {
        utf8_lossy(bytes)
    }
}

/// The bytes `write_ack` sends: the status byte, then the message, if any, as a
/// length-prefixed string.
pub open spec fn spec_ack_bytes(a: AckView) -> Seq<u8> {
    seq![a.ack] + match a.msg {
        Some(m) => wire_string(m),
        None => Seq::<u8>::empty(),
    }
}

/// What `read_ack` makes of the bytes received so far: a zero status carries no message;
/// any other status is followed by a length-prefixed message, read lossily.
pub open spec fn spec_read_ack(buf: Seq<u8>) -> Decoded<AckView> {
    if buf.len() < 1 {
        Decoded::Incomplete { needed: 1 }
    } else if buf[0] == 0 {
        Decoded::Complete { value: AckView { ack: 0, msg: None }, used: 1 }
    } else if buf.len() < 3 {
        Decoded::Incomplete { needed: 3 }
    } else {
        let n = be16_at(buf, 1) as int;
        if buf.len() < 3 + n {
            Decoded::Incomplete { needed: (3 + n) as usize }
        } else {
            Decoded::Complete {
                value: AckView { ack: buf[0], msg: Some(lossy_text(buf.subrange(3, 3 + n))) },
                used: (3 + n) as usize,
            }
        }
    }
}

/// The acknowledgements that survive a round trip: a message exactly when the status is
/// an error, short enough for the length field.
pub open spec fn well_formed_ack(a: AckView) -> bool {
    match a.msg {
        None => a.ack == 0,
        Some(m) => a.ack != 0 && fits_wire_string(m),
    }
}

impl Ack {
    /// What the client makes of an acknowledgement: success for status 0, otherwise an
    /// error carrying the server's message.
    pub fn outcome(self) -> (r: Result<(), Option<String>>)
        ensures
            r is Ok <==> self.ack == 0,
            r matches Err(m) ==> m == self.msg,
    {
        if self.ack == 0 {
            Ok(())
        } else {
            Err(self.msg)
        }
    }

    /// An acknowledgement with the given status and message.
    pub fn new(ack: u8, msg: Option<String>) -> (r: Self)
        ensures
            r.ack == ack,
            r.msg == msg,
    {
        Ack { ack, msg }
    }

    /// Appends the acknowledgement's wire form to `stream`.
    pub fn write_ack(&self, stream: &mut Vec<u8>)
        ensures
            final(stream)@ == old(stream)@ + spec_ack_bytes(self@),
    {
        stream.push(self.ack);
        match &self.msg {
            Some(msg) => {
                push_string(stream, msg);
            },
            _ => {},
        }
        assert(stream@ =~= old(stream)@ + spec_ack_bytes(self@));
    }

    /// Decodes an acknowledgement from the front of `stream`.
    pub fn read_ack(stream: &[u8]) -> (r: Decoded<Self>)
        ensures
            r@ == spec_read_ack(stream@),
            r matches Decoded::Incomplete { needed } ==> needed > stream@.len(),
    {
        if stream.len() < 1 {
            return Decoded::Incomplete { needed: 1 };
        }
        let ack = stream[0];
        if ack == 0 {
            return Decoded::Complete { value: Ack { ack, msg: None }, used: 1 };
        }
        if stream.len() < 3 {
            return Decoded::Incomplete { needed: 3 };
        }
        let msg_len = read_be16_at(stream, 1) as usize;
        if stream.len() < 3 + msg_len {
            return Decoded::Incomplete { needed: 3 + msg_len };
        }
        let msg_bytes = vstd::slice::slice_subrange(stream, 3, 3 + msg_len);
        let msg = string_from_utf8_lossy(msg_bytes);
        Decoded::Complete { value: Ack { ack, msg: Some(msg) }, used: 3 + msg_len }
    }
}

/// A well-formed acknowledgement is read back exactly from its wire form, whatever
/// follows it on the stream.
pub proof fn lemma_ack_roundtrip(a: AckView, rest: Seq<u8>)
    requires
        well_formed_ack(a),
    ensures
        spec_read_ack(spec_ack_bytes(a) + rest) == (Decoded::Complete { value: a, used: spec_ack_bytes(a).len() as usize }),
{
    let buf = spec_ack_bytes(a) + rest;
    assert(buf[0] == a.ack);
    match a.msg {
        None => {},
        Some(m) => {
            let bytes = encode_utf8(m);
            let n = bytes.len() as int;
            assert(buf.subrange(1, 3) =~= be16(n as u16));
            lemma_be16_roundtrip(n as u16, buf, 1);
            assert(buf.subrange(3, 3 + n) =~= bytes);
        },
    }
}

/// On a strict prefix of a well-formed acknowledgement's wire form, decoding asks for more
/// bytes, and never for bytes beyond the acknowledgement.
pub proof fn lemma_ack_prefix(a: AckView, k: int)
    requires
        well_formed_ack(a),
        0 <= k < spec_ack_bytes(a).len(),
    ensures
        spec_read_ack(spec_ack_bytes(a).subrange(0, k)) matches Decoded::Incomplete { needed }
            && k < needed <= spec_ack_bytes(a).len(),
{
    let enc = spec_ack_bytes(a);
    let buf = enc.subrange(0, k);
    if k >= 3 {
        match a.msg {
            None => {},
            Some(m) => {
                let n = encode_utf8(m).len() as int;
                assert(buf[1] == enc[1] && buf[2] == enc[2]);
                assert(enc.subrange(1, 3) =~= be16(n as u16));
                assert(buf.subrange(1, 3) =~= be16(n as u16));
                lemma_be16_roundtrip(n as u16, buf, 1);
            },
        }
    }
}

} // verus!
