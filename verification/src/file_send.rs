//! Sending a file: the header that announces it, the server's checks before accepting
//! it, and the acknowledgements it answers with.
use vstd::prelude::*;
use vstd::utf8::*;
use vstd::string::StringExecFns;
use crate::bits::{pack_bits, spec_pack_bits};
use crate::codec::StreamCodec;
use crate::ack::{Ack, AckView, spec_ack_bytes, spec_read_ack, lemma_ack_roundtrip};
use crate::wire::{
    Decoded, WireError, WireErrorView, makes_progress, decode_view, spec_string_at, wire_string, fits_wire_string,
    be64, be_value, push_string, push_be64, read_string_at, read_be64_at, lemma_string_roundtrip,
    lemma_string_prefix, lemma_string_at_shift, lemma_be64_roundtrip,
};

verus! {

broadcast use vstd::utf8::encode_utf8_valid_utf8, vstd::utf8::encode_utf8_decode_utf8;

/// Bit of the flag byte that allows replacing an existing file.
pub const FLAG_CAN_OVERWRITE: u8 = 0b0000_0001;

/// Announces a file: its name, its size in bytes, and whether it may replace a file of
/// the same name.
#[derive(Debug)]
pub struct FileSendHeader {
    pub version: u8,
    pub file_name: String,
    pub file_size: u64,
    pub can_overwrite: bool,
}

/// The abstract value of a [`FileSendHeader`].
pub struct FileSendHeaderView {
    pub version: u8,
    pub file_name: Seq<char>,
    pub file_size: u64,
    pub can_overwrite: bool,
}

impl View for FileSendHeader {
    type V = FileSendHeaderView;

    open spec fn view(&self) -> FileSendHeaderView {
        FileSendHeaderView {
            version: self.version,
            file_name: self.file_name@,
            file_size: self.file_size,
            can_overwrite: self.can_overwrite,
        }
    }
}

/// The flag byte: overwrite permission in bit 0, the other bits clear.
pub open spec fn overwrite_flags(h: FileSendHeaderView) -> u8 {
    spec_pack_bits(seq![h.can_overwrite, false, false, false, false, false, false, false])
}

/// The bytes `write_to_stream` sends: version, file name as a length-prefixed string,
/// big-endian size, flag byte.
pub open spec fn spec_file_send_header_bytes(h: FileSendHeaderView) -> Seq<u8> {
    seq![h.version] + wire_string(h.file_name) + be64(h.file_size) + seq![overwrite_flags(h)]
}

/// What `from_stream` makes of the bytes received so far.
pub open spec fn spec_file_send_from_stream(buf: Seq<u8>) -> Result<Decoded<FileSendHeaderView>, WireErrorView> {
    if buf.len() < 1 {
        Ok(Decoded::Incomplete { needed: 1 })
    } else {
        match spec_string_at(buf, 1) {
            Err(e) => Err(e),
            Ok(Decoded::Incomplete { needed }) => Ok(Decoded::Incomplete { needed }),
            Ok(Decoded::Complete { value: file_name, used }) => {
                let q = used as int;
                if buf.len() < q + 9 {
                    Ok(Decoded::Incomplete { needed: (q + 9) as usize })
                } else {
                    Ok(
                        Decoded::Complete {
                            value: FileSendHeaderView {
                                version: buf[0],
                                file_name,
                                file_size: be_value(buf.subrange(q, q + 8)) as u64,
                                can_overwrite: buf[q + 8] & FLAG_CAN_OVERWRITE != 0,
                            },
                            used: (q + 9) as usize,
                        },
                    )
                }
            },
        }
    }
}

impl FileSendHeader {
    /// The header the client sends to announce a file: version 1, with the file's name,
    /// size and overwrite permission.
    pub fn announce(file_name: String, file_size: u64, can_overwrite: bool) -> (h: FileSendHeader)
        ensures
            h.version == 1,
            h.file_name@ == file_name@,
            h.file_size == file_size,
            h.can_overwrite == can_overwrite,
    {
        FileSendHeader { version: 1, file_name, file_size, can_overwrite }
    }

    /// Decodes a header from the front of `stream`.
    pub fn from_stream(stream: &[u8]) -> (r: Result<Decoded<Self>, WireError>)
        ensures
            decode_view(r) == spec_file_send_from_stream(stream@),
            makes_progress(r, stream@.len()),
    {
        if stream.len() < 1 {
            return Ok(Decoded::Incomplete { needed: 1 });
        }
        let version = stream[0];
        match read_string_at(stream, 1) {
            Err(e) => Err(e),
            Ok(Decoded::Incomplete { needed }) => Ok(Decoded::Incomplete { needed }),
            Ok(Decoded::Complete { value: file_name, used }) => {
                if stream.len() < used + 9 {
                    Ok(Decoded::Incomplete { needed: used + 9 })
                } else {
                    let file_size = read_be64_at(stream, used);
                    let flags = stream[used + 8];
                    Ok(
                        Decoded::Complete {
                            value: FileSendHeader {
                                version,
                                file_name,
                                file_size,
                                can_overwrite: (flags & FLAG_CAN_OVERWRITE) != 0,
                            },
                            used: used + 9,
                        },
                    )
                }
            },
        }
    }

    /// Appends the header's wire form to `stream`.
    pub fn write_to_stream(&self, stream: &mut Vec<u8>)
        ensures
            final(stream)@ == old(stream)@ + spec_file_send_header_bytes(self@),
    {
        stream.push(self.version);
        push_string(stream, &self.file_name);
        push_be64(stream, self.file_size);
        let flags = pack_bits([self.can_overwrite, false, false, false, false, false, false, false]);
        assert([self.can_overwrite, false, false, false, false, false, false, false]@
            =~= seq![self.can_overwrite, false, false, false, false, false, false, false]);
        stream.push(flags);
        assert(stream@ =~= old(stream)@ + spec_file_send_header_bytes(self@));
    }
}

proof fn lemma_overwrite_flag(c: bool)
    ensures
        spec_pack_bits(seq![c, false, false, false, false, false, false, false]) == (if c { 1u8 } else { 0u8 }),
        ((if c { 1u8 } else { 0u8 }) & FLAG_CAN_OVERWRITE != 0) == c,
{
    let a: u8 = if c { 1u8 } else { 0u8 };
    assert((a | 0u8 | 0u8 | 0u8 | 0u8 | 0u8 | 0u8 | 0u8) == a && ((a & 1u8 != 0) == (a == 1u8))) by (bit_vector)
        requires a == 0u8 || a == 1u8;
}

impl StreamCodec for FileSendHeader {
    open spec fn spec_encode(v: FileSendHeaderView) -> Seq<u8> {
        spec_file_send_header_bytes(v)
    }

    open spec fn spec_decode(buf: Seq<u8>) -> Result<Decoded<FileSendHeaderView>, WireErrorView> {
        spec_file_send_from_stream(buf)
    }

    open spec fn encodable(v: FileSendHeaderView) -> bool {
        fits_wire_string(v.file_name)
    }

    /// Field by field: each field in its own wire form, then the flag byte.
    fn encode(&self, w: &mut Vec<u8>) {
        self.version.encode(w);
        self.file_name.encode(w);
        self.file_size.encode(w);
        let flags_0: u8 = if self.can_overwrite { 1u8 } else { 0u8 };
        w.push(flags_0);
        proof { lemma_overwrite_flag(self.can_overwrite); }
        assert(w@ =~= old(w)@ + spec_file_send_header_bytes(self@));
    }

    /// Field by field: each field from where the previous one ended, then the flag byte.
    fn decode(r: &[u8]) -> (res: Result<Decoded<FileSendHeader>, WireError>) {
        let version = match <u8 as StreamCodec>::decode(r) {
            Err(e) => { return Err(e); },
            Ok(Decoded::Incomplete { needed }) => { return Ok(Decoded::Incomplete { needed }); },
            Ok(Decoded::Complete { value, .. }) => value,
        };
        proof { lemma_string_at_shift(r@, 1); }
        let rest = vstd::slice::slice_subrange(r, 1, r.len());
        let (file_name, used) = match <String as StreamCodec>::decode(rest) {
            Err(e) => { return Err(e); },
            Ok(Decoded::Incomplete { needed }) => { return Ok(Decoded::Incomplete { needed: needed + 1 }); },
            Ok(Decoded::Complete { value, used }) => (value, used + 1),
        };
        let rest = vstd::slice::slice_subrange(r, used, r.len());
        if rest.len() < 9 {
            return Ok(Decoded::Incomplete { needed: used + 9 });
        }
        let file_size = match <u64 as StreamCodec>::decode(rest) {
            Ok(Decoded::Complete { value, .. }) => value,
            _ => { return Ok(Decoded::Incomplete { needed: used + 9 }); },
        };
        assert(rest@.subrange(0, 8) =~= r@.subrange(used as int, used + 8));
        let flags_0 = rest[8];
        let can_overwrite = (flags_0 & (1u8 << 0u32)) != 0;
        assert((1u8 << 0u32) == 1u8) by (bit_vector);
        Ok(Decoded::Complete { value: FileSendHeader { version, file_name, file_size, can_overwrite }, used: used + 9 })
    }

    proof fn lemma_roundtrip(v: FileSendHeaderView, rest: Seq<u8>) {
        lemma_file_send_header_roundtrip(v, rest);
    }
}

/// A header whose file name fits the length field is read back exactly from its wire
/// form, whatever follows it on the stream (the file's bytes, in practice).
pub proof fn lemma_file_send_header_roundtrip(h: FileSendHeaderView, rest: Seq<u8>)
    requires
        fits_wire_string(h.file_name),
    ensures
        spec_file_send_from_stream(spec_file_send_header_bytes(h) + rest) == Ok::<Decoded<FileSendHeaderView>, WireErrorView>(
            Decoded::Complete { value: h, used: spec_file_send_header_bytes(h).len() as usize },
        ),
{
    let buf = spec_file_send_header_bytes(h) + rest;
    let w = wire_string(h.file_name);
    let n = w.len() as int;
    assert(buf.subrange(1, 1 + n) =~= w);
    lemma_string_roundtrip(h.file_name, buf, 1);
    lemma_be64_roundtrip(h.file_size);
    assert(buf.subrange(1 + n, 9 + n) =~= be64(h.file_size));
    assert(buf[9 + n] == overwrite_flags(h));
    lemma_overwrite_flag(h.can_overwrite);
}

/// On a strict prefix of a header's wire form, decoding asks for more bytes, and never for
/// bytes beyond the header.
pub proof fn lemma_file_send_header_prefix(h: FileSendHeaderView, k: int)
    requires
        fits_wire_string(h.file_name),
        0 <= k < spec_file_send_header_bytes(h).len(),
    ensures
        spec_file_send_from_stream(spec_file_send_header_bytes(h).subrange(0, k)) matches Ok(Decoded::Incomplete { needed })
            && k < needed <= spec_file_send_header_bytes(h).len(),
{
    let enc = spec_file_send_header_bytes(h);
    let buf = enc.subrange(0, k);
    let w = wire_string(h.file_name);
    let n = w.len() as int;
    lemma_be64_roundtrip(h.file_size);
    if k >= 1 {
        if k < 1 + n {
            assert(buf.subrange(1, k) =~= w.subrange(0, k - 1));
            lemma_string_prefix(h.file_name, buf, 1);
        } else {
            assert(buf.subrange(1, 1 + n) =~= w);
            lemma_string_roundtrip(h.file_name, buf, 1);
        }
    }
}

/// Why the file server turns a file down.
#[derive(Debug, Clone, Copy, PartialEq, Eq, Structural)]
pub enum FileSendRefusal {
    /// The header speaks a protocol version other than 1.
    UnsupportedVersion(u8),
    /// A file of that name exists and the header does not allow replacing it.
    AlreadyExists,
}

/// The reason the server gives the client for a refusal.
pub open spec fn refusal_message(h: FileSendHeaderView, refusal: FileSendRefusal) -> Seq<char> {
    match refusal {
        FileSendRefusal::UnsupportedVersion(_) => "unsupported file_send protocol version"@,
        FileSendRefusal::AlreadyExists => "file "@ + h.file_name + " already exists"@,
    }
}

/// The acknowledgement for a refusal: status 1 with the reason.
pub open spec fn refusal_ack_view(h: FileSendHeaderView, refusal: FileSendRefusal) -> AckView {
    AckView { ack: 1, msg: Some(refusal_message(h, refusal)) }
}

/// Receives files announced by a [`FileSendHeader`].
#[derive(Debug, Clone, Copy)]
pub struct FileServerProtocolV1;

impl FileServerProtocolV1 {
    /// The first check on a received header: only protocol version 1 is served.
    pub fn check_version(&self, header: &FileSendHeader) -> (r: Result<(), FileSendRefusal>)
        ensures
            r is Ok <==> header.version == 1,
            r is Err ==> r == Err::<(), FileSendRefusal>(FileSendRefusal::UnsupportedVersion(header.version)),
    {
        if header.version != 1 {
            Err(FileSendRefusal::UnsupportedVersion(header.version))
        } else {
            Ok(())
        }
    }

    /// The second check, once it is known whether a file of that name exists: an existing
    /// file is only replaced when the header allows it.
    pub fn check_target(&self, header: &FileSendHeader, file_exists: bool) -> (r: Result<(), FileSendRefusal>)
        ensures
            r is Ok <==> !file_exists || header.can_overwrite,
            r is Err ==> r == Err::<(), FileSendRefusal>(FileSendRefusal::AlreadyExists),
    {
        if file_exists && !header.can_overwrite {
            Err(FileSendRefusal::AlreadyExists)
        } else {
            Ok(())
        }
    }

    /// The error acknowledgement sent to the client for a refusal.
    pub fn refusal_ack(&self, header: &FileSendHeader, refusal: FileSendRefusal) -> (a: Ack)
        ensures
            a@ == refusal_ack_view(header@, refusal),
    {
        match refusal {
            FileSendRefusal::UnsupportedVersion(_) => {
                Ack::new(1, Some(String::from_str("unsupported file_send protocol version")))
            },
            FileSendRefusal::AlreadyExists => {
                let mut msg = String::from_str("file ");
                msg.append(header.file_name.as_str());
                msg.append(" already exists");
                Ack::new(1, Some(msg))
            },
        }
    }

    /// The acknowledgement for success, sent once the header is accepted and again once
    /// the file is written.
    pub fn success_ack(&self) -> (a: Ack)
        ensures
            a.ack == 0,
            a.msg is None,
    {
        Ack::new(0, None)
    }
}

/// The error the server stops with after refusing a file.
pub open spec fn refusal_error_text(refusal: FileSendRefusal) -> Seq<char> {
    match refusal {
        FileSendRefusal::UnsupportedVersion(v) => "unsupported file_send protocol version: "@ + crate::text::decimal(
            v as nat,
        ),
        FileSendRefusal::AlreadyExists => "file already exists and overwrite not allowed"@,
    }
}

impl FileSendRefusal {
    /// The error the server stops with after refusing a file.
    pub fn error_text(&self) -> (s: String)
        ensures
            s@ == refusal_error_text(*self),
    {
        match self {
            FileSendRefusal::UnsupportedVersion(v) => {
                let mut s = String::from_str("unsupported file_send protocol version: ");
                s.append(crate::text::decimal_string(*v as u64).as_str());
                s
            },
            FileSendRefusal::AlreadyExists => String::from_str("file already exists and overwrite not allowed"),
        }
    }
}

/// What has happened since a file's header was received.
#[derive(Debug, Clone, Copy, PartialEq, Eq, Structural)]
pub enum FileServerEvent {
    /// The header has just been read.
    HeaderReceived,
    /// It is now known whether a file of the header's name exists.
    FileChecked(bool),
    /// The file's bytes have been written and flushed.
    FileWritten,
}

/// What the file server does next.
pub enum FileServerStep {
    /// Find out whether a file of the header's name exists.
    CheckFile,
    /// Send `ack`, then stop with the refusal `error`; no file is created.
    Refuse { ack: Ack, error: FileSendRefusal },
    /// Send `ack`, then create the file `name` and write into it the `size` bytes that
    /// follow the header.
    Receive { ack: Ack, name: String, size: u64 },
    /// Send `ack`; the file is received.
    Finish { ack: Ack },
}

/// The abstract value of a [`FileServerStep`].
pub enum FileServerStepView {
    CheckFile,
    Refuse { ack: AckView, error: FileSendRefusal },
    Receive { ack: AckView, name: Seq<char>, size: u64 },
    Finish { ack: AckView },
}

impl View for FileServerStep {
    type V = FileServerStepView;

    open spec fn view(&self) -> FileServerStepView {
        match self {
            FileServerStep::CheckFile => FileServerStepView::CheckFile,
            FileServerStep::Refuse { ack, error } => FileServerStepView::Refuse { ack: ack@, error: *error },
            FileServerStep::Receive { ack, name, size } => FileServerStepView::Receive { ack: ack@, name: name@, size: *size },
            FileServerStep::Finish { ack } => FileServerStepView::Finish { ack: ack@ },
        }
    }
}

/// The success acknowledgement: status 0, no message.
pub open spec fn success_ack_view() -> AckView {
    AckView { ack: 0, msg: None }
}

/// A refusal step: its acknowledgement, then stopping with the refusal.
pub open spec fn refuse_step(h: FileSendHeaderView, refusal: FileSendRefusal) -> FileServerStepView {
    FileServerStepView::Refuse { ack: refusal_ack_view(h, refusal), error: refusal }
}

/// The file server's next step: the version is checked first, then whether a file would be
/// replaced; the file is only created once both checks pass, and the last acknowledgement
/// is only sent once it is written.
pub open spec fn spec_next_step(h: FileSendHeaderView, event: FileServerEvent) -> FileServerStepView {
    match event {
        FileServerEvent::FileWritten => FileServerStepView::Finish { ack: success_ack_view() },
        FileServerEvent::HeaderReceived => if h.version != 1 {
            refuse_step(h, FileSendRefusal::UnsupportedVersion(h.version))
        } else {
            FileServerStepView::CheckFile
        },
        FileServerEvent::FileChecked(found) => if h.version != 1 {
            refuse_step(h, FileSendRefusal::UnsupportedVersion(h.version))
        } else if found && !h.can_overwrite {
            refuse_step(h, FileSendRefusal::AlreadyExists)
        } else {
            FileServerStepView::Receive { ack: success_ack_view(), name: h.file_name, size: h.file_size }
        },
    }
}

impl FileServerProtocolV1 {
    /// The next step of receiving a file announced by `header`, given what has happened
    /// since it was received.
    pub fn next_step(&self, header: &FileSendHeader, event: FileServerEvent) -> (r: FileServerStep)
        ensures
            r@ == spec_next_step(header@, event),
    {
        match event {
            FileServerEvent::FileWritten => FileServerStep::Finish { ack: self.success_ack() },
            FileServerEvent::HeaderReceived => match self.check_version(header) {
                Err(error) => FileServerStep::Refuse { ack: self.refusal_ack(header, error), error },
                Ok(()) => FileServerStep::CheckFile,
            },
            FileServerEvent::FileChecked(found) => match self.check_version(header) {
                Err(error) => FileServerStep::Refuse { ack: self.refusal_ack(header, error), error },
                Ok(()) => match self.check_target(header, found) {
                    Err(error) => FileServerStep::Refuse { ack: self.refusal_ack(header, error), error },
                    Ok(()) => FileServerStep::Receive {
                        ack: self.success_ack(),
                        name: header.file_name.clone(),
                        size: header.file_size,
                    },
                },
            },
        }
    }
}

/// The file server creates a file only after both checks pass: a step that receives a file
/// comes only once the file's existence is known, for a version 1 header, and when no file
/// would be replaced against the header's wish. Every refusal is answered before anything
/// is written.
pub proof fn lemma_receive_only_after_checks(h: FileSendHeaderView, event: FileServerEvent)
    ensures
        spec_next_step(h, event) is Receive ==> h.version == 1,
        spec_next_step(h, event) is Receive ==> (event matches FileServerEvent::FileChecked(found) && (!found
            || h.can_overwrite)),
        spec_next_step(h, event) is Refuse ==> !(event is FileWritten),
{
    match event {
        FileServerEvent::FileChecked(found) => {
            if !found || h.can_overwrite {
                assert(!(found && !h.can_overwrite));
            }
        },
        _ => {},
    }
}

/// A header that allows overwriting is never refused for an existing file: once the file's
/// existence is known, a version 1 header with the overwrite flag set is received, with a
/// success acknowledgement and the header's name and size, whether or not a file of that
/// name exists. A file that exists is refused only when the flag is clear.
pub proof fn lemma_overwrite_allowed(h: FileSendHeaderView, found: bool)
    ensures
        h.version == 1 && h.can_overwrite ==> spec_next_step(h, FileServerEvent::FileChecked(found))
            == (FileServerStepView::Receive { ack: AckView { ack: 0, msg: None }, name: h.file_name, size: h.file_size }),
        spec_next_step(h, FileServerEvent::FileChecked(found)) matches FileServerStepView::Refuse { error, .. }
            ==> (error is AlreadyExists ==> found && !h.can_overwrite),
        h.version == 1 && !found ==> spec_next_step(h, FileServerEvent::FileChecked(found)) is Receive,
{
}

/// A refused file send is answered with an error acknowledgement that the client reads
/// back, whatever follows it, as status 1 with exactly the server's reason (for a reason
/// that fits the 16-bit length field).
pub proof fn lemma_refusal_reaches_client(h: FileSendHeaderView, refusal: FileSendRefusal, rest: Seq<u8>)
    requires
        fits_wire_string(refusal_message(h, refusal)),
    ensures
        spec_read_ack(spec_ack_bytes(refusal_ack_view(h, refusal)) + rest) == (Decoded::Complete {
            value: refusal_ack_view(h, refusal),
            used: spec_ack_bytes(refusal_ack_view(h, refusal)).len() as usize,
        }),
{
    lemma_ack_roundtrip(refusal_ack_view(h, refusal), rest);
}

} // verus!
