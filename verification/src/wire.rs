//! Shared building blocks of the byte-level wire formats: big-endian integers,
//! length-prefixed UTF-8 strings, and the outcome of an incremental decode.
use vstd::prelude::*;
use vstd::utf8::*;
use vstd::string::StringExecFns;
use vstd::arithmetic::div_mod::lemma_fundamental_div_mod;

verus! {

broadcast use vstd::utf8::encode_utf8_valid_utf8, vstd::utf8::encode_utf8_decode_utf8;

/// Outcome of decoding a message from the bytes received so far.
///
/// `Complete` carries the message and the number of bytes it took from the front of
/// the buffer; `Incomplete` says how many bytes the buffer must hold before the next
/// decision can be made.
pub enum Decoded<T> {
    Complete { value: T, used: usize },
    Incomplete { needed: usize },
}

impl<T: View> View for Decoded<T> {
    type V = Decoded<T::V>;

    open spec fn view(&self) -> Decoded<T::V> {
        match self {
            Decoded::Complete { value, used } => Decoded::Complete { value: value@, used: *used },
            Decoded::Incomplete { needed } => Decoded::Incomplete { needed: *needed },
        }
    }
}

/// Why a received message was refused.
#[derive(Debug)]
pub enum WireError {
    /// The leading version byte of a proxy header names a version this side does not speak.
    UnsupportedVersion(u8),
    /// A string field does not hold valid UTF-8; the text is the error `String::from_utf8`
    /// gives for its bytes.
    InvalidUtf8(String),
}

/// The abstract value of a [`WireError`].
pub enum WireErrorView {
    UnsupportedVersion(u8),
    InvalidUtf8(Seq<char>),
}

impl View for WireError {
    type V = WireErrorView;

    open spec fn view(&self) -> WireErrorView {
        match self {
            WireError::UnsupportedVersion(v) => WireErrorView::UnsupportedVersion(*v),
            WireError::InvalidUtf8(t) => WireErrorView::InvalidUtf8(t@),
        }
    }
}

/// The message reported for a refused message.
pub open spec fn wire_error_text(e: WireErrorView) -> Seq<char> {
    match e {
        WireErrorView::UnsupportedVersion(v) => "unsupported proxy protocol version: "@ + crate::text::decimal(v as nat),
        WireErrorView::InvalidUtf8(t) => t,
    }
}

impl WireError {
    /// The message reported for this refusal.
    pub fn message(&self) -> (s: String)
        ensures
            s@ == wire_error_text(self@),
    {
        match self {
            WireError::UnsupportedVersion(v) => {
                let mut s = String::from_str("unsupported proxy protocol version: ");
                s.append(crate::text::decimal_string(*v as u64).as_str());
                s
            },
            WireError::InvalidUtf8(t) => t.clone(),
        }
    }
}

/// The abstract view of a decode result.
pub open spec fn decode_view<T: View>(r: Result<Decoded<T>, WireError>) -> Result<Decoded<T::V>, WireErrorView> {
    match r {
        Ok(d) => Ok(d@),
        Err(e) => Err(e@),
    }
}

/// Moves a decode result that was computed for a buffer without its first `k` bytes
/// back to positions of the whole buffer.
pub open spec fn shift_decoded<V>(r: Result<Decoded<V>, WireErrorView>, k: int) -> Result<Decoded<V>, WireErrorView> {
    match r {
        Ok(Decoded::Complete { value, used }) => Ok(Decoded::Complete { value, used: (used + k) as usize }),
        Ok(Decoded::Incomplete { needed }) => Ok(Decoded::Incomplete { needed: (needed + k) as usize }),
        Err(e) => Err(e),
    }
}

/// A decode result that asks for more bytes asks for more than the `len` bytes at hand, so
/// a reader that waits for them always makes progress.
pub open spec fn makes_progress<V>(r: Result<Decoded<V>, WireError>, len: nat) -> bool {
    r matches Ok(Decoded::Incomplete { needed }) ==> needed > len
}

/// Big-endian bytes of a 16-bit integer.
pub open spec fn be16(v: u16) -> Seq<u8> {
    seq![(v / 256) as u8, (v % 256) as u8]
}

/// The 16-bit big-endian integer stored at `p`.
pub open spec fn be16_at(buf: Seq<u8>, p: int) -> u16 {
    (buf[p] * 256 + buf[p + 1]) as u16
}

/// The value of a big-endian byte string.
pub open spec fn be_value(s: Seq<u8>) -> nat
    decreases s.len(),
{
    if s.len() == 0 {
        0
    } else {
        be_value(s.drop_last()) * 256 + s.last() as nat
    }
}

/// The `n` least significant bytes of `v`, most significant first.
pub open spec fn be_bytes(v: nat, n: nat) -> Seq<u8>
    decreases n,
{
    if n == 0 {
        seq![]
    } else {
        be_bytes(v / 256, (n - 1) as nat).push((v % 256) as u8)
    }
}

/// Big-endian bytes of a 64-bit integer.
pub open spec fn be64(v: u64) -> Seq<u8> {
    be_bytes(v as nat, 8)
}

/// 256 to the power `n`.
pub open spec fn pow256(n: nat) -> nat
    decreases n,
{
    if n == 0 {
        1
    } else {
        256 * pow256((n - 1) as nat)
    }
}

/// The 16-bit length field written in front of a string: its byte length, cut to 16 bits.
pub open spec fn len16(n: nat) -> u16 {
    (n % 65536) as u16
}

/// A string on the wire: a 16-bit big-endian byte count, then the UTF-8 bytes.
pub open spec fn wire_string(chars: Seq<char>) -> Seq<u8> {
    be16(len16(encode_utf8(chars).len())) + encode_utf8(chars)
}

/// A string whose UTF-8 form fits the 16-bit length field.
pub open spec fn fits_wire_string(chars: Seq<char>) -> bool {
    encode_utf8(chars).len() < 65536
}

/// Decoding a length-prefixed string that starts at `p`; on success `used` is the
/// position just past its last byte.
pub open spec fn spec_string_at(buf: Seq<u8>, p: int) -> Result<Decoded<Seq<char>>, WireErrorView> {
    if buf.len() < p + 2 {
        Ok(Decoded::Incomplete { needed: (p + 2) as usize })
    } else {
        let n = be16_at(buf, p) as int;
        if buf.len() < p + 2 + n {
            Ok(Decoded::Incomplete { needed: (p + 2 + n) as usize })
        } else if !valid_utf8(buf.subrange(p + 2, p + 2 + n)) {
            Err(WireErrorView::InvalidUtf8(string_utf8_error_text(buf.subrange(p + 2, p + 2 + n))))
        } else {
            Ok(Decoded::Complete { value: decode_utf8(buf.subrange(p + 2, p + 2 + n)), used: (p + 2 + n) as usize })
        }
    }
}

/// The text of the error `String::from_utf8` gives for bytes that are not UTF-8.
pub uninterp spec fn string_utf8_error_text(bytes: Seq<u8>) -> Seq<char>;

/// Builds a `String` from bytes, refusing them unless they are UTF-8.
///
/// Calls `String::from_utf8`; trusted to succeed exactly on valid UTF-8 and then to
/// hold the characters those bytes encode, and otherwise to give the text of its error, a
/// text determined by the bytes alone. That text (std's `Display` of the error) is only
/// named.
#[verifier::external_body]
pub(crate) fn string_from_utf8(bytes: Vec<u8>) -> (r: Result<String, String>)
    ensures
        r is Ok <==> valid_utf8(bytes@),
        r matches Ok(s) ==> s@ == decode_utf8(bytes@),
        r matches Err(t) ==> t@ == string_utf8_error_text(bytes@),
{
    String::from_utf8(bytes).map_err(|e| e.to_string())
}

/// The text of the error `std::str::from_utf8` gives for bytes that are not UTF-8.
pub uninterp spec fn str_utf8_error_text(bytes: Seq<u8>) -> Seq<char>;

/// The error text for bytes that are not UTF-8, if they are not.
///
/// Calls `std::str::from_utf8`; trusted to succeed exactly on valid UTF-8, and otherwise
/// to give the text of its error, a text determined by the bytes alone. That text (std's
/// `Display` of the error) is only named.
#[verifier::external_body]
pub(crate) fn str_utf8_error(bytes: &[u8]) -> (r: Option<String>)
    ensures
        r is None <==> valid_utf8(bytes@),
        r matches Some(t) ==> t@ == str_utf8_error_text(bytes@),
{
    std::str::from_utf8(bytes).err().map(|e| e.to_string())
}

/// What `String::from_utf8_lossy` makes of a byte string.
pub uninterp spec fn utf8_lossy(bytes: Seq<u8>) -> Seq<char>;

/// Builds a `String` from bytes, replacing invalid sequences.
///
/// Calls `String::from_utf8_lossy`; trusted to return a value determined by the bytes
/// alone, equal to their decoding when they are valid UTF-8. What it puts in place of
/// invalid sequences is not stated.
#[verifier::external_body]
pub(crate) fn string_from_utf8_lossy(bytes: &[u8]) -> (r: String)
    ensures
        r@ == utf8_lossy(bytes@),
        valid_utf8(bytes@) ==> r@ == decode_utf8(bytes@),
{
    String::from_utf8_lossy(bytes).into_owned()
}

/// The UTF-8 bytes of a string.
pub fn utf8_bytes(s: &String) -> (b: &[u8])
    ensures
        b@ == encode_utf8(s@),
{
    s.as_str().as_bytes()
}

/// Appends `bytes` to `out`.
pub fn append_bytes(out: &mut Vec<u8>, bytes: &[u8])
    ensures
        final(out)@ == old(out)@ + bytes@,
{
    let mut i: usize = 0;
    while i < bytes.len()
        invariant
            i <= bytes@.len(),
            out@ == old(out)@ + bytes@.subrange(0, i as int),
        decreases bytes@.len() - i,
    {
        out.push(bytes[i]);
        i = i + 1;
        assert(bytes@.subrange(0, i as int) == bytes@.subrange(0, i - 1).push(bytes@[i - 1]));
    }
    assert(bytes@.subrange(0, i as int) == bytes@);
}

/// Appends the big-endian bytes of a 16-bit integer.
pub fn push_be16(out: &mut Vec<u8>, v: u16)
    ensures
        final(out)@ == old(out)@ + be16(v),
{
    out.push((v / 256) as u8);
    out.push((v % 256) as u8);
    assert(final(out)@ =~= old(out)@ + be16(v)) by {
        assert(out@ =~= old(out)@ + be16(v));
    }
}

/// Appends the big-endian bytes of a 64-bit integer.
pub fn push_be64(out: &mut Vec<u8>, v: u64)
    ensures
        final(out)@ == old(out)@ + be64(v),
{
    let v1 = v / 256;
    let v2 = v1 / 256;
    let v3 = v2 / 256;
    let v4 = v3 / 256;
    let v5 = v4 / 256;
    let v6 = v5 / 256;
    let v7 = v6 / 256;
    let ghost start = out@;
    out.push((v7 % 256) as u8);
    out.push((v6 % 256) as u8);
    out.push((v5 % 256) as u8);
    out.push((v4 % 256) as u8);
    out.push((v3 % 256) as u8);
    out.push((v2 % 256) as u8);
    out.push((v1 % 256) as u8);
    out.push((v % 256) as u8);
    proof {
        reveal_with_fuel(be_bytes, 9);
        assert(be64(v) =~= seq![
            (v7 % 256) as u8, (v6 % 256) as u8, (v5 % 256) as u8, (v4 % 256) as u8,
            (v3 % 256) as u8, (v2 % 256) as u8, (v1 % 256) as u8, (v % 256) as u8
        ]);
        assert(out@ =~= start + be64(v));
    }
}

/// Appends a length-prefixed string: its byte length cut to 16 bits, then its bytes.
pub fn push_string(out: &mut Vec<u8>, s: &String)
    ensures
        final(out)@ == old(out)@ + wire_string(s@),
{
    let bytes = utf8_bytes(s);
    push_be16(out, (bytes.len() % 65536) as u16);
    append_bytes(out, bytes);
    assert(out@ =~= old(out)@ + wire_string(s@));
}

/// Reads the 16-bit big-endian integer at `p`.
pub fn read_be16_at(buf: &[u8], p: usize) -> (v: u16)
    requires
        p + 2 <= buf@.len(),
    ensures
        v == be16_at(buf@, p as int),
{
    (buf[p] as u16) * 256 + (buf[p + 1] as u16)
}

/// Reads the 64-bit big-endian integer stored in the eight bytes at `p`.
pub fn read_be64_at(buf: &[u8], p: usize) -> (v: u64)
    requires
        p + 8 <= buf@.len(),
    ensures
        v == be_value(buf@.subrange(p as int, p + 8)),
{
    let mut acc: u64 = 0;
    let mut i: usize = 0;
    while i < 8
        invariant
            i <= 8,
            p + 8 <= buf.len(),
            acc as nat == be_value(buf@.subrange(p as int, p + i)),
            acc < pow256(i as nat),
        decreases 8 - i,
    {
        proof {
            reveal_with_fuel(pow256, 9);
            assert(buf@.subrange(p as int, p + i + 1).drop_last() =~= buf@.subrange(p as int, p + i));
        }
        let b = buf[p + i];
        acc = acc * 256 + b as u64;
        i = i + 1;
    }
    acc
}

/// Decodes a length-prefixed string starting at `p`.
pub fn read_string_at(buf: &[u8], p: usize) -> (r: Result<Decoded<String>, WireError>)
    requires
        p + 2 + 65535 <= usize::MAX,
    ensures
        decode_view(r) == spec_string_at(buf@, p as int),
        r matches Ok(Decoded::Complete { used, .. }) ==> used <= p + 2 + 65535,
        makes_progress(r, buf@.len()),
{
    if buf.len() < p + 2 {
        return Ok(Decoded::Incomplete { needed: p + 2 });
    }
    let n = read_be16_at(buf, p) as usize;
    if buf.len() < p + 2 + n {
        return Ok(Decoded::Incomplete { needed: p + 2 + n });
    }
    let bytes = vstd::slice::slice_to_vec(vstd::slice::slice_subrange(buf, p + 2, p + 2 + n));
    match string_from_utf8(bytes) {
        Err(t) => Err(WireError::InvalidUtf8(t)),
        Ok(s) => Ok(Decoded::Complete { value: s, used: p + 2 + n }),
    }
}

/// A big-endian byte string that fits in `n` bytes reads back as its value.
pub proof fn lemma_be_bytes_value(v: nat, n: nat)
    requires
        v < pow256(n),
    ensures
        be_bytes(v, n).len() == n,
        be_value(be_bytes(v, n)) == v,
    decreases n,
{
    if n == 0 {
    } else {
        let q = v / 256;
        lemma_fundamental_div_mod(v as int, 256);
        assert(q < pow256((n - 1) as nat)) by (nonlinear_arith)
            requires
                v < 256 * pow256((n - 1) as nat),
                q == v / 256,
        ;
        lemma_be_bytes_value(q, (n - 1) as nat);
        let s = be_bytes(v, n);
        assert(s.drop_last() == be_bytes(q, (n - 1) as nat));
    }
}

/// `pow256(8)` is 2^64, so every 64-bit integer fits in eight bytes.
pub proof fn lemma_pow256_8()
    ensures
        pow256(8) == 0x1_0000_0000_0000_0000,
{
    reveal_with_fuel(pow256, 9);
}

/// The eight bytes of a 64-bit integer read back as the integer.
pub proof fn lemma_be64_roundtrip(v: u64)
    ensures
        be64(v).len() == 8,
        be_value(be64(v)) == v,
{
    lemma_pow256_8();
    lemma_be_bytes_value(v as nat, 8);
}

/// The two bytes of a 16-bit integer read back as the integer.
pub proof fn lemma_be16_roundtrip(v: u16, buf: Seq<u8>, p: int)
    requires
        0 <= p,
        p + 2 <= buf.len(),
        buf.subrange(p, p + 2) == be16(v),
    ensures
        be16_at(buf, p) == v,
{
    assert(buf[p] == be16(v)[0]);
    assert(buf[p + 1] == be16(v)[1]);
}

/// A string that fits the length field decodes back from its wire form, whatever follows it.
pub proof fn lemma_string_roundtrip(chars: Seq<char>, buf: Seq<u8>, p: int)
    requires
        fits_wire_string(chars),
        0 <= p,
        p + wire_string(chars).len() <= buf.len(),
        p + wire_string(chars).len() <= usize::MAX,
        buf.subrange(p, p + wire_string(chars).len()) == wire_string(chars),
    ensures
        wire_string(chars).len() == 2 + encode_utf8(chars).len(),
        spec_string_at(buf, p) == Ok::<Decoded<Seq<char>>, WireErrorView>(
            Decoded::Complete { value: chars, used: (p + wire_string(chars).len()) as usize },
        ),
{
    let bytes = encode_utf8(chars);
    let n = bytes.len() as int;
    let w = wire_string(chars);
    assert(len16(bytes.len()) == n);
    assert(w.len() == 2 + n);
    assert(buf.subrange(p, p + 2) =~= w.subrange(0, 2));
    assert(w.subrange(0, 2) =~= be16(n as u16));
    lemma_be16_roundtrip(n as u16, buf, p);
    assert(buf.subrange(p + 2, p + 2 + n) =~= w.subrange(2, 2 + n));
    assert(w.subrange(2, 2 + n) =~= bytes);
}

/// On a strict prefix of a string's wire form, decoding asks for more bytes, and never
/// for more than the whole string.
pub proof fn lemma_string_prefix(chars: Seq<char>, buf: Seq<u8>, p: int)
    requires
        fits_wire_string(chars),
        0 <= p,
        p + wire_string(chars).len() <= usize::MAX,
        p <= buf.len() < p + wire_string(chars).len(),
        buf.subrange(p, buf.len() as int) == wire_string(chars).subrange(0, buf.len() - p),
    ensures
        spec_string_at(buf, p) matches Ok(Decoded::Incomplete { needed })
            && buf.len() < needed <= p + wire_string(chars).len(),
{
    let bytes = encode_utf8(chars);
    let n = bytes.len() as int;
    let w = wire_string(chars);
    assert(len16(bytes.len()) == n);
    if buf.len() >= p + 2 {
        let tail = buf.subrange(p, buf.len() as int);
        assert(tail[0] == w[0]);
        assert(tail[1] == w[1]);
        assert(buf[p] == tail[0]);
        assert(buf[p + 1] == tail[1]);
        assert(w[0] == be16(n as u16)[0]);
        assert(w[1] == be16(n as u16)[1]);
        assert(buf.subrange(p, p + 2) =~= be16(n as u16));
        lemma_be16_roundtrip(n as u16, buf, p);
        assert(be16_at(buf, p) as int == n);
    }
}

} // verus!

verus! {

/// Decoding a string that starts at `p` is decoding it from the buffer cut at `p`,
/// moved back by `p`.
pub proof fn lemma_string_at_shift(buf: Seq<u8>, p: int)
    requires
        0 <= p <= buf.len(),
    ensures
        spec_string_at(buf, p) == shift_decoded(spec_string_at(buf.subrange(p, buf.len() as int), 0), p),
{
    let t = buf.subrange(p, buf.len() as int);
    if buf.len() >= p + 2 {
        assert(t[0] == buf[p]);
        assert(t[1] == buf[p + 1]);
        let n = be16_at(buf, p) as int;
        if buf.len() >= p + 2 + n {
            assert(t.subrange(2, 2 + n) =~= buf.subrange(p + 2, p + 2 + n));
        }
    }
}

} // verus!
