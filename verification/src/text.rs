//! Text helpers: decimal and hexadecimal renderings, decimal parsing of ports, and
//! building strings from their UTF-8 encoding.
use vstd::prelude::*;
use vstd::utf8::*;
use crate::wire::string_from_utf8;

verus! {

broadcast use vstd::utf8::encode_utf8_valid_utf8, vstd::utf8::encode_utf8_decode_utf8;

/// The UTF-8 encoding of a concatenation is the concatenation of the encodings.
pub proof fn lemma_encode_utf8_concat(a: Seq<char>, b: Seq<char>)
    ensures
        encode_utf8(a + b) == encode_utf8(a) + encode_utf8(b),
    decreases a.len(),
{
    if a.len() == 0 {
        assert(a + b =~= b);
    } else {
        lemma_encode_utf8_concat(a.drop_first(), b);
        assert((a + b).drop_first() =~= a.drop_first() + b);
        assert((a + b)[0] == a[0]);
    }
}

/// The UTF-8 encoding of ASCII characters is their codes, one byte each.
pub proof fn lemma_encode_ascii(cs: Seq<char>)
    requires
        is_ascii_chars(cs),
    ensures
        encode_utf8(cs) == Seq::new(cs.len(), |i: int| cs[i] as u8),
{
    is_ascii_chars_encode_utf8(cs);
    assert(encode_utf8(cs) =~= Seq::new(cs.len(), |i: int| cs[i] as u8));
}

/// The string whose UTF-8 encoding is `bytes`.
pub(crate) fn string_of_encoding(bytes: Vec<u8>, Ghost(cs): Ghost<Seq<char>>) -> (s: String)
    requires
        bytes@ == encode_utf8(cs),
    ensures
        s@ == cs,
{
    match string_from_utf8(bytes) {
        Ok(s) => s,
        Err(_) => {
            assert(false);
            String::new()
        },
    }
}

/// The character of a decimal digit.
pub open spec fn digit_char(d: nat) -> char {
    (48 + d) as char
}

/// The decimal rendering of `n`, without leading zeros.
pub open spec fn decimal(n: nat) -> Seq<char>
    decreases n,
{
    if n < 10 {
        seq![digit_char(n)]
    } else {
        decimal(n / 10).push(digit_char(n % 10))
    }
}

/// A decimal rendering is ASCII.
pub proof fn lemma_decimal_ascii(n: nat)
    ensures
        forall|i: int| 0 <= i < decimal(n).len() ==> '0' <= #[trigger] decimal(n)[i] <= '9',
        decimal(n).len() >= 1,
    decreases n,
{
    if n >= 10 {
        lemma_decimal_ascii(n / 10);
    }
}

/// The bytes of a decimal rendering are decimal digits whose value is the number.
pub proof fn lemma_decimal_digits(n: nat)
    ensures
        encode_utf8(decimal(n)).len() >= 1,
        all_digits(encode_utf8(decimal(n))),
        digits_value(encode_utf8(decimal(n))) == n,
    decreases n,
{
    lemma_decimal_ascii(n);
    lemma_encode_ascii(decimal(n));
    let d = encode_utf8(decimal(n));
    assert forall|i: int| 0 <= i < d.len() implies is_digit(#[trigger] d[i]) by {
        assert(d[i] == decimal(n)[i] as u8);
    }
    if n >= 10 {
        lemma_decimal_digits(n / 10);
        lemma_decimal_ascii(n / 10);
        lemma_encode_ascii(decimal(n / 10));
        assert(d.drop_last() =~= encode_utf8(decimal(n / 10)));
        assert(d.last() == digit_char(n % 10) as u8);
        assert(digit_char(n % 10) as u8 == 48 + n % 10);
        assert(d.last() - 48 == n % 10);
        assert(digits_value(d) == digits_value(d.drop_last()) * 10 + (d.last() - 48) as nat);
        assert((n / 10) * 10 + n % 10 == n);
    } else {
        assert(d.drop_last() =~= Seq::<u8>::empty());
        assert(d.last() == digit_char(n) as u8);
        assert(digit_char(n) as u8 == 48 + n);
        assert(digits_value(d) == digits_value(d.drop_last()) * 10 + (d.last() - 48) as nat);
    }
}

/// Appends the decimal rendering of `n` as ASCII bytes.
pub fn push_decimal(out: &mut Vec<u8>, n: u64)
    ensures
        final(out)@ == old(out)@ + encode_utf8(decimal(n as nat)),
    decreases n,
{
    proof {
        lemma_decimal_ascii(n as nat);
        lemma_encode_ascii(decimal(n as nat));
    }
    if n >= 10 {
        push_decimal(out, n / 10);
        proof {
            lemma_decimal_ascii((n / 10) as nat);
            lemma_encode_ascii(decimal((n / 10) as nat));
        }
    }
    out.push((48 + n % 10) as u8);
    proof {
        assert(out@ =~= old(out)@ + encode_utf8(decimal(n as nat)));
    }
}

/// The decimal text of a number.
pub fn decimal_string(n: u64) -> (s: String)
    ensures
        s@ == decimal(n as nat),
{
    let mut out: Vec<u8> = Vec::new();
    push_decimal(&mut out, n);
    assert(out@ =~= encode_utf8(decimal(n as nat)));
    string_of_encoding(out, Ghost(decimal(n as nat)))
}

/// The lowercase hexadecimal digit for a value below 16.
pub open spec fn hex_digit(d: nat) -> u8 {
    if d < 10 {
        (48 + d) as u8
    } else {
        (87 + d) as u8
    }
}

/// Each byte as two lowercase hexadecimal digits, most significant first.
pub open spec fn hex_bytes(bytes: Seq<u8>) -> Seq<u8>
    decreases bytes.len(),
{
    if bytes.len() == 0 {
        seq![]
    } else {
        hex_bytes(bytes.drop_last()) + seq![hex_digit(bytes.last() as nat / 16), hex_digit(bytes.last() as nat % 16)]
    }
}

/// The characters of a byte string written in hexadecimal.
pub open spec fn hex_chars(bytes: Seq<u8>) -> Seq<char> {
    Seq::new(hex_bytes(bytes).len(), |i: int| hex_bytes(bytes)[i] as char)
}

proof fn lemma_hex_bytes_shape(bytes: Seq<u8>)
    ensures
        hex_bytes(bytes).len() == 2 * bytes.len(),
        forall|i: int| 0 <= i < hex_bytes(bytes).len() ==> 48 <= #[trigger] hex_bytes(bytes)[i] < 128,
    decreases bytes.len(),
{
    if bytes.len() > 0 {
        lemma_hex_bytes_shape(bytes.drop_last());
    }
}

/// A lowercase hexadecimal digit.
pub open spec fn is_lower_hex_digit(c: char) -> bool {
    ('0' <= c && c <= '9') || ('a' <= c && c <= 'f')
}

proof fn lemma_hex_bytes_digits(bytes: Seq<u8>)
    ensures
        forall|i: int| 0 <= i < hex_bytes(bytes).len() ==> {
            let b = #[trigger] hex_bytes(bytes)[i];
            (48 <= b <= 57) || (97 <= b <= 102)
        },
    decreases bytes.len(),
{
    if bytes.len() > 0 {
        lemma_hex_bytes_digits(bytes.drop_last());
        let init = hex_bytes(bytes.drop_last());
        let b = bytes.last() as nat;
        assert(b / 16 < 16 && b % 16 < 16);
        assert forall|i: int| 0 <= i < hex_bytes(bytes).len() implies {
            let x = #[trigger] hex_bytes(bytes)[i];
            (48 <= x <= 57) || (97 <= x <= 102)
        } by {
            if i < init.len() {
                assert(hex_bytes(bytes)[i] == init[i]);
            }
        }
    }
}

/// The hexadecimal text of a byte string has two lowercase hexadecimal digits per byte.
pub proof fn lemma_hex_chars_lower(bytes: Seq<u8>)
    ensures
        hex_chars(bytes).len() == 2 * bytes.len(),
        forall|i: int| 0 <= i < hex_chars(bytes).len() ==> is_lower_hex_digit(#[trigger] hex_chars(bytes)[i]),
{
    lemma_hex_bytes_shape(bytes);
    lemma_hex_bytes_digits(bytes);
    assert forall|i: int| 0 <= i < hex_chars(bytes).len() implies is_lower_hex_digit(#[trigger] hex_chars(bytes)[i]) by {
        let b = hex_bytes(bytes)[i];
        assert(hex_chars(bytes)[i] == b as char);
        assert((48 <= b <= 57) || (97 <= b <= 102));
    }
}

/// The value of a hexadecimal digit.
pub open spec fn hex_value(c: char) -> int {
    if '0' <= c && c <= '9' {
        c as int - 48
    } else {
        c as int - 87
    }
}

/// The bytes a hexadecimal text encodes, two digits per byte, most significant first.
pub open spec fn hex_decode(s: Seq<char>) -> Seq<u8> {
    Seq::new(s.len() / 2, |i: int| (hex_value(s[2 * i]) * 16 + hex_value(s[2 * i + 1])) as u8)
}

proof fn lemma_hex_bytes_at(bytes: Seq<u8>)
    ensures
        hex_bytes(bytes).len() == 2 * bytes.len(),
        forall|i: int| 0 <= i < bytes.len() ==> hex_bytes(bytes)[2 * i] == hex_digit(#[trigger] bytes[i] as nat / 16)
            && hex_bytes(bytes)[2 * i + 1] == hex_digit(bytes[i] as nat % 16),
    decreases bytes.len(),
{
    if bytes.len() > 0 {
        let init = bytes.drop_last();
        lemma_hex_bytes_at(init);
        assert forall|i: int| 0 <= i < bytes.len() implies hex_bytes(bytes)[2 * i] == hex_digit(#[trigger] bytes[i] as nat / 16)
            && hex_bytes(bytes)[2 * i + 1] == hex_digit(bytes[i] as nat % 16) by {
            if i < init.len() {
                assert(bytes[i] == init[i]);
            }
        }
    }
}

/// A digit's value is the number it was written for.
proof fn lemma_hex_digit_value(d: nat)
    requires
        d < 16,
    ensures
        hex_value(hex_digit(d) as char) == d,
{
}

/// Hexadecimal text decodes back to the bytes it was written from.
pub proof fn lemma_hex_decode_roundtrip(bytes: Seq<u8>)
    ensures
        hex_decode(hex_chars(bytes)) == bytes,
{
    lemma_hex_bytes_at(bytes);
    let cs = hex_chars(bytes);
    let d = hex_decode(cs);
    assert forall|i: int| 0 <= i < bytes.len() implies #[trigger] d[i] == bytes[i] by {
        let b = bytes[i] as nat;
        assert(cs[2 * i] == hex_bytes(bytes)[2 * i] as char);
        assert(cs[2 * i + 1] == hex_bytes(bytes)[2 * i + 1] as char);
        lemma_hex_digit_value(b / 16);
        lemma_hex_digit_value(b % 16);
        assert((b / 16) * 16 + b % 16 == b);
    }
    assert(d =~= bytes);
}

/// The hexadecimal rendering of a byte string, two lowercase digits per byte.
pub fn hex_encode(bytes: &[u8]) -> (s: String)
    ensures
        s@ == hex_chars(bytes@),
        s@.len() == 2 * bytes@.len(),
{
    let mut out: Vec<u8> = Vec::new();
    let mut i: usize = 0;
    while i < bytes.len()
        invariant
            i <= bytes@.len(),
            out@ == hex_bytes(bytes@.subrange(0, i as int)),
        decreases bytes@.len() - i,
    {
        let b = bytes[i];
        let hi = b / 16;
        let lo = b % 16;
        out.push(if hi < 10 { 48 + hi } else { 87 + hi });
        out.push(if lo < 10 { 48 + lo } else { 87 + lo });
        proof {
            assert(bytes@.subrange(0, i + 1).drop_last() =~= bytes@.subrange(0, i as int));
        }
        i = i + 1;
    }
    assert(bytes@.subrange(0, i as int) =~= bytes@);
    proof {
        lemma_hex_bytes_shape(bytes@);
        let cs = hex_chars(bytes@);
        lemma_encode_ascii(cs);
        assert(encode_utf8(cs) =~= out@);
    }
    string_of_encoding(out, Ghost(hex_chars(bytes@)))
}

/// An ASCII decimal digit.
pub open spec fn is_digit(b: u8) -> bool {
    48 <= b <= 57
}

/// The value of a string of decimal digits.
pub open spec fn digits_value(s: Seq<u8>) -> nat
    decreases s.len(),
{
    if s.len() == 0 {
        0
    } else {
        digits_value(s.drop_last()) * 10 + (s.last() - 48) as nat
    }
}

/// The text of an unsigned number once an optional leading `+` is dropped.
pub open spec fn unsigned_digits(s: Seq<u8>) -> Seq<u8> {
    if s.len() > 0 && s[0] == 43 {
        s.drop_first()
    } else {
        s
    }
}

/// Every byte is a decimal digit.
pub open spec fn all_digits(d: Seq<u8>) -> bool {
    forall|i: int| 0 <= i < d.len() ==> is_digit(#[trigger] d[i])
}

/// What `u16::from_str` accepts: an optional `+`, then one or more decimal digits whose
/// value fits in 16 bits.
pub open spec fn spec_parse_u16(s: Seq<u8>) -> Option<u16> {
    let d = unsigned_digits(s);
    if d.len() > 0 && all_digits(d) && digits_value(d) <= 65535 {
        Some(digits_value(d) as u16)
    } else {
        None
    }
}

proof fn lemma_digits_value_grows(s: Seq<u8>, k: int)
    requires
        0 <= k <= s.len(),
        forall|i: int| 0 <= i < s.len() ==> is_digit(#[trigger] s[i]),
    ensures
        digits_value(s.subrange(0, k)) <= digits_value(s),
    decreases s.len() - k,
{
    if k < s.len() {
        lemma_digits_value_grows(s, k + 1);
        assert(s.subrange(0, k + 1).drop_last() =~= s.subrange(0, k));
    } else {
        assert(s.subrange(0, k) =~= s);
    }
}

/// The text of the error `str::parse::<u16>` gives for a text, or nothing for a text it
/// accepts.
pub uninterp spec fn u16_parse_error_text(s: Seq<char>) -> Seq<char>;

/// The error text `str::parse::<u16>` gives for a text.
///
/// Calls `str::parse::<u16>`; trusted to give a text determined by the text alone (std's
/// `Display` of its error, empty when the text parses), which is only named.
#[verifier::external_body]
pub(crate) fn u16_parse_error(s: &str) -> (r: String)
    ensures
        r@ == u16_parse_error_text(s@),
{
    match s.parse::<u16>() {
        Err(e) => e.to_string(),
        Ok(_) => String::new(),
    }
}

/// Parses a port number the way `str::parse::<u16>` does.
pub fn parse_u16(s: &[u8]) -> (r: Option<u16>)
    ensures
        r == spec_parse_u16(s@),
{
    let start: usize = if s.len() > 0 && s[0] == 43 { 1 } else { 0 };
    let ghost d = unsigned_digits(s@);
    assert(d =~= s@.subrange(start as int, s@.len() as int));
    if start == s.len() {
        return None;
    }
    let mut acc: u32 = 0;
    let mut i: usize = start;
    while i < s.len()
        invariant
            start <= i <= s@.len(),
            d == s@.subrange(start as int, s@.len() as int),
            d == unsigned_digits(s@),
            forall|j: int| 0 <= j < i - start ==> is_digit(#[trigger] d[j]),
            acc as nat == digits_value(d.subrange(0, i - start)),
            acc <= 65535,
        decreases s@.len() - i,
    {
        let b = s[i];
        assert(d[i - start] == s@[i as int]);
        if b < 48 || b > 57 {
            assert(!is_digit(d[i - start]));
            assert(!all_digits(d));
            return None;
        }
        proof {
            assert(d.subrange(0, i - start + 1).drop_last() =~= d.subrange(0, i - start));
        }
        acc = acc * 10 + (b - 48) as u32;
        i = i + 1;
        assert(acc as nat == digits_value(d.subrange(0, i - start)));
        if acc > 65535 {
            proof {
                let k = i - start;
                if all_digits(d) {
                    lemma_digits_value_grows(d, k);
                }
            }
            return None;
        }
    }
    assert(d.subrange(0, i - start) =~= d);
    Some(acc as u16)
}

/// In valid UTF-8, the position just after an ASCII byte starts a character.
pub proof fn lemma_boundary_after_ascii(bytes: Seq<u8>, i: int)
    requires
        valid_utf8(bytes),
        0 <= i < bytes.len(),
        bytes[i] < 128,
    ensures
        is_char_boundary(bytes, i + 1),
    decreases bytes.len(),
{
    let l = length_of_first_scalar(bytes);
    if i == 0 {
        assert(l == 1);
        assert(is_char_boundary(pop_first_scalar(bytes), 0));
    } else {
        is_char_boundary_iff_not_is_continuation_byte(bytes, i);
        reveal_with_fuel(is_char_boundary, 2);
        if i < l {
            assert(is_continuation_byte(bytes[i]));
        }
        let tail = pop_first_scalar(bytes);
        assert(tail[i - l] == bytes[i]);
        lemma_boundary_after_ascii(tail, i - l);
    }
}

/// A stretch of valid UTF-8 that starts at the beginning or just after an ASCII byte, and
/// ends at the end or just before an ASCII byte, is itself valid UTF-8.
pub proof fn lemma_ascii_cut_valid(bytes: Seq<u8>, a: int, b: int)
    requires
        valid_utf8(bytes),
        0 <= a <= b <= bytes.len(),
        a == 0 || bytes[a - 1] < 128,
        b == bytes.len() || bytes[b] < 128,
    ensures
        valid_utf8(bytes.subrange(a, b)),
{
    if a > 0 {
        lemma_boundary_after_ascii(bytes, a - 1);
    } else {
        is_char_boundary_start_end_of_seq(bytes);
    }
    valid_utf8_split(bytes, a);
    let tail = bytes.subrange(a, bytes.len() as int);
    if b == bytes.len() {
        is_char_boundary_start_end_of_seq(tail);
    } else {
        assert(tail[b - a] == bytes[b]);
        is_char_boundary_iff_not_is_continuation_byte(tail, b - a);
    }
    valid_utf8_split(tail, b - a);
    assert(tail.subrange(0, b - a) =~= bytes.subrange(a, b));
}

/// Position of the first `c` in `s`, or `s.len()` when `c` does not occur.
pub open spec fn first_index(s: Seq<u8>, c: u8) -> int
    decreases s.len(),
{
    if s.len() == 0 {
        0
    } else if s[0] == c {
        0
    } else {
        1 + first_index(s.drop_first(), c)
    }
}

/// Position of the last `c` in `s`, or -1 when `c` does not occur.
pub open spec fn last_index(s: Seq<u8>, c: u8) -> int
    decreases s.len(),
{
    if s.len() == 0 {
        -1
    } else if s.last() == c {
        s.len() - 1
    } else {
        last_index(s.drop_last(), c)
    }
}

/// `first_index` is the first position holding `c`, or the length.
pub proof fn lemma_first_index(s: Seq<u8>, c: u8, i: int)
    requires
        0 <= i <= s.len(),
        forall|j: int| 0 <= j < i ==> s[j] != c,
        i == s.len() || s[i] == c,
    ensures
        first_index(s, c) == i,
    decreases s.len(),
{
    if s.len() > 0 && i > 0 {
        let t = s.drop_first();
        assert forall|j: int| 0 <= j < i - 1 implies t[j] != c by {
            assert(t[j] == s[j + 1]);
        }
        if i < s.len() {
            assert(t[i - 1] == s[i]);
        }
        lemma_first_index(t, c, i - 1);
    }
}

/// `last_index` is the last position holding `c`, or -1.
pub proof fn lemma_last_index(s: Seq<u8>, c: u8, k: int)
    requires
        -1 <= k < s.len(),
        forall|j: int| k < j < s.len() ==> s[j] != c,
        k == -1 || s[k] == c,
    ensures
        last_index(s, c) == k,
    decreases s.len(),
{
    if s.len() > 0 && k < s.len() - 1 {
        let t = s.drop_last();
        lemma_last_index(t, c, k);
    }
}

/// Finds the first `c` among the bytes from `from` up to `to`, returning its position,
/// or `to` when there is none.
pub fn find_first(s: &[u8], from: usize, to: usize, c: u8) -> (i: usize)
    requires
        from <= to <= s@.len(),
    ensures
        from <= i <= to,
        i - from == first_index(s@.subrange(from as int, to as int), c),
        i < to ==> s@[i as int] == c,
        forall|j: int| from <= j < i ==> s@[j] != c,
{
    let mut i = from;
    while i < to && s[i] != c
        invariant
            from <= i <= to <= s@.len(),
            forall|j: int| from <= j < i ==> s@[j] != c,
        decreases to - i,
    {
        i = i + 1;
    }
    proof {
        let t = s@.subrange(from as int, to as int);
        assert forall|j: int| 0 <= j < i - from implies t[j] != c by {
            assert(t[j] == s@[j + from]);
        }
        if i < to {
            assert(t[i - from] == s@[i as int]);
        }
        lemma_first_index(t, c, i - from);
    }
    i
}

/// Finds the last `c` among the bytes from `from` up to `to`, returning its position
/// plus one, or `from` when there is none.
pub fn find_last(s: &[u8], from: usize, to: usize, c: u8) -> (i: usize)
    requires
        from <= to <= s@.len(),
    ensures
        from <= i <= to,
        i - from - 1 == last_index(s@.subrange(from as int, to as int), c),
        i > from ==> s@[i - 1] == c,
        forall|j: int| i <= j < to ==> s@[j] != c,
{
    let mut i = to;
    while i > from && s[i - 1] != c
        invariant
            from <= i <= to <= s@.len(),
            forall|j: int| i <= j < to ==> s@[j] != c,
        decreases i - from,
    {
        i = i - 1;
    }
    proof {
        let t = s@.subrange(from as int, to as int);
        assert forall|j: int| i - from - 1 < j < t.len() implies t[j] != c by {
            assert(t[j] == s@[j + from]);
        }
        if i > from {
            assert(t[i - from - 1] == s@[i - 1]);
        }
        lemma_last_index(t, c, i - from - 1);
    }
    i
}

} // verus!

verus! {

/// The characters of a string, in order.
pub fn chars_of(s: &str) -> (v: Vec<char>)
    ensures
        v@ == s@,
{
    broadcast use vstd::string::group_string_axioms;
    let mut it = s.chars();
    let mut v: Vec<char> = Vec::new();
    assert(vstd::std_specs::iter::IteratorSpec::remaining(&it) == s@);
    loop
        invariant
            v@ + vstd::std_specs::iter::IteratorSpec::remaining(&it) == s@,
            vstd::std_specs::iter::IteratorSpec::obeys_prophetic_iter_laws(&it),
            vstd::std_specs::iter::IteratorSpec::decrease(&it) is Some,
        ensures
            v@ == s@,
        decreases vstd::std_specs::iter::IteratorSpec::decrease(&it)->0,
    {
        let ghost before = vstd::std_specs::iter::IteratorSpec::remaining(&it);
        match it.next() {
            Some(c) => {
                v.push(c);
                assert(v@ + vstd::std_specs::iter::IteratorSpec::remaining(&it) =~= s@);
            },
            None => {
                assert(v@ =~= s@);
                break;
            },
        }
    }
    v
}

} // verus!

verus! {

/// Appends a character.
///
/// Calls `String::push`; trusted to add exactly that character at the end.
#[verifier::external_body]
pub(crate) fn push_char(s: &mut String, c: char)
    ensures
        final(s)@ == old(s)@.push(c),
{
    s.push(c)
}

/// The string of the characters from `from` up to `to`.
pub fn string_of_chars(cs: &[char], from: usize, to: usize) -> (s: String)
    requires
        from <= to <= cs@.len(),
    ensures
        s@ == cs@.subrange(from as int, to as int),
{
    let mut s = String::new();
    let mut i = from;
    while i < to
        invariant
            from <= i <= to <= cs@.len(),
            s@ == cs@.subrange(from as int, i as int),
        decreases to - i,
    {
        push_char(&mut s, cs[i]);
        i = i + 1;
        assert(s@ =~= cs@.subrange(from as int, i as int));
    }
    s
}

/// Whether two character sequences agree.
pub fn chars_equal(a: &[char], b: &[char]) -> (r: bool)
    ensures
        r == (a@ == b@),
{
    if a.len() != b.len() {
        return false;
    }
    let mut i: usize = 0;
    while i < a.len()
        invariant
            i <= a@.len(),
            a@.len() == b@.len(),
            forall|j: int| 0 <= j < i ==> a@[j] == b@[j],
        decreases a@.len() - i,
    {
        if a[i] != b[i] {
            return false;
        }
        i = i + 1;
    }
    assert(a@ =~= b@);
    true
}

} // verus!
