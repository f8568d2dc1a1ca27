//! The wire layout that the `StreamCodec` derive gives a struct with named fields: each
//! field in its own wire form, in declaration order, except that a run of consecutive
//! bit-packed flags shares one byte (the first flag of the run in bit 0). The derive's
//! decision is the grouping of the fields; the encoder and decoder here carry out the
//! code it produces for any such grouping.
use vstd::prelude::*;
use crate::bits::{pack_bits, spec_pack_bits, bit_set};
use crate::file_send::{FileSendHeaderView, spec_file_send_header_bytes};
use crate::codec::{FieldGroup, group_indices, flat_indices, positions, is_grouping, group_fields};
use crate::wire::{
    Decoded, WireError, WireErrorView, makes_progress, spec_string_at, wire_string, fits_wire_string, be16, be16_at, be64, be_value,
    push_string, push_be16, push_be64, read_string_at, read_be16_at, read_be64_at,
    lemma_string_roundtrip, lemma_string_prefix, lemma_be16_roundtrip, lemma_be64_roundtrip,
};

verus! {

/// The kind of a field: one of the four with a wire form of their own, or a flag marked
/// to be bit-packed.
#[derive(Debug, Clone, Copy, PartialEq, Eq, Structural)]
pub enum FieldKind {
    U8,
    U16,
    U64,
    Str,
    Flag,
}

/// The value of a field.
pub enum FieldValue {
    U8(u8),
    U16(u16),
    U64(u64),
    Str(String),
    Flag(bool),
}

/// The abstract value of a [`FieldValue`].
pub enum FieldValueView {
    U8(u8),
    U16(u16),
    U64(u64),
    Str(Seq<char>),
    Flag(bool),
}

impl View for FieldValue {
    type V = FieldValueView;

    open spec fn view(&self) -> FieldValueView {
        match self {
            FieldValue::U8(x) => FieldValueView::U8(*x),
            FieldValue::U16(x) => FieldValueView::U16(*x),
            FieldValue::U64(x) => FieldValueView::U64(*x),
            FieldValue::Str(s) => FieldValueView::Str(s@),
            FieldValue::Flag(b) => FieldValueView::Flag(*b),
        }
    }
}

/// The kind of a field value.
pub open spec fn kind_of(v: FieldValueView) -> FieldKind {
    match v {
        FieldValueView::U8(_) => FieldKind::U8,
        FieldValueView::U16(_) => FieldKind::U16,
        FieldValueView::U64(_) => FieldKind::U64,
        FieldValueView::Str(_) => FieldKind::Str,
        FieldValueView::Flag(_) => FieldKind::Flag,
    }
}

/// The abstract values of a list of field values.
pub open spec fn values_view(vs: Seq<FieldValue>) -> Seq<FieldValueView> {
    vs.map_values(|v: FieldValue| v@)
}

/// Which fields are marked to be bit-packed: exactly the flags.
pub open spec fn bitpack_marks(kinds: Seq<FieldKind>) -> Seq<bool> {
    Seq::new(kinds.len(), |i: int| kinds[i] == FieldKind::Flag)
}

/// The values are those of a struct whose fields have these kinds.
pub open spec fn typed(kinds: Seq<FieldKind>, vals: Seq<FieldValueView>) -> bool {
    &&& vals.len() == kinds.len()
    &&& forall|i: int| 0 <= i < vals.len() ==> kind_of(#[trigger] vals[i]) == kinds[i]
}

/// Every string value fits the 16-bit length field.
pub open spec fn encodable_values(vals: Seq<FieldValueView>) -> bool {
    forall|i: int| 0 <= i < vals.len() ==> (#[trigger] vals[i] matches FieldValueView::Str(s) ==> fits_wire_string(s))
}

/// Every run of flags fits in one byte, as the derived code needs.
pub open spec fn flag_runs_fit(gs: Seq<FieldGroup>) -> bool {
    forall|k: int| 0 <= k < gs.len() ==> (#[trigger] gs[k] matches FieldGroup::Bitpack(v) ==> v@.len() <= 8)
}

/// The field positions a group names are below `n`.
pub open spec fn group_in_range(g: FieldGroup, n: nat) -> bool {
    match g {
        FieldGroup::Regular(i) => i < n,
        FieldGroup::Bitpack(v) => forall|j: int| 0 <= j < v@.len() ==> #[trigger] v@[j] < n,
    }
}

/// Every group names field positions below `n`.
pub open spec fn groups_in_range(gs: Seq<FieldGroup>, n: nat) -> bool {
    forall|k: int| 0 <= k < gs.len() ==> group_in_range(#[trigger] gs[k], n)
}

/// The wire form of a field of its own (a flag never is one).
pub open spec fn value_bytes(v: FieldValueView) -> Seq<u8> {
    match v {
        FieldValueView::U8(x) => seq![x],
        FieldValueView::U16(x) => be16(x),
        FieldValueView::U64(x) => be64(x),
        FieldValueView::Str(s) => wire_string(s),
        FieldValueView::Flag(_) => seq![],
    }
}

/// The flag a value holds; false for a value that is not a flag.
pub open spec fn flag_value(v: FieldValueView) -> bool {
    match v {
        FieldValueView::Flag(b) => b,
        _ => false,
    }
}

/// The eight bits of a shared byte: bit `j` is the flag of the run's `j`-th field, the
/// bits past the run clear.
pub open spec fn run_bits(vals: Seq<FieldValueView>, idx: Seq<usize>) -> Seq<bool> {
    Seq::new(8, |j: int| j < idx.len() && flag_value(vals[idx[j] as int]))
}

/// The bytes of one group.
pub open spec fn group_bytes(g: FieldGroup, vals: Seq<FieldValueView>) -> Seq<u8> {
    match g {
        FieldGroup::Regular(i) => value_bytes(vals[i as int]),
        FieldGroup::Bitpack(v) => seq![spec_pack_bits(run_bits(vals, v@))],
    }
}

/// The bytes of a record laid out by a list of groups.
pub open spec fn record_bytes(gs: Seq<FieldGroup>, vals: Seq<FieldValueView>) -> Seq<u8>
    decreases gs.len(),
{
    if gs.len() == 0 {
        seq![]
    } else {
        record_bytes(gs.drop_last(), vals) + group_bytes(gs.last(), vals)
    }
}

/// Decoding a field of its own kind at `p` (a flag is never a field of its own: it takes no
/// bytes here).
pub open spec fn value_at(kind: FieldKind, buf: Seq<u8>, p: int) -> Result<Decoded<FieldValueView>, WireErrorView> {
    match kind {
        FieldKind::U8 => if buf.len() < p + 1 {
            Ok(Decoded::Incomplete { needed: (p + 1) as usize })
        } else {
            Ok(Decoded::Complete { value: FieldValueView::U8(buf[p]), used: (p + 1) as usize })
        },
        FieldKind::U16 => if buf.len() < p + 2 {
            Ok(Decoded::Incomplete { needed: (p + 2) as usize })
        } else {
            Ok(Decoded::Complete { value: FieldValueView::U16(be16_at(buf, p)), used: (p + 2) as usize })
        },
        FieldKind::U64 => if buf.len() < p + 8 {
            Ok(Decoded::Incomplete { needed: (p + 8) as usize })
        } else {
            Ok(
                Decoded::Complete {
                    value: FieldValueView::U64(be_value(buf.subrange(p, p + 8)) as u64),
                    used: (p + 8) as usize,
                },
            )
        },
        FieldKind::Str => match spec_string_at(buf, p) {
            Err(e) => Err(e),
            Ok(Decoded::Incomplete { needed }) => Ok(Decoded::Incomplete { needed }),
            Ok(Decoded::Complete { value, used }) => Ok(Decoded::Complete { value: FieldValueView::Str(value), used }),
        },
        FieldKind::Flag => Ok(Decoded::Complete { value: FieldValueView::Flag(false), used: p as usize }),
    }
}

/// Decoding one group at `p`: a field of its own, or the flags of a shared byte.
pub open spec fn group_at(g: FieldGroup, kinds: Seq<FieldKind>, buf: Seq<u8>, p: int) -> Result<
    Decoded<Seq<FieldValueView>>,
    WireErrorView,
> {
    match g {
        FieldGroup::Regular(i) => match value_at(kinds[i as int], buf, p) {
            Err(e) => Err(e),
            Ok(Decoded::Incomplete { needed }) => Ok(Decoded::Incomplete { needed }),
            Ok(Decoded::Complete { value, used }) => Ok(Decoded::Complete { value: seq![value], used }),
        },
        FieldGroup::Bitpack(v) => if buf.len() < p + 1 {
            Ok(Decoded::Incomplete { needed: (p + 1) as usize })
        } else {
            Ok(
                Decoded::Complete {
                    value: Seq::new(v@.len(), |j: int| FieldValueView::Flag(bit_set(buf[p], j as u8))),
                    used: (p + 1) as usize,
                },
            )
        },
    }
}

/// Decoding a record group by group from the front of `buf`; the values come out in the
/// order of the groups.
pub open spec fn record_from(gs: Seq<FieldGroup>, kinds: Seq<FieldKind>, buf: Seq<u8>) -> Result<
    Decoded<Seq<FieldValueView>>,
    WireErrorView,
>
    decreases gs.len(),
{
    if gs.len() == 0 {
        Ok(Decoded::Complete { value: Seq::empty(), used: 0 })
    } else {
        match record_from(gs.drop_last(), kinds, buf) {
            Ok(Decoded::Complete { value, used }) => match group_at(gs.last(), kinds, buf, used as int) {
                Ok(Decoded::Complete { value: more, used: end }) => Ok(
                    Decoded::Complete { value: value + more, used: end },
                ),
                other => other,
            },
            other => other,
        }
    }
}

/// The abstract value of a decode result that carries a list of field values.
pub open spec fn values_decode_view(r: Result<Decoded<Vec<FieldValue>>, WireError>) -> Result<
    Decoded<Seq<FieldValueView>>,
    WireErrorView,
> {
    match r {
        Ok(Decoded::Complete { value, used }) => Ok(Decoded::Complete { value: values_view(value@), used }),
        Ok(Decoded::Incomplete { needed }) => Ok(Decoded::Incomplete { needed }),
        Err(e) => Err(e@),
    }
}

/// A decode result that finished its message.
pub open spec fn is_complete<V>(r: Result<Decoded<V>, WireErrorView>) -> bool {
    r matches Ok(Decoded::Complete { .. })
}

/// Why the derive refuses an item.
#[derive(Debug, Clone, Copy, PartialEq, Eq, Structural)]
pub enum DeriveError {
    /// A struct with unnamed fields, or none.
    RequiresNamedFields,
    /// An enum or a union.
    RequiresStruct,
}

impl DeriveError {
    /// The compile error the derive reports.
    pub fn message(&self) -> (s: String)
        ensures
            self is RequiresNamedFields ==> s@ == "StreamCodec requires named fields"@,
            self is RequiresStruct ==> s@ == "StreamCodec requires a struct"@,
    {
        match self {
            DeriveError::RequiresNamedFields => String::from_str("StreamCodec requires named fields"),
            DeriveError::RequiresStruct => String::from_str("StreamCodec requires a struct"),
        }
    }
}

/// The shape of the item the derive is applied to.
#[derive(Debug, Clone, Copy, PartialEq, Eq, Structural)]
pub enum ItemShape {
    /// A struct with named fields.
    NamedStruct,
    /// A struct with unnamed fields.
    TupleStruct,
    /// A struct without fields.
    UnitStruct,
    Enum,
    Union,
}

/// Marks the fields to be bit-packed.
fn flag_marks(kinds: &[FieldKind]) -> (marks: Vec<bool>)
    ensures
        marks@ == bitpack_marks(kinds@),
{
    let mut marks: Vec<bool> = Vec::new();
    let mut i: usize = 0;
    while i < kinds.len()
        invariant
            i <= kinds@.len(),
            marks@ =~= bitpack_marks(kinds@).subrange(0, i as int),
        decreases kinds@.len() - i,
    {
        let m = match kinds[i] {
            FieldKind::Flag => true,
            _ => false,
        };
        marks.push(m);
        i = i + 1;
    }
    marks
}

/// What the derive makes of an item: for a struct with named fields, the grouping its
/// code is generated from; otherwise the error it reports.
pub fn impl_stream_codec(shape: ItemShape, kinds: &[FieldKind]) -> (r: Result<Vec<FieldGroup>, DeriveError>)
    ensures
        shape is NamedStruct <==> r is Ok,
        r matches Ok(gs) ==> is_grouping(bitpack_marks(kinds@), gs@),
        (shape is TupleStruct || shape is UnitStruct) ==> r == Err::<Vec<FieldGroup>, DeriveError>(
            DeriveError::RequiresNamedFields,
        ),
        (shape is Enum || shape is Union) ==> r == Err::<Vec<FieldGroup>, DeriveError>(DeriveError::RequiresStruct),
{
    match shape {
        ItemShape::NamedStruct => {
            let marks = flag_marks(kinds);
            Ok(group_fields(marks.as_slice()))
        },
        ItemShape::TupleStruct | ItemShape::UnitStruct => Err(DeriveError::RequiresNamedFields),
        ItemShape::Enum | ItemShape::Union => Err(DeriveError::RequiresStruct),
    }
}

/// Appends the wire form of a field of its own.
fn encode_value(v: &FieldValue, out: &mut Vec<u8>)
    ensures
        final(out)@ == old(out)@ + value_bytes(v@),
{
    match v {
        FieldValue::U8(x) => {
            out.push(*x);
        },
        FieldValue::U16(x) => {
            push_be16(out, *x);
        },
        FieldValue::U64(x) => {
            push_be64(out, *x);
        },
        FieldValue::Str(s) => {
            push_string(out, s);
        },
        FieldValue::Flag(_) => {},
    }
    assert(out@ =~= old(out)@ + value_bytes(v@));
}

/// Bit `j` of a run's shared byte.
fn run_flag(values: &[FieldValue], run: &Vec<usize>, j: usize) -> (b: bool)
    requires
        forall|t: int| 0 <= t < run@.len() ==> #[trigger] run@[t] < values@.len(),
    ensures
        b == (j < run@.len() && flag_value(values@[run@[j as int] as int]@)),
{
    if j < run.len() {
        match &values[run[j]] {
            FieldValue::Flag(b) => *b,
            _ => false,
        }
    } else {
        false
    }
}

/// Appends the bytes of one group.
fn encode_group(g: &FieldGroup, values: &[FieldValue], out: &mut Vec<u8>)
    requires
        group_in_range(*g, values@.len()),
        g matches FieldGroup::Bitpack(v) ==> v@.len() <= 8,
    ensures
        final(out)@ == old(out)@ + group_bytes(*g, values_view(values@)),
{
    match g {
        FieldGroup::Regular(i) => {
            encode_value(&values[*i], out);
        },
        FieldGroup::Bitpack(run) => {
            let bits = [
                run_flag(values, run, 0),
                run_flag(values, run, 1),
                run_flag(values, run, 2),
                run_flag(values, run, 3),
                run_flag(values, run, 4),
                run_flag(values, run, 5),
                run_flag(values, run, 6),
                run_flag(values, run, 7),
            ];
            assert(bits@ =~= run_bits(values_view(values@), run@));
            out.push(pack_bits(bits));
            assert(out@ =~= old(out)@ + group_bytes(*g, values_view(values@)));
        },
    }
}

/// Appends a record's wire form, group by group: what the derived `encode` writes.
pub fn encode_record(groups: &[FieldGroup], values: &[FieldValue], out: &mut Vec<u8>)
    requires
        groups_in_range(groups@, values@.len()),
        flag_runs_fit(groups@),
    ensures
        final(out)@ == old(out)@ + record_bytes(groups@, values_view(values@)),
{
    let mut k: usize = 0;
    while k < groups.len()
        invariant
            k <= groups@.len(),
            groups_in_range(groups@, values@.len()),
            flag_runs_fit(groups@),
            out@ == old(out)@ + record_bytes(groups@.subrange(0, k as int), values_view(values@)),
        decreases groups@.len() - k,
    {
        let ghost before = out@;
        assert(group_in_range(groups@[k as int], values@.len()));
        assert(groups@[k as int] matches FieldGroup::Bitpack(v) ==> v@.len() <= 8);
        encode_group(&groups[k], values, out);
        proof {
            let next = groups@.subrange(0, k + 1);
            assert(next.drop_last() =~= groups@.subrange(0, k as int));
            assert(next.last() == groups@[k as int]);
            assert(out@ =~= old(out)@ + record_bytes(next, values_view(values@)));
        }
        k = k + 1;
    }
    assert(groups@.subrange(0, groups@.len() as int) =~= groups@);
}

/// Decodes a field of its own kind at `p`.
fn decode_value_at(kind: FieldKind, buf: &[u8], p: usize) -> (r: Result<Decoded<FieldValue>, WireError>)
    requires
        p <= buf@.len(),
        buf@.len() + 65537 <= usize::MAX,
    ensures
        crate::wire::decode_view(r) == value_at(kind, buf@, p as int),
        r matches Ok(Decoded::Complete { used, .. }) ==> p <= used <= buf@.len(),
        makes_progress(r, buf@.len()),
{
    match kind {
        FieldKind::U8 => if buf.len() - p < 1 {
            Ok(Decoded::Incomplete { needed: p + 1 })
        } else {
            Ok(Decoded::Complete { value: FieldValue::U8(buf[p]), used: p + 1 })
        },
        FieldKind::U16 => if buf.len() - p < 2 {
            Ok(Decoded::Incomplete { needed: p + 2 })
        } else {
            Ok(Decoded::Complete { value: FieldValue::U16(read_be16_at(buf, p)), used: p + 2 })
        },
        FieldKind::U64 => if buf.len() - p < 8 {
            Ok(Decoded::Incomplete { needed: p + 8 })
        } else {
            Ok(Decoded::Complete { value: FieldValue::U64(read_be64_at(buf, p)), used: p + 8 })
        },
        FieldKind::Str => match read_string_at(buf, p) {
            Err(e) => Err(e),
            Ok(Decoded::Incomplete { needed }) => Ok(Decoded::Incomplete { needed }),
            Ok(Decoded::Complete { value, used }) => Ok(Decoded::Complete { value: FieldValue::Str(value), used }),
        },
        FieldKind::Flag => Ok(Decoded::Complete { value: FieldValue::Flag(false), used: p }),
    }
}

/// The test the derived code makes on a shared byte is bit `j` being set.
proof fn lemma_flag_bit(b: u8, j: u8)
    requires
        j < 8,
    ensures
        ((b & (1u8 << j)) != 0u8) == bit_set(b, j),
{
    assert(((b & (1u8 << j)) != 0u8) == ((b >> j) & 1u8 == 1u8)) by (bit_vector)
        requires j < 8;
}

/// Decodes one group at `p`.
fn decode_group_at(g: &FieldGroup, kinds: &[FieldKind], buf: &[u8], p: usize) -> (r: Result<
    Decoded<Vec<FieldValue>>,
    WireError,
>)
    requires
        p <= buf@.len(),
        buf@.len() + 65537 <= usize::MAX,
        group_in_range(*g, kinds@.len()),
        g matches FieldGroup::Bitpack(v) ==> v@.len() <= 8,
    ensures
        values_decode_view(r) == group_at(*g, kinds@, buf@, p as int),
        r matches Ok(Decoded::Complete { used, .. }) ==> p <= used <= buf@.len(),
        makes_progress(r, buf@.len()),
{
    match g {
        FieldGroup::Regular(i) => match decode_value_at(kinds[*i], buf, p) {
            Err(e) => Err(e),
            Ok(Decoded::Incomplete { needed }) => Ok(Decoded::Incomplete { needed }),
            Ok(Decoded::Complete { value, used }) => {
                let mut vs: Vec<FieldValue> = Vec::new();
                vs.push(value);
                assert(values_view(vs@) =~= seq![value@]);
                Ok(Decoded::Complete { value: vs, used })
            },
        },
        FieldGroup::Bitpack(run) => {
            if buf.len() - p < 1 {
                return Ok(Decoded::Incomplete { needed: p + 1 });
            }
            let flags = buf[p];
            let mut vs: Vec<FieldValue> = Vec::new();
            let mut j: usize = 0;
            while j < run.len()
                invariant
                    j <= run@.len() <= 8,
                    p < buf@.len(),
                    flags == buf@[p as int],
                    values_view(vs@) =~= Seq::new(j as nat, |t: int| FieldValueView::Flag(bit_set(flags, t as u8))),
                decreases run@.len() - j,
            {
                let bit = (flags & (1u8 << (j as u8))) != 0;
                proof { lemma_flag_bit(flags, j as u8); }
                let ghost before = vs@;
                vs.push(FieldValue::Flag(bit));
                assert(values_view(vs@) =~= values_view(before).push(FieldValueView::Flag(bit)));
                j = j + 1;
            }
            Ok(Decoded::Complete { value: vs, used: p + 1 })
        },
    }
}

/// Once a prefix of the groups fails to decode completely, the whole record decodes to the
/// same outcome.
proof fn lemma_record_stops(gs: Seq<FieldGroup>, kinds: Seq<FieldKind>, buf: Seq<u8>, k: int)
    requires
        0 <= k <= gs.len(),
        !is_complete(record_from(gs.subrange(0, k), kinds, buf)),
    ensures
        record_from(gs, kinds, buf) == record_from(gs.subrange(0, k), kinds, buf),
    decreases gs.len() - k,
{
    if gs.len() == k {
        assert(gs.subrange(0, k) =~= gs);
    } else {
        assert(gs.drop_last().subrange(0, k) =~= gs.subrange(0, k));
        lemma_record_stops(gs.drop_last(), kinds, buf, k);
    }
}

/// Decodes a record from the front of `buf`, group by group: what the derived `decode`
/// reads. The values come out in field order.
pub fn decode_record(kinds: &[FieldKind], groups: &[FieldGroup], buf: &[u8]) -> (r: Result<
    Decoded<Vec<FieldValue>>,
    WireError,
>)
    requires
        groups_in_range(groups@, kinds@.len()),
        flag_runs_fit(groups@),
        buf@.len() + 65537 <= usize::MAX,
    ensures
        values_decode_view(r) == record_from(groups@, kinds@, buf@),
        makes_progress(r, buf@.len()),
{
    let mut values: Vec<FieldValue> = Vec::new();
    let mut pos: usize = 0;
    let mut k: usize = 0;
    assert(groups@.subrange(0, 0) =~= Seq::<FieldGroup>::empty());
    assert(values_view(values@) =~= Seq::<FieldValueView>::empty());
    while k < groups.len()
        invariant
            k <= groups@.len(),
            groups_in_range(groups@, kinds@.len()),
            flag_runs_fit(groups@),
            buf@.len() + 65537 <= usize::MAX,
            pos <= buf@.len(),
            record_from(groups@.subrange(0, k as int), kinds@, buf@) == Ok::<
                Decoded<Seq<FieldValueView>>,
                WireErrorView,
            >(Decoded::Complete { value: values_view(values@), used: pos }),
        decreases groups@.len() - k,
    {
        let ghost next = groups@.subrange(0, k + 1);
        proof {
            assert(next.drop_last() =~= groups@.subrange(0, k as int));
            assert(next.last() == groups@[k as int]);
            assert(group_in_range(groups@[k as int], kinds@.len()));
            assert(groups@[k as int] matches FieldGroup::Bitpack(v) ==> v@.len() <= 8);
        }
        match decode_group_at(&groups[k], kinds, buf, pos) {
            Err(e) => {
                proof { lemma_record_stops(groups@, kinds@, buf@, k + 1); }
                return Err(e);
            },
            Ok(Decoded::Incomplete { needed }) => {
                proof { lemma_record_stops(groups@, kinds@, buf@, k + 1); }
                return Ok(Decoded::Incomplete { needed });
            },
            Ok(Decoded::Complete { value, used }) => {
                let mut more = value;
                let ghost old_values = values@;
                let ghost more_view = values_view(more@);
                values.append(&mut more);
                assert(values_view(values@) =~= values_view(old_values) + more_view);
                pos = used;
            },
        }
        k = k + 1;
    }
    assert(groups@.subrange(0, groups@.len() as int) =~= groups@);
    Ok(Decoded::Complete { value: values, used: pos })
}

/// Bit `j` of a packed byte is the `j`-th of the packed flags.
proof fn lemma_pack_bit(bits: Seq<bool>, j: u8)
    requires
        bits.len() == 8,
        j < 8,
    ensures
        bit_set(spec_pack_bits(bits), j) == bits[j as int],
{
    let b0 = bits[0]; let b1 = bits[1]; let b2 = bits[2]; let b3 = bits[3];
    let b4 = bits[4]; let b5 = bits[5]; let b6 = bits[6]; let b7 = bits[7];
    let byte = spec_pack_bits(bits);
    assert(byte == ((if b0 { 1u8 } else { 0u8 }) | (if b1 { 2u8 } else { 0u8 }) | (if b2 { 4u8 } else { 0u8 })
        | (if b3 { 8u8 } else { 0u8 }) | (if b4 { 16u8 } else { 0u8 }) | (if b5 { 32u8 } else { 0u8 })
        | (if b6 { 64u8 } else { 0u8 }) | (if b7 { 128u8 } else { 0u8 })));
    assert(((byte >> j) & 1u8 == 1u8) == (if j == 0 { b0 } else if j == 1 { b1 } else if j == 2 { b2 } else if j == 3 {
        b3
    } else if j == 4 { b4 } else if j == 5 { b5 } else if j == 6 { b6 } else { b7 })) by (bit_vector)
        requires
            j < 8,
            byte == ((if b0 { 1u8 } else { 0u8 }) | (if b1 { 2u8 } else { 0u8 }) | (if b2 { 4u8 } else { 0u8 })
                | (if b3 { 8u8 } else { 0u8 }) | (if b4 { 16u8 } else { 0u8 }) | (if b5 { 32u8 } else { 0u8 })
                | (if b6 { 64u8 } else { 0u8 }) | (if b7 { 128u8 } else { 0u8 })),
    ;
}

/// The kinds a group's fields must have; a run of flags is not empty and fits in a byte.
pub open spec fn group_kinds_ok(kinds: Seq<FieldKind>, g: FieldGroup) -> bool {
    match g {
        FieldGroup::Regular(i) => kinds[i as int] != FieldKind::Flag,
        FieldGroup::Bitpack(v) => 0 < v@.len() <= 8 && forall|j: int|
            0 <= j < v@.len() ==> kinds[#[trigger] v@[j] as int] == FieldKind::Flag,
    }
}

/// The groups that lay out the first `m` fields, each group of the kind its fields have.
pub open spec fn lays_out(kinds: Seq<FieldKind>, gs: Seq<FieldGroup>, m: nat) -> bool {
    &&& m <= kinds.len() <= usize::MAX
    &&& flat_indices(gs) == positions(m)
    &&& forall|k: int| 0 <= k < gs.len() ==> group_kinds_ok(kinds, #[trigger] gs[k])
}

/// The last group decodes back from its bytes, wherever the groups before it end.
proof fn lemma_last_group_roundtrip(
    kinds: Seq<FieldKind>,
    g: FieldGroup,
    vals: Seq<FieldValueView>,
    buf: Seq<u8>,
    p: int,
    m0: int,
)
    requires
        0 <= m0,
        0 <= p,
        typed(kinds, vals),
        encodable_values(vals),
        forall|j: int| 0 <= j < group_indices(g).len() ==> #[trigger] group_indices(g)[j] == m0 + j,
        m0 + group_indices(g).len() <= kinds.len(),
        group_kinds_ok(kinds, g),
        p + group_bytes(g, vals).len() <= buf.len(),
        p + group_bytes(g, vals).len() <= usize::MAX,
        buf.subrange(p, p + group_bytes(g, vals).len()) == group_bytes(g, vals),
    ensures
        group_at(g, kinds, buf, p) == Ok::<Decoded<Seq<FieldValueView>>, WireErrorView>(
            Decoded::Complete {
                value: vals.subrange(m0, m0 + group_indices(g).len()),
                used: (p + group_bytes(g, vals).len()) as usize,
            },
        ),
{
    let gb = group_bytes(g, vals);
    match g {
        FieldGroup::Regular(i) => {
            assert(group_indices(g)[0] == m0 + 0);
            assert(i == m0);
            let v = vals[i as int];
            assert(kind_of(v) == kinds[i as int]);
            assert(vals.subrange(m0, m0 + 1) =~= seq![v]);
            match v {
                FieldValueView::U8(x) => {
                    assert(buf[p] == buf.subrange(p, p + 1)[0]);
                },
                FieldValueView::U16(x) => {
                    lemma_be16_roundtrip(x, buf, p);
                },
                FieldValueView::U64(x) => {
                    lemma_be64_roundtrip(x);
                },
                FieldValueView::Str(st) => {
                    assert(vals[i as int] matches FieldValueView::Str(s) ==> fits_wire_string(s));
                    lemma_string_roundtrip(st, buf, p);
                },
                FieldValueView::Flag(_) => {
                    assert(false);
                },
            }
        },
        FieldGroup::Bitpack(run) => {
            let bits = run_bits(vals, run@);
            assert(buf[p] == buf.subrange(p, p + 1)[0]);
            assert(buf[p] == spec_pack_bits(bits));
            let decoded = Seq::new(run@.len(), |j: int| FieldValueView::Flag(bit_set(buf[p], j as u8)));
            assert forall|j: int| 0 <= j < run@.len() implies #[trigger] decoded[j] == vals[m0 + j] by {
                lemma_pack_bit(bits, j as u8);
                assert(group_indices(g)[j] == m0 + j);
                assert(run@[j] == m0 + j);
                assert(kinds[run@[j] as int] == FieldKind::Flag);
                assert(kind_of(vals[m0 + j]) == kinds[m0 + j]);
            }
            assert(decoded =~= vals.subrange(m0, m0 + run@.len()));
        },
    }
}

/// Taking off the last group leaves a layout of the fields before it, and the last group
/// covers the positions from there up to `m`.
proof fn lemma_split_last(kinds: Seq<FieldKind>, gs: Seq<FieldGroup>, m: nat)
    requires
        lays_out(kinds, gs, m),
        gs.len() > 0,
    ensures
        lays_out(kinds, gs.drop_last(), flat_indices(gs.drop_last()).len()),
        flat_indices(gs.drop_last()).len() + group_indices(gs.last()).len() == m,
        forall|j: int| 0 <= j < group_indices(gs.last()).len() ==>
            #[trigger] group_indices(gs.last())[j] == flat_indices(gs.drop_last()).len() + j,
        group_kinds_ok(kinds, gs.last()),
{
    let init = gs.drop_last();
    let g = gs.last();
    let fi = flat_indices(init);
    let gi = group_indices(g);
    let m0 = fi.len();
    assert(fi + gi == positions(m));
    assert(fi.len() + gi.len() == m);
    assert forall|t: int| 0 <= t < m0 implies #[trigger] fi[t] == positions(m0)[t] by {
        assert((fi + gi)[t] == fi[t]);
    }
    assert(fi =~= positions(m0));
    assert forall|j: int| 0 <= j < gi.len() implies #[trigger] gi[j] == m0 + j by {
        assert((fi + gi)[m0 + j] == gi[j]);
        assert(positions(m)[m0 + j] == (m0 + j) as usize);
    }
    assert forall|k: int| 0 <= k < init.len() implies group_kinds_ok(kinds, #[trigger] init[k]) by {
        assert(init[k] == gs[k]);
    }
    assert(gs[gs.len() - 1] == g);
}

/// The groups laying out the first `m` fields decode back, from the record's bytes, the
/// first `m` values, whatever follows the bytes.
proof fn lemma_prefix_roundtrip(
    kinds: Seq<FieldKind>,
    gs: Seq<FieldGroup>,
    vals: Seq<FieldValueView>,
    rest: Seq<u8>,
    m: nat,
)
    requires
        lays_out(kinds, gs, m),
        typed(kinds, vals),
        encodable_values(vals),
        record_bytes(gs, vals).len() <= usize::MAX,
    ensures
        record_from(gs, kinds, record_bytes(gs, vals) + rest) == Ok::<Decoded<Seq<FieldValueView>>, WireErrorView>(
            Decoded::Complete { value: vals.subrange(0, m as int), used: record_bytes(gs, vals).len() as usize },
        ),
    decreases gs.len(),
{
    if gs.len() == 0 {
        assert(positions(m).len() == 0);
        assert(vals.subrange(0, m as int) =~= Seq::<FieldValueView>::empty());
        assert(record_bytes(gs, vals) + rest =~= rest);
    } else {
        let init = gs.drop_last();
        let g = gs.last();
        let m0 = flat_indices(init).len();
        lemma_split_last(kinds, gs, m);
        let rb = record_bytes(init, vals);
        let gb = group_bytes(g, vals);
        lemma_prefix_roundtrip(kinds, init, vals, gb + rest, m0);
        let buf = record_bytes(gs, vals) + rest;
        assert(buf =~= rb + (gb + rest));
        let p = rb.len() as int;
        assert(buf.subrange(p, p + gb.len()) =~= gb);
        lemma_last_group_roundtrip(kinds, g, vals, buf, p, m0 as int);
        assert(vals.subrange(0, m0 as int) + vals.subrange(m0 as int, m as int) =~= vals.subrange(0, m as int));
    }
}

/// On a buffer that ends inside the last group's bytes, that group asks for more bytes, and
/// never for bytes past the group.
proof fn lemma_last_group_prefix(kinds: Seq<FieldKind>, g: FieldGroup, vals: Seq<FieldValueView>, buf: Seq<u8>, p: int)
    requires
        0 <= p <= buf.len() < p + group_bytes(g, vals).len(),
        p + group_bytes(g, vals).len() <= usize::MAX,
        buf.subrange(p, buf.len() as int) == group_bytes(g, vals).subrange(0, buf.len() - p),
        group_in_range(g, vals.len()),
        typed(kinds, vals),
        encodable_values(vals),
        group_kinds_ok(kinds, g),
    ensures
        group_at(g, kinds, buf, p) matches Ok(Decoded::Incomplete { needed })
            && buf.len() < needed <= p + group_bytes(g, vals).len(),
{
    match g {
        FieldGroup::Regular(i) => {
            let v = vals[i as int];
            assert(kind_of(v) == kinds[i as int]);
            match v {
                FieldValueView::U64(x) => {
                    lemma_be64_roundtrip(x);
                },
                FieldValueView::Str(st) => {
                    assert(vals[i as int] matches FieldValueView::Str(s) ==> fits_wire_string(s));
                    lemma_string_prefix(st, buf, p);
                },
                _ => {},
            }
        },
        FieldGroup::Bitpack(_) => {},
    }
}

/// On a strict prefix of the bytes of the groups laying out the first `m` fields, decoding
/// asks for more bytes, and never for bytes past the record.
proof fn lemma_prefix_cut(kinds: Seq<FieldKind>, gs: Seq<FieldGroup>, vals: Seq<FieldValueView>, m: nat, k: int)
    requires
        lays_out(kinds, gs, m),
        typed(kinds, vals),
        encodable_values(vals),
        record_bytes(gs, vals).len() <= usize::MAX,
        0 <= k < record_bytes(gs, vals).len(),
    ensures
        record_from(gs, kinds, record_bytes(gs, vals).subrange(0, k)) matches Ok(Decoded::Incomplete { needed })
            && k < needed <= record_bytes(gs, vals).len(),
    decreases gs.len(),
{
    let init = gs.drop_last();
    let g = gs.last();
    let m0 = flat_indices(init).len();
    lemma_split_last(kinds, gs, m);
    let rb = record_bytes(init, vals);
    let gb = group_bytes(g, vals);
    let buf = record_bytes(gs, vals).subrange(0, k);
    if k < rb.len() {
        lemma_prefix_cut(kinds, init, vals, m0, k);
        assert(buf =~= rb.subrange(0, k));
    } else {
        let part = gb.subrange(0, k - rb.len());
        lemma_prefix_roundtrip(kinds, init, vals, part, m0);
        assert(buf =~= rb + part);
        let p = rb.len() as int;
        assert(buf.subrange(p, buf.len() as int) =~= gb.subrange(0, buf.len() - p));
        assert(group_in_range(g, vals.len())) by {
            match g {
                FieldGroup::Regular(i) => {
                    assert(group_indices(g)[0] == m0 + 0);
                },
                FieldGroup::Bitpack(v) => {
                    assert forall|j: int| 0 <= j < v@.len() implies #[trigger] v@[j] < vals.len() by {
                        assert(group_indices(g)[j] == m0 + j);
                    }
                },
            }
        }
        lemma_last_group_prefix(kinds, g, vals, buf, p);
    }
}

/// The derive's grouping of a struct's fields lays out all of them.
proof fn lemma_grouping_lays_out(kinds: Seq<FieldKind>, gs: Seq<FieldGroup>)
    requires
        kinds.len() <= usize::MAX,
        is_grouping(bitpack_marks(kinds), gs),
        flag_runs_fit(gs),
    ensures
        lays_out(kinds, gs, kinds.len()),
{
    let marks = bitpack_marks(kinds);
    assert forall|k: int| 0 <= k < gs.len() implies group_kinds_ok(kinds, #[trigger] gs[k]) by {
        match gs[k] {
            FieldGroup::Regular(i) => {
                assert(marks[i as int] == (kinds[i as int] == FieldKind::Flag));
            },
            FieldGroup::Bitpack(v) => {
                assert forall|j: int| 0 <= j < v@.len() implies kinds[#[trigger] v@[j] as int] == FieldKind::Flag by {
                    assert(marks[v@[j] as int] == (kinds[v@[j] as int] == FieldKind::Flag));
                }
            },
        }
    }
}

/// What the derived `encode` writes, the derived `decode` reads back: for the grouping the
/// derive makes of a struct's fields, a record whose strings fit their length fields
/// decodes from its bytes to its values, in field order, whatever follows on the stream.
pub proof fn lemma_record_roundtrip(
    kinds: Seq<FieldKind>,
    gs: Seq<FieldGroup>,
    vals: Seq<FieldValueView>,
    rest: Seq<u8>,
)
    requires
        kinds.len() <= usize::MAX,
        is_grouping(bitpack_marks(kinds), gs),
        flag_runs_fit(gs),
        typed(kinds, vals),
        encodable_values(vals),
        record_bytes(gs, vals).len() <= usize::MAX,
    ensures
        record_from(gs, kinds, record_bytes(gs, vals) + rest) == Ok::<Decoded<Seq<FieldValueView>>, WireErrorView>(
            Decoded::Complete { value: vals, used: record_bytes(gs, vals).len() as usize },
        ),
{
    lemma_grouping_lays_out(kinds, gs);
    lemma_prefix_roundtrip(kinds, gs, vals, rest, kinds.len());
    assert(vals.subrange(0, kinds.len() as int) =~= vals);
}

/// Decoding never reads past a record: on a strict prefix of the bytes of the derive's
/// grouping of a struct's fields, decoding asks for more bytes, and never for more than
/// the whole record.
pub proof fn lemma_record_prefix(kinds: Seq<FieldKind>, gs: Seq<FieldGroup>, vals: Seq<FieldValueView>, k: int)
    requires
        kinds.len() <= usize::MAX,
        is_grouping(bitpack_marks(kinds), gs),
        flag_runs_fit(gs),
        typed(kinds, vals),
        encodable_values(vals),
        record_bytes(gs, vals).len() <= usize::MAX,
        0 <= k < record_bytes(gs, vals).len(),
    ensures
        record_from(gs, kinds, record_bytes(gs, vals).subrange(0, k)) matches Ok(Decoded::Incomplete { needed })
            && k < needed <= record_bytes(gs, vals).len(),
{
    lemma_grouping_lays_out(kinds, gs);
    lemma_prefix_cut(kinds, gs, vals, kinds.len(), k);
}

/// With no field laid out, there are no groups.
proof fn lemma_no_groups(kinds: Seq<FieldKind>, gs: Seq<FieldGroup>)
    requires
        lays_out(kinds, gs, 0),
    ensures
        gs.len() == 0,
{
    if gs.len() > 0 {
        lemma_split_last(kinds, gs, 0);
        match gs.last() {
            FieldGroup::Regular(_) => {},
            FieldGroup::Bitpack(_) => {},
        }
    }
}

/// When none of the first `m` fields is a flag, the last group is the field just before `m`
/// on its own.
proof fn lemma_peel_field(kinds: Seq<FieldKind>, gs: Seq<FieldGroup>, m: nat)
    requires
        lays_out(kinds, gs, m),
        m > 0,
        forall|t: int| 0 <= t < m ==> kinds[t] != FieldKind::Flag,
    ensures
        gs.len() > 0,
        gs.last() == FieldGroup::Regular((m - 1) as usize),
        lays_out(kinds, gs.drop_last(), (m - 1) as nat),
{
    assert(flat_indices(gs).len() == m);
    if gs.len() == 0 {
        assert(flat_indices(gs).len() == 0);
    }
    lemma_split_last(kinds, gs, m);
    let m0 = flat_indices(gs.drop_last()).len();
    match gs.last() {
        FieldGroup::Regular(i) => {
            assert(group_indices(gs.last())[0] == m0 + 0);
        },
        FieldGroup::Bitpack(v) => {
            assert(group_indices(gs.last())[0] == m0 + 0);
            assert(kinds[v@[0] as int] == FieldKind::Flag);
        },
    }
}

/// The kinds of a file send header's fields, in declaration order, the flag bit-packed.
pub open spec fn file_send_kinds() -> Seq<FieldKind> {
    seq![FieldKind::U8, FieldKind::Str, FieldKind::U64, FieldKind::Flag]
}

/// A file send header's field values, in declaration order.
pub open spec fn file_send_fields(h: FileSendHeaderView) -> Seq<FieldValueView> {
    seq![
        FieldValueView::U8(h.version),
        FieldValueView::Str(h.file_name),
        FieldValueView::U64(h.file_size),
        FieldValueView::Flag(h.can_overwrite),
    ]
}

/// The derive groups a file send header's fields as three fields of their own and the
/// flag alone in the shared byte.
proof fn lemma_file_send_groups(gs: Seq<FieldGroup>)
    requires
        is_grouping(bitpack_marks(file_send_kinds()), gs),
        flag_runs_fit(gs),
    ensures
        gs.len() == 4,
        gs[0] == FieldGroup::Regular(0),
        gs[1] == FieldGroup::Regular(1),
        gs[2] == FieldGroup::Regular(2),
        gs[3] matches FieldGroup::Bitpack(v) && v@ == seq![3usize],
{
    let kinds = file_send_kinds();
    lemma_grouping_lays_out(kinds, gs);
    assert(flat_indices(gs).len() == 4);
    if gs.len() == 0 {
        assert(flat_indices(gs).len() == 0);
    }
    lemma_split_last(kinds, gs, 4);
    let g3 = gs.last();
    let i3 = gs.drop_last();
    let m0 = flat_indices(i3).len();
    match g3 {
        FieldGroup::Regular(i) => {
            assert(group_indices(g3)[0] == m0 + 0);
        },
        FieldGroup::Bitpack(v) => {
            assert(group_indices(g3)[0] == m0 + 0);
            assert(kinds[v@[0] as int] == FieldKind::Flag);
            if v@.len() > 1 {
                assert(group_indices(g3)[1] == m0 + 1);
                assert(kinds[v@[1] as int] == FieldKind::Flag);
            }
            assert(v@ =~= seq![3usize]);
        },
    }
    assert(m0 == 3);
    assert forall|t: int| 0 <= t < 3 implies kinds[t] != FieldKind::Flag by {}
    lemma_peel_field(kinds, i3, 3);
    let i2 = i3.drop_last();
    lemma_peel_field(kinds, i2, 2);
    let i1 = i2.drop_last();
    lemma_peel_field(kinds, i1, 1);
    lemma_no_groups(kinds, i1.drop_last());
    assert(gs[0] == i1[0]);
    assert(gs[1] == i2[1]);
    assert(gs[2] == i3[2]);
}

/// The derived codec lays a file send header out exactly as `write_to_stream` writes it:
/// for the grouping the derive makes of the header's fields, the record's bytes are the
/// header's wire form.
pub proof fn lemma_file_send_header_layout(h: FileSendHeaderView, gs: Seq<FieldGroup>)
    requires
        is_grouping(bitpack_marks(file_send_kinds()), gs),
        flag_runs_fit(gs),
    ensures
        record_bytes(gs, file_send_fields(h)) == spec_file_send_header_bytes(h),
{
    let vals = file_send_fields(h);
    lemma_file_send_groups(gs);
    let run = match gs[3] {
        FieldGroup::Bitpack(v) => v@,
        FieldGroup::Regular(_) => seq![],
    };
    assert(run_bits(vals, run) =~= seq![h.can_overwrite, false, false, false, false, false, false, false]);
    let i3 = gs.drop_last();
    let i2 = i3.drop_last();
    let i1 = i2.drop_last();
    assert(i1.len() == 1 && i1.last() == gs[0] && i2.last() == gs[1] && i3.last() == gs[2]);
    assert(gs.last() == gs[3]);
    assert(record_bytes(i1.drop_last(), vals) =~= Seq::<u8>::empty());
    assert(record_bytes(i1, vals) =~= seq![h.version]);
    assert(record_bytes(i2, vals) =~= seq![h.version] + wire_string(h.file_name));
    assert(record_bytes(i3, vals) =~= seq![h.version] + wire_string(h.file_name) + be64(h.file_size));
    assert(record_bytes(gs, vals) =~= spec_file_send_header_bytes(h));
}

} // verus!
