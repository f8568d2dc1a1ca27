//! Field-by-field encoding of values on a byte stream, with the law that what one side
//! encodes the other side decodes back.
use vstd::prelude::*;
use crate::wire::{
    Decoded, WireError, WireErrorView, makes_progress, decode_view, spec_string_at, wire_string, fits_wire_string, be16, be16_at,
    be64, be_value, push_string, push_be16, push_be64, read_string_at, read_be16_at, read_be64_at,
    lemma_string_roundtrip, lemma_be16_roundtrip, lemma_be64_roundtrip,
};

verus! {

/// A value with a wire form.
pub trait StreamCodec: Sized + View {
    /// The bytes that `encode` appends for a value.
    spec fn spec_encode(v: Self::V) -> Seq<u8>;

    /// What `decode` makes of the bytes received so far.
    spec fn spec_decode(buf: Seq<u8>) -> Result<Decoded<Self::V>, WireErrorView>;

    /// The values whose wire form is read back unchanged.
    spec fn encodable(v: Self::V) -> bool;

    /// Appends the wire form of `self`.
    fn encode(&self, w: &mut Vec<u8>)
        ensures
            final(w)@ == old(w)@ + Self::spec_encode(self@),
    ;

    /// Decodes a value from the front of `r`.
    fn decode(r: &[u8]) -> (res: Result<Decoded<Self>, WireError>)
        ensures
            decode_view(res) == Self::spec_decode(r@),
            makes_progress(res, r@.len()),
    ;

    /// An encodable value is decoded back from its wire form, whatever follows it.
    proof fn lemma_roundtrip(v: Self::V, rest: Seq<u8>)
        requires
            Self::encodable(v),
        ensures
            Self::spec_decode(Self::spec_encode(v) + rest) == Ok::<Decoded<Self::V>, WireErrorView>(
                Decoded::Complete { value: v, used: Self::spec_encode(v).len() as usize },
            ),
    ;
}

impl StreamCodec for u8 {
    open spec fn spec_encode(v: u8) -> Seq<u8> {
        seq![v]
    }

    open spec fn spec_decode(buf: Seq<u8>) -> Result<Decoded<u8>, WireErrorView> {
        if buf.len() < 1 {
            Ok(Decoded::Incomplete { needed: 1 })
        } else {
            Ok(Decoded::Complete { value: buf[0], used: 1 })
        }
    }

    open spec fn encodable(v: u8) -> bool {
        true
    }

    fn encode(&self, w: &mut Vec<u8>) {
        w.push(*self);
    }

    fn decode(r: &[u8]) -> (res: Result<Decoded<u8>, WireError>) {
        if r.len() < 1 {
            Ok(Decoded::Incomplete { needed: 1 })
        } else {
            Ok(Decoded::Complete { value: r[0], used: 1 })
        }
    }

    proof fn lemma_roundtrip(v: u8, rest: Seq<u8>) {
        assert((seq![v] + rest)[0] == v);
    }
}

impl StreamCodec for u16 {
    open spec fn spec_encode(v: u16) -> Seq<u8> {
        be16(v)
    }

    open spec fn spec_decode(buf: Seq<u8>) -> Result<Decoded<u16>, WireErrorView> {
        if buf.len() < 2 {
            Ok(Decoded::Incomplete { needed: 2 })
        } else {
            Ok(Decoded::Complete { value: be16_at(buf, 0), used: 2 })
        }
    }

    open spec fn encodable(v: u16) -> bool {
        true
    }

    fn encode(&self, w: &mut Vec<u8>) {
        push_be16(w, *self);
    }

    fn decode(r: &[u8]) -> (res: Result<Decoded<u16>, WireError>) {
        if r.len() < 2 {
            Ok(Decoded::Incomplete { needed: 2 })
        } else {
            Ok(Decoded::Complete { value: read_be16_at(r, 0), used: 2 })
        }
    }

    proof fn lemma_roundtrip(v: u16, rest: Seq<u8>) {
        let buf = be16(v) + rest;
        assert(buf.subrange(0, 2) =~= be16(v));
        lemma_be16_roundtrip(v, buf, 0);
    }
}

impl StreamCodec for u64 {
    open spec fn spec_encode(v: u64) -> Seq<u8> {
        be64(v)
    }

    open spec fn spec_decode(buf: Seq<u8>) -> Result<Decoded<u64>, WireErrorView> {
        if buf.len() < 8 {
            Ok(Decoded::Incomplete { needed: 8 })
        } else {
            Ok(Decoded::Complete { value: be_value(buf.subrange(0, 8)) as u64, used: 8 })
        }
    }

    open spec fn encodable(v: u64) -> bool {
        true
    }

    fn encode(&self, w: &mut Vec<u8>) {
        push_be64(w, *self);
    }

    fn decode(r: &[u8]) -> (res: Result<Decoded<u64>, WireError>) {
        if r.len() < 8 {
            Ok(Decoded::Incomplete { needed: 8 })
        } else {
            Ok(Decoded::Complete { value: read_be64_at(r, 0), used: 8 })
        }
    }

    proof fn lemma_roundtrip(v: u64, rest: Seq<u8>) {
        lemma_be64_roundtrip(v);
        let buf = be64(v) + rest;
        assert(buf.subrange(0, 8) =~= be64(v));
    }
}

impl StreamCodec for String {
    open spec fn spec_encode(v: Seq<char>) -> Seq<u8> {
        wire_string(v)
    }

    open spec fn spec_decode(buf: Seq<u8>) -> Result<Decoded<Seq<char>>, WireErrorView> {
        spec_string_at(buf, 0)
    }

    open spec fn encodable(v: Seq<char>) -> bool {
        fits_wire_string(v)
    }

    fn encode(&self, w: &mut Vec<u8>) {
        push_string(w, self);
    }

    fn decode(r: &[u8]) -> (res: Result<Decoded<String>, WireError>) {
        read_string_at(r, 0)
    }

    proof fn lemma_roundtrip(v: Seq<char>, rest: Seq<u8>) {
        let buf = wire_string(v) + rest;
        assert(buf.subrange(0, wire_string(v).len() as int) =~= wire_string(v));
        lemma_string_roundtrip(v, buf, 0);
    }
}

} // verus!

verus! {

/// How a struct's fields are laid out on the wire: a field of its own, or a run of
/// flag fields sharing one byte (the first of the run in bit 0).
pub enum FieldGroup {
    Regular(usize),
    Bitpack(Vec<usize>),
}

/// The field positions a group covers, in order.
pub open spec fn group_indices(g: FieldGroup) -> Seq<usize> {
    match g {
        FieldGroup::Regular(i) => seq![i],
        FieldGroup::Bitpack(v) => v@,
    }
}

/// The field positions a list of groups covers, in order.
pub open spec fn flat_indices(gs: Seq<FieldGroup>) -> Seq<usize>
    decreases gs.len(),
{
    if gs.len() == 0 {
        seq![]
    } else {
        flat_indices(gs.drop_last()) + group_indices(gs.last())
    }
}

/// The positions `0..n`, in order.
pub open spec fn positions(n: nat) -> Seq<usize> {
    Seq::new(n, |i: int| i as usize)
}

/// A grouping of fields whose flags are `bitpack`: the groups cover every field once and
/// in order; a field of its own is not a flag; a shared byte holds one or more flags; and
/// consecutive flags always share a byte.
pub open spec fn is_grouping(bitpack: Seq<bool>, gs: Seq<FieldGroup>) -> bool {
    &&& flat_indices(gs) == positions(bitpack.len())
    &&& forall|k: int| 0 <= k < gs.len() ==> match #[trigger] gs[k] {
        FieldGroup::Regular(i) => i < bitpack.len() && !bitpack[i as int],
        FieldGroup::Bitpack(v) => v@.len() > 0 && forall|j: int|
            0 <= j < v@.len() ==> #[trigger] v@[j] < bitpack.len() && bitpack[v@[j] as int],
    }
    &&& forall|k: int| 0 <= k < gs.len() - 1 ==> !(#[trigger] gs[k] is Bitpack && gs[k + 1] is Bitpack)
}

/// Groups fields for the wire: each field of its own, except that consecutive flag fields
/// (those marked to be bit-packed) share one byte.
pub fn group_fields(bitpack: &[bool]) -> (groups: Vec<FieldGroup>)
    ensures
        is_grouping(bitpack@, groups@),
{
    let mut groups: Vec<FieldGroup> = Vec::new();
    let mut i: usize = 0;
    assert(positions(0) =~= Seq::<usize>::empty());
    assert(flat_indices(groups@) =~= Seq::<usize>::empty());
    while i < bitpack.len()
        invariant
            i <= bitpack@.len(),
            is_grouping(bitpack@.subrange(0, i as int), groups@),
            forall|k: int| 0 <= k < groups@.len() ==> match #[trigger] groups@[k] {
                FieldGroup::Regular(x) => x < i,
                FieldGroup::Bitpack(v) => forall|j: int| 0 <= j < v@.len() ==> #[trigger] v@[j] < i,
            },
        decreases bitpack@.len() - i,
    {
        let ghost before = groups@;
        let ghost b = bitpack@.subrange(0, i as int);
        let ghost b1 = bitpack@.subrange(0, i + 1);
        assert forall|j: int| 0 <= j < i implies #[trigger] b1[j] == b[j] by {}
        let n = groups.len();
        let extend = bitpack[i] && n > 0 && match &groups[n - 1] {
            FieldGroup::Bitpack(_) => true,
            FieldGroup::Regular(_) => false,
        };
        if extend {
            let last = groups.pop().unwrap();
            let mut v = match last {
                FieldGroup::Bitpack(v) => v,
                FieldGroup::Regular(_) => {
                    assert(false);
                    Vec::new()
                },
            };
            v.push(i);
            groups.push(FieldGroup::Bitpack(v));
            proof {
                assert(groups@.drop_last() =~= before.drop_last());
                assert(flat_indices(groups@) =~= flat_indices(before).push(i));
            }
        } else if bitpack[i] {
            groups.push(FieldGroup::Bitpack(vec![i]));
            proof {
                assert(groups@.drop_last() =~= before);
                assert(flat_indices(groups@) =~= flat_indices(before).push(i));
            }
        } else {
            groups.push(FieldGroup::Regular(i));
            proof {
                assert(groups@.drop_last() =~= before);
                assert(flat_indices(groups@) =~= flat_indices(before).push(i));
            }
        }
        proof {
            assert(positions((i + 1) as nat) =~= positions(i as nat).push(i));
        }
        i = i + 1;
    }
    assert(bitpack@.subrange(0, i as int) =~= bitpack@);
    groups
}

/// Two groups cover the same fields in the same way.
pub open spec fn same_group(g1: FieldGroup, g2: FieldGroup) -> bool {
    match (g1, g2) {
        (FieldGroup::Regular(i), FieldGroup::Regular(j)) => i == j,
        (FieldGroup::Bitpack(v), FieldGroup::Bitpack(w)) => v@ == w@,
        _ => false,
    }
}

/// Two lists of groups lay fields out in the same way.
pub open spec fn same_grouping(gs1: Seq<FieldGroup>, gs2: Seq<FieldGroup>) -> bool {
    gs1.len() == gs2.len() && forall|k: int| 0 <= k < gs1.len() ==> same_group(#[trigger] gs1[k], gs2[k])
}

/// A field position a group names appears in the flat list of positions.
proof fn lemma_index_in_flat(gs: Seq<FieldGroup>, k: int, j: int) -> (pos: int)
    requires
        0 <= k < gs.len(),
        0 <= j < group_indices(gs[k]).len(),
    ensures
        0 <= pos < flat_indices(gs).len(),
        flat_indices(gs)[pos] == group_indices(gs[k])[j],
    decreases gs.len(),
{
    let init = gs.drop_last();
    if k == gs.len() - 1 {
        assert(gs.last() == gs[k]);
        flat_indices(init).len() + j
    } else {
        assert(init[k] == gs[k]);
        lemma_index_in_flat(init, k, j)
    }
}

/// The last group of a grouping: a field of its own that is not a flag, or the whole run
/// of flags the fields end with; the groups before it are a grouping of the fields before
/// it.
proof fn lemma_grouping_split(bitpack: Seq<bool>, gs: Seq<FieldGroup>)
    requires
        is_grouping(bitpack, gs),
        0 < bitpack.len() <= usize::MAX,
    ensures
        gs.len() > 0,
        flat_indices(gs.drop_last()).len() + group_indices(gs.last()).len() == bitpack.len(),
        is_grouping(bitpack.subrange(0, flat_indices(gs.drop_last()).len() as int), gs.drop_last()),
        forall|j: int| 0 <= j < group_indices(gs.last()).len() ==>
            #[trigger] group_indices(gs.last())[j] == flat_indices(gs.drop_last()).len() + j,
        gs.last() is Regular ==> !bitpack[bitpack.len() - 1] && group_indices(gs.last()).len() == 1,
        gs.last() is Bitpack ==> {
            let m0 = flat_indices(gs.drop_last()).len() as int;
            &&& forall|t: int| m0 <= t < bitpack.len() ==> #[trigger] bitpack[t]
            &&& (m0 == 0 || !bitpack[m0 - 1])
        },
{
    let n = bitpack.len();
    if gs.len() == 0 {
        assert(positions(n).len() == n);
    }
    let init = gs.drop_last();
    let last = gs.last();
    let fi = flat_indices(init);
    let gi = group_indices(last);
    let m0 = fi.len();
    assert(fi + gi == positions(n));
    assert(fi.len() + gi.len() == n);
    assert forall|t: int| 0 <= t < m0 implies #[trigger] fi[t] == positions(m0)[t] by {
        assert((fi + gi)[t] == fi[t]);
    }
    assert(fi =~= positions(m0));
    assert forall|j: int| 0 <= j < gi.len() implies #[trigger] gi[j] == m0 + j by {
        assert((fi + gi)[m0 + j] == gi[j]);
        assert(positions(n)[m0 + j] == (m0 + j) as usize);
    }
    assert(gs[gs.len() - 1] == last);
    let b0 = bitpack.subrange(0, m0 as int);
    assert forall|k: int| 0 <= k < init.len() implies match #[trigger] init[k] {
        FieldGroup::Regular(i) => i < b0.len() && !b0[i as int],
        FieldGroup::Bitpack(v) => v@.len() > 0 && forall|j: int|
            0 <= j < v@.len() ==> #[trigger] v@[j] < b0.len() && b0[v@[j] as int],
    } by {
        assert(init[k] == gs[k]);
        match init[k] {
            FieldGroup::Regular(i) => {
                let pos = lemma_index_in_flat(init, k, 0);
                assert(fi[pos] == positions(m0)[pos]);
            },
            FieldGroup::Bitpack(v) => {
                assert forall|j: int| 0 <= j < v@.len() implies #[trigger] v@[j] < b0.len() && b0[v@[j] as int] by {
                    let pos = lemma_index_in_flat(init, k, j);
                    assert(fi[pos] == positions(m0)[pos]);
                }
            },
        }
    }
    assert forall|k: int| 0 <= k < init.len() - 1 implies !(#[trigger] init[k] is Bitpack && init[k + 1] is Bitpack) by {
        assert(init[k] == gs[k]);
        assert(init[k + 1] == gs[k + 1]);
    }
    match last {
        FieldGroup::Regular(i) => {
            assert(gi[0] == m0 + 0);
        },
        FieldGroup::Bitpack(v) => {
            assert forall|t: int| m0 <= t < n implies #[trigger] bitpack[t] by {
                assert(gi[t - m0] == m0 + (t - m0));
            }
            if m0 > 0 {
                if init.len() == 0 {
                    assert(fi.len() == 0);
                }
                assert(init.last() == gs[gs.len() - 2]);
                assert(!(gs[gs.len() - 2] is Bitpack && gs[gs.len() - 2 + 1] is Bitpack));
                let prev = init.last();
                let pi = group_indices(prev);
                assert(fi == flat_indices(init.drop_last()) + pi);
                match prev {
                    FieldGroup::Regular(i) => {
                        assert(fi[m0 - 1] == pi[0]);
                        assert(positions(m0)[m0 - 1] == (m0 - 1) as usize);
                    },
                    FieldGroup::Bitpack(_) => {},
                }
            }
        },
    }
}

/// The grouping is determined by which fields are flags: two groupings of the same fields
/// lay them out the same way, so [`group_fields`] returns the only one.
pub proof fn lemma_grouping_unique(bitpack: Seq<bool>, gs1: Seq<FieldGroup>, gs2: Seq<FieldGroup>)
    requires
        bitpack.len() <= usize::MAX,
        is_grouping(bitpack, gs1),
        is_grouping(bitpack, gs2),
    ensures
        same_grouping(gs1, gs2),
    decreases bitpack.len(),
{
    if bitpack.len() == 0 {
        assert(positions(0).len() == 0);
        if gs1.len() > 0 {
            assert(gs1[gs1.len() - 1] == gs1.last());
            assert(flat_indices(gs1) == flat_indices(gs1.drop_last()) + group_indices(gs1.last()));
        }
        if gs2.len() > 0 {
            assert(gs2[gs2.len() - 1] == gs2.last());
            assert(flat_indices(gs2) == flat_indices(gs2.drop_last()) + group_indices(gs2.last()));
        }
    } else {
        let n = bitpack.len() as int;
        lemma_grouping_split(bitpack, gs1);
        lemma_grouping_split(bitpack, gs2);
        let i1 = gs1.drop_last();
        let i2 = gs2.drop_last();
        let l1 = gs1.last();
        let l2 = gs2.last();
        let m1 = flat_indices(i1).len() as int;
        let m2 = flat_indices(i2).len() as int;
        assert(l1 is Regular <==> !bitpack[n - 1]) by {
            if l1 is Bitpack {
                assert(bitpack[n - 1]);
            }
        }
        assert(l2 is Regular <==> !bitpack[n - 1]) by {
            if l2 is Bitpack {
                assert(bitpack[n - 1]);
            }
        }
        if m1 < m2 {
            assert(bitpack[m2 - 1]);
        }
        if m2 < m1 {
            assert(bitpack[m1 - 1]);
        }
        assert(m1 == m2);
        assert(same_group(l1, l2)) by {
            match (l1, l2) {
                (FieldGroup::Regular(a), FieldGroup::Regular(b)) => {
                    assert(group_indices(l1)[0] == m1 + 0);
                    assert(group_indices(l2)[0] == m2 + 0);
                },
                (FieldGroup::Bitpack(v), FieldGroup::Bitpack(w)) => {
                    assert forall|j: int| 0 <= j < v@.len() implies v@[j] == w@[j] by {
                        assert(group_indices(l1)[j] == m1 + j);
                        assert(group_indices(l2)[j] == m2 + j);
                    }
                    assert(v@ =~= w@);
                },
                _ => {},
            }
        }
        lemma_grouping_unique(bitpack.subrange(0, m1), i1, i2);
        assert forall|k: int| 0 <= k < gs1.len() implies same_group(#[trigger] gs1[k], gs2[k]) by {
            if k < i1.len() {
                assert(gs1[k] == i1[k]);
                assert(gs2[k] == i2[k]);
            } else {
                assert(gs1[k] == l1);
                assert(gs2[k] == l2);
            }
        }
    }
}

} // verus!
