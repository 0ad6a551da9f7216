//! The wire-encoding discipline that generated encode/decode code follows,
//! as verified functions over the declarations themselves: required fields
//! in declaration order, then tagged-optional fields as tag-and-length
//! prefixed payloads closed by an end marker (so a receiver on another
//! encoded version can skip tags it does not know), classes and exceptions
//! as base-to-derived chains of length-prefixed slices (so a receiver that
//! only knows a base type can skip and preserve derived data), and enums as
//! range-checked integers.
use vstd::prelude::*;

use crate::ast::EnumDef;
use crate::ast::Entity;
use crate::ast::base_of;
use crate::ast::chain;
use crate::ast::own_fields;
use crate::ast::wf_entities;
use crate::ast::Field;
use crate::ast::Primitive;
use crate::ast::TAG_END;
use crate::ast::TypeRef;
use crate::ast::wf_fields;

verus! {

/// A runtime field value.
#[derive(Clone, PartialEq, Eq, Debug)]
pub enum Value {
    Bool(bool),
    Int32(i32),
    Str(Vec<u8>),
}

/// The mathematical model of a field value.
pub enum ValueModel {
    Bool(bool),
    Int32(i32),
    Str(Seq<u8>),
}

impl View for Value {
    type V = ValueModel;

    open spec fn view(&self) -> ValueModel {
        match self {
            Value::Bool(b) => ValueModel::Bool(*b),
            Value::Int32(x) => ValueModel::Int32(*x),
            Value::Str(s) => ValueModel::Str(s@),
        }
    }
}

/// A typed wire-format fault raised while decoding.
#[derive(Clone, Copy, PartialEq, Eq, Structural, Debug)]
pub enum DecodeError {
    /// The input ended before the value it announces.
    Truncated,
    /// A boolean byte other than zero or one.
    InvalidBool,
    /// A tagged payload whose length does not match its value.
    TagSizeMismatch,
    /// An integer that names no enumerator of the target enum.
    InvalidEnumValue,
    /// A class slice whose length does not match its fields.
    SliceSizeMismatch,
    /// A class encoding with fewer slices than the receiver's static type.
    MissingSlices,
}

// ---------------------------------------------------------------------------
// Little-endian integers.
// ---------------------------------------------------------------------------
pub open spec fn le4(n: u32) -> Seq<u8> {
    seq![
        (n & 0xff) as u8,
        ((n >> 8) & 0xff) as u8,
        ((n >> 16) & 0xff) as u8,
        ((n >> 24) & 0xff) as u8,
    ]
}

pub open spec fn le4_val(s: Seq<u8>) -> u32 {
    (s[0] as u32) | ((s[1] as u32) << 8) | ((s[2] as u32) << 16) | ((s[3] as u32) << 24)
}

pub open spec fn le8(n: u64) -> Seq<u8> {
    seq![
        (n & 0xff) as u8,
        ((n >> 8) & 0xff) as u8,
        ((n >> 16) & 0xff) as u8,
        ((n >> 24) & 0xff) as u8,
        ((n >> 32) & 0xff) as u8,
        ((n >> 40) & 0xff) as u8,
        ((n >> 48) & 0xff) as u8,
        ((n >> 56) & 0xff) as u8,
    ]
}

pub open spec fn le8_val(s: Seq<u8>) -> u64 {
    (s[0] as u64) | ((s[1] as u64) << 8) | ((s[2] as u64) << 16) | ((s[3] as u64) << 24) | (
    (s[4] as u64) << 32) | ((s[5] as u64) << 40) | ((s[6] as u64) << 48) | ((s[7] as u64) << 56)
}

pub proof fn lemma_le4_round(n: u32)
    ensures
        le4_val(le4(n)) == n,
{
    assert((((n & 0xff) as u8) as u32) | ((((n >> 8) & 0xff) as u8) as u32) << 8 | ((((n >> 16)
        & 0xff) as u8) as u32) << 16 | ((((n >> 24) & 0xff) as u8) as u32) << 24 == n)
        by (bit_vector);
}

pub proof fn lemma_le8_round(n: u64)
    ensures
        le8_val(le8(n)) == n,
{
    assert((((n & 0xff) as u8) as u64) | ((((n >> 8) & 0xff) as u8) as u64) << 8 | ((((n >> 16)
        & 0xff) as u8) as u64) << 16 | ((((n >> 24) & 0xff) as u8) as u64) << 24 | ((((n >> 32)
        & 0xff) as u8) as u64) << 32 | ((((n >> 40) & 0xff) as u8) as u64) << 40 | ((((n >> 48)
        & 0xff) as u8) as u64) << 48 | ((((n >> 56) & 0xff) as u8) as u64) << 56 == n)
        by (bit_vector);
}

/// The first four bytes of `le4(n)` followed by anything read back as `n`.
pub proof fn lemma_le4_concat(n: u32, x: Seq<u8>)
    ensures
        le4_val(le4(n) + x) == n,
        (le4(n) + x).skip(4) =~= x,
        (le4(n) + x).len() == 4 + x.len(),
{
    lemma_le4_round(n);
    assert(le4_val(le4(n) + x) == le4_val(le4(n)));
}

/// The first eight bytes of `le8(n)` followed by anything read back as `n`.
pub proof fn lemma_le8_concat(n: u64, x: Seq<u8>)
    ensures
        le8_val(le8(n) + x) == n,
        (le8(n) + x).skip(8) =~= x,
        (le8(n) + x).len() == 8 + x.len(),
{
    lemma_le8_round(n);
    assert(le8_val(le8(n) + x) == le8_val(le8(n)));
}

// ---------------------------------------------------------------------------
// Primitive values.
// ---------------------------------------------------------------------------
/// The primitive a field's value is encoded as: the field's own type, or
/// the wrapped type of a tagged-optional field.
pub open spec fn field_prim(f: Field) -> Option<Primitive> {
    match f.ty {
        TypeRef::Prim(p) => Some(p),
        TypeRef::Optional(e) => match *e {
            TypeRef::Prim(p) => Some(p),
            _ => None,
        },
        _ => None,
    }
}

pub open spec fn matches_prim(p: Primitive, v: ValueModel) -> bool {
    match v {
        ValueModel::Bool(_) => p is Bool,
        ValueModel::Int32(_) => p is Int32,
        ValueModel::Str(s) => p is Str && s.len() + 8 <= u64::MAX,
    }
}

/// The wire bytes of one value: a boolean byte, a little-endian 32-bit
/// integer, or a length-prefixed byte string.
pub open spec fn enc_value(v: ValueModel) -> Seq<u8> {
    match v {
        ValueModel::Bool(b) => seq![if b { 1u8 } else { 0u8 }],
        ValueModel::Int32(x) => le4(x as u32),
        ValueModel::Str(s) => le8(s.len() as u64) + s,
    }
}

/// Decoding one value of the given primitive type from the head of `s`:
/// the value and the number of bytes consumed, or the wire fault.
pub open spec fn dec_prim(p: Primitive, s: Seq<u8>) -> Result<(ValueModel, int), DecodeError> {
    match p {
        Primitive::Bool => if s.len() < 1 {
            Err(DecodeError::Truncated)
        } else if s[0] == 0 {
            Ok((ValueModel::Bool(false), 1))
        } else if s[0] == 1 {
            Ok((ValueModel::Bool(true), 1))
        } else {
            Err(DecodeError::InvalidBool)
        },
        Primitive::Int32 => if s.len() < 4 {
            Err(DecodeError::Truncated)
        } else {
            Ok((ValueModel::Int32(le4_val(s) as i32), 4))
        },
        Primitive::Str => if s.len() < 8 {
            Err(DecodeError::Truncated)
        } else {
            let n = le8_val(s) as int;
            if s.len() < 8 + n {
                Err(DecodeError::Truncated)
            } else {
                Ok((ValueModel::Str(s.subrange(8, 8 + n)), 8 + n))
            }
        },
    }
}

/// Round trip of one value: decoding its encoding, whatever follows,
/// yields the value back and consumes exactly its encoding.
pub proof fn lemma_prim_round(p: Primitive, v: ValueModel, rest: Seq<u8>)
    requires
        matches_prim(p, v),
    ensures
        dec_prim(p, enc_value(v) + rest) == Ok::<(ValueModel, int), DecodeError>(
            (v, enc_value(v).len() as int),
        ),
{
    match v {
        ValueModel::Bool(b) => {
            assert((enc_value(v) + rest)[0] == (if b {
                1u8
            } else {
                0u8
            }));
        },
        ValueModel::Int32(x) => {
            lemma_le4_concat(x as u32, rest);
            assert(le4_val(enc_value(v) + rest) == x as u32);
            assert((x as u32) as i32 == x) by (bit_vector);
        },
        ValueModel::Str(s) => {
            let n = s.len() as u64;
            assert(n as int == s.len());
            assert(enc_value(v) + rest =~= le8(n) + (s + rest));
            lemma_le8_concat(n, s + rest);
            assert(le8_val(enc_value(v) + rest) == n);
            assert((enc_value(v) + rest).subrange(8, 8 + n as int) =~= s);
        },
    }
}

// ---------------------------------------------------------------------------
// Field sections: required fields in order, then tagged fields with an end
// marker.
// ---------------------------------------------------------------------------
/// Whether the values fit the declared fields: one value slot per field,
/// required slots filled, every present value of the field's primitive type.
pub open spec fn vals_ok(fields: Seq<Field>, vals: Seq<Option<ValueModel>>) -> bool {
    &&& vals.len() == fields.len()
    &&& forall|i: int|
        0 <= i < fields.len() ==> match #[trigger] vals[i] {
            Some(v) => field_prim(fields[i]) is Some && matches_prim(field_prim(fields[i])->0, v),
            None => fields[i].tag is Some,
        }
}

/// All fields of the section are encodable primitives.
pub open spec fn encodable_fields(fields: Seq<Field>) -> bool {
    forall|i: int| 0 <= i < fields.len() ==> (#[trigger] field_prim(fields[i])) is Some
}

/// The index of the first tagged field; the count of required fields.
pub open spec fn first_tagged(fields: Seq<Field>, k: int) -> int
    decreases fields.len() - k,
{
    if k < 0 || k >= fields.len() || fields[k].tag is Some {
        k
    } else {
        first_tagged(fields, k + 1)
    }
}

pub open spec fn has_tagged(fields: Seq<Field>) -> bool {
    exists|i: int| 0 <= i < fields.len() && (#[trigger] fields[i].tag) is Some
}

/// The wire bytes of the required fields from index `k` on, unconditional,
/// in declaration order, stopping at the first tagged field.
pub open spec fn enc_required_from(fields: Seq<Field>, vals: Seq<Option<ValueModel>>, k: int) -> Seq<
    u8,
>
    decreases fields.len() - k,
{
    if k < 0 || k >= fields.len() || fields[k].tag is Some {
        Seq::empty()
    } else {
        enc_value(vals[k]->0) + enc_required_from(fields, vals, k + 1)
    }
}

/// The wire bytes of the tagged fields from index `k` on: each present
/// value as tag, payload length, payload; absent values contribute nothing.
pub open spec fn enc_tagged_from(fields: Seq<Field>, vals: Seq<Option<ValueModel>>, k: int) -> Seq<
    u8,
>
    decreases fields.len() - k,
{
    if k < 0 || k >= fields.len() {
        Seq::empty()
    } else {
        (match vals[k] {
            Some(v) => if fields[k].tag is Some {
                le8(fields[k].tag->0) + le8(enc_value(v).len() as u64) + enc_value(v)
            } else {
                Seq::<u8>::empty()
            },
            None => Seq::<u8>::empty(),
        }) + enc_tagged_from(fields, vals, k + 1)
    }
}

/// The full wire bytes of one field section: the required fields, then —
/// only when the section declares tagged fields — the present tagged
/// fields closed by the end marker. A section without tagged fields is the
/// bare required bytes, with no tags at all.
pub open spec fn enc_fields(fields: Seq<Field>, vals: Seq<Option<ValueModel>>) -> Seq<u8> {
    enc_required_from(fields, vals, 0) + if has_tagged(fields) {
        enc_tagged_from(fields, vals, first_tagged(fields, 0)) + le8(TAG_END)
    } else {
        Seq::<u8>::empty()
    }
}

/// Decoding the required fields from index `k` on.
pub open spec fn dec_required(fields: Seq<Field>, k: int, s: Seq<u8>) -> Result<
    (Seq<Option<ValueModel>>, int),
    DecodeError,
>
    decreases fields.len() - k,
{
    if k < 0 || k >= fields.len() || fields[k].tag is Some {
        Ok((Seq::empty(), 0))
    } else {
        match field_prim(fields[k]) {
            None => Err(DecodeError::Truncated),
            Some(p) => match dec_prim(p, s) {
                Err(e) => Err(e),
                Ok((v, c)) => match dec_required(fields, k + 1, s.skip(c)) {
                    Err(e) => Err(e),
                    Ok((vs, c2)) => Ok((seq![Some(v)] + vs, c + c2)),
                },
            },
        }
    }
}

/// Decoding the tagged section against the declared tagged fields from
/// index `k` on: a matching tag yields the field's value, a larger tag
/// means the declared field is absent, an unknown tag is skipped by its
/// announced length, and the end marker closes the section with every
/// remaining declared field absent.
pub open spec fn dec_tagged(fields: Seq<Field>, k: int, s: Seq<u8>) -> Result<
    (Seq<Option<ValueModel>>, int),
    DecodeError,
>
    decreases fields.len() - k, s.len(),
{
    if s.len() < 8 {
        Err(DecodeError::Truncated)
    } else {
        let tag = le8_val(s.subrange(0, 8));
        if tag == TAG_END {
            Ok((Seq::new((if fields.len() - k >= 0 { fields.len() - k } else { 0 }) as nat, |j: int| None), 8))
        } else if s.len() < 16 {
            Err(DecodeError::Truncated)
        } else {
            let len = le8_val(s.subrange(8, 16)) as int;
            if s.len() < 16 + len {
                Err(DecodeError::Truncated)
            } else if 0 <= k < fields.len() && fields[k].tag is Some && fields[k].tag->0 == tag {
                match field_prim(fields[k]) {
                    None => Err(DecodeError::Truncated),
                    Some(p) => match dec_prim(p, s.skip(16)) {
                        Err(e) => Err(e),
                        Ok((v, c)) => if c != len {
                            Err(DecodeError::TagSizeMismatch)
                        } else {
                            match dec_tagged(fields, k + 1, s.skip(16 + len)) {
                                Err(e) => Err(e),
                                Ok((vs, c2)) => Ok((seq![Some(v)] + vs, 16 + len + c2)),
                            }
                        },
                    },
                }
            } else if 0 <= k < fields.len() && fields[k].tag is Some && fields[k].tag->0 < tag {
                // The declared field is absent: the sender moved past it.
                match dec_tagged(fields, k + 1, s) {
                    Err(e) => Err(e),
                    Ok((vs, c2)) => Ok((seq![None] + vs, c2)),
                }
            } else {
                // A tag this receiver does not declare: skip its payload.
                match dec_tagged(fields, k, s.skip(16 + len)) {
                    Err(e) => Err(e),
                    Ok((vs, c2)) => Ok((vs, 16 + len + c2)),
                }
            }
        }
    }
}

/// Decoding one full field section: the required fields in declaration
/// order, then — only when tagged fields are declared — the tagged section.
pub open spec fn dec_fields(fields: Seq<Field>, s: Seq<u8>) -> Result<
    (Seq<Option<ValueModel>>, int),
    DecodeError,
> {
    match dec_required(fields, 0, s) {
        Err(e) => Err(e),
        Ok((rv, c)) => if has_tagged(fields) {
            match dec_tagged(fields, first_tagged(fields, 0), s.skip(c)) {
                Err(e) => Err(e),
                Ok((tv, c2)) => Ok((rv + tv, c + c2)),
            }
        } else {
            Ok((rv, c))
        },
    }
}

// ---------------------------------------------------------------------------
// The field-section round trip.
// ---------------------------------------------------------------------------
proof fn lemma_first_tagged_bounds(fields: Seq<Field>, k: int)
    requires
        0 <= k <= fields.len(),
    ensures
        k <= first_tagged(fields, k) <= fields.len(),
        forall|j: int| k <= j < first_tagged(fields, k) ==> (#[trigger] fields[j].tag) is None,
        first_tagged(fields, k) < fields.len() ==> fields[first_tagged(fields, k)].tag is Some,
    decreases fields.len() - k,
{
    if k < fields.len() && fields[k].tag is None {
        lemma_first_tagged_bounds(fields, k + 1);
    }
}

proof fn lemma_req_round(
    fields: Seq<Field>,
    vals: Seq<Option<ValueModel>>,
    k: int,
    rest: Seq<u8>,
)
    requires
        vals_ok(fields, vals),
        0 <= k <= fields.len(),
    ensures
        dec_required(fields, k, enc_required_from(fields, vals, k) + rest) matches Ok(r) && r.0
            == vals.subrange(k, first_tagged(fields, k)) && r.1 == enc_required_from(
            fields,
            vals,
            k,
        ).len(),
    decreases fields.len() - k,
{
    lemma_first_tagged_bounds(fields, k);
    if k >= fields.len() || fields[k].tag is Some {
        assert(vals.subrange(k, first_tagged(fields, k)) =~= Seq::<Option<ValueModel>>::empty());
        assert(enc_required_from(fields, vals, k) + rest =~= rest);
    } else {
        let v = vals[k]->0;
        let p = field_prim(fields[k])->0;
        let tail = enc_required_from(fields, vals, k + 1) + rest;
        assert(enc_required_from(fields, vals, k) + rest =~= enc_value(v) + tail);
        lemma_prim_round(p, v, tail);
        let c = enc_value(v).len() as int;
        assert((enc_value(v) + tail).skip(c) =~= tail);
        lemma_req_round(fields, vals, k + 1, rest);
        assert(seq![Some(v)] + vals.subrange(k + 1, first_tagged(fields, k + 1)) =~= vals.subrange(
            k,
            first_tagged(fields, k),
        ));
    }
}

/// Whether every tagged value from index `k` on is absent.
pub open spec fn all_absent(vals: Seq<Option<ValueModel>>, k: int) -> bool {
    forall|j: int| k <= j < vals.len() ==> (#[trigger] vals[j]) is None
}

proof fn lemma_enc_tagged_all_absent(fields: Seq<Field>, vals: Seq<Option<ValueModel>>, k: int)
    requires
        vals.len() == fields.len(),
        all_absent(vals, k),
    ensures
        enc_tagged_from(fields, vals, k) =~= Seq::<u8>::empty(),
    decreases fields.len() - k,
{
    if 0 <= k < fields.len() {
        lemma_enc_tagged_all_absent(fields, vals, k + 1);
    }
}

proof fn lemma_first_present(fields: Seq<Field>, vals: Seq<Option<ValueModel>>, k: int)
    requires
        vals.len() == fields.len(),
        0 <= k <= fields.len(),
        !all_absent(vals, k),
    ensures
        exists|j: int|
            k <= j < fields.len() && (#[trigger] vals[j]) is Some && all_absent(
                vals.take(j),
                k,
            ) && enc_tagged_from(fields, vals, k) == enc_tagged_from(fields, vals, j),
    decreases fields.len() - k,
{
    if vals[k] is Some {
        assert(all_absent(vals.take(k), k));
        assert(enc_tagged_from(fields, vals, k) == enc_tagged_from(fields, vals, k));
    } else {
        lemma_first_present(fields, vals, k + 1);
        let j = choose|j: int|
            k + 1 <= j < fields.len() && (#[trigger] vals[j]) is Some && all_absent(
                vals.take(j),
                k + 1,
            ) && enc_tagged_from(fields, vals, k + 1) == enc_tagged_from(fields, vals, j);
        assert(enc_tagged_from(fields, vals, k) =~= enc_tagged_from(fields, vals, k + 1));
        assert(all_absent(vals.take(j), k));
    }
}

proof fn lemma_tag_round_absent(
    fields: Seq<Field>,
    vals: Seq<Option<ValueModel>>,
    k: int,
    rest: Seq<u8>,
)
    requires
        wf_fields(fields),
        vals_ok(fields, vals),
        0 <= k <= fields.len(),
        forall|j: int| k <= j < fields.len() ==> (#[trigger] fields[j].tag) is Some,
        k >= fields.len() || all_absent(vals, k),
    ensures
        dec_tagged(fields, k, enc_tagged_from(fields, vals, k) + le8(TAG_END) + rest) matches Ok(r)
            && r.0 == vals.subrange(k, fields.len() as int) && r.1 == enc_tagged_from(
            fields,
            vals,
            k,
        ).len() + 8,
{
    let s = enc_tagged_from(fields, vals, k) + le8(TAG_END) + rest;
    lemma_enc_tagged_all_absent(fields, vals, k);
    assert(s =~= le8(TAG_END) + rest);
    lemma_le8_concat(TAG_END, rest);
    assert(s.subrange(0, 8) =~= le8(TAG_END));
    lemma_le8_round(TAG_END);
    assert(le8_val(s.subrange(0, 8)) == TAG_END);
    assert(Seq::new((fields.len() - k) as nat, |j: int| None::<ValueModel>) =~= vals.subrange(
        k,
        fields.len() as int,
    ));
}

#[verifier::rlimit(100)]
proof fn lemma_tag_round_present(
    fields: Seq<Field>,
    vals: Seq<Option<ValueModel>>,
    k: int,
    rest: Seq<u8>,
)
    requires
        wf_fields(fields),
        vals_ok(fields, vals),
        0 <= k < fields.len(),
        forall|j: int| k <= j < fields.len() ==> (#[trigger] fields[j].tag) is Some,
        vals[k] is Some,
    ensures
        dec_tagged(fields, k, enc_tagged_from(fields, vals, k) + le8(TAG_END) + rest) matches Ok(r)
            && r.0 == vals.subrange(k, fields.len() as int) && r.1 == enc_tagged_from(
            fields,
            vals,
            k,
        ).len() + 8,
    decreases fields.len() - k, 0int,
{
    let s = enc_tagged_from(fields, vals, k) + le8(TAG_END) + rest;
    let v = vals[k]->0;
    let p = field_prim(fields[k])->0;
    let t = fields[k].tag->0;
    let payload = enc_value(v);
    assert(payload.len() <= u64::MAX);
    let plen = payload.len() as u64;
    assert(plen as int == payload.len());
    let tail = enc_tagged_from(fields, vals, k + 1) + le8(TAG_END) + rest;
    assert(s =~= le8(t) + (le8(plen) + (payload + tail)));
    lemma_le8_concat(t, le8(plen) + (payload + tail));
    assert(s.subrange(0, 8) =~= le8(t));
    lemma_le8_round(t);
    assert(le8_val(s.subrange(0, 8)) == t);
    assert(t != TAG_END);
    assert(s.subrange(8, 16) =~= le8(plen));
    lemma_le8_round(plen);
    assert(le8_val(s.subrange(8, 16)) == plen);
    assert(s.skip(16) =~= payload + tail);
    lemma_prim_round(p, v, tail);
    assert(s.len() >= 16 + plen);
    lemma_tag_round(fields, vals, k + 1, rest);
    assert(s.skip(16 + plen as int) =~= tail);
    assert(seq![Some(v)] + vals.subrange(k + 1, fields.len() as int) =~= vals.subrange(
        k,
        fields.len() as int,
    ));
}

#[verifier::rlimit(100)]
proof fn lemma_tag_round_skipped(
    fields: Seq<Field>,
    vals: Seq<Option<ValueModel>>,
    k: int,
    rest: Seq<u8>,
)
    requires
        wf_fields(fields),
        vals_ok(fields, vals),
        0 <= k < fields.len(),
        forall|j: int| k <= j < fields.len() ==> (#[trigger] fields[j].tag) is Some,
        vals[k] is None,
        !all_absent(vals, k),
    ensures
        dec_tagged(fields, k, enc_tagged_from(fields, vals, k) + le8(TAG_END) + rest) matches Ok(r)
            && r.0 == vals.subrange(k, fields.len() as int) && r.1 == enc_tagged_from(
            fields,
            vals,
            k,
        ).len() + 8,
    decreases fields.len() - k, 0int,
{
    let s = enc_tagged_from(fields, vals, k) + le8(TAG_END) + rest;
    lemma_first_present(fields, vals, k);
    let j = choose|j: int|
        k <= j < fields.len() && (#[trigger] vals[j]) is Some && all_absent(
            vals.take(j),
            k,
        ) && enc_tagged_from(fields, vals, k) == enc_tagged_from(fields, vals, j);
    let tj = fields[j].tag->0;
    let vj = vals[j]->0;
    let payload = enc_value(vj);
    assert(payload.len() <= u64::MAX);
    let plen = payload.len() as u64;
    assert(plen as int == payload.len());
    let tailj = enc_tagged_from(fields, vals, j + 1) + le8(TAG_END) + rest;
    assert(enc_tagged_from(fields, vals, j) =~= le8(tj) + (le8(plen) + payload)
        + enc_tagged_from(fields, vals, j + 1));
    assert(s =~= le8(tj) + (le8(plen) + (payload + tailj)));
    lemma_le8_concat(tj, le8(plen) + (payload + tailj));
    assert(s.subrange(0, 8) =~= le8(tj));
    lemma_le8_round(tj);
    assert(le8_val(s.subrange(0, 8)) == tj);
    assert(tj != TAG_END);
    assert(j > k);
    assert(fields[k].tag->0 < tj);
    assert(s.len() >= 16);
    lemma_tag_round(fields, vals, k + 1, rest);
    assert(enc_tagged_from(fields, vals, k + 1) == enc_tagged_from(fields, vals, j));
    assert(seq![None::<ValueModel>] + vals.subrange(k + 1, fields.len() as int)
        =~= vals.subrange(k, fields.len() as int));
}

proof fn lemma_tag_round(
    fields: Seq<Field>,
    vals: Seq<Option<ValueModel>>,
    k: int,
    rest: Seq<u8>,
)
    requires
        wf_fields(fields),
        vals_ok(fields, vals),
        0 <= k <= fields.len(),
        forall|j: int| k <= j < fields.len() ==> (#[trigger] fields[j].tag) is Some,
    ensures
        dec_tagged(fields, k, enc_tagged_from(fields, vals, k) + le8(TAG_END) + rest) matches Ok(r)
            && r.0 == vals.subrange(k, fields.len() as int) && r.1 == enc_tagged_from(
            fields,
            vals,
            k,
        ).len() + 8,
    decreases fields.len() - k, 1int,
{
    if k >= fields.len() || all_absent(vals, k) {
        lemma_tag_round_absent(fields, vals, k, rest);
    } else if vals[k] is Some {
        lemma_tag_round_present(fields, vals, k, rest);
    } else {
        lemma_tag_round_skipped(fields, vals, k, rest);
    }
}

/// The field-section round trip: decoding the encoding of any value
/// assignment that fits the declared fields, whatever bytes follow, yields
/// exactly those values back and consumes exactly the encoding.
pub proof fn lemma_fields_round_trip(
    fields: Seq<Field>,
    vals: Seq<Option<ValueModel>>,
    rest: Seq<u8>,
)
    requires
        wf_fields(fields),
        vals_ok(fields, vals),
    ensures
        dec_fields(fields, enc_fields(fields, vals) + rest) matches Ok(r) && r.0 == vals && r.1
            == enc_fields(fields, vals).len(),
{
    let rc = first_tagged(fields, 0);
    lemma_first_tagged_bounds(fields, 0);
    let req = enc_required_from(fields, vals, 0);
    if has_tagged(fields) {
        let tagged = enc_tagged_from(fields, vals, rc) + le8(TAG_END);
        assert(enc_fields(fields, vals) + rest =~= req + (tagged + rest));
        lemma_req_round(fields, vals, 0, tagged + rest);
        assert((req + (tagged + rest)).skip(req.len() as int) =~= tagged + rest);
        assert(rc < fields.len());
        assert forall|j: int| rc <= j < fields.len() implies (#[trigger] fields[j].tag) is Some by {
            assert(fields[rc].tag is Some);
        }
        lemma_tag_round(fields, vals, rc, rest);
        assert(enc_tagged_from(fields, vals, rc) + le8(TAG_END) + rest =~= tagged + rest);
        assert(vals.subrange(0, rc) + vals.subrange(rc, fields.len() as int) =~= vals);
    } else {
        assert(rc == fields.len()) by {
            if rc < fields.len() {
                assert(fields[rc].tag is Some);
            }
        }
        assert(enc_fields(fields, vals) + rest =~= req + rest);
        lemma_req_round(fields, vals, 0, rest);
        assert(vals.subrange(0, rc) =~= vals);
    }
}

// ---------------------------------------------------------------------------
// Executable encoding of field sections.
// ---------------------------------------------------------------------------
/// The model of a runtime value assignment.
pub open spec fn opts_model(vals: Seq<Option<Value>>) -> Seq<Option<ValueModel>> {
    Seq::new(
        vals.len(),
        |i: int|
            match vals[i] {
                Some(v) => Some(v@),
                None => None,
            },
    )
}

fn push_le4(out: &mut Vec<u8>, n: u32)
    ensures
        final(out)@ == old(out)@ + le4(n),
{
    out.push((n & 0xff) as u8);
    out.push(((n >> 8) & 0xff) as u8);
    out.push(((n >> 16) & 0xff) as u8);
    out.push(((n >> 24) & 0xff) as u8);
    proof {
        assert(final(out)@ =~= old(out)@ + le4(n));
    }
}

fn push_le8(out: &mut Vec<u8>, n: u64)
    ensures
        final(out)@ == old(out)@ + le8(n),
{
    out.push((n & 0xff) as u8);
    out.push(((n >> 8) & 0xff) as u8);
    out.push(((n >> 16) & 0xff) as u8);
    out.push(((n >> 24) & 0xff) as u8);
    out.push(((n >> 32) & 0xff) as u8);
    out.push(((n >> 40) & 0xff) as u8);
    out.push(((n >> 48) & 0xff) as u8);
    out.push(((n >> 56) & 0xff) as u8);
    proof {
        assert(final(out)@ =~= old(out)@ + le8(n));
    }
}

fn read_le4(bytes: &Vec<u8>, pos: usize) -> (r: u32)
    requires
        pos + 4 <= bytes@.len(),
    ensures
        r == le4_val(bytes@.skip(pos as int)),
{
    proof {
        vstd::std_specs::vec::axiom_spec_len(bytes);
    }
    (bytes[pos] as u32) | ((bytes[pos + 1] as u32) << 8) | ((bytes[pos + 2] as u32) << 16) | ((
    bytes[pos + 3] as u32) << 24)
}

fn read_le8(bytes: &Vec<u8>, pos: usize) -> (r: u64)
    requires
        pos + 8 <= bytes@.len(),
    ensures
        r == le8_val(bytes@.skip(pos as int)),
{
    proof {
        vstd::std_specs::vec::axiom_spec_len(bytes);
    }
    (bytes[pos] as u64) | ((bytes[pos + 1] as u64) << 8) | ((bytes[pos + 2] as u64) << 16) | ((
    bytes[pos + 3] as u64) << 24) | ((bytes[pos + 4] as u64) << 32) | ((bytes[pos + 5] as u64)
        << 40) | ((bytes[pos + 6] as u64) << 48) | ((bytes[pos + 7] as u64) << 56)
}

/// The primitive a field's value is encoded as.
pub fn field_prim_of(f: &Field) -> (r: Option<Primitive>)
    ensures
        r == field_prim(*f),
{
    match &f.ty {
        TypeRef::Prim(p) => Some(*p),
        TypeRef::Optional(e) => match &**e {
            TypeRef::Prim(p) => Some(*p),
            _ => None,
        },
        _ => None,
    }
}

/// Appends one value's wire bytes.
fn encode_value_into(out: &mut Vec<u8>, v: &Value)
    ensures
        final(out)@ == old(out)@ + enc_value(v@),
{
    match v {
        Value::Bool(b) => {
            out.push(if *b {
                1u8
            } else {
                0u8
            });
            proof {
                assert(final(out)@ =~= old(out)@ + enc_value(v@));
            }
        },
        Value::Int32(x) => {
            push_le4(out, *x as u32);
        },
        Value::Str(s) => {
            push_le8(out, s.len() as u64);
            let ghost mid = out@;
            let mut j: usize = 0;
            while j < s.len()
                invariant
                    j <= s@.len(),
                    out@ == mid + s@.take(j as int),
                decreases s@.len() - j,
            {
                out.push(s[j]);
                proof {
                    assert(mid + s@.take(j + 1) =~= (mid + s@.take(j as int)).push(s@[j as int]));
                }
                j = j + 1;
            }
            proof {
                assert(s@.take(s@.len() as int) =~= s@);
                assert(out@ =~= old(out)@ + enc_value(v@));
            }
        },
    }
}

proof fn lemma_first_tagged_is(fields: Seq<Field>, i: int)
    requires
        0 <= i <= fields.len(),
        forall|j: int| 0 <= j < i ==> (#[trigger] fields[j].tag) is None,
        i < fields.len() ==> fields[i].tag is Some,
    ensures
        first_tagged(fields, 0) == i,
{
    lemma_first_tagged_from(fields, 0, i);
}

proof fn lemma_first_tagged_from(fields: Seq<Field>, k: int, i: int)
    requires
        0 <= k <= i <= fields.len(),
        forall|j: int| k <= j < i ==> (#[trigger] fields[j].tag) is None,
        i < fields.len() ==> fields[i].tag is Some,
    ensures
        first_tagged(fields, k) == i,
    decreases i - k,
{
    if k < i {
        lemma_first_tagged_from(fields, k + 1, i);
    }
}

/// Encodes one field section: the required fields in declaration order,
/// then — only when tagged fields are declared — each present tagged field
/// as tag, length and payload, closed by the end marker.
pub fn encode_fields(fields: &Vec<Field>, vals: &Vec<Option<Value>>) -> (r: Vec<u8>)
    requires
        wf_fields(fields@),
        vals_ok(fields@, opts_model(vals@)),
    ensures
        r@ == enc_fields(fields@, opts_model(vals@)),
{
    let ghost vm = opts_model(vals@);
    let mut out: Vec<u8> = Vec::new();
    let mut i: usize = 0;
    while i < fields.len() && fields[i].tag.is_none()
        invariant
            wf_fields(fields@),
            vals_ok(fields@, vm),
            vm == opts_model(vals@),
            vals@.len() == fields@.len(),
            i <= fields@.len(),
            forall|j: int| 0 <= j < i ==> (#[trigger] fields@[j].tag) is None,
            out@ + enc_required_from(fields@, vm, i as int) == enc_required_from(fields@, vm, 0),
        decreases fields@.len() - i,
    {
        match &vals[i] {
            Some(v) => {
                encode_value_into(&mut out, v);
            },
            None => {
                proof {
                    assert(vm[i as int] is None);
                    assert(false);
                }
            },
        }
        proof {
            assert(enc_required_from(fields@, vm, i as int) == enc_value(vm[i as int]->0)
                + enc_required_from(fields@, vm, i + 1));
            assert(out@ + enc_required_from(fields@, vm, i + 1) =~= enc_required_from(
                fields@,
                vm,
                0,
            ));
        }
        i = i + 1;
    }
    proof {
        lemma_first_tagged_is(fields@, i as int);
        assert(enc_required_from(fields@, vm, i as int) =~= Seq::<u8>::empty());
        assert(out@ =~= enc_required_from(fields@, vm, 0));
    }
    if i < fields.len() {
        proof {
            assert(has_tagged(fields@));
        }
        let ghost req = out@;
        let ghost rc = i as int;
        let mut k: usize = i;
        while k < fields.len()
            invariant
                wf_fields(fields@),
                vals_ok(fields@, vm),
                vm == opts_model(vals@),
                vals@.len() == fields@.len(),
                rc <= k <= fields@.len(),
                out@ + enc_tagged_from(fields@, vm, k as int) == req + enc_tagged_from(
                    fields@,
                    vm,
                    rc,
                ),
                forall|j: int| rc <= j < fields@.len() ==> (#[trigger] fields@[j].tag) is Some,
            decreases fields@.len() - k,
        {
            match &vals[k] {
                Some(v) => {
                    let mut payload: Vec<u8> = Vec::new();
                    encode_value_into(&mut payload, v);
                    match &fields[k].tag {
                        Some(t) => {
                            push_le8(&mut out, *t);
                        },
                        None => {
                            proof {
                                assert(false);
                            }
                        },
                    }
                    push_le8(&mut out, payload.len() as u64);
                    let ghost pl = payload@;
                    out.append(&mut payload);
                    proof {
                        assert(enc_tagged_from(fields@, vm, k as int) == le8(fields@[k as int].tag->0)
                            + le8(enc_value(vm[k as int]->0).len() as u64) + enc_value(
                            vm[k as int]->0,
                        ) + enc_tagged_from(fields@, vm, k + 1));
                        assert(out@ + enc_tagged_from(fields@, vm, k + 1) =~= req
                            + enc_tagged_from(fields@, vm, rc));
                    }
                },
                None => {
                    proof {
                        assert(enc_tagged_from(fields@, vm, k as int) == enc_tagged_from(
                            fields@,
                            vm,
                            k + 1,
                        ));
                    }
                },
            }
            k = k + 1;
        }
        proof {
            assert(enc_tagged_from(fields@, vm, fields@.len() as int) =~= Seq::<u8>::empty());
            assert(out@ =~= req + enc_tagged_from(fields@, vm, rc));
        }
        push_le8(&mut out, TAG_END);
        proof {
            assert(out@ =~= enc_fields(fields@, vm));
        }
    } else {
        proof {
            assert(!has_tagged(fields@));
            assert(out@ =~= enc_fields(fields@, vm));
        }
    }
    out
}

// ---------------------------------------------------------------------------
// Executable decoding of field sections.
// ---------------------------------------------------------------------------
/// Decodes one value of the given primitive type.
fn decode_prim(p: Primitive, bytes: &Vec<u8>, pos: usize) -> (r: Result<
    (Value, usize),
    DecodeError,
>)
    requires
        pos <= bytes@.len(),
    ensures
        match r {
            Ok((v, end)) => dec_prim(p, bytes@.skip(pos as int)) matches Ok(sr) && sr.0 == v@
                && end == pos + sr.1 && pos <= end <= bytes@.len(),
            Err(e) => dec_prim(p, bytes@.skip(pos as int)) == Err::<(ValueModel, int), DecodeError>(
                e,
            ),
        },
{
    let ghost s = bytes@.skip(pos as int);
    match p {
        Primitive::Bool => {
            if bytes.len() - pos < 1 {
                return Err(DecodeError::Truncated);
            }
            let b = bytes[pos];
            if b == 0 {
                Ok((Value::Bool(false), pos + 1))
            } else if b == 1 {
                Ok((Value::Bool(true), pos + 1))
            } else {
                Err(DecodeError::InvalidBool)
            }
        },
        Primitive::Int32 => {
            if bytes.len() - pos < 4 {
                return Err(DecodeError::Truncated);
            }
            let n = read_le4(bytes, pos);
            Ok((Value::Int32(n as i32), pos + 4))
        },
        Primitive::Str => {
            if bytes.len() - pos < 8 {
                return Err(DecodeError::Truncated);
            }
            let n = read_le8(bytes, pos);
            proof {
                assert(le8_val(s) == n);
            }
            if n > (bytes.len() - pos - 8) as u64 {
                return Err(DecodeError::Truncated);
            }
            let nn = n as usize;
            proof {
                vstd::std_specs::vec::axiom_spec_len(bytes);
                assert(nn <= bytes@.len() - pos - 8);
            }
            let mut sv: Vec<u8> = Vec::new();
            let mut j: usize = 0;
            while j < nn
                invariant
                    bytes@.len() <= usize::MAX,
                    pos + 8 + nn <= bytes@.len(),
                    j <= nn,
                    sv@ == bytes@.subrange(pos + 8, pos + 8 + j),
                decreases nn - j,
            {
                sv.push(bytes[pos + 8 + j]);
                proof {
                    assert(sv@ =~= bytes@.subrange(pos + 8, pos + 8 + j + 1));
                }
                j = j + 1;
            }
            proof {
                assert(sv@ =~= s.subrange(8, 8 + n as int));
            }
            Ok((Value::Str(sv), pos + 8 + nn))
        },
    }
}

/// Decodes the required fields from index `k` on.
fn decode_required(fields: &Vec<Field>, k: usize, bytes: &Vec<u8>, pos: usize) -> (r: Result<
    (Vec<Option<Value>>, usize),
    DecodeError,
>)
    requires
        k <= fields@.len(),
        pos <= bytes@.len(),
    ensures
        match r {
            Ok((vs, end)) => dec_required(fields@, k as int, bytes@.skip(pos as int)) matches Ok(sr)
                && sr.0 == opts_model(vs@) && end == pos + sr.1 && pos <= end <= bytes@.len(),
            Err(e) => dec_required(fields@, k as int, bytes@.skip(pos as int)) == Err::<
                (Seq<Option<ValueModel>>, int),
                DecodeError,
            >(e),
        },
    decreases fields@.len() - k,
{
    let ghost s = bytes@.skip(pos as int);
    if k >= fields.len() || fields[k].tag.is_some() {
        let r: Vec<Option<Value>> = Vec::new();
        proof {
            assert(opts_model(r@) =~= Seq::<Option<ValueModel>>::empty());
        }
        return Ok((r, pos));
    }
    let p = match field_prim_of(&fields[k]) {
        Some(p) => p,
        None => {
            return Err(DecodeError::Truncated);
        },
    };
    match decode_prim(p, bytes, pos) {
        Err(e) => Err(e),
        Ok((v, mid)) => {
            proof {
                let c = (mid - pos) as int;
                assert(bytes@.skip(mid as int) =~= s.skip(c));
            }
            match decode_required(fields, k + 1, bytes, mid) {
                Err(e) => Err(e),
                Ok((mut vs, end)) => {
                    let ghost tail_model = opts_model(vs@);
                    vs.insert(0, Some(v));
                    proof {
                        assert(opts_model(vs@) =~= seq![Some(v@)] + tail_model);
                    }
                    Ok((vs, end))
                },
            }
        },
    }
}

/// Decodes the tagged section against the declared tagged fields from
/// index `k` on, skipping unknown tags by their announced length.
#[verifier::rlimit(100)]
fn decode_tagged(fields: &Vec<Field>, k: usize, bytes: &Vec<u8>, pos: usize) -> (r: Result<
    (Vec<Option<Value>>, usize),
    DecodeError,
>)
    requires
        k <= fields@.len(),
        pos <= bytes@.len(),
    ensures
        match r {
            Ok((vs, end)) => dec_tagged(fields@, k as int, bytes@.skip(pos as int)) matches Ok(sr)
                && sr.0 == opts_model(vs@) && end == pos + sr.1 && pos <= end <= bytes@.len(),
            Err(e) => dec_tagged(fields@, k as int, bytes@.skip(pos as int)) == Err::<
                (Seq<Option<ValueModel>>, int),
                DecodeError,
            >(e),
        },
    decreases fields@.len() - k, bytes@.len() - pos,
{
    let ghost s = bytes@.skip(pos as int);
    if bytes.len() - pos < 8 {
        return Err(DecodeError::Truncated);
    }
    let tag = read_le8(bytes, pos);
    proof {
        assert(s.subrange(0, 8) =~= bytes@.subrange(pos as int, pos + 8));
        assert(le8_val(s.subrange(0, 8)) == le8_val(s));
    }
    if tag == TAG_END {
        let mut vs: Vec<Option<Value>> = Vec::new();
        let mut j: usize = k;
        while j < fields.len()
            invariant
                k <= j <= fields@.len(),
                vs@.len() == j - k,
                forall|m: int| 0 <= m < vs@.len() ==> (#[trigger] vs@[m]) is None,
            decreases fields@.len() - j,
        {
            vs.push(None);
            j = j + 1;
        }
        proof {
            assert(opts_model(vs@) =~= Seq::new((fields@.len() - k) as nat, |j: int| None));
        }
        return Ok((vs, pos + 8));
    }
    if bytes.len() - pos < 16 {
        return Err(DecodeError::Truncated);
    }
    let len = read_le8(bytes, pos + 8);
    proof {
        assert(bytes@.skip(pos + 8) =~= s.skip(8));
        assert(s.subrange(8, 16) =~= s.skip(8).subrange(0, 8));
        assert(le8_val(s.subrange(8, 16)) == le8_val(s.skip(8)));
    }
    if len > (bytes.len() - pos - 16) as u64 {
        return Err(DecodeError::Truncated);
    }
    let len_u: usize = len as usize;
    let declared = if k < fields.len() {
        match &fields[k].tag {
            Some(t) => Some(*t),
            None => None,
        }
    } else {
        None
    };
    match declared {
        Some(t) if t == tag => {
            let p = match field_prim_of(&fields[k]) {
                Some(p) => p,
                None => {
                    return Err(DecodeError::Truncated);
                },
            };
            match decode_prim(p, bytes, pos + 16) {
                Err(e) => {
                    proof {
                        assert(bytes@.skip(pos + 16) =~= s.skip(16));
                    }
                    Err(e)
                },
                Ok((v, mid)) => {
                    proof {
                        assert(bytes@.skip(pos + 16) =~= s.skip(16));
                    }
                    if mid - (pos + 16) != len_u {
                        return Err(DecodeError::TagSizeMismatch);
                    }
                    proof {
                        assert(bytes@.skip(mid as int) =~= s.skip(16 + len as int));
                    }
                    match decode_tagged(fields, k + 1, bytes, mid) {
                        Err(e) => Err(e),
                        Ok((mut vs, end)) => {
                            let ghost tail_model = opts_model(vs@);
                            vs.insert(0, Some(v));
                            proof {
                                assert(opts_model(vs@) =~= seq![Some(v@)] + tail_model);
                            }
                            Ok((vs, end))
                        },
                    }
                },
            }
        },
        Some(t) if t < tag => {
            match decode_tagged(fields, k + 1, bytes, pos) {
                Err(e) => Err(e),
                Ok((mut vs, end)) => {
                    let ghost tail_model = opts_model(vs@);
                    vs.insert(0, None);
                    proof {
                        assert(opts_model(vs@) =~= seq![None] + tail_model);
                    }
                    Ok((vs, end))
                },
            }
        },
        _ => {
            proof {
                assert(bytes@.skip(pos + 16 + len as int) =~= s.skip(16 + len as int));
            }
            match decode_tagged(fields, k, bytes, pos + 16 + len_u) {
                Err(e) => Err(e),
                Ok((vs, end)) => Ok((vs, end)),
            }
        },
    }
}

/// Decodes one full field section, mirroring `enc_fields`: the values in
/// field order, each required slot filled, each tagged slot filled exactly
/// when its tag was present, and the position after the section.
pub fn decode_fields(fields: &Vec<Field>, bytes: &Vec<u8>, pos: usize) -> (r: Result<
    (Vec<Option<Value>>, usize),
    DecodeError,
>)
    requires
        wf_fields(fields@),
        pos <= bytes@.len(),
    ensures
        match r {
            Ok((vs, end)) => dec_fields(fields@, bytes@.skip(pos as int)) matches Ok(sr) && sr.0
                == opts_model(vs@) && end == pos + sr.1 && pos <= end <= bytes@.len(),
            Err(e) => dec_fields(fields@, bytes@.skip(pos as int)) == Err::<
                (Seq<Option<ValueModel>>, int),
                DecodeError,
            >(e),
        },
{
    let ghost s = bytes@.skip(pos as int);
    let (mut rv, mid) = match decode_required(fields, 0, bytes, pos) {
        Ok(x) => x,
        Err(e) => {
            return Err(e);
        },
    };
    let mut rc: usize = 0;
    while rc < fields.len() && fields[rc].tag.is_none()
        invariant
            rc <= fields@.len(),
            forall|j: int| 0 <= j < rc ==> (#[trigger] fields@[j].tag) is None,
        decreases fields@.len() - rc,
    {
        rc = rc + 1;
    }
    proof {
        lemma_first_tagged_is(fields@, rc as int);
    }
    if rc == fields.len() {
        proof {
            assert(!has_tagged(fields@));
        }
        Ok((rv, mid))
    } else {
        proof {
            assert(has_tagged(fields@));
            assert(bytes@.skip(mid as int) =~= s.skip(mid - pos));
        }
        match decode_tagged(fields, rc, bytes, mid) {
            Err(e) => Err(e),
            Ok((mut tv, end)) => {
                let ghost rm = opts_model(rv@);
                let ghost tm = opts_model(tv@);
                rv.append(&mut tv);
                proof {
                    assert(opts_model(rv@) =~= rm + tm);
                }
                Ok((rv, end))
            },
        }
    }
}

// ---------------------------------------------------------------------------
// Enums.
// ---------------------------------------------------------------------------
/// Decodes an enum value: a received integer equal to a declared
/// enumerator's value yields that enumerator (the first declared with that
/// value; well-formed enums declare each value once); any other integer is
/// the `InvalidEnumValue` fault, never a crash.
pub fn decode_enum(e: &EnumDef, bytes: &Vec<u8>, pos: usize) -> (r: Result<
    (usize, usize),
    DecodeError,
>)
    requires
        pos <= bytes@.len(),
    ensures
        match r {
            Ok((j, end)) => bytes@.len() - pos >= 4 && j < e.enumerators@.len()
                && e.enumerators@[j as int].value == le4_val(bytes@.skip(pos as int)) && end == pos
                + 4,
            Err(DecodeError::Truncated) => bytes@.len() - pos < 4,
            Err(DecodeError::InvalidEnumValue) => bytes@.len() - pos >= 4 && forall|j: int|
                0 <= j < e.enumerators@.len() ==> (#[trigger] e.enumerators@[j]).value != le4_val(
                    bytes@.skip(pos as int),
                ),
            Err(_) => false,
        },
{
    if bytes.len() - pos < 4 {
        return Err(DecodeError::Truncated);
    }
    proof {
        vstd::std_specs::vec::axiom_spec_len(bytes);
    }
    let v = read_le4(bytes, pos);
    let mut j: usize = 0;
    while j < e.enumerators.len()
        invariant
            bytes@.len() <= usize::MAX,
            pos + 4 <= bytes@.len(),
            j <= e.enumerators@.len(),
            v == le4_val(bytes@.skip(pos as int)),
            forall|m: int| 0 <= m < j ==> (#[trigger] e.enumerators@[m]).value != v,
        decreases e.enumerators@.len() - j,
    {
        if e.enumerators[j].value == v {
            return Ok((j, pos + 4));
        }
        j = j + 1;
    }
    Err(DecodeError::InvalidEnumValue)
}

// ---------------------------------------------------------------------------
// Classes and exceptions: base-to-derived chains of length-prefixed slices.
// ---------------------------------------------------------------------------
/// Whether level values fit an inheritance chain: one value assignment per
/// chain level, each fitting that level's fields, each level's encoding
/// small enough for its length prefix.
/// One chain level's values fit its fields and its slice length prefix.
pub open spec fn level_ok(entities: Seq<Entity>, idx: int, v: Seq<Option<ValueModel>>) -> bool {
    &&& wf_fields(own_fields(entities, idx))
    &&& vals_ok(own_fields(entities, idx), v)
    &&& enc_fields(own_fields(entities, idx), v).len() + 8 <= u64::MAX
}

pub open spec fn class_vals_ok(
    entities: Seq<Entity>,
    ch: Seq<int>,
    lv: Seq<Seq<Option<ValueModel>>>,
) -> bool {
    &&& lv.len() == ch.len()
    &&& forall|l: int| 0 <= l < ch.len() ==> #[trigger] level_ok(entities, ch[l], lv[l])
}

/// The wire bytes of the chain levels from `l` on: each level's field
/// section as one length-prefixed slice, base levels first.
pub open spec fn enc_slices(
    entities: Seq<Entity>,
    ch: Seq<int>,
    lv: Seq<Seq<Option<ValueModel>>>,
    l: int,
) -> Seq<u8>
    decreases ch.len() - l,
{
    if l < 0 || l >= ch.len() {
        Seq::empty()
    } else {
        let payload = enc_fields(own_fields(entities, ch[l]), lv[l]);
        le8(payload.len() as u64) + payload + enc_slices(entities, ch, lv, l + 1)
    }
}

/// The full wire bytes of a class or exception instance of entity `i`: the
/// slice count, then one slice per chain level, base-to-derived.
pub open spec fn enc_class(
    entities: Seq<Entity>,
    i: int,
    lv: Seq<Seq<Option<ValueModel>>>,
) -> Seq<u8> {
    le8(chain(entities, i).len() as u64) + enc_slices(entities, chain(entities, i), lv, 0)
}

/// Decoding the known chain levels from `l` on, each slice holding exactly
/// its announced length.
pub open spec fn dec_slices(entities: Seq<Entity>, ch: Seq<int>, l: int, s: Seq<u8>) -> Result<
    (Seq<Seq<Option<ValueModel>>>, int),
    DecodeError,
>
    decreases ch.len() - l,
{
    if l < 0 || l >= ch.len() {
        Ok((Seq::empty(), 0))
    } else if s.len() < 8 {
        Err(DecodeError::Truncated)
    } else {
        let len = le8_val(s.subrange(0, 8)) as int;
        if s.len() < 8 + len {
            Err(DecodeError::Truncated)
        } else {
            match dec_fields(own_fields(entities, ch[l]), s.skip(8)) {
                Err(e) => Err(e),
                Ok((vs, c)) => if c != len {
                    Err(DecodeError::SliceSizeMismatch)
                } else {
                    match dec_slices(entities, ch, l + 1, s.skip(8 + len)) {
                        Err(e) => Err(e),
                        Ok((lvs, c2)) => Ok((seq![vs] + lvs, 8 + len + c2)),
                    }
                },
            }
        }
    }
}

/// Skipping `m` slices a receiver's static type does not know, each by its
/// announced length: the number of bytes skipped.
pub open spec fn dec_extra(s: Seq<u8>, m: int) -> Result<int, DecodeError>
    decreases m,
{
    if m <= 0 {
        Ok(0)
    } else if s.len() < 8 {
        Err(DecodeError::Truncated)
    } else {
        let len = le8_val(s.subrange(0, 8)) as int;
        if s.len() < 8 + len {
            Err(DecodeError::Truncated)
        } else {
            match dec_extra(s.skip(8 + len), m - 1) {
                Err(e) => Err(e),
                Ok(c) => Ok(8 + len + c),
            }
        }
    }
}

/// The model of a decoded class or exception instance: the values of the
/// levels the receiver's static type knows, and the count and raw bytes of
/// the derived-only slices it preserves unread.
pub struct DecodedClassModel {
    pub levels: Seq<Seq<Option<ValueModel>>>,
    pub extra_count: int,
    pub tail: Seq<u8>,
    pub consumed: int,
}

/// Decoding an instance through the static type of entity `i`: consumes
/// exactly the levels `i` knows and keeps any derived-only slices as raw
/// bytes; an encoding with fewer slices than `i`'s chain is the
/// `MissingSlices` fault.
pub open spec fn dec_class(entities: Seq<Entity>, i: int, s: Seq<u8>) -> Result<
    DecodedClassModel,
    DecodeError,
> {
    let ch = chain(entities, i);
    if s.len() < 8 {
        Err(DecodeError::Truncated)
    } else {
        let count = le8_val(s.subrange(0, 8)) as int;
        if count < ch.len() {
            Err(DecodeError::MissingSlices)
        } else {
            match dec_slices(entities, ch, 0, s.skip(8)) {
                Err(e) => Err(e),
                Ok((lv, c)) => match dec_extra(s.skip(8 + c), count - ch.len()) {
                    Err(e) => Err(e),
                    Ok(c2) => Ok(
                        DecodedClassModel {
                            levels: lv,
                            extra_count: count - ch.len(),
                            tail: s.skip(8 + c).subrange(0, c2),
                            consumed: 8 + c + c2,
                        },
                    ),
                },
            }
        }
    }
}

/// Re-encoding a decoded instance: the receiver's known levels re-encoded,
/// followed by the preserved derived-only slices, under the original count.
pub open spec fn reenc_class(
    entities: Seq<Entity>,
    i: int,
    lv: Seq<Seq<Option<ValueModel>>>,
    extra_count: int,
    tail: Seq<u8>,
) -> Seq<u8> {
    le8((chain(entities, i).len() + extra_count) as u64) + enc_slices(
        entities,
        chain(entities, i),
        lv,
        0,
    ) + tail
}

/// The chain of a well-formed entity ends at the entity, stays within the
/// earlier entities, and keeps the entity's kind.
pub proof fn lemma_chain_shape(entities: Seq<Entity>, i: int)
    requires
        wf_entities(entities),
        0 <= i < entities.len(),
    ensures
        1 <= chain(entities, i).len() <= i + 1,
        chain(entities, i).last() == i,
        forall|l: int|
            0 <= l < chain(entities, i).len() ==> 0 <= #[trigger] chain(entities, i)[l] <= i,
        entities[i] is Class ==> forall|l: int|
            0 <= l < chain(entities, i).len() ==> entities[#[trigger] chain(entities, i)[l]]
                is Class,
        entities[i] is Exception ==> forall|l: int|
            0 <= l < chain(entities, i).len() ==> entities[#[trigger] chain(entities, i)[l]]
                is Exception,
    decreases i,
{
    match base_of(entities, i) {
        Some(b) => {
            assert(crate::ast::wf_entity(entities, i));
            lemma_chain_shape(entities, b as int);
        },
        None => {},
    }
}

/// Every chain level's own chain is the corresponding prefix of the full
/// chain: a base's static view of an instance is a prefix of the derived
/// encoding.
pub proof fn lemma_chain_prefix(entities: Seq<Entity>, i: int, l: int)
    requires
        wf_entities(entities),
        0 <= i < entities.len(),
        0 <= l < chain(entities, i).len(),
    ensures
        chain(entities, chain(entities, i)[l]) == chain(entities, i).take(l + 1),
    decreases i,
{
    lemma_chain_shape(entities, i);
    match base_of(entities, i) {
        Some(b) => {
            assert(crate::ast::wf_entity(entities, i));
            lemma_chain_shape(entities, b as int);
            if l < chain(entities, b as int).len() {
                lemma_chain_prefix(entities, b as int, l);
                assert(chain(entities, i).take(l + 1) =~= chain(entities, b as int).take(l + 1));
            } else {
                assert(chain(entities, i).take(l + 1) =~= chain(entities, i));
            }
        },
        None => {
            assert(chain(entities, i) =~= seq![i]);
            assert(chain(entities, i).take(l + 1) =~= seq![i]);
        },
    }
}

#[verifier::rlimit(100)]
proof fn lemma_slices_round(
    entities: Seq<Entity>,
    ch: Seq<int>,
    lv: Seq<Seq<Option<ValueModel>>>,
    l: int,
    rest: Seq<u8>,
)
    requires
        class_vals_ok(entities, ch, lv),
        0 <= l <= ch.len(),
    ensures
        dec_slices(entities, ch, l, enc_slices(entities, ch, lv, l) + rest) matches Ok(r) && r.0
            == lv.subrange(l, ch.len() as int) && r.1 == enc_slices(entities, ch, lv, l).len(),
    decreases ch.len() - l,
{
    if l >= ch.len() {
        assert(lv.subrange(l, ch.len() as int) =~= Seq::<Seq<Option<ValueModel>>>::empty());
    } else {
        assert(level_ok(entities, ch[l], lv[l]));
        let fields = own_fields(entities, ch[l]);
        let payload = enc_fields(fields, lv[l]);
        let plen = payload.len() as u64;
        assert(plen as int == payload.len());
        let tail = payload + (enc_slices(entities, ch, lv, l + 1) + rest);
        let s = enc_slices(entities, ch, lv, l) + rest;
        assert(s =~= le8(plen) + tail);
        lemma_le8_concat(plen, tail);
        assert(s.subrange(0, 8) =~= le8(plen));
        lemma_le8_round(plen);
        assert(le8_val(s.subrange(0, 8)) == plen);
        assert(s.skip(8) =~= payload + (enc_slices(entities, ch, lv, l + 1) + rest));
        lemma_fields_round_trip(fields, lv[l], enc_slices(entities, ch, lv, l + 1) + rest);
        lemma_slices_round(entities, ch, lv, l + 1, rest);
        assert(s.skip(8 + plen as int) =~= enc_slices(entities, ch, lv, l + 1) + rest);
        assert(seq![lv[l]] + lv.subrange(l + 1, ch.len() as int) =~= lv.subrange(
            l,
            ch.len() as int,
        ));
    }
}

proof fn lemma_extra_skip(
    entities: Seq<Entity>,
    ch: Seq<int>,
    lv: Seq<Seq<Option<ValueModel>>>,
    l: int,
    rest: Seq<u8>,
)
    requires
        class_vals_ok(entities, ch, lv),
        0 <= l <= ch.len(),
    ensures
        dec_extra(enc_slices(entities, ch, lv, l) + rest, ch.len() - l) == Ok::<int, DecodeError>(
            enc_slices(entities, ch, lv, l).len() as int,
        ),
    decreases ch.len() - l,
{
    if l >= ch.len() {
    } else {
        assert(level_ok(entities, ch[l], lv[l]));
        let fields = own_fields(entities, ch[l]);
        let payload = enc_fields(fields, lv[l]);
        let plen = payload.len() as u64;
        assert(plen as int == payload.len());
        let tail = payload + (enc_slices(entities, ch, lv, l + 1) + rest);
        let s = enc_slices(entities, ch, lv, l) + rest;
        assert(s =~= le8(plen) + tail);
        lemma_le8_concat(plen, tail);
        assert(s.subrange(0, 8) =~= le8(plen));
        lemma_le8_round(plen);
        assert(le8_val(s.subrange(0, 8)) == plen);
        lemma_extra_skip(entities, ch, lv, l + 1, rest);
        assert(s.skip(8 + plen as int) =~= enc_slices(entities, ch, lv, l + 1) + rest);
    }
}

proof fn lemma_enc_slices_shared_prefix(
    entities: Seq<Entity>,
    chd: Seq<int>,
    chb: Seq<int>,
    lv: Seq<Seq<Option<ValueModel>>>,
    lvb: Seq<Seq<Option<ValueModel>>>,
    m: int,
)
    requires
        chb == chd.take(chb.len() as int),
        chb.len() <= chd.len(),
        lvb == lv.take(chb.len() as int),
        lv.len() == chd.len(),
        0 <= m <= chb.len(),
    ensures
        enc_slices(entities, chd, lv, m) == enc_slices(entities, chb, lvb, m) + enc_slices(
            entities,
            chd,
            lv,
            chb.len() as int,
        ),
    decreases chb.len() - m,
{
    if m >= chb.len() {
        assert(enc_slices(entities, chb, lvb, m) =~= Seq::<u8>::empty());
        assert(enc_slices(entities, chd, lv, m) =~= Seq::<u8>::empty() + enc_slices(
            entities,
            chd,
            lv,
            chb.len() as int,
        ));
    } else {
        lemma_enc_slices_shared_prefix(entities, chd, chb, lv, lvb, m + 1);
        assert(chb[m] == chd[m]);
        assert(lvb[m] == lv[m]);
        assert(enc_slices(entities, chd, lv, m) =~= enc_slices(entities, chb, lvb, m)
            + enc_slices(entities, chd, lv, chb.len() as int));
    }
}

/// Forward-compatible slicing: encoding an instance of a derived entity
/// and decoding it through the static type of any level of its chain
/// succeeds, consumes exactly that level's known slices, and preserves the
/// derived-only slices as raw bytes.
proof fn lemma_take_vals_ok(
    entities: Seq<Entity>,
    ch: Seq<int>,
    lv: Seq<Seq<Option<ValueModel>>>,
    n: int,
)
    requires
        class_vals_ok(entities, ch, lv),
        0 <= n <= ch.len(),
    ensures
        class_vals_ok(entities, ch.take(n), lv.take(n)),
{
    assert forall|m: int| 0 <= m < ch.take(n).len() implies #[trigger] level_ok(
        entities,
        ch.take(n)[m],
        lv.take(n)[m],
    ) by {
        assert(ch.take(n)[m] == ch[m]);
        assert(lv.take(n)[m] == lv[m]);
        assert(level_ok(entities, ch[m], lv[m]));
    }
}

proof fn lemma_skip_vals_ok(
    entities: Seq<Entity>,
    ch: Seq<int>,
    lv: Seq<Seq<Option<ValueModel>>>,
    n: int,
)
    requires
        class_vals_ok(entities, ch, lv),
        0 <= n <= ch.len(),
    ensures
        class_vals_ok(entities, ch.skip(n), lv.subrange(n, ch.len() as int)),
{
    let lv2 = lv.subrange(n, ch.len() as int);
    assert forall|m: int| 0 <= m < ch.skip(n).len() implies #[trigger] level_ok(
        entities,
        ch.skip(n)[m],
        lv2[m],
    ) by {
        assert(ch.skip(n)[m] == ch[n + m]);
        assert(lv2[m] == lv[n + m]);
        assert(level_ok(entities, ch[n + m], lv[n + m]));
    }
}

#[verifier::rlimit(100)]
pub proof fn lemma_class_slicing(
    entities: Seq<Entity>,
    i: int,
    l: int,
    lv: Seq<Seq<Option<ValueModel>>>,
)
    requires
        wf_entities(entities),
        0 <= i < entities.len(),
        i + 1 <= u64::MAX,
        entities[i] is Class || entities[i] is Exception,
        class_vals_ok(entities, chain(entities, i), lv),
        0 <= l < chain(entities, i).len(),
    ensures
        dec_class(entities, chain(entities, i)[l], enc_class(entities, i, lv)) matches Ok(m)
            && m.levels == lv.take(l + 1) && m.extra_count == chain(entities, i).len() - (l + 1)
            && m.tail == enc_slices(entities, chain(entities, i), lv, l + 1) && m.consumed
            == enc_class(entities, i, lv).len(),
{
    let chd = chain(entities, i);
    let b = chd[l];
    lemma_chain_shape(entities, i);
    lemma_chain_prefix(entities, i, l);
    let chb = chain(entities, b);
    assert(chb == chd.take(l + 1));
    assert(chb.len() == l + 1);
    let lvb = lv.take(l + 1);
    let s = enc_class(entities, i, lv);
    let body = enc_slices(entities, chd, lv, 0);
    let count = chd.len() as u64;
    assert(chd.len() <= i + 1);
    assert(count as int == chd.len());
    assert(s =~= le8(count) + body);
    lemma_le8_concat(count, body);
    assert(s.subrange(0, 8) =~= le8(count));
    lemma_le8_round(count);
    assert(le8_val(s.subrange(0, 8)) == count);
    assert(s.skip(8) =~= body);
    let tail = enc_slices(entities, chd, lv, l + 1);
    lemma_enc_slices_shared_prefix(entities, chd, chb, lv, lvb, 0);
    assert(body == enc_slices(entities, chb, lvb, 0) + tail);
    lemma_take_vals_ok(entities, chd, lv, l + 1);
    assert(chb =~= chd.take(l + 1));
    lemma_slices_round(entities, chb, lvb, 0, tail);
    assert(lvb.subrange(0, chb.len() as int) =~= lvb);
    let c = enc_slices(entities, chb, lvb, 0).len() as int;
    assert(body.skip(c) =~= tail);
    let lv_rest = lv.subrange(l + 1, chd.len() as int);
    lemma_skip_vals_ok(entities, chd, lv, l + 1);
    assert(enc_slices_shift(entities, chd, lv, l + 1, chd.skip(l + 1), lv_rest)) by {
        lemma_enc_slices_shift(entities, chd, lv, l + 1, chd.skip(l + 1), lv_rest, 0);
    }
    lemma_extra_skip(entities, chd.skip(l + 1), lv_rest, 0, Seq::empty());
    assert(enc_slices(entities, chd.skip(l + 1), lv_rest, 0) + Seq::<u8>::empty() =~= tail);
    assert(s.skip(8 + c) =~= tail);
    assert(chd.skip(l + 1).len() == count - chb.len());
    assert(dec_extra(tail, count - chb.len() as int) == Ok::<int, DecodeError>(tail.len() as int));
    assert(tail.subrange(0, tail.len() as int) =~= tail);
    assert(s.len() == 8 + c + tail.len());
}

/// The slices from level `l` of a chain equal the slices from level zero
/// of the shifted chain.
pub open spec fn enc_slices_shift(
    entities: Seq<Entity>,
    ch: Seq<int>,
    lv: Seq<Seq<Option<ValueModel>>>,
    l: int,
    ch2: Seq<int>,
    lv2: Seq<Seq<Option<ValueModel>>>,
) -> bool {
    enc_slices(entities, ch, lv, l) == enc_slices(entities, ch2, lv2, 0)
}

proof fn lemma_enc_slices_shift(
    entities: Seq<Entity>,
    ch: Seq<int>,
    lv: Seq<Seq<Option<ValueModel>>>,
    l: int,
    ch2: Seq<int>,
    lv2: Seq<Seq<Option<ValueModel>>>,
    m: int,
)
    requires
        0 <= l <= ch.len(),
        lv.len() == ch.len(),
        ch2 == ch.skip(l),
        lv2 == lv.subrange(l, ch.len() as int),
        0 <= m <= ch2.len(),
    ensures
        enc_slices(entities, ch, lv, l + m) == enc_slices(entities, ch2, lv2, m),
    decreases ch2.len() - m,
{
    if m >= ch2.len() {
        assert(enc_slices(entities, ch, lv, l + m) =~= enc_slices(entities, ch2, lv2, m));
    } else {
        lemma_enc_slices_shift(entities, ch, lv, l, ch2, lv2, m + 1);
        assert(ch2[m] == ch[l + m]);
        assert(lv2[m] == lv[l + m]);
    }
}

/// Faithful re-encoding after slicing: a receiver that decoded through a
/// base level and re-encodes what it holds — its known levels plus the
/// preserved derived-only slices — reproduces the original bytes exactly.
#[verifier::rlimit(100)]
pub proof fn lemma_class_reencode(
    entities: Seq<Entity>,
    i: int,
    l: int,
    lv: Seq<Seq<Option<ValueModel>>>,
)
    requires
        wf_entities(entities),
        0 <= i < entities.len(),
        i + 1 <= u64::MAX,
        entities[i] is Class || entities[i] is Exception,
        class_vals_ok(entities, chain(entities, i), lv),
        0 <= l < chain(entities, i).len(),
    ensures
        dec_class(entities, chain(entities, i)[l], enc_class(entities, i, lv)) matches Ok(m)
            && reenc_class(entities, chain(entities, i)[l], m.levels, m.extra_count, m.tail)
            == enc_class(entities, i, lv),
{
    lemma_class_slicing(entities, i, l, lv);
    let chd = chain(entities, i);
    let b = chd[l];
    lemma_chain_prefix(entities, i, l);
    let chb = chain(entities, b);
    let m = dec_class(entities, b, enc_class(entities, i, lv))->Ok_0;
    lemma_enc_slices_shared_prefix(entities, chd, chb, lv, lv.take(l + 1), 0);
    assert(chb.len() + m.extra_count == chd.len());
    assert(reenc_class(entities, b, m.levels, m.extra_count, m.tail) =~= enc_class(
        entities,
        i,
        lv,
    ));
}

} // verus!
