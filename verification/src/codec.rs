//! The record codec: the mathematical definition of the wire format over a
//! resolved layout — what encode writes, what decode reads back, and how many
//! bytes a value occupies — together with the executable encode, decode and
//! size routines and the laws that tie them together.
use vstd::prelude::*;

use crate::bytes::{
    be_bytes, be_uint, bound, get_uint_be, get_uint_le, le_bytes, le_uint, lemma_be_bytes_len,
    lemma_be_uint_of_be_bytes, lemma_bound_16, lemma_bound_positive, lemma_le_bytes_len,
    lemma_le_uint_of_le_bytes, lemma_uint_below_bound, put_uint_be, put_uint_le,
};
use crate::layout::{
    lemma_view_layout_attrs, view_elem_kind, view_field_kind, view_layout, view_layout_attr,
    view_layout_attrs, ElemKind, ElemKindV, FieldKind, FieldKindV, LayoutAttr, LayoutAttrV,
    LayoutV, RecordLayout,
};
use crate::structs::DatatypeEndianness;
use crate::types::IntegerType;
use crate::value::{lemma_view_values, view_value, view_values, Value, ValueV};

verus! {

/// A run-time decoding failure.
#[derive(Clone, Copy, Debug, PartialEq, Eq, Structural)]
pub enum DecodeError {
    /// The stream ended before every attribute was read.
    UnexpectedEof,
    /// An enumeration byte pattern matches no declared case.
    InvalidDiscriminant,
}

/// Whether an attribute contributes a field to the in-memory record: length
/// attributes are derived and reserved attributes are wire-only.
pub open spec fn materialized(a: LayoutAttrV) -> bool {
    !a.reserved && !(a.kind is Length)
}

/// The record field index that attribute `j` reads from: the number of
/// materialized attributes before it.
pub open spec fn field_index(attrs: Seq<LayoutAttrV>, j: int) -> int
    decreases j,
{
    if j <= 0 {
        0
    } else {
        field_index(attrs, j - 1) + if materialized(attrs[j - 1]) {
            1int
        } else {
            0int
        }
    }
}

/// How many fields the in-memory record for this attribute list holds.
pub open spec fn num_fields(attrs: Seq<LayoutAttrV>) -> int {
    field_index(attrs, attrs.len() as int)
}

/// The byte string of an unsigned value of width `w` in byte order `e`.
pub open spec fn uint_bytes(e: DatatypeEndianness, w: nat, v: nat) -> Seq<u8> {
    match e {
        DatatypeEndianness::BigEndian => be_bytes(v, w),
        DatatypeEndianness::LittleEndian => le_bytes(v, w),
    }
}

/// The unsigned value a byte string denotes in byte order `e`.
pub open spec fn uint_of(e: DatatypeEndianness, s: Seq<u8>) -> nat {
    match e {
        DatatypeEndianness::BigEndian => be_uint(s),
        DatatypeEndianness::LittleEndian => le_uint(s),
    }
}

/// The smallest index before `j` holding a length attribute of this name, or
/// `-1` if none exists.
pub open spec fn first_length_before(attrs: Seq<LayoutAttrV>, name: Seq<char>, j: int) -> int
    decreases j,
{
    if j <= 0 || j > attrs.len() {
        -1
    } else {
        let r = first_length_before(attrs, name, j - 1);
        if r >= 0 {
            r
        } else if attrs[j - 1].kind is Length && attrs[j - 1].name == name {
            j - 1
        } else {
            -1
        }
    }
}

/// The smallest index before `j` holding a collection attribute of this
/// name, or `-1` if none exists.
pub open spec fn first_collection_before(attrs: Seq<LayoutAttrV>, name: Seq<char>, j: int) -> int
    decreases j,
{
    if j <= 0 || j > attrs.len() {
        -1
    } else {
        let r = first_collection_before(attrs, name, j - 1);
        if r >= 0 {
            r
        } else if attrs[j - 1].kind is Collection && attrs[j - 1].name == name {
            j - 1
        } else {
            -1
        }
    }
}

/// The unsigned wire value held by an integer-kind field value.
pub open spec fn int_val(v: ValueV) -> u128 {
    match v {
        ValueV::Integer(n) => n,
        _ => 0,
    }
}

/// The bit pattern held by a float-kind field value.
pub open spec fn float_val(v: ValueV) -> u64 {
    match v {
        ValueV::Float(b) => b,
        _ => 0,
    }
}

/// The bytes held by a text-kind field value.
pub open spec fn text_bytes(v: ValueV) -> Seq<u8> {
    match v {
        ValueV::Text(bs) => bs,
        _ => Seq::empty(),
    }
}

/// The elements held by a collection-kind field value.
pub open spec fn list_items(v: ValueV) -> Seq<ValueV> {
    match v {
        ValueV::List(items) => items,
        _ => Seq::empty(),
    }
}

/// The fields held by a record-kind field value.
pub open spec fn rec_fields(v: ValueV) -> Seq<ValueV> {
    match v {
        ValueV::Record(fields) => fields,
        _ => Seq::empty(),
    }
}

/// The element count that the length attribute at index `j` reports: the
/// element count of the collection attribute sharing its name (zero if none
/// exists), silently truncated to the length attribute's integer width.
pub open spec fn length_value(attrs: Seq<LayoutAttrV>, fields: Seq<ValueV>, j: int) -> nat {
    match attrs[j].kind {
        FieldKindV::Length(it) => {
            let ci = first_collection_before(attrs, attrs[j].name, attrs.len() as int);
            let cnt: nat = if ci >= 0 {
                list_items(fields[field_index(attrs, ci)]).len()
            } else {
                0
            };
            cnt % bound(it.spec_size())
        },
        _ => 0,
    }
}

/// The bytes attribute `j` contributes to the encoding.
pub open spec fn encode_attr(attrs: Seq<LayoutAttrV>, fields: Seq<ValueV>, j: int) -> Seq<u8>
    decreases attrs[j].kind, 0int, 0int,
{
    let a = attrs[j];
    let fi = field_index(attrs, j);
    match a.kind {
        FieldKindV::Integer(it) => uint_bytes(
            a.endianness,
            it.spec_size(),
            if a.reserved {
                0
            } else {
                int_val(fields[fi]) as nat
            },
        ),
        FieldKindV::Float(ft) => uint_bytes(
            a.endianness,
            ft.spec_size(),
            if a.reserved {
                0
            } else {
                float_val(fields[fi]) as nat
            },
        ),
        FieldKindV::Text => text_bytes(fields[fi]) + seq![0u8],
        FieldKindV::Record(rl) => encode_fields(rl, rec_fields(fields[fi])),
        FieldKindV::Collection(elem, _) => encode_list(elem, a.endianness, list_items(fields[fi])),
        FieldKindV::Length(it) => uint_bytes(
            a.endianness,
            it.spec_size(),
            length_value(attrs, fields, j),
        ),
    }
}

/// The bytes that attributes `j..` contribute to the encoding.
pub open spec fn encode_from(attrs: Seq<LayoutAttrV>, fields: Seq<ValueV>, j: int) -> Seq<u8>
    decreases attrs, attrs.len() - j, 1int,
{
    if j < 0 || j >= attrs.len() {
        Seq::empty()
    } else {
        encode_attr(attrs, fields, j) + encode_from(attrs, fields, j + 1)
    }
}

/// The encoding of a whole record: every attribute's bytes, in wire order.
pub open spec fn encode_fields(l: LayoutV, fields: Seq<ValueV>) -> Seq<u8>
    decreases l, l.attrs.len() + 1, 1int,
{
    encode_from(l.attrs, fields, 0)
}

/// The bytes one collection element contributes, in the collection
/// attribute's byte order.
pub open spec fn encode_elem(elem: ElemKindV, e: DatatypeEndianness, v: ValueV) -> Seq<u8>
    decreases elem, 0int, 0int,
{
    match elem {
        ElemKindV::Integer(it) => uint_bytes(e, it.spec_size(), int_val(v) as nat),
        ElemKindV::Float(ft) => uint_bytes(e, ft.spec_size(), float_val(v) as nat),
        ElemKindV::Text => text_bytes(v) + seq![0u8],
        ElemKindV::Record(rl) => encode_fields(rl, rec_fields(v)),
    }
}

/// The bytes a collection's elements contribute, element by element.
pub open spec fn encode_list(elem: ElemKindV, e: DatatypeEndianness, items: Seq<ValueV>) -> Seq<u8>
    decreases elem, items.len(), 1int,
{
    if items.len() == 0 {
        Seq::empty()
    } else {
        encode_elem(elem, e, items[0]) + encode_list(elem, e, items.drop_first())
    }
}


/// Whether a record value fits a layout: one field per materialized
/// attribute, each of the right kind, integers and float patterns within
/// their width, and fixed-arity collections holding exactly their arity.
///
/// With `strict` set it also demands what exact round-tripping needs: text
/// holds no zero byte, and a dynamic collection's count fits its length
/// attribute's width.
pub open spec fn matches_fields(l: LayoutV, fields: Seq<ValueV>, strict: bool) -> bool
    decreases l, l.attrs.len() + 1, 1int,
{
    fields.len() == num_fields(l.attrs) && matches_from(l.attrs, fields, 0, strict)
}

/// Whether the fields fit the attributes at or after index `j`.
pub open spec fn matches_from(attrs: Seq<LayoutAttrV>, fields: Seq<ValueV>, j: int, strict: bool) -> bool
    decreases attrs, attrs.len() - j, 1int,
{
    if j < 0 || j >= attrs.len() {
        true
    } else {
        matches_attr(attrs, fields, j, strict) && matches_from(attrs, fields, j + 1, strict)
    }
}

/// Whether the field for attribute `j` fits it.
pub open spec fn matches_attr(attrs: Seq<LayoutAttrV>, fields: Seq<ValueV>, j: int, strict: bool) -> bool
    decreases attrs[j].kind, 0int, 0int,
{
    let a = attrs[j];
    let fi = field_index(attrs, j);
    if a.reserved || a.kind is Length {
        true
    } else {
        match a.kind {
            FieldKindV::Integer(it) => fields[fi] is Integer && (int_val(fields[fi]) as nat)
                < bound(it.spec_size()),
            FieldKindV::Float(ft) => fields[fi] is Float && (float_val(fields[fi]) as nat) < bound(
                ft.spec_size(),
            ),
            FieldKindV::Text => fields[fi] is Text && (strict ==> !text_bytes(
                fields[fi],
            ).contains(0u8)),
            FieldKindV::Record(rl) => fields[fi] is Record && matches_fields(
                rl,
                rec_fields(fields[fi]),
                strict,
            ),
            FieldKindV::Collection(elem, arity) => fields[fi] is List && (
            arity matches Some(n) ==> list_items(fields[fi]).len() == n) && matches_list(
                elem,
                list_items(fields[fi]),
                strict,
            ) && (strict && arity is None ==> count_fits(attrs, fields, j)),
            FieldKindV::Length(_) => true,
        }
    }
}

/// Whether the element count of the collection at index `j` fits the integer
/// width of its paired length attribute.
pub open spec fn count_fits(attrs: Seq<LayoutAttrV>, fields: Seq<ValueV>, j: int) -> bool {
    let li = first_length_before(attrs, attrs[j].name, attrs.len() as int);
    &&& 0 <= li < attrs.len()
    &&& attrs[li].kind is Length
    &&& list_items(fields[field_index(attrs, j)]).len() < bound(
        attrs[li].kind->Length_0.spec_size(),
    )
}

/// Whether every element fits the element kind.
pub open spec fn matches_list(elem: ElemKindV, items: Seq<ValueV>, strict: bool) -> bool
    decreases elem, items.len(), 1int,
{
    if items.len() == 0 {
        true
    } else {
        matches_elem(elem, items[0], strict) && matches_list(elem, items.drop_first(), strict)
    }
}

/// Whether one element value fits the element kind.
pub open spec fn matches_elem(elem: ElemKindV, v: ValueV, strict: bool) -> bool
    decreases elem, 0int, 0int,
{
    match elem {
        ElemKindV::Integer(it) => v is Integer && (int_val(v) as nat) < bound(it.spec_size()),
        ElemKindV::Float(ft) => v is Float && (float_val(v) as nat) < bound(ft.spec_size()),
        ElemKindV::Text => v is Text && (strict ==> !text_bytes(v).contains(0u8)),
        ElemKindV::Record(rl) => v is Record && matches_fields(rl, rec_fields(v), strict),
    }
}

/// The index of the first zero byte at or after `pos`, if any.
pub open spec fn find_zero(bytes: Seq<u8>, pos: int) -> Option<int>
    decreases bytes.len() - pos,
{
    if pos < 0 || pos >= bytes.len() {
        None
    } else if bytes[pos] == 0u8 {
        Some(pos)
    } else {
        find_zero(bytes, pos + 1)
    }
}

/// Decoding a whole record at `pos`: the reconstructed fields and the
/// position one past the record's last byte, or `None` when the stream ends
/// too early.
pub open spec fn decode_fields(l: LayoutV, bytes: Seq<u8>, pos: int) -> Option<(Seq<ValueV>, int)>
    decreases l, l.attrs.len() + 1, 1int,
{
    decode_from(l.attrs, bytes, pos, 0, Seq::empty())
}

/// Decoding the attributes at or after `j`, with `lens` holding the value
/// each earlier length attribute decoded to (zero for other attributes).
pub open spec fn decode_from(
    attrs: Seq<LayoutAttrV>,
    bytes: Seq<u8>,
    pos: int,
    j: int,
    lens: Seq<u128>,
) -> Option<(Seq<ValueV>, int)>
    decreases attrs, attrs.len() - j, 1int,
{
    if j < 0 || j >= attrs.len() {
        Some((Seq::empty(), pos))
    } else {
        match decode_attr(attrs, bytes, pos, j, lens) {
            None => None,
            Some((vs, p2, lv)) => match decode_from(attrs, bytes, p2, j + 1, lens.push(lv)) {
                None => None,
                Some((rest, pend)) => Some((vs + rest, pend)),
            },
        }
    }
}

/// Decoding the single attribute `j` at `pos`: the materialized values it
/// contributes (none for reserved and length attributes), the new position,
/// and the decoded length value when it is a length attribute.
pub open spec fn decode_attr(
    attrs: Seq<LayoutAttrV>,
    bytes: Seq<u8>,
    pos: int,
    j: int,
    lens: Seq<u128>,
) -> Option<(Seq<ValueV>, int, u128)>
    decreases attrs[j].kind, 0int, 0int,
{
    let a = attrs[j];
    match a.kind {
        FieldKindV::Integer(it) => {
            let w = it.spec_size() as int;
            if 0 <= pos && pos + w <= bytes.len() {
                let n = uint_of(a.endianness, bytes.subrange(pos, pos + w));
                Some(
                    (
                        if a.reserved {
                            Seq::empty()
                        } else {
                            seq![ValueV::Integer(n as u128)]
                        },
                        pos + w,
                        0u128,
                    ),
                )
            } else {
                None
            }
        },
        FieldKindV::Float(ft) => {
            let w = ft.spec_size() as int;
            if 0 <= pos && pos + w <= bytes.len() {
                let n = uint_of(a.endianness, bytes.subrange(pos, pos + w));
                Some(
                    (
                        if a.reserved {
                            Seq::empty()
                        } else {
                            seq![ValueV::Float(n as u64)]
                        },
                        pos + w,
                        0u128,
                    ),
                )
            } else {
                None
            }
        },
        FieldKindV::Text => match find_zero(bytes, pos) {
            Some(z) => Some((seq![ValueV::Text(bytes.subrange(pos, z))], z + 1, 0u128)),
            None => None,
        },
        FieldKindV::Record(rl) => match decode_fields(rl, bytes, pos) {
            Some((fs, p)) => Some((seq![ValueV::Record(fs)], p, 0u128)),
            None => None,
        },
        FieldKindV::Collection(elem, arity) => {
            let cnt: nat = match arity {
                Some(n) => n as nat,
                None => {
                    let li = first_length_before(attrs, a.name, j);
                    if 0 <= li < lens.len() {
                        lens[li] as nat
                    } else {
                        0
                    }
                },
            };
            match decode_list(elem, a.endianness, bytes, pos, cnt) {
                Some((items, p)) => Some((seq![ValueV::List(items)], p, 0u128)),
                None => None,
            }
        },
        FieldKindV::Length(it) => {
            let w = it.spec_size() as int;
            if 0 <= pos && pos + w <= bytes.len() {
                let n = uint_of(a.endianness, bytes.subrange(pos, pos + w));
                Some((Seq::empty(), pos + w, n as u128))
            } else {
                None
            }
        },
    }
}

/// Decoding `cnt` collection elements in a row.
pub open spec fn decode_list(
    elem: ElemKindV,
    e: DatatypeEndianness,
    bytes: Seq<u8>,
    pos: int,
    cnt: nat,
) -> Option<(Seq<ValueV>, int)>
    decreases elem, cnt, 1int,
{
    if cnt == 0 {
        Some((Seq::empty(), pos))
    } else {
        match decode_elem(elem, e, bytes, pos) {
            None => None,
            Some((v, p)) => match decode_list(elem, e, bytes, p, (cnt - 1) as nat) {
                None => None,
                Some((rest, pend)) => Some((seq![v] + rest, pend)),
            },
        }
    }
}

/// Decoding one collection element at `pos`.
pub open spec fn decode_elem(elem: ElemKindV, e: DatatypeEndianness, bytes: Seq<u8>, pos: int) -> Option<
    (ValueV, int),
>
    decreases elem, 0int, 0int,
{
    match elem {
        ElemKindV::Integer(it) => {
            let w = it.spec_size() as int;
            if 0 <= pos && pos + w <= bytes.len() {
                Some((ValueV::Integer(uint_of(e, bytes.subrange(pos, pos + w)) as u128), pos + w))
            } else {
                None
            }
        },
        ElemKindV::Float(ft) => {
            let w = ft.spec_size() as int;
            if 0 <= pos && pos + w <= bytes.len() {
                Some((ValueV::Float(uint_of(e, bytes.subrange(pos, pos + w)) as u64), pos + w))
            } else {
                None
            }
        },
        ElemKindV::Text => match find_zero(bytes, pos) {
            Some(z) => Some((ValueV::Text(bytes.subrange(pos, z)), z + 1)),
            None => None,
        },
        ElemKindV::Record(rl) => match decode_fields(rl, bytes, pos) {
            Some((fs, p)) => Some((ValueV::Record(fs), p)),
            None => None,
        },
    }
}

/// The exact number of bytes a record value occupies on the wire: per
/// attribute, an integer or length attribute contributes its width, a float
/// its width, text its byte length plus one terminator, a nested record its
/// own size, and a collection its elements' sizes (for fixed-width elements,
/// the count times the width, with the declared arity as the count of a
/// fixed-arity collection).
pub open spec fn size_fields(l: LayoutV, fields: Seq<ValueV>) -> int
    decreases l, l.attrs.len() + 1, 1int,
{
    size_from(l.attrs, fields, 0)
}

/// The bytes the attributes at or after `j` occupy.
pub open spec fn size_from(attrs: Seq<LayoutAttrV>, fields: Seq<ValueV>, j: int) -> int
    decreases attrs, attrs.len() - j, 1int,
{
    if j < 0 || j >= attrs.len() {
        0
    } else {
        size_attr(attrs, fields, j) + size_from(attrs, fields, j + 1)
    }
}

/// The bytes attribute `j` occupies.
pub open spec fn size_attr(attrs: Seq<LayoutAttrV>, fields: Seq<ValueV>, j: int) -> int
    decreases attrs[j].kind, 0int, 0int,
{
    let a = attrs[j];
    let fi = field_index(attrs, j);
    match a.kind {
        FieldKindV::Integer(it) => it.spec_size() as int,
        FieldKindV::Float(ft) => ft.spec_size() as int,
        FieldKindV::Text => text_bytes(fields[fi]).len() as int + 1,
        FieldKindV::Record(rl) => size_fields(rl, rec_fields(fields[fi])),
        FieldKindV::Collection(elem, arity) => {
            let items = list_items(fields[fi]);
            let cnt: int = match arity {
                Some(n) => n as int,
                None => items.len() as int,
            };
            match elem {
                ElemKindV::Integer(it) => cnt * (it.spec_size() as int),
                ElemKindV::Float(ft) => cnt * (ft.spec_size() as int),
                _ => size_list(elem, items),
            }
        },
        FieldKindV::Length(it) => it.spec_size() as int,
    }
}

/// The bytes a collection's elements occupy, element by element.
pub open spec fn size_list(elem: ElemKindV, items: Seq<ValueV>) -> int
    decreases elem, items.len(), 1int,
{
    if items.len() == 0 {
        0
    } else {
        size_elem(elem, items[0]) + size_list(elem, items.drop_first())
    }
}

/// The bytes one collection element occupies.
pub open spec fn size_elem(elem: ElemKindV, v: ValueV) -> int
    decreases elem, 0int, 0int,
{
    match elem {
        ElemKindV::Integer(it) => it.spec_size() as int,
        ElemKindV::Float(ft) => ft.spec_size() as int,
        ElemKindV::Text => text_bytes(v).len() as int + 1,
        ElemKindV::Record(rl) => size_fields(rl, rec_fields(v)),
    }
}


/// No two length attributes share this name.
pub open spec fn unique_length(attrs: Seq<LayoutAttrV>, name: Seq<char>) -> bool {
    forall|i: int, k: int|
        0 <= i < attrs.len() && 0 <= k < attrs.len() && (#[trigger] attrs[i]).kind is Length
            && attrs[i].name == name && (#[trigger] attrs[k]).kind is Length && attrs[k].name
            == name ==> i == k
}

/// No two collection attributes share this name.
pub open spec fn unique_collection(attrs: Seq<LayoutAttrV>, name: Seq<char>) -> bool {
    forall|i: int, k: int|
        0 <= i < attrs.len() && 0 <= k < attrs.len() && (#[trigger] attrs[i]).kind is Collection
            && attrs[i].name == name && (#[trigger] attrs[k]).kind is Collection && attrs[k].name
            == name ==> i == k
}

/// The structural conditions on one attribute that the codec pair relies on:
/// a reserved attribute has a fixed width, and a collection attribute is
/// paired with exactly one length attribute of its name — decoded before it
/// when the collection's element count is dynamic.
pub open spec fn wf_attr_local(attrs: Seq<LayoutAttrV>, j: int) -> bool {
    let a = attrs[j];
    &&& (a.reserved ==> (a.kind is Integer || a.kind is Float))
    &&& (a.kind is Collection ==> {
        let li = first_length_before(attrs, a.name, attrs.len() as int);
        &&& 0 <= li < attrs.len()
        &&& unique_length(attrs, a.name)
        &&& unique_collection(attrs, a.name)
        &&& (a.kind->Collection_1 is None ==> li < j)
    })
}

/// The local structural conditions over a whole attribute list.
pub open spec fn wf_local(attrs: Seq<LayoutAttrV>) -> bool {
    forall|j: int| 0 <= j < attrs.len() ==> #[trigger] wf_attr_local(attrs, j)
}

/// Well-formedness of a layout: the local conditions here and in every
/// nested record layout.
pub open spec fn wf_layout(l: LayoutV) -> bool
    decreases l, l.attrs.len() + 1, 1int,
{
    wf_local(l.attrs) && wf_nested_from(l.attrs, 0)
}

/// Well-formedness of the layouts nested under the attributes at or after
/// `j`.
pub open spec fn wf_nested_from(attrs: Seq<LayoutAttrV>, j: int) -> bool
    decreases attrs, attrs.len() - j, 1int,
{
    if j < 0 || j >= attrs.len() {
        true
    } else {
        wf_kind(attrs[j].kind) && wf_nested_from(attrs, j + 1)
    }
}

/// Well-formedness of the layouts nested under one field kind.
pub open spec fn wf_kind(k: FieldKindV) -> bool
    decreases k, 0int, 0int,
{
    match k {
        FieldKindV::Record(rl) => wf_layout(rl),
        FieldKindV::Collection(e, _) => wf_elem(e),
        _ => true,
    }
}

/// Well-formedness of the layout nested under one element kind.
pub open spec fn wf_elem(e: ElemKindV) -> bool
    decreases e, 0int, 0int,
{
    match e {
        ElemKindV::Record(rl) => wf_layout(rl),
        _ => true,
    }
}

/// The nested well-formedness of a later suffix follows from an earlier one.
pub proof fn lemma_wf_nested_at(attrs: Seq<LayoutAttrV>, j: int, k: int)
    requires
        wf_nested_from(attrs, j),
        0 <= j <= k < attrs.len(),
    ensures
        wf_kind(attrs[k].kind),
        wf_nested_from(attrs, k),
    decreases k - j,
{
    if j < k {
        lemma_wf_nested_at(attrs, j + 1, k);
    }
}

/// Byte strings of a given width have that length, whichever byte order.
pub proof fn lemma_uint_bytes_len(e: DatatypeEndianness, w: nat, v: nat)
    ensures
        uint_bytes(e, w, v).len() == w,
{
    lemma_be_bytes_len(v, w);
    lemma_le_bytes_len(v, w);
}

/// Reading back the byte string of a value that fits the width gives the
/// value, whichever byte order.
pub proof fn lemma_uint_roundtrip(e: DatatypeEndianness, w: nat, v: nat)
    requires
        v < bound(w),
    ensures
        uint_of(e, uint_bytes(e, w, v)) == v,
{
    lemma_be_uint_of_be_bytes(v, w);
    lemma_le_uint_of_le_bytes(v, w);
}

/// Field indices never decrease.
pub proof fn lemma_field_index_mono(attrs: Seq<LayoutAttrV>, j1: int, j2: int)
    requires
        j1 <= j2,
    ensures
        field_index(attrs, j1) <= field_index(attrs, j2),
    decreases j2 - j1,
{
    if j1 < j2 {
        lemma_field_index_mono(attrs, j1, j2 - 1);
    }
}

/// Field indices are never negative.
pub proof fn lemma_field_index_nonneg(attrs: Seq<LayoutAttrV>, j: int)
    ensures
        field_index(attrs, j) >= 0,
    decreases j,
{
    if j > 0 {
        lemma_field_index_nonneg(attrs, j - 1);
    }
}

/// A value below the modulus is its own remainder.
pub proof fn lemma_mod_small(x: nat, m: nat)
    requires
        x < m,
    ensures
        x % m == x,
{
    assert(x % m == x) by (nonlinear_arith)
        requires
            0 <= x < m,
    ;
}

/// Size agreement over whole records: the size computation returns exactly
/// the encoded byte length.
pub proof fn lemma_size_agreement(l: LayoutV, fields: Seq<ValueV>)
    requires
        wf_layout(l),
        matches_fields(l, fields, false),
    ensures
        size_fields(l, fields) == encode_fields(l, fields).len(),
    decreases l, l.attrs.len() + 1, 1int,
{
    lemma_size_agreement_from(l.attrs, fields, 0);
}

proof fn lemma_size_agreement_from(attrs: Seq<LayoutAttrV>, fields: Seq<ValueV>, j: int)
    requires
        wf_local(attrs),
        wf_nested_from(attrs, 0),
        matches_from(attrs, fields, j, false),
    ensures
        size_from(attrs, fields, j) == encode_from(attrs, fields, j).len(),
    decreases attrs, attrs.len() - j, 1int,
{
    if 0 <= j < attrs.len() {
        lemma_wf_nested_at(attrs, 0, j);
        lemma_size_agreement_attr(attrs, fields, j);
        lemma_size_agreement_from(attrs, fields, j + 1);
    }
}

proof fn lemma_size_agreement_attr(attrs: Seq<LayoutAttrV>, fields: Seq<ValueV>, j: int)
    requires
        0 <= j < attrs.len(),
        wf_attr_local(attrs, j),
        wf_kind(attrs[j].kind),
        matches_attr(attrs, fields, j, false),
    ensures
        size_attr(attrs, fields, j) == encode_attr(attrs, fields, j).len(),
    decreases attrs[j].kind, 1int, 0int,
{
    let a = attrs[j];
    let fi = field_index(attrs, j);
    match a.kind {
        FieldKindV::Integer(it) => {
            lemma_uint_bytes_len(
                a.endianness,
                it.spec_size(),
                if a.reserved {
                    0
                } else {
                    int_val(fields[fi]) as nat
                },
            );
        },
        FieldKindV::Float(ft) => {
            lemma_uint_bytes_len(
                a.endianness,
                ft.spec_size(),
                if a.reserved {
                    0
                } else {
                    float_val(fields[fi]) as nat
                },
            );
        },
        FieldKindV::Text => {},
        FieldKindV::Record(rl) => {
            lemma_size_agreement(rl, rec_fields(fields[fi]));
        },
        FieldKindV::Collection(elem, arity) => {
            lemma_size_agreement_list(elem, a.endianness, list_items(fields[fi]));
        },
        FieldKindV::Length(it) => {
            lemma_uint_bytes_len(a.endianness, it.spec_size(), length_value(attrs, fields, j));
        },
    }
}

proof fn lemma_size_agreement_list(elem: ElemKindV, e: DatatypeEndianness, items: Seq<ValueV>)
    requires
        wf_elem(elem),
        matches_list(elem, items, false),
    ensures
        size_list(elem, items) == encode_list(elem, e, items).len(),
        (elem is Integer ==> encode_list(elem, e, items).len() == items.len() * (
        elem->Integer_0.spec_size() as int)),
        (elem is Float ==> encode_list(elem, e, items).len() == items.len() * (
        elem->Float_0.spec_size() as int)),
    decreases elem, items.len(), 1int,
{
    if items.len() == 0 {
    } else {
        lemma_size_agreement_elem(elem, e, items[0]);
        lemma_size_agreement_list(elem, e, items.drop_first());
        let n = items.len() as int;
        if elem is Integer {
            let w = elem->Integer_0.spec_size() as int;
            lemma_uint_bytes_len(e, elem->Integer_0.spec_size(), int_val(items[0]) as nat);
            assert(encode_list(elem, e, items).len() == w + (n - 1) * w);
            assert(w + (n - 1) * w == n * w) by (nonlinear_arith);
        }
        if elem is Float {
            let w = elem->Float_0.spec_size() as int;
            lemma_uint_bytes_len(e, elem->Float_0.spec_size(), float_val(items[0]) as nat);
            assert(encode_list(elem, e, items).len() == w + (n - 1) * w);
            assert(w + (n - 1) * w == n * w) by (nonlinear_arith);
        }
    }
}

proof fn lemma_size_agreement_elem(elem: ElemKindV, e: DatatypeEndianness, v: ValueV)
    requires
        wf_elem(elem),
        matches_elem(elem, v, false),
    ensures
        size_elem(elem, v) == encode_elem(elem, e, v).len(),
    decreases elem, 0int, 1int,
{
    match elem {
        ElemKindV::Integer(it) => {
            lemma_uint_bytes_len(e, it.spec_size(), int_val(v) as nat);
        },
        ElemKindV::Float(ft) => {
            lemma_uint_bytes_len(e, ft.spec_size(), float_val(v) as nat);
        },
        ElemKindV::Text => {},
        ElemKindV::Record(rl) => {
            lemma_size_agreement(rl, rec_fields(v));
        },
    }
}


/// Larger widths can hold every smaller width's values.
pub proof fn lemma_bound_mono(w1: nat, w2: nat)
    requires
        w1 <= w2,
    ensures
        bound(w1) <= bound(w2),
    decreases w2 - w1,
{
    if w1 < w2 {
        lemma_bound_mono(w1, (w2 - 1) as nat);
        lemma_bound_positive((w2 - 1) as nat);
    }
}

/// A remainder is below its (positive) modulus.
pub proof fn lemma_mod_bound(x: nat, m: nat)
    requires
        m > 0,
    ensures
        x % m < m,
{
    assert(x % m < m) by (nonlinear_arith)
        requires
            m > 0,
    ;
}

/// Where the first zero byte at or after `pos` sits: at `z`, when everything
/// before it is nonzero.
proof fn lemma_find_zero_at(bytes: Seq<u8>, pos: int, z: int)
    requires
        0 <= pos <= z < bytes.len(),
        bytes[z] == 0u8,
        forall|t: int| pos <= t < z ==> bytes[t] != 0u8,
    ensures
        find_zero(bytes, pos) == Some(z),
    decreases z - pos,
{
    if pos < z {
        lemma_find_zero_at(bytes, pos + 1, z);
    }
}

/// What the first-length lookup returns: a length attribute of that name
/// before `j`, when one exists, else `-1`.
proof fn lemma_first_length_props(attrs: Seq<LayoutAttrV>, name: Seq<char>, j: int)
    requires
        0 <= j <= attrs.len(),
    ensures
        first_length_before(attrs, name, j) == -1 ==> (forall|i: int|
            0 <= i < j ==> !((#[trigger] attrs[i]).kind is Length && attrs[i].name == name)),
        first_length_before(attrs, name, j) != -1 ==> {
            let r = first_length_before(attrs, name, j);
            0 <= r < j && attrs[r].kind is Length && attrs[r].name == name
        },
    decreases j,
{
    if j > 0 {
        lemma_first_length_props(attrs, name, j - 1);
    }
}

/// What the first-collection lookup returns.
proof fn lemma_first_collection_props(attrs: Seq<LayoutAttrV>, name: Seq<char>, j: int)
    requires
        0 <= j <= attrs.len(),
    ensures
        first_collection_before(attrs, name, j) == -1 ==> (forall|i: int|
            0 <= i < j ==> !((#[trigger] attrs[i]).kind is Collection && attrs[i].name == name)),
        first_collection_before(attrs, name, j) != -1 ==> {
            let r = first_collection_before(attrs, name, j);
            0 <= r < j && attrs[r].kind is Collection && attrs[r].name == name
        },
    decreases j,
{
    if j > 0 {
        lemma_first_collection_props(attrs, name, j - 1);
    }
}

/// Round trip of one collection element: decoding right after encoding it
/// reads the element back.
proof fn lemma_rt_elem(
    elem: ElemKindV,
    e: DatatypeEndianness,
    v: ValueV,
    bytes: Seq<u8>,
    pos: int,
)
    requires
        wf_elem(elem),
        matches_elem(elem, v, true),
        0 <= pos,
        pos + encode_elem(elem, e, v).len() <= bytes.len(),
        bytes.subrange(pos, pos + encode_elem(elem, e, v).len() as int) == encode_elem(elem, e, v),
    ensures
        decode_elem(elem, e, bytes, pos) == Some(
            (v, pos + encode_elem(elem, e, v).len() as int),
        ),
    decreases elem, 0int, 2int,
{
    let enc = encode_elem(elem, e, v);
    match elem {
        ElemKindV::Integer(it) => {
            let w = it.spec_size();
            lemma_uint_bytes_len(e, w, int_val(v) as nat);
            lemma_uint_roundtrip(e, w, int_val(v) as nat);
            assert(v == ValueV::Integer(int_val(v)));
        },
        ElemKindV::Float(ft) => {
            let w = ft.spec_size();
            reveal_with_fuel(bound, 9);
            lemma_uint_bytes_len(e, w, float_val(v) as nat);
            lemma_uint_roundtrip(e, w, float_val(v) as nat);
            assert(v == ValueV::Float(float_val(v)));
        },
        ElemKindV::Text => {
            let tb = text_bytes(v);
            let z = pos + tb.len() as int;
            assert forall|t: int| pos <= t < z implies bytes[t] != 0u8 by {
                assert(bytes[t] == bytes.subrange(pos, pos + enc.len() as int)[t - pos]);
                assert(enc[t - pos] == tb[t - pos]);
                if tb[t - pos] == 0u8 {
                    assert(tb.contains(0u8));
                }
            }
            assert(bytes[z] == bytes.subrange(pos, pos + enc.len() as int)[z - pos]);
            assert(enc[z - pos] == 0u8);
            lemma_find_zero_at(bytes, pos, z);
            assert(bytes.subrange(pos, z) =~= tb) by {
                assert forall|t: int| 0 <= t < tb.len() implies bytes.subrange(pos, z)[t]
                    == tb[t] by {
                    assert(bytes.subrange(pos, z)[t] == bytes[pos + t]);
                    assert(bytes[pos + t] == bytes.subrange(pos, pos + enc.len() as int)[t]);
                    assert(enc[t] == tb[t]);
                }
            }
            assert(v == ValueV::Text(tb));
        },
        ElemKindV::Record(rl) => {
            lemma_rt_fields(rl, rec_fields(v), bytes, pos);
            assert(v == ValueV::Record(rec_fields(v)));
        },
    }
}

/// Round trip of a run of collection elements.
proof fn lemma_rt_list(
    elem: ElemKindV,
    e: DatatypeEndianness,
    items: Seq<ValueV>,
    bytes: Seq<u8>,
    pos: int,
)
    requires
        wf_elem(elem),
        matches_list(elem, items, true),
        0 <= pos,
        pos + encode_list(elem, e, items).len() <= bytes.len(),
        bytes.subrange(pos, pos + encode_list(elem, e, items).len() as int) == encode_list(
            elem,
            e,
            items,
        ),
    ensures
        decode_list(elem, e, bytes, pos, items.len()) == Some(
            (items, pos + encode_list(elem, e, items).len() as int),
        ),
    decreases elem, items.len(), 3int,
{
    let enc = encode_list(elem, e, items);
    if items.len() == 0 {
        assert(decode_list(elem, e, bytes, pos, 0) == Some((Seq::<ValueV>::empty(), pos)));
        assert(items =~= Seq::<ValueV>::empty());
    } else {
        let e0 = encode_elem(elem, e, items[0]);
        let er = encode_list(elem, e, items.drop_first());
        let l0 = e0.len() as int;
        assert(enc == e0 + er);
        assert(bytes.subrange(pos, pos + l0) =~= e0) by {
            assert forall|t: int| 0 <= t < l0 implies bytes.subrange(pos, pos + l0)[t] == e0[t] by {
                assert(bytes.subrange(pos, pos + l0)[t] == bytes[pos + t]);
                assert(bytes[pos + t] == bytes.subrange(pos, pos + enc.len() as int)[t]);
                assert(enc[t] == e0[t]);
            }
        }
        assert(bytes.subrange(pos + l0, pos + l0 + er.len() as int) =~= er) by {
            assert forall|t: int|
                0 <= t < er.len() implies bytes.subrange(pos + l0, pos + l0 + er.len() as int)[t]
                == er[t] by {
                assert(bytes.subrange(pos + l0, pos + l0 + er.len() as int)[t] == bytes[pos + l0
                    + t]);
                assert(bytes[pos + l0 + t] == bytes.subrange(pos, pos + enc.len() as int)[l0 + t]);
                assert(enc[l0 + t] == er[t]);
            }
        }
        lemma_rt_elem(elem, e, items[0], bytes, pos);
        lemma_rt_list(elem, e, items.drop_first(), bytes, pos + l0);
        assert(seq![items[0]] + items.drop_first() =~= items);
    }
}

/// Round trip of a single attribute: decoding right after encoding it reads
/// back exactly the materialized field (nothing for reserved and length
/// attributes) and reports the written length value.
proof fn lemma_rt_attr(
    attrs: Seq<LayoutAttrV>,
    fields: Seq<ValueV>,
    bytes: Seq<u8>,
    pos: int,
    j: int,
    lens: Seq<u128>,
)
    requires
        0 <= j < attrs.len(),
        wf_attr_local(attrs, j),
        wf_kind(attrs[j].kind),
        matches_attr(attrs, fields, j, true),
        lens.len() == j,
        forall|i: int|
            0 <= i < j ==> ((#[trigger] lens[i]) as nat) == length_value(attrs, fields, i),
        0 <= pos,
        pos + encode_attr(attrs, fields, j).len() <= bytes.len(),
        bytes.subrange(pos, pos + encode_attr(attrs, fields, j).len() as int) == encode_attr(
            attrs,
            fields,
            j,
        ),
    ensures
        decode_attr(attrs, bytes, pos, j, lens) matches Some(t) && t.0 == (
        if materialized(attrs[j]) {
            seq![fields[field_index(attrs, j)]]
        } else {
            Seq::<ValueV>::empty()
        }) && t.1 == pos + encode_attr(attrs, fields, j).len() as int && (t.2 as nat)
            == length_value(attrs, fields, j),
    decreases attrs[j].kind, 0int, 2int,
{
    let a = attrs[j];
    let fi = field_index(attrs, j);
    let enc = encode_attr(attrs, fields, j);
    let n = attrs.len() as int;
    match a.kind {
        FieldKindV::Integer(it) => {
            let w = it.spec_size();
            let v: nat = if a.reserved {
                0
            } else {
                int_val(fields[fi]) as nat
            };
            lemma_bound_positive(w);
            lemma_uint_bytes_len(a.endianness, w, v);
            lemma_uint_roundtrip(a.endianness, w, v);
            if !a.reserved {
                assert(fields[fi] == ValueV::Integer(int_val(fields[fi])));
            }
        },
        FieldKindV::Float(ft) => {
            let w = ft.spec_size();
            let v: nat = if a.reserved {
                0
            } else {
                float_val(fields[fi]) as nat
            };
            reveal_with_fuel(bound, 9);
            lemma_bound_positive(w);
            lemma_uint_bytes_len(a.endianness, w, v);
            lemma_uint_roundtrip(a.endianness, w, v);
            if !a.reserved {
                assert(fields[fi] == ValueV::Float(float_val(fields[fi])));
            }
        },
        FieldKindV::Text => {
            let tb = text_bytes(fields[fi]);
            let z = pos + tb.len() as int;
            assert forall|t: int| pos <= t < z implies bytes[t] != 0u8 by {
                assert(bytes[t] == bytes.subrange(pos, pos + enc.len() as int)[t - pos]);
                assert(enc[t - pos] == tb[t - pos]);
                if tb[t - pos] == 0u8 {
                    assert(tb.contains(0u8));
                }
            }
            assert(bytes[z] == bytes.subrange(pos, pos + enc.len() as int)[z - pos]);
            assert(enc[z - pos] == 0u8);
            lemma_find_zero_at(bytes, pos, z);
            assert(bytes.subrange(pos, z) =~= tb) by {
                assert forall|t: int| 0 <= t < tb.len() implies bytes.subrange(pos, z)[t]
                    == tb[t] by {
                    assert(bytes.subrange(pos, z)[t] == bytes[pos + t]);
                    assert(bytes[pos + t] == bytes.subrange(pos, pos + enc.len() as int)[t]);
                    assert(enc[t] == tb[t]);
                }
            }
            assert(fields[fi] == ValueV::Text(tb));
        },
        FieldKindV::Record(rl) => {
            lemma_rt_fields(rl, rec_fields(fields[fi]), bytes, pos);
            assert(fields[fi] == ValueV::Record(rec_fields(fields[fi])));
        },
        FieldKindV::Collection(elem, arity) => {
            let items = list_items(fields[fi]);
            lemma_rt_list(elem, a.endianness, items, bytes, pos);
            let cnt: nat = match arity {
                Some(nn) => nn as nat,
                None => {
                    let li = first_length_before(attrs, a.name, j);
                    if 0 <= li < lens.len() {
                        lens[li] as nat
                    } else {
                        0
                    }
                },
            };
            if arity is None {
                let li0 = first_length_before(attrs, a.name, n);
                assert(0 <= li0 < n && li0 < j);
                lemma_first_length_props(attrs, a.name, n);
                lemma_first_length_props(attrs, a.name, j);
                let li = first_length_before(attrs, a.name, j);
                assert(li != -1) by {
                    if li == -1 {
                        assert(!(attrs[li0].kind is Length && attrs[li0].name == a.name));
                    }
                }
                assert(attrs[li].kind is Length && attrs[li].name == a.name);
                assert(li == li0);
                // the length attribute reported this collection's count
                assert((lens[li0] as nat) == length_value(attrs, fields, li0));
                let ci = first_collection_before(attrs, attrs[li0].name, n);
                lemma_first_collection_props(attrs, attrs[li0].name, n);
                assert(ci != -1) by {
                    if ci == -1 {
                        assert(!(attrs[j].kind is Collection && attrs[j].name == attrs[li0].name));
                    }
                }
                assert(attrs[ci].kind is Collection && attrs[ci].name == a.name);
                assert(ci == j);
                let wl = attrs[li0].kind->Length_0.spec_size();
                assert(count_fits(attrs, fields, j));
                assert(items.len() < bound(wl));
                lemma_mod_small(items.len(), bound(wl));
                assert(length_value(attrs, fields, li0) == items.len());
                assert(cnt == items.len());
            } else {
                assert(cnt == items.len());
            }
        },
        FieldKindV::Length(it) => {
            let w = it.spec_size();
            let v = length_value(attrs, fields, j);
            lemma_bound_positive(w);
            lemma_mod_bound(
                {
                    let ci = first_collection_before(attrs, a.name, n);
                    if ci >= 0 {
                        list_items(fields[field_index(attrs, ci)]).len()
                    } else {
                        0
                    }
                },
                bound(w),
            );
            lemma_bound_mono(w, 16);
            lemma_bound_16();
            lemma_uint_bytes_len(a.endianness, w, v);
            lemma_uint_roundtrip(a.endianness, w, v);
        },
    }
}

/// Round trip of the attributes at or after `j`, given that the earlier
/// length attributes decoded to the counts encode wrote for them.
proof fn lemma_rt_from(
    attrs: Seq<LayoutAttrV>,
    fields: Seq<ValueV>,
    bytes: Seq<u8>,
    pos: int,
    j: int,
    lens: Seq<u128>,
)
    requires
        wf_local(attrs),
        wf_nested_from(attrs, 0),
        fields.len() == num_fields(attrs),
        matches_from(attrs, fields, j, true),
        0 <= j <= attrs.len(),
        lens.len() == j,
        forall|i: int|
            0 <= i < j ==> ((#[trigger] lens[i]) as nat) == length_value(attrs, fields, i),
        0 <= pos,
        pos + encode_from(attrs, fields, j).len() <= bytes.len(),
        bytes.subrange(pos, pos + encode_from(attrs, fields, j).len() as int) == encode_from(
            attrs,
            fields,
            j,
        ),
    ensures
        decode_from(attrs, bytes, pos, j, lens) == Some(
            (
                fields.subrange(field_index(attrs, j), num_fields(attrs)),
                pos + encode_from(attrs, fields, j).len() as int,
            ),
        ),
    decreases attrs, attrs.len() - j, 3int,
{
    let n = attrs.len() as int;
    let num = num_fields(attrs);
    lemma_field_index_mono(attrs, j, n);
    lemma_field_index_nonneg(attrs, j);
    if j == n {
        assert(fields.subrange(num, num) =~= Seq::<ValueV>::empty());
    } else {
        lemma_wf_nested_at(attrs, 0, j);
        let a = attrs[j];
        let fi = field_index(attrs, j);
        let ea = encode_attr(attrs, fields, j);
        let er = encode_from(attrs, fields, j + 1);
        let la = ea.len() as int;
        let whole = encode_from(attrs, fields, j);
        assert(whole == ea + er);
        assert(bytes.subrange(pos, pos + la) =~= ea) by {
            assert forall|t: int| 0 <= t < la implies bytes.subrange(pos, pos + la)[t] == ea[t] by {
                assert(bytes.subrange(pos, pos + la)[t] == bytes[pos + t]);
                assert(bytes[pos + t] == bytes.subrange(pos, pos + whole.len() as int)[t]);
                assert(whole[t] == ea[t]);
            }
        }
        assert(bytes.subrange(pos + la, pos + la + er.len() as int) =~= er) by {
            assert forall|t: int|
                0 <= t < er.len() implies bytes.subrange(pos + la, pos + la + er.len() as int)[t]
                == er[t] by {
                assert(bytes.subrange(pos + la, pos + la + er.len() as int)[t] == bytes[pos + la
                    + t]);
                assert(bytes[pos + la + t] == bytes.subrange(pos, pos + whole.len() as int)[la
                    + t]);
                assert(whole[la + t] == er[la + t - la]);
            }
        }
        lemma_rt_attr(attrs, fields, bytes, pos, j, lens);
        let t = decode_attr(attrs, bytes, pos, j, lens)->Some_0;
        lemma_rt_from(attrs, fields, bytes, pos + la, j + 1, lens.push(t.2));
        let fi2 = field_index(attrs, j + 1);
        if materialized(a) {
            assert(fi2 == fi + 1);
            assert(fi < num) by {
                lemma_field_index_mono(attrs, j + 1, n);
            }
            assert(seq![fields[fi]] + fields.subrange(fi + 1, num) =~= fields.subrange(fi, num));
        } else {
            assert(fi2 == fi);
            assert(Seq::<ValueV>::empty() + fields.subrange(fi, num) =~= fields.subrange(fi, num));
        }
    }
}

/// Round trip of a whole record at a position inside a larger stream.
pub proof fn lemma_rt_fields(l: LayoutV, fields: Seq<ValueV>, bytes: Seq<u8>, pos: int)
    requires
        wf_layout(l),
        matches_fields(l, fields, true),
        0 <= pos,
        pos + encode_fields(l, fields).len() <= bytes.len(),
        bytes.subrange(pos, pos + encode_fields(l, fields).len() as int) == encode_fields(
            l,
            fields,
        ),
    ensures
        decode_fields(l, bytes, pos) == Some((fields, pos + encode_fields(l, fields).len() as int)),
    decreases l, l.attrs.len() + 1, 3int,
{
    lemma_rt_from(l.attrs, fields, bytes, pos, 0, Seq::empty());
    lemma_field_index_nonneg(l.attrs, 0);
    assert(fields.subrange(0, num_fields(l.attrs)) =~= fields);
}

/// Round trip: decoding an encoded record — wherever it sits in a longer
/// stream — reconstructs exactly the record value that was encoded, and
/// consumes exactly its bytes. This holds for every well-formed layout and
/// every strictly matching instance value.
pub proof fn lemma_round_trip(l: LayoutV, fields: Seq<ValueV>, tail: Seq<u8>)
    requires
        wf_layout(l),
        matches_fields(l, fields, true),
    ensures
        decode_fields(l, encode_fields(l, fields) + tail, 0) == Some(
            (fields, encode_fields(l, fields).len() as int),
        ),
{
    let enc = encode_fields(l, fields);
    let bytes = enc + tail;
    assert(bytes.subrange(0, enc.len() as int) =~= enc);
    lemma_rt_fields(l, fields, bytes, 0);
}


/// A reserved 16-bit integer attribute occupies exactly two zero bytes on
/// the wire, and contributes no field to the decoded record: decoding it
/// yields no value.
pub proof fn lemma_reserved_u16(
    attrs: Seq<LayoutAttrV>,
    fields: Seq<ValueV>,
    bytes: Seq<u8>,
    pos: int,
    j: int,
    lens: Seq<u128>,
)
    requires
        0 <= j < attrs.len(),
        attrs[j].reserved,
        attrs[j].kind == FieldKindV::Integer(IntegerType::U16),
    ensures
        encode_attr(attrs, fields, j) == seq![0u8, 0u8],
        !materialized(attrs[j]),
        decode_attr(attrs, bytes, pos, j, lens) matches Some(t) ==> t.0 == Seq::<ValueV>::empty(),
{
    reveal_with_fuel(be_bytes, 3);
    reveal_with_fuel(le_bytes, 3);
    assert(be_bytes(0, 2) =~= seq![0u8, 0u8]);
    assert(le_bytes(0, 2) =~= seq![0u8, 0u8]);
}

/// Whether the fields match each single attribute, unpacked from the
/// recursive conjunction.
pub proof fn lemma_matches_at(attrs: Seq<LayoutAttrV>, fields: Seq<ValueV>, strict: bool, j: int, k: int)
    requires
        matches_from(attrs, fields, j, strict),
        0 <= j <= k < attrs.len(),
    ensures
        matches_attr(attrs, fields, k, strict),
        matches_from(attrs, fields, k, strict),
    decreases k - j,
{
    if j < k {
        lemma_matches_at(attrs, fields, strict, j + 1, k);
    }
}

/// Whether two owned strings hold the same characters.
pub(crate) fn str_eq(a: &String, b: &String) -> (r: bool)
    ensures
        r == (a@ == b@),
{
    a.eq(b)
}

/// Append `chunk` to `out`.
fn push_chunk(out: &mut Vec<u8>, chunk: Vec<u8>)
    ensures
        final(out)@ == old(out)@ + chunk@,
{
    let mut c = chunk;
    let ghost cv = c@;
    out.append(&mut c);
}

/// Write the unsigned value `v` in byte order `e` and width `w`.
fn put_uint(e: DatatypeEndianness, v: u128, w: usize, out: &mut Vec<u8>)
    requires
        1 <= w <= 16,
        (v as nat) < bound(w as nat),
    ensures
        final(out)@ == old(out)@ + uint_bytes(e, w as nat, v as nat),
{
    let chunk = match e {
        DatatypeEndianness::BigEndian => put_uint_be(v, w),
        DatatypeEndianness::LittleEndian => put_uint_le(v, w),
    };
    push_chunk(out, chunk);
}

/// The element count truncated to the width of the length kind, as the wire
/// carries it.
fn truncate_count(it: &IntegerType, count: usize) -> (r: u128)
    ensures
        r as nat == (count as nat) % bound(it.spec_size()),
        (r as nat) < bound(it.spec_size()),
{
    proof {
        reveal_with_fuel(bound, 9);
        lemma_bound_16();
        lemma_bound_positive(it.spec_size());
        lemma_mod_bound(count as nat, bound(it.spec_size()));
    }
    let c = count as u128;
    match it {
        IntegerType::U8 | IntegerType::I8 => c % 0x100,
        IntegerType::U16 | IntegerType::I16 => c % 0x1_0000,
        IntegerType::U32 | IntegerType::I32 => c % 0x1_0000_0000,
        IntegerType::U64 | IntegerType::I64 => c % 0x1_0000_0000_0000_0000,
        IntegerType::U128 | IntegerType::I128 => {
            proof {
                lemma_mod_small(c as nat, bound(16));
            }
            c
        },
    }
}

/// Encode the fields of one record, appending to `out`.
fn encode_record_into(l: &RecordLayout, fields: &Vec<Value>, out: &mut Vec<u8>)
    requires
        wf_layout(view_layout(*l)),
        matches_fields(view_layout(*l), view_values(fields@), false),
    ensures
        final(out)@ == old(out)@ + encode_fields(view_layout(*l), view_values(fields@)),
    decreases view_layout(*l).attrs, 0int, 1int,
{
    let ghost va = view_layout(*l).attrs;
    let ghost vf = view_values(fields@);
    proof {
        lemma_view_layout_attrs(l.attrs@);
        lemma_view_values(fields@);
    }
    let ghost out0 = out@;
    let n = l.attrs.len();
    let nf = fields.len();
    let mut j: usize = 0;
    let mut fi: usize = 0;
    while j < n
        invariant
            0 <= j <= n,
            n == l.attrs@.len(),
            nf == fields@.len(),
            va == view_layout(*l).attrs,
            vf == view_values(fields@),
            va == view_layout_attrs(l.attrs@),
            va.len() == n,
            wf_layout(view_layout(*l)),
            matches_fields(view_layout(*l), vf, false),
            fields@.len() == vf.len(),
            fi as int == field_index(va, j as int),
            fi <= fields@.len(),
            out0 + encode_fields(view_layout(*l), vf) == out@ + encode_from(va, vf, j as int),
        decreases n - j,
    {
        proof {
            lemma_view_layout_attrs(l.attrs@);
            lemma_view_values(fields@);
            lemma_matches_at(va, vf, false, 0, j as int);
            lemma_wf_nested_at(va, 0, j as int);
            assert(wf_local(va));
            lemma_field_index_mono(va, j as int, va.len() as int);
            assert(vf.len() == num_fields(va));
        }
        let a_is_materialized = {
            let a = &l.attrs[j];
            let mut m = !a.reserved;
            if let FieldKind::Length(_) = &a.kind {
                m = false;
            }
            m
        };
        proof {
            assert(view_layout_attr(l.attrs@[j as int]) == va[j as int]);
            assert(a_is_materialized == materialized(va[j as int]));
            if materialized(va[j as int]) {
                assert(field_index(va, j as int) < num_fields(va)) by {
                    lemma_field_index_mono(va, j as int + 1, va.len() as int);
                }
            }
        }
        let ghost out_before = out@;
        encode_attr_into(l, j, fields, fi, out);
        proof {
            assert(out@ == out_before + encode_attr(va, vf, j as int));
            assert(encode_from(va, vf, j as int) == encode_attr(va, vf, j as int) + encode_from(
                va,
                vf,
                j as int + 1,
            ));
            assert(out_before + (encode_attr(va, vf, j as int) + encode_from(va, vf, j as int + 1))
                =~= (out_before + encode_attr(va, vf, j as int)) + encode_from(
                va,
                vf,
                j as int + 1,
            ));
        }
        if a_is_materialized {
            fi = fi + 1;
        }
        j = j + 1;
    }
    proof {
        assert(encode_from(va, vf, n as int) =~= Seq::<u8>::empty());
        assert(out@ + encode_from(va, vf, n as int) =~= out@);
    }
}

/// Encode one attribute of a record, appending to `out`. `fi` is the
/// record field index the attribute reads from.
fn encode_attr_into(l: &RecordLayout, j: usize, fields: &Vec<Value>, fi: usize, out: &mut Vec<u8>)
    requires
        j < l.attrs@.len(),
        wf_local(view_layout(*l).attrs),
        wf_kind(view_layout(*l).attrs[j as int].kind),
        matches_from(view_layout(*l).attrs, view_values(fields@), 0, false),
        view_values(fields@).len() == num_fields(view_layout(*l).attrs),
        fields@.len() == view_values(fields@).len(),
        fi as int == field_index(view_layout(*l).attrs, j as int),
        materialized(view_layout(*l).attrs[j as int]) ==> fi < fields@.len(),
    ensures
        final(out)@ == old(out)@ + encode_attr(
            view_layout(*l).attrs,
            view_values(fields@),
            j as int,
        ),
    decreases view_layout(*l).attrs[j as int].kind, 0int, 0int,
{
    let ghost va = view_layout(*l).attrs;
    let ghost vf = view_values(fields@);
    proof {
        lemma_view_layout_attrs(l.attrs@);
        lemma_view_values(fields@);
        assert(view_layout_attr(l.attrs@[j as int]) == va[j as int]);
        lemma_matches_at(va, vf, false, 0, j as int);
    }
    proof {
        assert(wf_attr_local(va, j as int));
    }
    let a = &l.attrs[j];
    let reserved = a.reserved;
    let e = a.endianness;
    match &a.kind {
        FieldKind::Integer(it) => {
            let w = it.size() as usize;
            let value: u128 = if reserved {
                0
            } else {
                match &fields[fi] {
                    Value::Integer(x) => *x,
                    _ => 0,
                }
            };
            proof {
                lemma_bound_positive(it.spec_size());
                if !reserved {
                    assert(view_value(fields@[fi as int]) == vf[fi as int]);
                    assert(value == int_val(vf[fi as int]));
                }
            }
            put_uint(e, value, w, out);
        },
        FieldKind::Float(ft) => {
            let w = ft.size() as usize;
            let value: u128 = if reserved {
                0
            } else {
                match &fields[fi] {
                    Value::Float(b) => *b as u128,
                    _ => 0,
                }
            };
            proof {
                lemma_bound_positive(ft.spec_size());
                if !reserved {
                    assert(view_value(fields@[fi as int]) == vf[fi as int]);
                    assert(value == float_val(vf[fi as int]) as u128);
                }
            }
            put_uint(e, value, w, out);
        },
        FieldKind::Text => {
            proof {
                assert(!reserved && materialized(va[j as int]));
                assert(view_value(fields@[fi as int]) == vf[fi as int]);
            }
            match &fields[fi] {
                Value::Text(bs) => {
                    let ghost out0 = out@;
                    out.extend_from_slice(bs.as_slice());
                    out.push(0u8);
                    proof {
                        assert(out@ =~= out0 + (text_bytes(vf[fi as int]) + seq![0u8]));
                    }
                },
                _ => {
                    proof {
                        assert(false);
                    }
                },
            }
        },
        FieldKind::Record(rl) => {
            proof {
                assert(!reserved && materialized(va[j as int]));
                assert(view_value(fields@[fi as int]) == vf[fi as int]);
            }
            match &fields[fi] {
                Value::Record(rf) => {
                    encode_record_into(rl, rf, out);
                },
                _ => {
                    proof {
                        assert(false);
                    }
                },
            }
        },
        FieldKind::Collection(elem, _) => {
            proof {
                assert(!reserved && materialized(va[j as int]));
                assert(view_value(fields@[fi as int]) == vf[fi as int]);
            }
            match &fields[fi] {
                Value::List(items) => {
                    encode_list_into(elem, e, items, out);
                },
                _ => {
                    proof {
                        assert(false);
                    }
                },
            }
        },
        FieldKind::Length(it) => {
            let count = paired_collection_count(l, j, fields);
            let value = truncate_count(it, count);
            proof {
                assert(value as nat == length_value(va, vf, j as int));
                lemma_mod_bound(count as nat, bound(it.spec_size()));
                lemma_bound_positive(it.spec_size());
            }
            put_uint(e, value, it.size() as usize, out);
        },
    }
}

/// The element count of the collection attribute paired (by name) with the
/// length attribute at index `j`; zero when none exists.
fn paired_collection_count(l: &RecordLayout, j: usize, fields: &Vec<Value>) -> (r: usize)
    requires
        j < l.attrs@.len(),
        wf_local(view_layout(*l).attrs),
        matches_from(view_layout(*l).attrs, view_values(fields@), 0, false),
        view_values(fields@).len() == num_fields(view_layout(*l).attrs),
        fields@.len() == view_values(fields@).len(),
        view_layout(*l).attrs[j as int].kind is Length,
    ensures
        ({
            let va = view_layout(*l).attrs;
            let ci = first_collection_before(va, va[j as int].name, va.len() as int);
            (r as nat) == if ci >= 0 {
                list_items(view_values(fields@)[field_index(va, ci)]).len()
            } else {
                0
            }
        }),
{
    let ghost va = view_layout(*l).attrs;
    let ghost vf = view_values(fields@);
    proof {
        lemma_view_layout_attrs(l.attrs@);
        lemma_view_values(fields@);
        assert(view_layout_attr(l.attrs@[j as int]) == va[j as int]);
    }
    let n = l.attrs.len();
    let nf = fields.len();
    let name = &l.attrs[j].name;
    let mut ci: usize = 0;
    let mut found = false;
    // find the first collection attribute with this name, tracking its
    // record field index as we go
    let mut fci: usize = 0;
    while ci < n && !found
        invariant
            0 <= ci <= n,
            n == l.attrs@.len(),
            va == view_layout(*l).attrs,
            vf == view_values(fields@),
            va == view_layout_attrs(l.attrs@),
            va.len() == n,
            nf == fields@.len(),
            wf_local(va),
            matches_from(va, vf, 0, false),
            vf.len() == num_fields(va),
            fields@.len() == vf.len(),
            name@ == va[j as int].name,
            fci as int == field_index(va, ci as int),
            fci <= nf,
            !found ==> first_collection_before(va, va[j as int].name, ci as int) == -1,
            found ==> ci < n && va[ci as int].kind is Collection && va[ci as int].name == va[j as int].name
                && first_collection_before(va, va[j as int].name, ci as int) == -1,
        decreases n - ci, if found { 0int } else { 1int },
    {
        proof {
            lemma_view_layout_attrs(l.attrs@);
            assert(view_layout_attr(l.attrs@[ci as int]) == va[ci as int]);
        }
        let a = &l.attrs[ci];
        let mut is_coll = false;
        if let FieldKind::Collection(_, _) = &a.kind {
            is_coll = true;
        }
        if is_coll && str_eq(&a.name, name) {
            found = true;
        } else {
            let mut m = !a.reserved;
            if let FieldKind::Length(_) = &a.kind {
                m = false;
            }
            proof {
                assert(m == materialized(va[ci as int]));
                if materialized(va[ci as int]) {
                    lemma_field_index_mono(va, ci as int + 1, va.len() as int);
                    assert(fci as int + 1 <= num_fields(va));
                }
            }
            if m {
                fci = fci + 1;
            }
            ci = ci + 1;
        }
    }
    let ghost gci = first_collection_before(va, va[j as int].name, va.len() as int);
    if found {
        proof {
            assert(va[ci as int].kind is Collection && va[ci as int].name == va[j as int].name);
            assert(first_collection_before(va, va[j as int].name, ci as int + 1) == ci as int);
            lemma_first_collection_stable(va, va[j as int].name, ci as int + 1);
            assert(gci == ci as int);
            assert(wf_attr_local(va, ci as int));
            assert(!va[ci as int].reserved);
            assert(materialized(va[ci as int]));
            lemma_field_index_mono(va, ci as int + 1, va.len() as int);
            assert(fci as int == field_index(va, ci as int));
            assert(fci < vf.len());
            lemma_matches_at(va, vf, false, 0, ci as int);
            assert(view_value(fields@[fci as int]) == vf[fci as int]);
        }
        match &fields[fci] {
            Value::List(items) => {
                proof {
                    lemma_view_values(items@);
                    assert(list_items(vf[fci as int]) == view_values(items@));
                }
                items.len()
            },
            _ => {
                proof {
                    assert(false);
                }
                0
            },
        }
    } else {
        proof {
            assert(first_collection_before(va, va[j as int].name, n as int) == -1);
        }
        0
    }
}

/// Once the first-collection lookup has found its index, searching any
/// further leaves the answer unchanged.
proof fn lemma_first_collection_stable(attrs: Seq<LayoutAttrV>, name: Seq<char>, j: int)
    requires
        0 <= j <= attrs.len(),
        first_collection_before(attrs, name, j) >= 0,
    ensures
        forall|k: int|
            j <= k <= attrs.len() ==> #[trigger] first_collection_before(attrs, name, k)
                == first_collection_before(attrs, name, j),
{
    assert forall|k: int|
        j <= k <= attrs.len() implies #[trigger] first_collection_before(attrs, name, k)
        == first_collection_before(attrs, name, j) by {
        lemma_first_collection_grow(attrs, name, j, k);
    }
}

proof fn lemma_first_collection_grow(attrs: Seq<LayoutAttrV>, name: Seq<char>, j: int, k: int)
    requires
        0 <= j <= k <= attrs.len(),
        first_collection_before(attrs, name, j) >= 0,
    ensures
        first_collection_before(attrs, name, k) == first_collection_before(attrs, name, j),
    decreases k - j,
{
    if j < k {
        lemma_first_collection_grow(attrs, name, j, k - 1);
    }
}

/// Encode a collection's elements in order, appending to `out`.
fn encode_list_into(elem: &ElemKind, e: DatatypeEndianness, items: &Vec<Value>, out: &mut Vec<u8>)
    requires
        wf_elem(view_elem_kind(*elem)),
        matches_list(view_elem_kind(*elem), view_values(items@), false),
    ensures
        final(out)@ == old(out)@ + encode_list(view_elem_kind(*elem), e, view_values(items@)),
    decreases view_elem_kind(*elem), 0int, 3int,
{
    let ghost ev = view_elem_kind(*elem);
    let ghost iv = view_values(items@);
    proof {
        lemma_view_values(items@);
    }
    let ghost out0 = out@;
    proof {
        assert(iv.subrange(0, items@.len() as int) =~= iv);
    }
    let n = items.len();
    let mut k: usize = 0;
    while k < n
        invariant
            0 <= k <= n,
            n == items@.len(),
            ev == view_elem_kind(*elem),
            iv == view_values(items@),
            iv.len() == n,
            wf_elem(ev),
            matches_list(ev, iv, false),
            out0 + encode_list(ev, e, iv) == out@ + encode_list(ev, e, iv.subrange(k as int, n as int)),
        decreases n - k,
    {
        proof {
            lemma_view_values(items@);
            lemma_matches_list_at(ev, iv, false, k as int);
            assert(view_value(items@[k as int]) == iv[k as int]);
            let suf = iv.subrange(k as int, n as int);
            assert(suf[0] == iv[k as int]);
            assert(suf.drop_first() =~= iv.subrange(k as int + 1, n as int));
        }
        let ghost out_before = out@;
        encode_elem_into(elem, e, &items[k], out);
        proof {
            let suf = iv.subrange(k as int, n as int);
            assert(encode_list(ev, e, suf) == encode_elem(ev, e, iv[k as int]) + encode_list(
                ev,
                e,
                iv.subrange(k as int + 1, n as int),
            ));
            assert(out_before + (encode_elem(ev, e, iv[k as int]) + encode_list(
                ev,
                e,
                iv.subrange(k as int + 1, n as int),
            )) =~= (out_before + encode_elem(ev, e, iv[k as int])) + encode_list(
                ev,
                e,
                iv.subrange(k as int + 1, n as int),
            ));
        }
        k = k + 1;
    }
    proof {
        assert(iv.subrange(n as int, n as int) =~= Seq::<ValueV>::empty());
        assert(encode_list(ev, e, iv.subrange(n as int, n as int)) =~= Seq::<u8>::empty());
        assert(out@ + Seq::<u8>::empty() =~= out@);
    }
}

/// Every element of a matching list matches the element kind.
pub proof fn lemma_matches_list_at(elem: ElemKindV, items: Seq<ValueV>, strict: bool, k: int)
    requires
        matches_list(elem, items, strict),
        0 <= k < items.len(),
    ensures
        matches_elem(elem, items[k], strict),
    decreases k,
{
    if k > 0 {
        assert(items.drop_first()[k - 1] == items[k]);
        lemma_matches_list_at(elem, items.drop_first(), strict, k - 1);
    }
}

/// Encode one collection element, appending to `out`.
fn encode_elem_into(elem: &ElemKind, e: DatatypeEndianness, v: &Value, out: &mut Vec<u8>)
    requires
        wf_elem(view_elem_kind(*elem)),
        matches_elem(view_elem_kind(*elem), view_value(*v), false),
    ensures
        final(out)@ == old(out)@ + encode_elem(view_elem_kind(*elem), e, view_value(*v)),
    decreases view_elem_kind(*elem), 0int, 2int,
{
    let ghost ev = view_elem_kind(*elem);
    let ghost vv = view_value(*v);
    match elem {
        ElemKind::Integer(it) => {
            let value: u128 = match v {
                Value::Integer(x) => *x,
                _ => 0,
            };
            proof {
                lemma_bound_positive(it.spec_size());
                assert(value == int_val(vv));
            }
            put_uint(e, value, it.size() as usize, out);
        },
        ElemKind::Float(ft) => {
            let value: u128 = match v {
                Value::Float(b) => *b as u128,
                _ => 0,
            };
            proof {
                lemma_bound_positive(ft.spec_size());
                assert(value == float_val(vv) as u128);
            }
            put_uint(e, value, ft.size() as usize, out);
        },
        ElemKind::Text => {
            match v {
                Value::Text(bs) => {
                    let ghost out0 = out@;
                    out.extend_from_slice(bs.as_slice());
                    out.push(0u8);
                    proof {
                        assert(out@ =~= out0 + (text_bytes(vv) + seq![0u8]));
                    }
                },
                _ => {
                    proof {
                        assert(false);
                    }
                },
            }
        },
        ElemKind::Record(rl) => {
            match v {
                Value::Record(rf) => {
                    encode_record_into(rl, rf, out);
                },
                _ => {
                    proof {
                        assert(false);
                    }
                },
            }
        },
    }
}

/// Encode a record value against its layout: every non-reserved attribute's
/// value and every reserved attribute's zero placeholder, in resolved wire
/// order, with per-attribute endianness, null-terminated text, and
/// length-prefixed collections.
pub fn encode(l: &RecordLayout, v: &Value) -> (r: Vec<u8>)
    requires
        wf_layout(l.deep_view()),
        v.deep_view() is Record,
        matches_fields(l.deep_view(), rec_fields(v.deep_view()), false),
    ensures
        r@ == encode_fields(l.deep_view(), rec_fields(v.deep_view())),
{
    let mut out: Vec<u8> = Vec::new();
    match v {
        Value::Record(fields) => {
            encode_record_into(l, fields, &mut out);
        },
        _ => {
            proof {
                assert(false);
            }
        },
    }
    out
}


/// No zero byte at or after `pos` means the terminator search fails.
proof fn lemma_find_zero_none(bytes: Seq<u8>, pos: int)
    requires
        0 <= pos,
        forall|t: int| pos <= t < bytes.len() ==> bytes[t] != 0u8,
    ensures
        find_zero(bytes, pos) is None,
    decreases bytes.len() - pos,
{
    if pos < bytes.len() {
        lemma_find_zero_none(bytes, pos + 1);
    }
}

/// Read an unsigned value of width `w` at `pos` in byte order `e`.
pub(crate) fn read_uint(e: DatatypeEndianness, bytes: &Vec<u8>, pos: usize, w: usize) -> (r: u128)
    requires
        1 <= w <= 16,
        pos + w <= bytes@.len(),
    ensures
        r as nat == uint_of(e, bytes@.subrange(pos as int, pos as int + w as int)),
        (r as nat) < bound(w as nat),
{
    proof {
        lemma_uint_below_bound(bytes@.subrange(pos as int, pos as int + w as int));
    }
    match e {
        DatatypeEndianness::BigEndian => get_uint_be(bytes, pos, w),
        DatatypeEndianness::LittleEndian => get_uint_le(bytes, pos, w),
    }
}

/// Read text bytes up to (and consuming) the zero terminator.
fn read_text(bytes: &Vec<u8>, pos: usize) -> (r: Result<(Vec<u8>, usize), DecodeError>)
    requires
        pos <= bytes@.len(),
    ensures
        (find_zero(bytes@, pos as int) is Some) == (r is Ok),
        r matches Ok(t) ==> t.0@ == bytes@.subrange(
            pos as int,
            find_zero(bytes@, pos as int)->Some_0,
        ) && t.1 as int == find_zero(bytes@, pos as int)->Some_0 + 1 && pos < t.1 <= bytes@.len(),
        r matches Err(e2) ==> e2 == DecodeError::UnexpectedEof,
{
    let n = bytes.len();
    let mut z = pos;
    let mut tb: Vec<u8> = Vec::new();
    while z < n
        invariant
            pos <= z <= n,
            n == bytes@.len(),
            tb@ == bytes@.subrange(pos as int, z as int),
            forall|t: int| pos <= t < z ==> bytes@[t] != 0u8,
        decreases n - z,
    {
        let b = bytes[z];
        if b == 0 {
            proof {
                lemma_find_zero_at(bytes@, pos as int, z as int);
            }
            return Ok((tb, z + 1));
        }
        tb.push(b);
        z = z + 1;
        proof {
            assert(tb@ =~= bytes@.subrange(pos as int, z as int));
        }
    }
    proof {
        lemma_find_zero_none(bytes@, pos as int);
    }
    Err(DecodeError::UnexpectedEof)
}

/// Decode the fields of one record starting at `pos`.
fn decode_record(l: &RecordLayout, bytes: &Vec<u8>, pos: usize) -> (r: Result<
    (Vec<Value>, usize),
    DecodeError,
>)
    requires
        pos <= bytes@.len(),
    ensures
        (decode_fields(view_layout(*l), bytes@, pos as int) is Some) == (r is Ok),
        r matches Ok(t) ==> view_values(t.0@) == decode_fields(
            view_layout(*l),
            bytes@,
            pos as int,
        )->Some_0.0 && t.1 as int == decode_fields(view_layout(*l), bytes@, pos as int)->Some_0.1
            && pos <= t.1 <= bytes@.len(),
        r matches Err(e2) ==> e2 == DecodeError::UnexpectedEof,
    decreases view_layout(*l).attrs, 0int, 1int,
{
    let ghost va = view_layout(*l).attrs;
    let ghost whole = decode_from(va, bytes@, pos as int, 0, Seq::empty());
    proof {
        lemma_view_layout_attrs(l.attrs@);
    }
    let n = l.attrs.len();
    let mut j: usize = 0;
    let mut cur = pos;
    let mut out: Vec<Value> = Vec::new();
    let mut lens: Vec<u128> = Vec::new();
    proof {
        assert(view_values(out@) =~= Seq::<ValueV>::empty());
        assert(lens@ =~= Seq::<u128>::empty());
    }
    while j < n
        invariant
            0 <= j <= n,
            n == l.attrs@.len(),
            va == view_layout(*l).attrs,
            va == view_layout_attrs(l.attrs@),
            va.len() == n,
            whole == decode_from(va, bytes@, pos as int, 0, Seq::empty()),
            pos <= cur <= bytes@.len(),
            lens@.len() == j,
            whole == (match decode_from(va, bytes@, cur as int, j as int, lens@) {
                None => None::<(Seq<ValueV>, int)>,
                Some((rest, p)) => Some((view_values(out@) + rest, p)),
            }),
        decreases n - j,
    {
        let ghost out_prev = out@;
        let ghost lens_prev = lens@;
        let ghost cur_prev = cur;
        let step = decode_attr_exec(l, j, bytes, cur, &lens);
        match step {
            Ok(t) => {
                let (mv, p2, lv) = t;
                let ghost d = decode_attr(va, bytes@, cur as int, j as int, lens@)->Some_0;
                match mv {
                    Some(v) => {
                        out.push(v);
                        proof {
                            lemma_view_values(out_prev.push(v));
                            lemma_view_values(out_prev);
                            assert(view_values(out@) =~= view_values(out_prev) + d.0) by {
                                assert forall|t2: int|
                                    0 <= t2 < out@.len() implies #[trigger] view_values(out@)[t2]
                                    == (view_values(out_prev) + d.0)[t2] by {
                                    assert(view_values(out@)[t2] == view_value(out@[t2]));
                                    if t2 < out_prev.len() {
                                        assert(out@[t2] == out_prev[t2]);
                                        assert(view_values(out_prev)[t2] == view_value(
                                            out_prev[t2],
                                        ));
                                    } else {
                                        assert(out@[t2] == v);
                                    }
                                }
                            }
                        }
                    },
                    None => {
                        proof {
                            assert(view_values(out@) + d.0 =~= view_values(out@));
                        }
                    },
                }
                lens.push(lv);
                cur = p2;
                proof {
                    assert(lens@ =~= lens_prev.push(lv));
                    assert(decode_from(va, bytes@, cur_prev as int, j as int, lens_prev) == (
                    match decode_from(va, bytes@, cur as int, j as int + 1, lens@) {
                        None => None::<(Seq<ValueV>, int)>,
                        Some((rest, p)) => Some((d.0 + rest, p)),
                    }));
                    if decode_from(va, bytes@, cur as int, j as int + 1, lens@) is Some {
                        let rest = decode_from(va, bytes@, cur as int, j as int + 1, lens@)
                            ->Some_0.0;
                        assert((view_values(out_prev) + (d.0 + rest)) =~= (view_values(out_prev)
                            + d.0) + rest);
                    }
                }
                j = j + 1;
            },
            Err(e2) => {
                return Err(e2);
            },
        }
    }
    proof {
        assert(decode_from(va, bytes@, cur as int, n as int, lens@) == Some(
            (Seq::<ValueV>::empty(), cur as int),
        ));
        assert(view_values(out@) + Seq::<ValueV>::empty() =~= view_values(out@));
    }
    Ok((out, cur))
}

/// Decode the single attribute `j` at `pos`: the value it materializes (if
/// any), the next position, and the decoded length value for a length
/// attribute.
fn decode_attr_exec(
    l: &RecordLayout,
    j: usize,
    bytes: &Vec<u8>,
    pos: usize,
    lens: &Vec<u128>,
) -> (r: Result<(Option<Value>, usize, u128), DecodeError>)
    requires
        j < l.attrs@.len(),
        pos <= bytes@.len(),
        lens@.len() == j,
    ensures
        (decode_attr(view_layout(*l).attrs, bytes@, pos as int, j as int, lens@) is Some) == (
        r is Ok),
        r matches Ok(t) ==> ({
            let d = decode_attr(view_layout(*l).attrs, bytes@, pos as int, j as int, lens@)
                ->Some_0;
            &&& (t.0 matches Some(v) ==> d.0 == seq![view_value(v)])
            &&& (t.0 is None ==> d.0 == Seq::<ValueV>::empty())
            &&& t.1 as int == d.1
            &&& t.2 == d.2
            &&& pos <= t.1 <= bytes@.len()
        }),
        r matches Err(e2) ==> e2 == DecodeError::UnexpectedEof,
    decreases view_layout(*l).attrs[j as int].kind, 0int, 4int,
{
    let ghost va = view_layout(*l).attrs;
    proof {
        lemma_view_layout_attrs(l.attrs@);
        assert(view_layout_attr(l.attrs@[j as int]) == va[j as int]);
    }
    let a = &l.attrs[j];
    let reserved = a.reserved;
    let e = a.endianness;
    match &a.kind {
        FieldKind::Integer(it) => {
            let w = it.size() as usize;
            if bytes.len() - pos >= w {
                let n = read_uint(e, bytes, pos, w);
                proof {
                    lemma_bound_mono(w as nat, 16);
                    lemma_bound_16();
                }
                if reserved {
                    Ok((None, pos + w, 0))
                } else {
                    Ok((Some(Value::Integer(n)), pos + w, 0))
                }
            } else {
                Err(DecodeError::UnexpectedEof)
            }
        },
        FieldKind::Float(ft) => {
            let w = ft.size() as usize;
            if bytes.len() - pos >= w {
                let n = read_uint(e, bytes, pos, w);
                proof {
                    reveal_with_fuel(bound, 9);
                    lemma_bound_mono(w as nat, 8);
                }
                let b = n as u64;
                if reserved {
                    Ok((None, pos + w, 0))
                } else {
                    Ok((Some(Value::Float(b)), pos + w, 0))
                }
            } else {
                Err(DecodeError::UnexpectedEof)
            }
        },
        FieldKind::Text => {
            match read_text(bytes, pos) {
                Ok(t) => {
                    let (tb, p2) = t;
                    Ok((Some(Value::Text(tb)), p2, 0))
                },
                Err(e2) => Err(e2),
            }
        },
        FieldKind::Record(rl) => {
            match decode_record(rl, bytes, pos) {
                Ok(t) => {
                    let (fs, p2) = t;
                    Ok((Some(Value::Record(fs)), p2, 0))
                },
                Err(e2) => Err(e2),
            }
        },
        FieldKind::Collection(elem, arity) => {
            let cnt: u128 = match arity {
                Some(nn) => *nn as u128,
                None => {
                    match paired_length_index(l, j) {
                        Some(li) => lens[li],
                        None => 0,
                    }
                },
            };
            match decode_list_exec(elem, e, bytes, pos, cnt) {
                Ok(t) => {
                    let (items, p2) = t;
                    Ok((Some(Value::List(items)), p2, 0))
                },
                Err(e2) => Err(e2),
            }
        },
        FieldKind::Length(it) => {
            let w = it.size() as usize;
            if bytes.len() - pos >= w {
                let n = read_uint(e, bytes, pos, w);
                proof {
                    lemma_bound_mono(w as nat, 16);
                    lemma_bound_16();
                }
                Ok((None, pos + w, n))
            } else {
                Err(DecodeError::UnexpectedEof)
            }
        },
    }
}


/// The index of the length attribute paired (by name) with the collection
/// attribute at index `j` and decoded before it, if one exists.
fn paired_length_index(l: &RecordLayout, j: usize) -> (r: Option<usize>)
    requires
        j < l.attrs@.len(),
    ensures
        ({
            let va = view_layout(*l).attrs;
            match r {
                Some(li) => li < j && first_length_before(va, va[j as int].name, j as int)
                    == li as int,
                None => first_length_before(va, va[j as int].name, j as int) == -1,
            }
        }),
{
    let ghost va = view_layout(*l).attrs;
    proof {
        lemma_view_layout_attrs(l.attrs@);
    }
    let mut li: usize = 0;
    while li < j
        invariant
            0 <= li <= j,
            j < l.attrs@.len(),
            va == view_layout(*l).attrs,
            va == view_layout_attrs(l.attrs@),
            va.len() == l.attrs@.len(),
            first_length_before(va, va[j as int].name, li as int) == -1,
        decreases j - li,
    {
        proof {
            lemma_view_layout_attrs(l.attrs@);
            assert(view_layout_attr(l.attrs@[li as int]) == va[li as int]);
            assert(view_layout_attr(l.attrs@[j as int]) == va[j as int]);
        }
        let mut is_len = false;
        if let FieldKind::Length(_) = &l.attrs[li].kind {
            is_len = true;
        }
        if is_len && str_eq(&l.attrs[li].name, &l.attrs[j].name) {
            proof {
                assert(first_length_before(va, va[j as int].name, li as int + 1) == li as int);
                lemma_first_length_grow(va, va[j as int].name, li as int + 1, j as int);
            }
            return Some(li);
        }
        li = li + 1;
    }
    None
}

/// Once the first-length lookup has found its index, searching any further
/// leaves the answer unchanged.
proof fn lemma_first_length_grow(attrs: Seq<LayoutAttrV>, name: Seq<char>, j: int, k: int)
    requires
        0 <= j <= k <= attrs.len(),
        first_length_before(attrs, name, j) >= 0,
    ensures
        first_length_before(attrs, name, k) == first_length_before(attrs, name, j),
    decreases k - j,
{
    if j < k {
        lemma_first_length_grow(attrs, name, j, k - 1);
    }
}

/// Decode `cnt` collection elements in a row.
fn decode_list_exec(
    elem: &ElemKind,
    e: DatatypeEndianness,
    bytes: &Vec<u8>,
    pos: usize,
    cnt: u128,
) -> (r: Result<(Vec<Value>, usize), DecodeError>)
    requires
        pos <= bytes@.len(),
    ensures
        (decode_list(view_elem_kind(*elem), e, bytes@, pos as int, cnt as nat) is Some) == (
        r is Ok),
        r matches Ok(t) ==> view_values(t.0@) == decode_list(
            view_elem_kind(*elem),
            e,
            bytes@,
            pos as int,
            cnt as nat,
        )->Some_0.0 && t.1 as int == decode_list(
            view_elem_kind(*elem),
            e,
            bytes@,
            pos as int,
            cnt as nat,
        )->Some_0.1 && pos <= t.1 <= bytes@.len(),
        r matches Err(e2) ==> e2 == DecodeError::UnexpectedEof,
    decreases view_elem_kind(*elem), 0int, 3int,
{
    let ghost ev = view_elem_kind(*elem);
    let ghost whole = decode_list(ev, e, bytes@, pos as int, cnt as nat);
    let mut k: u128 = 0;
    let mut cur = pos;
    let mut items: Vec<Value> = Vec::new();
    proof {
        assert(view_values(items@) =~= Seq::<ValueV>::empty());
    }
    while k < cnt
        invariant
            0 <= k <= cnt,
            ev == view_elem_kind(*elem),
            whole == decode_list(ev, e, bytes@, pos as int, cnt as nat),
            pos <= cur <= bytes@.len(),
            whole == (match decode_list(ev, e, bytes@, cur as int, (cnt - k) as nat) {
                None => None::<(Seq<ValueV>, int)>,
                Some((rest, p)) => Some((view_values(items@) + rest, p)),
            }),
        decreases cnt - k,
    {
        let ghost items_prev = items@;
        let step = decode_elem_exec(elem, e, bytes, cur);
        match step {
            Ok(t) => {
                let (v, p2) = t;
                let ghost d = decode_elem(ev, e, bytes@, cur as int)->Some_0;
                proof {
                    assert(decode_list(ev, e, bytes@, cur as int, (cnt - k) as nat) == (
                    match decode_list(ev, e, bytes@, d.1, (cnt - k - 1) as nat) {
                        None => None::<(Seq<ValueV>, int)>,
                        Some((rest, p)) => Some((seq![d.0] + rest, p)),
                    }));
                }
                items.push(v);
                cur = p2;
                proof {
                    lemma_view_values(items@);
                    lemma_view_values(items_prev);
                    assert(view_values(items@) =~= view_values(items_prev).push(view_value(v)))
                        by {
                        assert forall|t2: int|
                            0 <= t2 < items@.len() implies #[trigger] view_values(items@)[t2]
                            == view_values(items_prev).push(view_value(v))[t2] by {
                            assert(view_values(items@)[t2] == view_value(items@[t2]));
                            if t2 < items_prev.len() {
                                assert(items@[t2] == items_prev[t2]);
                                assert(view_values(items_prev)[t2] == view_value(items_prev[t2]));
                            } else {
                                assert(items@[t2] == v);
                            }
                        }
                    }
                    if decode_list(ev, e, bytes@, cur as int, (cnt - k - 1) as nat) is Some {
                        let rest = decode_list(ev, e, bytes@, cur as int, (cnt - k - 1) as nat)
                            ->Some_0.0;
                        assert(view_values(items_prev) + (seq![d.0] + rest) =~= (view_values(
                            items_prev,
                        ).push(d.0)) + rest);
                    }
                }
                k = k + 1;
            },
            Err(e2) => {
                return Err(e2);
            },
        }
    }
    proof {
        assert(decode_list(ev, e, bytes@, cur as int, 0nat) == Some(
            (Seq::<ValueV>::empty(), cur as int),
        ));
        assert(view_values(items@) + Seq::<ValueV>::empty() =~= view_values(items@));
    }
    Ok((items, cur))
}

/// Decode one collection element at `pos`.
fn decode_elem_exec(elem: &ElemKind, e: DatatypeEndianness, bytes: &Vec<u8>, pos: usize) -> (r:
    Result<(Value, usize), DecodeError>)
    requires
        pos <= bytes@.len(),
    ensures
        (decode_elem(view_elem_kind(*elem), e, bytes@, pos as int) is Some) == (r is Ok),
        r matches Ok(t) ==> view_value(t.0) == decode_elem(
            view_elem_kind(*elem),
            e,
            bytes@,
            pos as int,
        )->Some_0.0 && t.1 as int == decode_elem(view_elem_kind(*elem), e, bytes@, pos as int)
            ->Some_0.1 && pos <= t.1 <= bytes@.len(),
        r matches Err(e2) ==> e2 == DecodeError::UnexpectedEof,
    decreases view_elem_kind(*elem), 0int, 2int,
{
    match elem {
        ElemKind::Integer(it) => {
            let w = it.size() as usize;
            if bytes.len() - pos >= w {
                let n = read_uint(e, bytes, pos, w);
                proof {
                    lemma_bound_mono(w as nat, 16);
                    lemma_bound_16();
                }
                Ok((Value::Integer(n), pos + w))
            } else {
                Err(DecodeError::UnexpectedEof)
            }
        },
        ElemKind::Float(ft) => {
            let w = ft.size() as usize;
            if bytes.len() - pos >= w {
                let n = read_uint(e, bytes, pos, w);
                proof {
                    reveal_with_fuel(bound, 9);
                    lemma_bound_mono(w as nat, 8);
                }
                Ok((Value::Float(n as u64), pos + w))
            } else {
                Err(DecodeError::UnexpectedEof)
            }
        },
        ElemKind::Text => {
            match read_text(bytes, pos) {
                Ok(t) => {
                    let (tb, p2) = t;
                    Ok((Value::Text(tb), p2))
                },
                Err(e2) => Err(e2),
            }
        },
        ElemKind::Record(rl) => {
            match decode_record(rl, bytes, pos) {
                Ok(t) => {
                    let (fs, p2) = t;
                    Ok((Value::Record(fs), p2))
                },
                Err(e2) => Err(e2),
            }
        },
    }
}

/// Decode a record from the start of a byte stream, mirroring encode
/// exactly: attributes are read in resolved order, reserved attributes are
/// read and discarded, and a collection's element count comes from its
/// length attribute (or its fixed arity). Fails with `UnexpectedEof` exactly
/// when the stream is exhausted before every attribute is read; trailing
/// bytes are ignored.
pub fn decode(l: &RecordLayout, bytes: &Vec<u8>) -> (r: Result<Value, DecodeError>)
    ensures
        (decode_fields(l.deep_view(), bytes@, 0) is Some) == (r is Ok),
        r matches Ok(v) ==> v.deep_view() == ValueV::Record(
            decode_fields(l.deep_view(), bytes@, 0)->Some_0.0,
        ),
        r matches Err(e2) ==> e2 == DecodeError::UnexpectedEof,
{
    match decode_record(l, bytes, 0) {
        Ok(t) => {
            let (fields, _) = t;
            Ok(Value::Record(fields))
        },
        Err(e2) => Err(e2),
    }
}

/// The exact encoded byte length of a record value: computed from the
/// encoding itself, and equal to the per-attribute size summation by
/// [`lemma_size_agreement`].
pub fn size(l: &RecordLayout, v: &Value) -> (r: usize)
    requires
        wf_layout(l.deep_view()),
        v.deep_view() is Record,
        matches_fields(l.deep_view(), rec_fields(v.deep_view()), false),
    ensures
        r as int == size_fields(l.deep_view(), rec_fields(v.deep_view())),
        r as nat == encode_fields(l.deep_view(), rec_fields(v.deep_view())).len(),
{
    proof {
        lemma_size_agreement(l.deep_view(), rec_fields(v.deep_view()));
    }
    let encoded = encode(l, v);
    encoded.len()
}

} // verus!
