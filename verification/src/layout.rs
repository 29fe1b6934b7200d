//! The resolved record layout the codec interprets: attributes in final wire
//! order, with nested record layouts linked in place of type name tokens.
use vstd::prelude::*;

use crate::structs::DatatypeEndianness;
use crate::types::{FloatType, IntegerType};

verus! {

/// One attribute of a resolved layout, in wire order.
#[derive(Debug, PartialEq)]
pub struct LayoutAttr {
    pub name: String,
    pub kind: FieldKind,
    pub endianness: DatatypeEndianness,
    pub reserved: bool,
}

/// The wire kind of a layout attribute.
#[derive(Debug, PartialEq)]
pub enum FieldKind {
    Integer(IntegerType),
    Float(FloatType),
    Text,
    Record(RecordLayout),
    Collection(ElemKind, Option<u8>),
    Length(IntegerType),
}

/// The element kind of a collection attribute.
#[derive(Debug, PartialEq)]
pub enum ElemKind {
    Integer(IntegerType),
    Float(FloatType),
    Text,
    Record(RecordLayout),
}

/// A resolved record layout: its attributes in serialization order.
#[derive(Debug, PartialEq)]
pub struct RecordLayout {
    pub attrs: Vec<LayoutAttr>,
}

/// Mathematical model of [`RecordLayout`].
#[verifier::ext_equal]
pub struct LayoutV {
    pub attrs: Seq<LayoutAttrV>,
}

/// Mathematical model of [`LayoutAttr`].
#[verifier::ext_equal]
pub struct LayoutAttrV {
    pub name: Seq<char>,
    pub kind: FieldKindV,
    pub endianness: DatatypeEndianness,
    pub reserved: bool,
}

/// Mathematical model of [`FieldKind`].
#[verifier::ext_equal]
pub enum FieldKindV {
    Integer(IntegerType),
    Float(FloatType),
    Text,
    Record(LayoutV),
    Collection(ElemKindV, Option<u8>),
    Length(IntegerType),
}

/// Mathematical model of [`ElemKind`].
#[verifier::ext_equal]
pub enum ElemKindV {
    Integer(IntegerType),
    Float(FloatType),
    Text,
    Record(LayoutV),
}

/// The model of a layout.
pub open spec fn view_layout(l: RecordLayout) -> LayoutV
    decreases l, l.attrs@.len() + 1, 1int,
{
    LayoutV { attrs: view_layout_attrs(l.attrs@) }
}

/// The model of a sequence of layout attributes, elementwise.
pub open spec fn view_layout_attrs(s: Seq<LayoutAttr>) -> Seq<LayoutAttrV>
    decreases s, s.len(), 1int,
{
    if s.len() == 0 {
        Seq::empty()
    } else {
        seq![view_layout_attr(s[0])] + view_layout_attrs(s.drop_first())
    }
}

/// The model of one layout attribute.
pub open spec fn view_layout_attr(a: LayoutAttr) -> LayoutAttrV
    decreases a, 0int, 1int,
{
    LayoutAttrV {
        name: a.name@,
        kind: view_field_kind(a.kind),
        endianness: a.endianness,
        reserved: a.reserved,
    }
}

/// The model of a field kind.
pub open spec fn view_field_kind(k: FieldKind) -> FieldKindV
    decreases k, 0int, 1int,
{
    match k {
        FieldKind::Integer(t) => FieldKindV::Integer(t),
        FieldKind::Float(t) => FieldKindV::Float(t),
        FieldKind::Text => FieldKindV::Text,
        FieldKind::Record(l) => FieldKindV::Record(view_layout(l)),
        FieldKind::Collection(e, n) => FieldKindV::Collection(view_elem_kind(e), n),
        FieldKind::Length(t) => FieldKindV::Length(t),
    }
}

/// The model of an element kind.
pub open spec fn view_elem_kind(e: ElemKind) -> ElemKindV
    decreases e, 0int, 1int,
{
    match e {
        ElemKind::Integer(t) => ElemKindV::Integer(t),
        ElemKind::Float(t) => ElemKindV::Float(t),
        ElemKind::Text => ElemKindV::Text,
        ElemKind::Record(l) => ElemKindV::Record(view_layout(l)),
    }
}

impl DeepView for RecordLayout {
    type V = LayoutV;

    open spec fn deep_view(&self) -> LayoutV {
        view_layout(*self)
    }
}

impl DeepView for LayoutAttr {
    type V = LayoutAttrV;

    open spec fn deep_view(&self) -> LayoutAttrV {
        view_layout_attr(*self)
    }
}

/// The attribute models line up with the attributes, index by index.
pub proof fn lemma_view_layout_attrs(s: Seq<LayoutAttr>)
    ensures
        view_layout_attrs(s).len() == s.len(),
        forall|i: int|
            0 <= i < s.len() ==> #[trigger] view_layout_attrs(s)[i] == view_layout_attr(s[i]),
    decreases s.len(),
{
    if s.len() > 0 {
        lemma_view_layout_attrs(s.drop_first());
        assert forall|i: int|
            0 <= i < s.len() implies #[trigger] view_layout_attrs(s)[i] == view_layout_attr(
            s[i],
        ) by {
            if i > 0 {
                assert(view_layout_attrs(s)[i] == view_layout_attrs(s.drop_first())[i - 1]);
                assert(s.drop_first()[i - 1] == s[i]);
            }
        }
    }
}


/// Copy a layout; the copy has the same model.
pub fn clone_layout(l: &RecordLayout) -> (r: RecordLayout)
    ensures
        view_layout(r) == view_layout(*l),
    decreases view_layout(*l).attrs, 0int, 3int,
{
    let ghost va = view_layout(*l).attrs;
    proof {
        lemma_view_layout_attrs(l.attrs@);
    }
    let n = l.attrs.len();
    let mut attrs: Vec<LayoutAttr> = Vec::new();
    let mut j: usize = 0;
    proof {
        assert(view_layout_attrs(attrs@) =~= va.subrange(0, 0));
    }
    while j < n
        invariant
            0 <= j <= n,
            n == l.attrs@.len(),
            va == view_layout(*l).attrs,
            va == view_layout_attrs(l.attrs@),
            va.len() == n,
            attrs@.len() == j,
            view_layout_attrs(attrs@) == va.subrange(0, j as int),
        decreases n - j,
    {
        proof {
            lemma_view_layout_attrs(l.attrs@);
            assert(view_layout_attr(l.attrs@[j as int]) == va[j as int]);
        }
        let a = clone_attr(&l.attrs[j]);
        let ghost prev = attrs@;
        attrs.push(a);
        proof {
            lemma_view_layout_attrs(attrs@);
            lemma_view_layout_attrs(prev);
            assert(view_layout_attrs(attrs@) =~= va.subrange(0, j as int + 1)) by {
                assert forall|t: int|
                    0 <= t < attrs@.len() implies #[trigger] view_layout_attrs(attrs@)[t]
                    == va.subrange(0, j as int + 1)[t] by {
                    assert(view_layout_attrs(attrs@)[t] == view_layout_attr(attrs@[t]));
                    if t < j {
                        assert(attrs@[t] == prev[t]);
                        assert(view_layout_attrs(prev)[t] == view_layout_attr(prev[t]));
                        assert(view_layout_attrs(prev)[t] == va.subrange(0, j as int)[t]);
                    } else {
                        assert(attrs@[t] == a);
                    }
                }
            }
        }
        j = j + 1;
    }
    proof {
        assert(va.subrange(0, n as int) =~= va);
    }
    let r = RecordLayout { attrs };
    proof {
        assert(view_layout(r) =~= view_layout(*l));
    }
    r
}

/// Copy one layout attribute; the copy has the same model.
pub fn clone_attr(a: &LayoutAttr) -> (r: LayoutAttr)
    ensures
        view_layout_attr(r) == view_layout_attr(*a),
    decreases view_layout_attr(*a).kind, 0int, 2int,
{
    LayoutAttr {
        name: a.name.clone(),
        kind: clone_kind(&a.kind),
        endianness: a.endianness,
        reserved: a.reserved,
    }
}

/// Copy one field kind; the copy has the same model.
pub fn clone_kind(k: &FieldKind) -> (r: FieldKind)
    ensures
        view_field_kind(r) == view_field_kind(*k),
    decreases view_field_kind(*k), 0int, 1int,
{
    match k {
        FieldKind::Integer(t) => FieldKind::Integer(*t),
        FieldKind::Float(t) => FieldKind::Float(*t),
        FieldKind::Text => FieldKind::Text,
        FieldKind::Record(l) => {
            proof {
                assert(view_field_kind(*k) == FieldKindV::Record(view_layout(*l)));
                assert(decreases_to!(view_field_kind(*k) => view_field_kind(*k)->Record_0));
                assert(decreases_to!(view_field_kind(*k)->Record_0 => view_field_kind(
                    *k,
                )->Record_0.attrs));
                assert(decreases_to!(view_field_kind(*k) => view_layout(*l).attrs));
            }
            FieldKind::Record(clone_layout(l))
        },
        FieldKind::Collection(e, n) => {
            proof {
                assert(view_field_kind(*k) == FieldKindV::Collection(view_elem_kind(*e), *n));
            }
            FieldKind::Collection(clone_elem(e), *n)
        },
        FieldKind::Length(t) => FieldKind::Length(*t),
    }
}

/// Copy one element kind; the copy has the same model.
pub fn clone_elem(e: &ElemKind) -> (r: ElemKind)
    ensures
        view_elem_kind(r) == view_elem_kind(*e),
    decreases view_elem_kind(*e), 0int, 1int,
{
    match e {
        ElemKind::Integer(t) => ElemKind::Integer(*t),
        ElemKind::Float(t) => ElemKind::Float(*t),
        ElemKind::Text => ElemKind::Text,
        ElemKind::Record(l) => {
            proof {
                assert(view_elem_kind(*e) == ElemKindV::Record(view_layout(*l)));
                assert(decreases_to!(view_elem_kind(*e) => view_elem_kind(*e)->Record_0));
                assert(decreases_to!(view_elem_kind(*e)->Record_0 => view_elem_kind(
                    *e,
                )->Record_0.attrs));
                assert(decreases_to!(view_elem_kind(*e) => view_layout(*l).attrs));
            }
            ElemKind::Record(clone_layout(l))
        },
    }
}

} // verus!
