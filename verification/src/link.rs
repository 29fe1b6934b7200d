//! Linking: the resolved, ordered attribute list of one record becomes the
//! layout the codec interprets, with every nested record type name replaced
//! by that type's own linked layout from an environment of named layouts.
use vstd::prelude::*;

use crate::layout::{
    clone_layout, lemma_view_layout_attrs, view_layout, view_layout_attr, view_layout_attrs,
    ElemKind, ElemKindV, FieldKind, FieldKindV, LayoutAttr, LayoutAttrV, LayoutV, RecordLayout,
};
use crate::structs::{DatatypeAttribute, DatatypeAttributeTypeV, DatatypeAttributeV};
use crate::types::{token_is, FloatType, IntegerType};

verus! {

/// A record type name bound to its linked layout.
pub struct TypeBinding {
    pub name: String,
    pub layout: RecordLayout,
}

/// Mathematical model of [`TypeBinding`].
pub struct TypeBindingV {
    pub name: Seq<char>,
    pub layout: LayoutV,
}

impl DeepView for TypeBinding {
    type V = TypeBindingV;

    open spec fn deep_view(&self) -> TypeBindingV {
        TypeBindingV { name: self.name@, layout: view_layout(self.layout) }
    }
}

/// The named record layouts a declaration may refer to.
pub struct TypeEnv {
    pub entries: Vec<TypeBinding>,
}

/// A linking failure: a type name token that is neither a cataloged
/// primitive, the text type, nor a bound record type.
#[derive(Debug, PartialEq)]
pub enum LinkError {
    UnresolvedType(String),
}

/// The layout bound to the first entry of this name, if any.
pub open spec fn spec_lookup(env: Seq<TypeBindingV>, name: Seq<char>, i: int) -> Option<LayoutV>
    decreases env.len() - i,
{
    if i < 0 || i >= env.len() {
        None
    } else if env[i].name == name {
        Some(env[i].layout)
    } else {
        spec_lookup(env, name, i + 1)
    }
}

/// The element kind an element type token links to: a cataloged integer or
/// float, the text type, or a bound record layout; otherwise the unresolved
/// token.
pub open spec fn spec_link_elem(token: Seq<char>, env: Seq<TypeBindingV>) -> Result<
    ElemKindV,
    Seq<char>,
> {
    if IntegerType::spec_from_token(token) is Ok {
        Ok(ElemKindV::Integer(IntegerType::spec_from_token(token)->Ok_0))
    } else if FloatType::spec_from_token(token) is Ok {
        Ok(ElemKindV::Float(FloatType::spec_from_token(token)->Ok_0))
    } else if token == "String"@ {
        Ok(ElemKindV::Text)
    } else {
        match spec_lookup(env, token, 0) {
            Some(l) => Ok(ElemKindV::Record(l)),
            None => Err(token),
        }
    }
}

/// The layout attribute one schema attribute links to. The resolved
/// position is consumed by the list order itself and carried no further.
pub open spec fn spec_link_attr(a: DatatypeAttributeV, env: Seq<TypeBindingV>) -> Result<
    LayoutAttrV,
    Seq<char>,
> {
    let kind: Result<FieldKindV, Seq<char>> = match a.ty {
        DatatypeAttributeTypeV::PrimitiveInteger(it) => Ok(FieldKindV::Integer(it)),
        DatatypeAttributeTypeV::PrimitiveFloat(ft) => Ok(FieldKindV::Float(ft)),
        DatatypeAttributeTypeV::Text => Ok(FieldKindV::Text),
        DatatypeAttributeTypeV::Struct(t) => match spec_lookup(env, t, 0) {
            Some(l) => Ok(FieldKindV::Record(l)),
            None => Err(t),
        },
        DatatypeAttributeTypeV::Collection(tok, arity) => match spec_link_elem(tok, env) {
            Ok(e) => Ok(FieldKindV::Collection(e, arity)),
            Err(t) => Err(t),
        },
        DatatypeAttributeTypeV::CollectionLength(it) => Ok(FieldKindV::Length(it)),
    };
    match kind {
        Ok(k) => Ok(
            LayoutAttrV { name: a.name, kind: k, endianness: a.endianness, reserved: a.reserved },
        ),
        Err(t) => Err(t),
    }
}

/// The layout attributes that the schema attributes at or after `i` link to.
pub open spec fn spec_link_from(
    attrs: Seq<DatatypeAttributeV>,
    env: Seq<TypeBindingV>,
    i: int,
) -> Result<Seq<LayoutAttrV>, Seq<char>>
    decreases attrs.len() - i,
{
    if i < 0 || i >= attrs.len() {
        Ok(Seq::empty())
    } else {
        match spec_link_attr(attrs[i], env) {
            Err(t) => Err(t),
            Ok(a) => match spec_link_from(attrs, env, i + 1) {
                Err(t) => Err(t),
                Ok(rest) => Ok(seq![a] + rest),
            },
        }
    }
}

/// Look a record type name up in the environment.
fn lookup<'a>(env: &'a TypeEnv, token: &String) -> (r: Option<&'a RecordLayout>)
    ensures
        (r matches Some(rl) ==> spec_lookup(env.entries.deep_view(), token@, 0) == Some(
            view_layout(*rl),
        )),
        (r is None ==> spec_lookup(env.entries.deep_view(), token@, 0) is None),
{
    let ghost ev = env.entries.deep_view();
    let n = env.entries.len();
    let mut i: usize = 0;
    while i < n
        invariant
            0 <= i <= n,
            n == env.entries@.len(),
            ev == env.entries.deep_view(),
            ev.len() == n,
            spec_lookup(ev, token@, 0) == spec_lookup(ev, token@, i as int),
        decreases n - i,
    {
        proof {
            assert(ev[i as int] == env.entries@[i as int].deep_view());
        }
        if crate::codec::str_eq(&env.entries[i].name, token) {
            return Some(&env.entries[i].layout);
        }
        i = i + 1;
    }
    None
}

/// Link one schema attribute against the environment.
fn link_attr(a: &DatatypeAttribute, env: &TypeEnv) -> (r: Result<LayoutAttr, LinkError>)
    ensures
        (spec_link_attr(a.deep_view(), env.entries.deep_view()) matches Ok(la) ==> (
        r matches Ok(out) && view_layout_attr(out) == la)),
        (spec_link_attr(a.deep_view(), env.entries.deep_view()) matches Err(tok) ==> (
        r matches Err(le) && le matches LinkError::UnresolvedType(s) && s@ == tok)),
{
    let kind: FieldKind = match &a.ty {
        crate::structs::DatatypeAttributeType::PrimitiveInteger(it) => FieldKind::Integer(*it),
        crate::structs::DatatypeAttributeType::PrimitiveFloat(ft) => FieldKind::Float(*ft),
        crate::structs::DatatypeAttributeType::Text => FieldKind::Text,
        crate::structs::DatatypeAttributeType::Struct(t) => {
            match lookup(env, t) {
                Some(rl) => FieldKind::Record(clone_layout(rl)),
                None => {
                    return Err(LinkError::UnresolvedType(t.clone()));
                },
            }
        },
        crate::structs::DatatypeAttributeType::Collection(tok, arity) => {
            let elem: ElemKind = match IntegerType::from_token(tok) {
                Ok(it) => ElemKind::Integer(it),
                Err(_) => match FloatType::from_token(tok) {
                    Ok(ft) => ElemKind::Float(ft),
                    Err(_) => {
                        if token_is(tok, "String") {
                            ElemKind::Text
                        } else {
                            match lookup(env, tok) {
                                Some(rl) => ElemKind::Record(clone_layout(rl)),
                                None => {
                                    return Err(LinkError::UnresolvedType(tok.clone()));
                                },
                            }
                        }
                    },
                },
            };
            FieldKind::Collection(elem, *arity)
        },
        crate::structs::DatatypeAttributeType::CollectionLength(it) => FieldKind::Length(*it),
    };
    Ok(
        LayoutAttr {
            name: a.name.clone(),
            kind,
            endianness: a.endianness,
            reserved: a.reserved,
        },
    )
}

/// Link a resolved attribute list into the record layout the codec
/// interprets: the attributes keep their resolved order, and every nested
/// type name is replaced by its bound layout.
pub fn link(attrs: &Vec<DatatypeAttribute>, env: &TypeEnv) -> (r: Result<RecordLayout, LinkError>)
    ensures
        (spec_link_from(attrs.deep_view(), env.entries.deep_view(), 0) matches Ok(la) ==> (
        r matches Ok(rl) && view_layout(rl) == LayoutV { attrs: la })),
        (spec_link_from(attrs.deep_view(), env.entries.deep_view(), 0) matches Err(tok) ==> (
        r matches Err(le) && le matches LinkError::UnresolvedType(s) && s@ == tok)),
{
    let ghost ad = attrs.deep_view();
    let ghost ed = env.entries.deep_view();
    let n = attrs.len();
    let mut out: Vec<LayoutAttr> = Vec::new();
    let mut j: usize = 0;
    proof {
        assert(view_layout_attrs(out@) =~= Seq::<LayoutAttrV>::empty());
    }
    while j < n
        invariant
            0 <= j <= n,
            n == attrs@.len(),
            ad == attrs.deep_view(),
            ed == env.entries.deep_view(),
            ad.len() == n,
            out@.len() == j,
            spec_link_from(ad, ed, 0) == (match spec_link_from(ad, ed, j as int) {
                Ok(rest) => Ok::<Seq<LayoutAttrV>, Seq<char>>(view_layout_attrs(out@) + rest),
                Err(t) => Err(t),
            }),
        decreases n - j,
    {
        proof {
            assert(ad[j as int] == attrs@[j as int].deep_view());
        }
        match link_attr(&attrs[j], env) {
            Ok(a) => {
                let ghost prev = out@;
                out.push(a);
                proof {
                    lemma_view_layout_attrs(out@);
                    lemma_view_layout_attrs(prev);
                    assert(view_layout_attrs(out@) =~= view_layout_attrs(prev).push(
                        view_layout_attr(a),
                    )) by {
                        assert forall|t: int|
                            0 <= t < out@.len() implies #[trigger] view_layout_attrs(out@)[t]
                            == view_layout_attrs(prev).push(view_layout_attr(a))[t] by {
                            assert(view_layout_attrs(out@)[t] == view_layout_attr(out@[t]));
                            if t < prev.len() {
                                assert(out@[t] == prev[t]);
                                assert(view_layout_attrs(prev)[t] == view_layout_attr(prev[t]));
                            } else {
                                assert(out@[t] == a);
                            }
                        }
                    }
                    if spec_link_from(ad, ed, j as int + 1) is Ok {
                        let rest = spec_link_from(ad, ed, j as int + 1)->Ok_0;
                        let la = spec_link_attr(ad[j as int], ed)->Ok_0;
                        assert(view_layout_attrs(prev) + (seq![la] + rest) =~= (view_layout_attrs(
                            prev,
                        ).push(la)) + rest);
                    }
                }
                j = j + 1;
            },
            Err(e) => {
                return Err(e);
            },
        }
    }
    proof {
        assert(spec_link_from(ad, ed, n as int) == Ok::<Seq<LayoutAttrV>, Seq<char>>(Seq::empty()));
        assert(view_layout_attrs(out@) + Seq::<LayoutAttrV>::empty() =~= view_layout_attrs(out@));
    }
    let rl = RecordLayout { attrs: out };
    proof {
        if spec_link_from(ad, ed, 0) is Ok {
            assert(view_layout(rl) =~= LayoutV { attrs: spec_link_from(ad, ed, 0)->Ok_0 });
        }
    }
    Ok(rl)
}

} // verus!
