//! The shape of a declared field type, and the collection tests over it.
//!
//! A declared type is modeled by what the classifier reads of it: its head
//! name token, an optional single type argument, or an array element and
//! arity. Parenthesized and tuple compound types appear as one opaque
//! `Group` shape.
use vstd::prelude::*;

verus! {

/// A fatal classification failure.
#[derive(Clone, Copy, Debug, PartialEq, Eq, Structural)]
pub enum ClassifyError {
    /// Parenthesized and tuple compound types are not supported.
    UnsupportedGroupType,
}

/// The shape of a declared field type.
#[derive(Clone, Debug, PartialEq, Eq)]
pub enum DeclaredType {
    /// A bare path type, carried as its name token: `u16`, `String`, `Time`.
    Named(String),
    /// A path type with angle-bracketed arguments: the head name and the
    /// first argument's token, as in `Vec<u32>` or `HashMap<u8, u8>`.
    Generic(String, String),
    /// A fixed-size array: the element token and the compile-time arity.
    Array(String, u8),
    /// A parenthesized or tuple compound type.
    Group,
}

/// Mathematical model of [`DeclaredType`].
pub enum DeclaredTypeV {
    Named(Seq<char>),
    Generic(Seq<char>, Seq<char>),
    Array(Seq<char>, u8),
    Group,
}

impl DeepView for DeclaredType {
    type V = DeclaredTypeV;

    open spec fn deep_view(&self) -> DeclaredTypeV {
        match self {
            DeclaredType::Named(t) => DeclaredTypeV::Named(t@),
            DeclaredType::Generic(h, a) => DeclaredTypeV::Generic(h@, a@),
            DeclaredType::Array(e, n) => DeclaredTypeV::Array(e@, *n),
            DeclaredType::Group => DeclaredTypeV::Group,
        }
    }
}

/// Whether a head name token names one of the recognized dynamically-sized
/// ordered or keyed collections.
pub open spec fn spec_is_collection_name(t: Seq<char>) -> bool {
    ||| t == "Vec"@
    ||| t == "VecDeque"@
    ||| t == "LinkedList"@
    ||| t == "HashMap"@
    ||| t == "BTreeMap"@
    ||| t == "HashSet"@
    ||| t == "BTreeSet"@
    ||| t == "BinaryHeap"@
}

/// Whether the owned token names a recognized collection type.
pub fn is_collection_name(t: &String) -> (r: bool)
    ensures
        r == spec_is_collection_name(t@),
{
    ||| crate::types::token_is(t, "Vec")
    ||| crate::types::token_is(t, "VecDeque")
    ||| crate::types::token_is(t, "LinkedList")
    ||| crate::types::token_is(t, "HashMap")
    ||| crate::types::token_is(t, "BTreeMap")
    ||| crate::types::token_is(t, "HashSet")
    ||| crate::types::token_is(t, "BTreeSet")
    ||| crate::types::token_is(t, "BinaryHeap")
}

/// Whether a declared type is a collection field, and with which fixed
/// arity: `Some((true, arity))` for arrays and recognized collection heads,
/// `None` otherwise.
pub open spec fn spec_is_collection_type(ty: DeclaredTypeV) -> Option<(bool, Option<u8>)> {
    match ty {
        DeclaredTypeV::Named(t) => if spec_is_collection_name(t) {
            Some((true, None::<u8>))
        } else {
            None
        },
        DeclaredTypeV::Generic(h, _) => if spec_is_collection_name(h) {
            Some((true, None::<u8>))
        } else {
            None
        },
        DeclaredTypeV::Array(_, n) => Some((true, Some(n))),
        DeclaredTypeV::Group => None,
    }
}

/// Classify a declared type as a collection field or not; for a fixed-size
/// array the result carries the arity.
pub fn is_collection_type(ty: &DeclaredType) -> (r: Option<(bool, Option<u8>)>)
    ensures
        r == spec_is_collection_type(ty.deep_view()),
{
    match ty {
        DeclaredType::Named(t) => if is_collection_name(t) {
            Some((true, None))
        } else {
            None
        },
        DeclaredType::Generic(h, _) => if is_collection_name(h) {
            Some((true, None))
        } else {
            None
        },
        DeclaredType::Array(_, n) => Some((true, Some(*n))),
        DeclaredType::Group => None,
    }
}

/// The element type token and fixed arity of a collection-shaped declared
/// type; a grouped compound shape is rejected.
pub open spec fn spec_collection_embedded_type(ty: DeclaredTypeV) -> Result<
    (Seq<char>, Option<u8>),
    ClassifyError,
> {
    match ty {
        DeclaredTypeV::Generic(_, a) => Ok((a, None::<u8>)),
        DeclaredTypeV::Array(e, n) => Ok((e, Some(n))),
        _ => Err(ClassifyError::UnsupportedGroupType),
    }
}

/// The embedded element type of a collection-shaped declared type: the first
/// type argument of a generic collection, or the element type and arity of a
/// fixed-size array.
///
/// A bare collection head without a type argument is outside the
/// classifier's domain, so it is left out by `requires`.
pub fn get_collection_embedded_type(ty: &DeclaredType) -> (r: Result<
    (String, Option<u8>),
    ClassifyError,
>)
    requires
        !(ty.deep_view() matches DeclaredTypeV::Named(t) && spec_is_collection_name(t)),
    ensures
        (r matches Ok(p) ==> spec_collection_embedded_type(ty.deep_view()) == Ok::<_, ClassifyError>(
            (p.0@, p.1),
        )),
        (r matches Err(e) ==> spec_collection_embedded_type(ty.deep_view()) == Err::<
            (Seq<char>, Option<u8>),
            _,
        >(e)),
        r is Ok == spec_collection_embedded_type(ty.deep_view()) is Ok,
{
    match ty {
        DeclaredType::Generic(_, a) => Ok((a.clone(), None)),
        DeclaredType::Array(e, n) => Ok((e.clone(), Some(*n))),
        _ => Err(ClassifyError::UnsupportedGroupType),
    }
}

} // verus!
