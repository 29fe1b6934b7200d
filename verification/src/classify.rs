//! The field classifier: one declared field, with its directives, expands
//! into one or two schema attributes. A collection field yields a paired
//! collection-length attribute and a collection attribute; any other field
//! yields a single attribute of the matching kind.
use vstd::prelude::*;

use crate::parse::{
    is_collection_type, get_collection_embedded_type, spec_collection_embedded_type,
    spec_is_collection_name, spec_is_collection_type, ClassifyError, DeclaredType, DeclaredTypeV,
};
use crate::structs::{
    DatatypeAttribute, DatatypeAttributeType, DatatypeAttributeTypeV, DatatypeAttributeV,
    DatatypeEndianness,
};
use crate::types::{token_is, FloatType, IntegerType};

verus! {

/// One directive attached to a declared field.
///
/// `SerializeFunction`, `Ignore` and `Padding` are accepted so that
/// declarations carrying them still classify, but they have no effect on the
/// schema: the classifier reads only the endianness, length-type, position,
/// length-position and reserved directives.
#[derive(Clone, Debug, PartialEq, Eq)]
pub enum DataFieldArg {
    Endianness(DatatypeEndianness),
    LengthType(IntegerType),
    Position(u8),
    LengthPosition(u8),
    SerializeFunction(String),
    Ignore,
    Padding,
    Reserved,
}

/// Mathematical model of [`DataFieldArg`].
pub enum DataFieldArgV {
    Endianness(DatatypeEndianness),
    LengthType(IntegerType),
    Position(u8),
    LengthPosition(u8),
    SerializeFunction(Seq<char>),
    Ignore,
    Padding,
    Reserved,
}

impl DeepView for DataFieldArg {
    type V = DataFieldArgV;

    open spec fn deep_view(&self) -> DataFieldArgV {
        match self {
            DataFieldArg::Endianness(e) => DataFieldArgV::Endianness(*e),
            DataFieldArg::LengthType(t) => DataFieldArgV::LengthType(*t),
            DataFieldArg::Position(p) => DataFieldArgV::Position(*p),
            DataFieldArg::LengthPosition(p) => DataFieldArgV::LengthPosition(*p),
            DataFieldArg::SerializeFunction(f) => DataFieldArgV::SerializeFunction(f@),
            DataFieldArg::Ignore => DataFieldArgV::Ignore,
            DataFieldArg::Padding => DataFieldArgV::Padding,
            DataFieldArg::Reserved => DataFieldArgV::Reserved,
        }
    }
}

/// One declared field: its name, its directives, and the shape of its
/// declared type.
#[derive(Clone, Debug, PartialEq, Eq)]
pub struct DataField {
    pub name: String,
    pub attrs: Vec<DataFieldArg>,
    pub ty: DeclaredType,
}

/// Mathematical model of [`DataField`].
pub struct DataFieldV {
    pub name: Seq<char>,
    pub attrs: Seq<DataFieldArgV>,
    pub ty: DeclaredTypeV,
}

impl DeepView for DataField {
    type V = DataFieldV;

    open spec fn deep_view(&self) -> DataFieldV {
        DataFieldV { name: self.name@, attrs: self.attrs.deep_view(), ty: self.ty.deep_view() }
    }
}

/// The endianness selected by the first endianness directive at or after
/// index `i`, else the big-endian default.
pub open spec fn spec_endianness_from(args: Seq<DataFieldArgV>, i: int) -> DatatypeEndianness
    decreases args.len() - i,
{
    if i < 0 || i >= args.len() {
        DatatypeEndianness::BigEndian
    } else {
        match args[i] {
            DataFieldArgV::Endianness(e) => e,
            _ => spec_endianness_from(args, i + 1),
        }
    }
}

/// Whether any directive is the reserved flag.
pub open spec fn spec_reserved(args: Seq<DataFieldArgV>) -> bool {
    exists|j: int| 0 <= j < args.len() && args[j] is Reserved
}

/// The value of the first position directive at or after index `i`, if any.
pub open spec fn spec_position_from(args: Seq<DataFieldArgV>, i: int) -> Option<u8>
    decreases args.len() - i,
{
    if i < 0 || i >= args.len() {
        None
    } else {
        match args[i] {
            DataFieldArgV::Position(p) => Some(p),
            _ => spec_position_from(args, i + 1),
        }
    }
}

/// The value of the first length-position directive at or after index `i`.
pub open spec fn spec_length_position_from(args: Seq<DataFieldArgV>, i: int) -> Option<u8>
    decreases args.len() - i,
{
    if i < 0 || i >= args.len() {
        None
    } else {
        match args[i] {
            DataFieldArgV::LengthPosition(p) => Some(p),
            _ => spec_length_position_from(args, i + 1),
        }
    }
}

/// The integer kind of the first length-type directive at or after index
/// `i`, else the default 16-bit kind.
pub open spec fn spec_length_type_from(args: Seq<DataFieldArgV>, i: int) -> IntegerType
    decreases args.len() - i,
{
    if i < 0 || i >= args.len() {
        IntegerType::U16
    } else {
        match args[i] {
            DataFieldArgV::LengthType(t) => t,
            _ => spec_length_type_from(args, i + 1),
        }
    }
}

/// The field's endianness: its first endianness directive, else big-endian.
pub fn get_endianness(args: &Vec<DataFieldArg>) -> (r: DatatypeEndianness)
    ensures
        r == spec_endianness_from(args.deep_view(), 0),
{
    let ghost av = args.deep_view();
    let mut i: usize = 0;
    while i < args.len()
        invariant
            0 <= i <= args.len(),
            av == args.deep_view(),
            av.len() == args@.len(),
            spec_endianness_from(av, 0) == spec_endianness_from(av, i as int),
        decreases args.len() - i,
    {
        if let DataFieldArg::Endianness(e) = &args[i] {
            return *e;
        }
        i = i + 1;
    }
    DatatypeEndianness::BigEndian
}

/// Whether the field carries the reserved flag.
pub fn get_reserved(args: &Vec<DataFieldArg>) -> (r: bool)
    ensures
        r == spec_reserved(args.deep_view()),
{
    let ghost av = args.deep_view();
    let mut i: usize = 0;
    while i < args.len()
        invariant
            0 <= i <= args.len(),
            av == args.deep_view(),
            av.len() == args@.len(),
            forall|j: int| 0 <= j < i ==> !(av[j] is Reserved),
        decreases args.len() - i,
    {
        if let DataFieldArg::Reserved = &args[i] {
            assert(av[i as int] is Reserved);
            return true;
        }
        i = i + 1;
    }
    false
}

/// The field's explicit position directive, if any.
pub fn get_position(args: &Vec<DataFieldArg>) -> (r: Option<u8>)
    ensures
        r == spec_position_from(args.deep_view(), 0),
{
    let ghost av = args.deep_view();
    let mut i: usize = 0;
    while i < args.len()
        invariant
            0 <= i <= args.len(),
            av == args.deep_view(),
            av.len() == args@.len(),
            spec_position_from(av, 0) == spec_position_from(av, i as int),
        decreases args.len() - i,
    {
        if let DataFieldArg::Position(p) = &args[i] {
            return Some(*p);
        }
        i = i + 1;
    }
    None
}

/// The field's explicit length-position directive, if any.
pub fn get_length_position(args: &Vec<DataFieldArg>) -> (r: Option<u8>)
    ensures
        r == spec_length_position_from(args.deep_view(), 0),
{
    let ghost av = args.deep_view();
    let mut i: usize = 0;
    while i < args.len()
        invariant
            0 <= i <= args.len(),
            av == args.deep_view(),
            av.len() == args@.len(),
            spec_length_position_from(av, 0) == spec_length_position_from(av, i as int),
        decreases args.len() - i,
    {
        if let DataFieldArg::LengthPosition(p) = &args[i] {
            return Some(*p);
        }
        i = i + 1;
    }
    None
}

/// The collection length kind: the field's first length-type directive, else
/// the 16-bit default.
pub fn get_integer_ty(args: &Vec<DataFieldArg>) -> (r: IntegerType)
    ensures
        r == spec_length_type_from(args.deep_view(), 0),
{
    let ghost av = args.deep_view();
    let mut i: usize = 0;
    while i < args.len()
        invariant
            0 <= i <= args.len(),
            av == args.deep_view(),
            av.len() == args@.len(),
            spec_length_type_from(av, 0) == spec_length_type_from(av, i as int),
        decreases args.len() - i,
    {
        if let DataFieldArg::LengthType(t) = &args[i] {
            return *t;
        }
        i = i + 1;
    }
    IntegerType::U16
}

/// Whether the classifier accepts the field's declared type shape: a bare
/// collection head with no element type argument is outside its domain.
pub open spec fn classifiable(f: DataFieldV) -> bool {
    !(f.ty matches DeclaredTypeV::Named(t) && spec_is_collection_name(t))
}

/// An explicit position directive widened to a serialization slot.
pub open spec fn spec_widen_position(p: Option<u8>) -> Option<usize> {
    match p {
        Some(x) => Some(x as usize),
        None => None,
    }
}

/// The schema attributes one declared field expands into.
///
/// A collection field yields a collection-length attribute directly followed
/// by a collection attribute; the text type, the cataloged primitives and
/// nested record types yield a single attribute. A grouped compound type is
/// rejected. No position validation happens here.
pub open spec fn spec_to_attributes(f: DataFieldV) -> Result<
    Seq<DatatypeAttributeV>,
    ClassifyError,
> {
    let endianness = spec_endianness_from(f.attrs, 0);
    let reserved = spec_reserved(f.attrs);
    let position = spec_widen_position(spec_position_from(f.attrs, 0));
    if f.ty is Group {
        Err(ClassifyError::UnsupportedGroupType)
    } else if spec_is_collection_type(f.ty) is Some {
        match spec_collection_embedded_type(f.ty) {
            Ok(p) => Ok(
                seq![
                    DatatypeAttributeV {
                        name: f.name,
                        ty: DatatypeAttributeTypeV::CollectionLength(
                            spec_length_type_from(f.attrs, 0),
                        ),
                        endianness,
                        position: spec_widen_position(spec_length_position_from(f.attrs, 0)),
                        reserved,
                    },
                    DatatypeAttributeV {
                        name: f.name,
                        ty: DatatypeAttributeTypeV::Collection(p.0, p.1),
                        endianness,
                        position,
                        reserved,
                    },
                ],
            ),
            Err(e) => Err(e),
        }
    } else {
        let single_ty = match f.ty {
            DeclaredTypeV::Named(t) => if t == "String"@ {
                DatatypeAttributeTypeV::Text
            } else if IntegerType::spec_from_token(t) is Ok {
                DatatypeAttributeTypeV::PrimitiveInteger(IntegerType::spec_from_token(t)->Ok_0)
            } else if FloatType::spec_from_token(t) is Ok {
                DatatypeAttributeTypeV::PrimitiveFloat(FloatType::spec_from_token(t)->Ok_0)
            } else {
                DatatypeAttributeTypeV::Struct(t)
            },
            DeclaredTypeV::Generic(h, _) => DatatypeAttributeTypeV::Struct(h),
            // arrays were expanded as collections and groups rejected above
            _ => DatatypeAttributeTypeV::Text,
        };
        Ok(
            seq![
                DatatypeAttributeV { name: f.name, ty: single_ty, endianness, position, reserved },
            ],
        )
    }
}

impl DataField {
    /// Expand this declared field into its one or two schema attributes, per
    /// [`spec_to_attributes`].
    ///
    /// A bare collection head with no element type argument is outside the
    /// classifier's domain, so `requires` leaves it out.
    pub fn to_attributes(&self) -> (r: Result<Vec<DatatypeAttribute>, ClassifyError>)
        requires
            classifiable(self.deep_view()),
        ensures
            r is Ok == spec_to_attributes(self.deep_view()) is Ok,
            (r matches Ok(v) ==> v.deep_view() == spec_to_attributes(self.deep_view())->Ok_0),
            (r matches Err(e) ==> e == spec_to_attributes(self.deep_view())->Err_0),
    {
        let endianness = get_endianness(&self.attrs);
        let reserved = get_reserved(&self.attrs);
        let position = get_position(&self.attrs);
        if let DeclaredType::Group = &self.ty {
            return Err(ClassifyError::UnsupportedGroupType);
        }
        if is_collection_type(&self.ty).is_some() {
            let length_ty = get_integer_ty(&self.attrs);
            let length_position = get_length_position(&self.attrs);
            let embedded = get_collection_embedded_type(&self.ty);
            match embedded {
                Ok(p) => {
                    let mut v: Vec<DatatypeAttribute> = Vec::new();
                    v.push(
                        DatatypeAttribute {
                            name: self.name.clone(),
                            ty: DatatypeAttributeType::CollectionLength(length_ty),
                            endianness,
                            position: widen_position(length_position),
                            reserved,
                        },
                    );
                    let (collection_ty, collection_length) = p;
                    v.push(
                        DatatypeAttribute {
                            name: self.name.clone(),
                            ty: DatatypeAttributeType::Collection(
                                collection_ty,
                                collection_length,
                            ),
                            endianness,
                            position: widen_position(position),
                            reserved,
                        },
                    );
                    proof {
                        assert(v.deep_view() =~= spec_to_attributes(self.deep_view())->Ok_0);
                    }
                    return Ok(v);
                },
                Err(e) => {
                    return Err(e);
                },
            }
        }
        let single_ty = match &self.ty {
            DeclaredType::Named(t) => {
                if token_is(t, "String") {
                    DatatypeAttributeType::Text
                } else {
                    match IntegerType::from_token(t) {
                        Ok(it) => DatatypeAttributeType::PrimitiveInteger(it),
                        Err(_) => match FloatType::from_token(t) {
                            Ok(ft) => DatatypeAttributeType::PrimitiveFloat(ft),
                            Err(_) => DatatypeAttributeType::Struct(t.clone()),
                        },
                    }
                }
            },
            DeclaredType::Generic(h, _) => DatatypeAttributeType::Struct(h.clone()),
            // arrays were expanded as collections and groups rejected above
            _ => {
                return Err(ClassifyError::UnsupportedGroupType);
            },
        };
        let mut v: Vec<DatatypeAttribute> = Vec::new();
        v.push(
            DatatypeAttribute {
                name: self.name.clone(),
                ty: single_ty,
                endianness,
                position: widen_position(position),
                reserved,
            },
        );
        proof {
            assert(v.deep_view() =~= spec_to_attributes(self.deep_view())->Ok_0);
        }
        Ok(v)
    }
}

/// Widen an explicit position directive to a serialization slot.
pub fn widen_position(p: Option<u8>) -> (r: Option<usize>)
    ensures
        r == spec_widen_position(p),
{
    match p {
        Some(x) => Some(x as usize),
        None => None,
    }
}

} // verus!
