//! The schema model: endianness, and the schema attribute — the unit the
//! validator, the layout resolver and the codec generators operate on.
use vstd::prelude::*;

use crate::types::{FloatType, IntegerType};

verus! {

/// Byte order of one field on the wire. The default at every level is
/// big-endian.
#[derive(Clone, Copy, Debug, PartialEq, Eq, Structural)]
pub enum DatatypeEndianness {
    LittleEndian,
    BigEndian,
}

impl Default for DatatypeEndianness {
    /// Unspecified endianness falls back to big-endian.
    fn default() -> (r: Self)
        ensures
            r == DatatypeEndianness::BigEndian,
    {
        DatatypeEndianness::BigEndian
    }
}

impl DatatypeEndianness {
    /// The endianness a directive token selects, if the token is one of the
    /// two recognized names.
    pub open spec fn spec_from_token(t: Seq<char>) -> Option<DatatypeEndianness> {
        if t == "LittleEndian"@ {
            Some(DatatypeEndianness::LittleEndian)
        } else if t == "BigEndian"@ {
            Some(DatatypeEndianness::BigEndian)
        } else {
            None
        }
    }

    /// Parse a directive token naming an endianness; `None` for any other
    /// token.
    pub fn try_from_token(t: &String) -> (r: Option<DatatypeEndianness>)
        ensures
            r == DatatypeEndianness::spec_from_token(t@),
    {
        if crate::types::token_is(t, "LittleEndian") {
            Some(DatatypeEndianness::LittleEndian)
        } else if crate::types::token_is(t, "BigEndian") {
            Some(DatatypeEndianness::BigEndian)
        } else {
            None
        }
    }

    /// The canonical token of this endianness.
    pub fn token(&self) -> (r: &'static str)
        ensures
            Self::spec_from_token(r@) == Some(*self),
    {
        proof {
            reveal_strlit("LittleEndian");
            reveal_strlit("BigEndian");
            assert("LittleEndian"@.len() == 12);
            assert("BigEndian"@.len() == 9);
        }
        match self {
            DatatypeEndianness::LittleEndian => "LittleEndian",
            DatatypeEndianness::BigEndian => "BigEndian",
        }
    }
}

impl DeepView for DatatypeEndianness {
    type V = DatatypeEndianness;

    open spec fn deep_view(&self) -> DatatypeEndianness {
        *self
    }
}

/// The kind of one schema attribute.
///
/// A collection field expands into two attributes: a `CollectionLength`
/// attribute holding the element count, and a `Collection` attribute holding
/// the elements. The `Struct` and `Collection` kinds carry the name token of
/// the referenced element or record type; `Collection` also carries the
/// compile-time arity for fixed-size arrays.
#[derive(Clone, Debug, PartialEq, Eq)]
pub enum DatatypeAttributeType {
    PrimitiveInteger(IntegerType),
    PrimitiveFloat(FloatType),
    Struct(String),
    Text,
    Collection(String, Option<u8>),
    CollectionLength(IntegerType),
}

/// Mathematical model of [`DatatypeAttributeType`]: name tokens as character
/// sequences.
pub enum DatatypeAttributeTypeV {
    PrimitiveInteger(IntegerType),
    PrimitiveFloat(FloatType),
    Struct(Seq<char>),
    Text,
    Collection(Seq<char>, Option<u8>),
    CollectionLength(IntegerType),
}

impl DeepView for DatatypeAttributeType {
    type V = DatatypeAttributeTypeV;

    open spec fn deep_view(&self) -> DatatypeAttributeTypeV {
        match self {
            DatatypeAttributeType::PrimitiveInteger(t) => DatatypeAttributeTypeV::PrimitiveInteger(
                *t,
            ),
            DatatypeAttributeType::PrimitiveFloat(t) => DatatypeAttributeTypeV::PrimitiveFloat(*t),
            DatatypeAttributeType::Struct(s) => DatatypeAttributeTypeV::Struct(s@),
            DatatypeAttributeType::Text => DatatypeAttributeTypeV::Text,
            DatatypeAttributeType::Collection(s, n) => DatatypeAttributeTypeV::Collection(s@, *n),
            DatatypeAttributeType::CollectionLength(t) => DatatypeAttributeTypeV::CollectionLength(
                *t,
            ),
        }
    }
}

/// One schema attribute: a named unit of the wire format with its kind,
/// endianness, optional explicit position (0-based serialization slot) and
/// reserved flag.
#[derive(Clone, Debug, PartialEq, Eq)]
pub struct DatatypeAttribute {
    pub name: String,
    pub ty: DatatypeAttributeType,
    pub endianness: DatatypeEndianness,
    pub position: Option<usize>,
    pub reserved: bool,
}

/// Mathematical model of [`DatatypeAttribute`].
pub struct DatatypeAttributeV {
    pub name: Seq<char>,
    pub ty: DatatypeAttributeTypeV,
    pub endianness: DatatypeEndianness,
    pub position: Option<usize>,
    pub reserved: bool,
}

impl DeepView for DatatypeAttribute {
    type V = DatatypeAttributeV;

    open spec fn deep_view(&self) -> DatatypeAttributeV {
        DatatypeAttributeV {
            name: self.name@,
            ty: self.ty.deep_view(),
            endianness: self.endianness,
            position: self.position,
            reserved: self.reserved,
        }
    }
}

} // verus!
