//! The primitive type catalog: the closed sets of fixed-width integer and
//! floating-point kinds, each with a canonical name token and a byte width.
use vstd::prelude::*;

verus! {

/// Failure of a catalog lookup: the name token matches no cataloged
/// primitive type.
#[derive(Clone, Copy, Debug, PartialEq, Eq, Structural)]
pub enum TypeError {
    UnknownPrimitiveType,
}

/// The fixed-width integer kinds the catalog supports.
#[derive(Clone, Copy, Debug, PartialEq, Eq, Structural)]
pub enum IntegerType {
    U8,
    U16,
    U32,
    U64,
    U128,
    I8,
    I16,
    I32,
    I64,
    I128,
}

/// The floating-point kinds the catalog supports.
#[derive(Clone, Copy, Debug, PartialEq, Eq, Structural)]
pub enum FloatType {
    F32,
    F64,
}

impl IntegerType {
    /// Byte width of the integer kind.
    pub open spec fn spec_size(self) -> nat {
        match self {
            IntegerType::U8 => 1,
            IntegerType::U16 => 2,
            IntegerType::U32 => 4,
            IntegerType::U64 => 8,
            IntegerType::U128 => 16,
            IntegerType::I8 => 1,
            IntegerType::I16 => 2,
            IntegerType::I32 => 4,
            IntegerType::I64 => 8,
            IntegerType::I128 => 16,
        }
    }

    /// Canonical name token of the integer kind.
    pub open spec fn spec_token(self) -> Seq<char> {
        match self {
            IntegerType::U8 => "u8"@,
            IntegerType::U16 => "u16"@,
            IntegerType::U32 => "u32"@,
            IntegerType::U64 => "u64"@,
            IntegerType::U128 => "u128"@,
            IntegerType::I8 => "i8"@,
            IntegerType::I16 => "i16"@,
            IntegerType::I32 => "i32"@,
            IntegerType::I64 => "i64"@,
            IntegerType::I128 => "i128"@,
        }
    }

    /// The integer kind whose canonical name is the given token, if any.
    pub open spec fn spec_from_token(t: Seq<char>) -> Result<IntegerType, TypeError> {
        if t == "u8"@ {
            Ok(IntegerType::U8)
        } else if t == "i8"@ {
            Ok(IntegerType::I8)
        } else if t == "u16"@ {
            Ok(IntegerType::U16)
        } else if t == "i16"@ {
            Ok(IntegerType::I16)
        } else if t == "u32"@ {
            Ok(IntegerType::U32)
        } else if t == "i32"@ {
            Ok(IntegerType::I32)
        } else if t == "u64"@ {
            Ok(IntegerType::U64)
        } else if t == "i64"@ {
            Ok(IntegerType::I64)
        } else if t == "u128"@ {
            Ok(IntegerType::U128)
        } else if t == "i128"@ {
            Ok(IntegerType::I128)
        } else {
            Err(TypeError::UnknownPrimitiveType)
        }
    }

    /// Byte width of the integer kind: 1, 2, 4, 8 or 16.
    pub fn size(&self) -> (r: u32)
        ensures
            r as nat == self.spec_size(),
            1 <= r <= 16,
    {
        match self {
            IntegerType::U8 => 1,
            IntegerType::U16 => 2,
            IntegerType::U32 => 4,
            IntegerType::U64 => 8,
            IntegerType::U128 => 16,
            IntegerType::I8 => 1,
            IntegerType::I16 => 2,
            IntegerType::I32 => 4,
            IntegerType::I64 => 8,
            IntegerType::I128 => 16,
        }
    }

    /// Canonical name token of the integer kind.
    pub fn token(&self) -> (r: &'static str)
        ensures
            r@ == self.spec_token(),
    {
        match self {
            IntegerType::U8 => "u8",
            IntegerType::U16 => "u16",
            IntegerType::U32 => "u32",
            IntegerType::U64 => "u64",
            IntegerType::U128 => "u128",
            IntegerType::I8 => "i8",
            IntegerType::I16 => "i16",
            IntegerType::I32 => "i32",
            IntegerType::I64 => "i64",
            IntegerType::I128 => "i128",
        }
    }

    /// Catalog lookup: the integer kind with the given canonical name, or
    /// `UnknownPrimitiveType` if the token matches none.
    pub fn from_token(t: &String) -> (r: Result<IntegerType, TypeError>)
        ensures
            r == IntegerType::spec_from_token(t@),
    {
        if token_is(t, "u8") {
            Ok(IntegerType::U8)
        } else if token_is(t, "i8") {
            Ok(IntegerType::I8)
        } else if token_is(t, "u16") {
            Ok(IntegerType::U16)
        } else if token_is(t, "i16") {
            Ok(IntegerType::I16)
        } else if token_is(t, "u32") {
            Ok(IntegerType::U32)
        } else if token_is(t, "i32") {
            Ok(IntegerType::I32)
        } else if token_is(t, "u64") {
            Ok(IntegerType::U64)
        } else if token_is(t, "i64") {
            Ok(IntegerType::I64)
        } else if token_is(t, "u128") {
            Ok(IntegerType::U128)
        } else if token_is(t, "i128") {
            Ok(IntegerType::I128)
        } else {
            Err(TypeError::UnknownPrimitiveType)
        }
    }
}

impl Default for IntegerType {
    /// The default collection-length kind is the 16-bit unsigned integer.
    fn default() -> (r: Self)
        ensures
            r == IntegerType::U16,
    {
        IntegerType::U16
    }
}

impl FloatType {
    /// Byte width of the float kind.
    pub open spec fn spec_size(self) -> nat {
        match self {
            FloatType::F32 => 4,
            FloatType::F64 => 8,
        }
    }

    /// Canonical name token of the float kind.
    pub open spec fn spec_token(self) -> Seq<char> {
        match self {
            FloatType::F32 => "f32"@,
            FloatType::F64 => "f64"@,
        }
    }

    /// The float kind whose canonical name is the given token, if any.
    pub open spec fn spec_from_token(t: Seq<char>) -> Result<FloatType, TypeError> {
        if t == "f32"@ {
            Ok(FloatType::F32)
        } else if t == "f64"@ {
            Ok(FloatType::F64)
        } else {
            Err(TypeError::UnknownPrimitiveType)
        }
    }

    /// Byte width of the float kind: 4 or 8.
    pub fn size(&self) -> (r: u32)
        ensures
            r as nat == self.spec_size(),
            4 <= r <= 8,
    {
        match self {
            FloatType::F32 => 4,
            FloatType::F64 => 8,
        }
    }

    /// Canonical name token of the float kind.
    pub fn token(&self) -> (r: &'static str)
        ensures
            r@ == self.spec_token(),
    {
        match self {
            FloatType::F32 => "f32",
            FloatType::F64 => "f64",
        }
    }

    /// Catalog lookup: the float kind with the given canonical name, or
    /// `UnknownPrimitiveType` if the token matches none.
    pub fn from_token(t: &String) -> (r: Result<FloatType, TypeError>)
        ensures
            r == FloatType::spec_from_token(t@),
    {
        if token_is(t, "f32") {
            Ok(FloatType::F32)
        } else if token_is(t, "f64") {
            Ok(FloatType::F64)
        } else {
            Err(TypeError::UnknownPrimitiveType)
        }
    }
}

impl Default for FloatType {
    /// The default float kind is the 32-bit one.
    fn default() -> (r: Self)
        ensures
            r == FloatType::F32,
    {
        FloatType::F32
    }
}

/// Whether the owned token equals the given literal, compared by contents.
pub(crate) fn token_is(t: &String, lit: &str) -> (r: bool)
    ensures
        r == (t@ == lit@),
{
    *t == lit.to_owned()
}

} // verus!
