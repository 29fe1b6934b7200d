//! The enumeration codec: a fixed-width-integer-backed enumeration encodes
//! as its single numeric case value, written and read with one endianness;
//! decoding rejects byte patterns that match no declared case.
use vstd::prelude::*;

use crate::bytes::bound;
use crate::codec::{lemma_uint_bytes_len, lemma_uint_roundtrip, read_uint, uint_bytes, uint_of,
    DecodeError};
use crate::structs::DatatypeEndianness;
use crate::types::IntegerType;

verus! {

/// One directive of an enumeration declaration: the byte order, or the
/// backing integer kind.
#[derive(Clone, Copy, Debug, PartialEq, Eq, Structural)]
pub enum DataEnumArg {
    Endianness(DatatypeEndianness),
    Type(IntegerType),
}

/// The directives attached to one enumeration declaration.
#[derive(Clone, Debug, PartialEq, Eq)]
pub struct DataEnumArgs {
    pub args: Vec<DataEnumArg>,
}

/// The compiled schema of one enumeration: its backing integer kind, its
/// byte order, and the case values it declares (as unsigned wire values of
/// the backing width).
#[derive(Clone, Debug, PartialEq, Eq)]
pub struct EnumSchema {
    pub ty: IntegerType,
    pub endianness: DatatypeEndianness,
    pub cases: Vec<u128>,
}

/// The endianness selected by the first endianness directive at or after
/// index `i`, else the big-endian default.
pub open spec fn spec_enum_endianness_from(args: Seq<DataEnumArg>, i: int) -> DatatypeEndianness
    decreases args.len() - i,
{
    if i < 0 || i >= args.len() {
        DatatypeEndianness::BigEndian
    } else {
        match args[i] {
            DataEnumArg::Endianness(e) => e,
            _ => spec_enum_endianness_from(args, i + 1),
        }
    }
}

/// The backing kind selected by the first type directive at or after index
/// `i`, else the 8-bit default.
pub open spec fn spec_enum_ty_from(args: Seq<DataEnumArg>, i: int) -> IntegerType
    decreases args.len() - i,
{
    if i < 0 || i >= args.len() {
        IntegerType::U8
    } else {
        match args[i] {
            DataEnumArg::Type(t) => t,
            _ => spec_enum_ty_from(args, i + 1),
        }
    }
}

/// What decoding an enumeration value from a byte stream yields: too few
/// bytes end the stream early; a value that matches no declared case is an
/// invalid discriminant.
pub open spec fn spec_enum_decode(
    ty: IntegerType,
    e: DatatypeEndianness,
    cases: Seq<u128>,
    bytes: Seq<u8>,
) -> Result<u128, DecodeError> {
    let w = ty.spec_size() as int;
    if bytes.len() < w {
        Err(DecodeError::UnexpectedEof)
    } else {
        let v = uint_of(e, bytes.subrange(0, w)) as u128;
        if cases.contains(v) {
            Ok(v)
        } else {
            Err(DecodeError::InvalidDiscriminant)
        }
    }
}

impl EnumSchema {
    /// Whether every declared case value fits the backing width.
    pub open spec fn wf(self) -> bool {
        forall|i: int| 0 <= i < self.cases@.len() ==> ((#[trigger] self.cases@[i]) as nat) < bound(
            self.ty.spec_size(),
        )
    }

    /// Build an enumeration schema from its declaration directives: the
    /// first endianness directive (default big-endian), the first type
    /// directive (default 8-bit), and the declared case values.
    pub fn produce(args: &DataEnumArgs, cases: Vec<u128>) -> (r: EnumSchema)
        ensures
            r.ty == spec_enum_ty_from(args.args@, 0),
            r.endianness == spec_enum_endianness_from(args.args@, 0),
            r.cases@ == cases@,
    {
        let n = args.args.len();
        let mut endianness = DatatypeEndianness::BigEndian;
        let mut i: usize = 0;
        let mut done_e = false;
        while i < n && !done_e
            invariant
                0 <= i <= n,
                n == args.args@.len(),
                !done_e ==> spec_enum_endianness_from(args.args@, 0) == spec_enum_endianness_from(
                    args.args@,
                    i as int,
                ),
                !done_e ==> endianness == DatatypeEndianness::BigEndian,
                done_e ==> endianness == spec_enum_endianness_from(args.args@, 0),
            decreases n - i, (if done_e { 0int } else { 1int }),
        {
            if let DataEnumArg::Endianness(e) = &args.args[i] {
                endianness = *e;
                done_e = true;
            } else {
                i = i + 1;
            }
        }
        let mut ty = IntegerType::U8;
        let mut k: usize = 0;
        let mut done_t = false;
        while k < n && !done_t
            invariant
                0 <= k <= n,
                n == args.args@.len(),
                !done_t ==> spec_enum_ty_from(args.args@, 0) == spec_enum_ty_from(
                    args.args@,
                    k as int,
                ),
                !done_t ==> ty == IntegerType::U8,
                done_t ==> ty == spec_enum_ty_from(args.args@, 0),
            decreases n - k, (if done_t { 0int } else { 1int }),
        {
            if let DataEnumArg::Type(t) = &args.args[k] {
                ty = *t;
                done_t = true;
            } else {
                k = k + 1;
            }
        }
        EnumSchema { ty, endianness, cases }
    }

    /// The fixed encoded byte width of every value of this enumeration.
    pub fn size(&self) -> (r: u32)
        ensures
            r as nat == self.ty.spec_size(),
    {
        self.ty.size()
    }

    /// Encode one case value: the backing width's bytes in the schema's byte
    /// order.
    pub fn encode(&self, value: u128) -> (r: Vec<u8>)
        requires
            (value as nat) < bound(self.ty.spec_size()),
        ensures
            r@ == uint_bytes(self.endianness, self.ty.spec_size(), value as nat),
            r@.len() == self.ty.spec_size(),
    {
        proof {
            lemma_uint_bytes_len(self.endianness, self.ty.spec_size(), value as nat);
        }
        let w = self.ty.size() as usize;
        match self.endianness {
            DatatypeEndianness::BigEndian => crate::bytes::put_uint_be(value, w),
            DatatypeEndianness::LittleEndian => crate::bytes::put_uint_le(value, w),
        }
    }

    /// Decode one case value from the start of the byte stream:
    /// `UnexpectedEof` if fewer bytes remain than the backing width,
    /// `InvalidDiscriminant` if the read value matches no declared case.
    pub fn decode(&self, bytes: &Vec<u8>) -> (r: Result<u128, DecodeError>)
        ensures
            r == spec_enum_decode(self.ty, self.endianness, self.cases@, bytes@),
    {
        let w = self.ty.size() as usize;
        if bytes.len() < w {
            return Err(DecodeError::UnexpectedEof);
        }
        let v = read_uint(self.endianness, bytes, 0, w);
        proof {
            crate::codec::lemma_bound_mono(w as nat, 16);
            crate::bytes::lemma_bound_16();
        }
        let n = self.cases.len();
        let mut i: usize = 0;
        while i < n
            invariant
                0 <= i <= n,
                n == self.cases@.len(),
                w as nat == self.ty.spec_size(),
                w <= bytes@.len(),
                v as nat == uint_of(
                    self.endianness,
                    bytes@.subrange(0, self.ty.spec_size() as int),
                ),
                v == uint_of(self.endianness, bytes@.subrange(0, self.ty.spec_size() as int))
                    as u128,
                forall|t: int| 0 <= t < i ==> self.cases@[t] != v,
            decreases n - i,
        {
            if self.cases[i] == v {
                proof {
                    assert(self.cases@.contains(v));
                }
                return Ok(v);
            }
            i = i + 1;
        }
        proof {
            if self.cases@.contains(v) {
                let t = choose|t: int| 0 <= t < self.cases@.len() && self.cases@[t] == v;
                assert(false);
            }
        }
        Err(DecodeError::InvalidDiscriminant)
    }
}

/// Round trip of the enumeration codec: decoding an encoded case value —
/// with any trailing bytes — gives back exactly that value, for every
/// declared case that fits the backing width.
pub proof fn lemma_enum_round_trip(s: EnumSchema, value: u128, tail: Seq<u8>)
    requires
        (value as nat) < bound(s.ty.spec_size()),
        s.cases@.contains(value),
    ensures
        spec_enum_decode(
            s.ty,
            s.endianness,
            s.cases@,
            uint_bytes(s.endianness, s.ty.spec_size(), value as nat) + tail,
        ) == Ok::<u128, DecodeError>(value),
{
    let w = s.ty.spec_size();
    let enc = uint_bytes(s.endianness, w, value as nat);
    lemma_uint_bytes_len(s.endianness, w, value as nat);
    lemma_uint_roundtrip(s.endianness, w, value as nat);
    assert((enc + tail).subrange(0, w as int) =~= enc);
}

} // verus!
