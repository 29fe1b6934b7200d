//! A binary record-schema compiler: a declarative description of a record
//! type (an ordered list of named fields with optional layout directives) is
//! classified into schema attributes, validated, assigned final wire
//! positions, and interpreted by a matched pair of encode/decode routines
//! that convert between an in-memory value and a flat, big-endian-by-default
//! byte stream. A reduced form compiles fixed-width integer enumerations
//! into single-value codecs.
use vstd::prelude::*;

pub mod bytes;
pub mod classify;
pub mod codec;
pub mod data_enum;
pub mod layout;
pub mod link;
pub mod parse;
pub mod resolve;
pub mod structs;
pub mod types;
pub mod value;
pub mod validate;

use crate::classify::{classifiable, spec_to_attributes, DataField, DataFieldV};
use crate::data_enum::{DataEnumArgs, EnumSchema};
use crate::parse::ClassifyError;
use crate::resolve::{spec_assign, spec_positions_strict, spec_sorted_by_position, update};
use crate::structs::{DatatypeAttribute, DatatypeAttributeV};
use crate::validate::{
    claims_at as resolve_claims_at, spec_dup_errors, spec_positions_valid, spec_range_errors,
    validate, ValidationError,
};

verus! {

/// A fatal compile-time failure of one record declaration.
#[derive(Debug, PartialEq)]
pub enum CompileError {
    /// A field could not be classified into schema attributes.
    Classify(ClassifyError),
    /// The explicit positions are invalid; all violations are carried along.
    Validation(Vec<ValidationError>),
}

/// The schema attributes of a whole declaration: every field classified, in
/// order.
pub open spec fn spec_classify_from(fs: Seq<DataFieldV>, i: int) -> Result<
    Seq<DatatypeAttributeV>,
    ClassifyError,
>
    decreases fs.len() - i,
{
    if i < 0 || i >= fs.len() {
        Ok(Seq::empty())
    } else {
        match spec_to_attributes(fs[i]) {
            Err(e) => Err(e),
            Ok(a) => match spec_classify_from(fs, i + 1) {
                Err(e) => Err(e),
                Ok(rest) => Ok(a + rest),
            },
        }
    }
}

/// Compile one record declaration: classify every field into its schema
/// attributes, validate the explicit positions (rejecting out-of-range and
/// duplicate positions with every violation reported), and resolve the final
/// layout order. On success the attributes come back fully positioned and
/// sorted by position; explicit positions are honored verbatim, and with
/// strictly valid explicit positions the result occupies exactly the slots
/// `0..N` in order.
pub fn datatype(fields: &Vec<DataField>) -> (r: Result<Vec<DatatypeAttribute>, CompileError>)
    requires
        forall|i: int|
            0 <= i < fields@.len() ==> classifiable(#[trigger] fields@[i].deep_view()),
    ensures
        (spec_classify_from(fields.deep_view(), 0) matches Err(e) ==> r == Err::<
            Vec<DatatypeAttribute>,
            _,
        >(CompileError::Classify(e))),
        (spec_classify_from(fields.deep_view(), 0) matches Ok(attrs) ==> {
            &&& (!spec_positions_valid(attrs) ==> (r matches Err(ce) && ce matches
                CompileError::Validation(v) && v.deep_view() == spec_range_errors(attrs, 0)
                + spec_dup_errors(attrs, 0)))
            &&& (spec_positions_valid(attrs) ==> (r matches Ok(out) && {
                &&& out@.len() == attrs.len()
                &&& out.deep_view().to_multiset() == spec_assign(attrs).to_multiset()
                &&& (forall|k: int|
                    0 <= k < out.deep_view().len() ==> resolve_claims_at(out.deep_view(), k))
                &&& spec_sorted_by_position(out.deep_view())
                &&& (forall|k: int|
                    0 <= k < attrs.len() && resolve_claims_at(attrs, k)
                        ==> out.deep_view().contains(#[trigger] attrs[k]))
                &&& (spec_positions_strict(attrs) ==> (forall|k: int|
                    0 <= k < out.deep_view().len() ==> (#[trigger] out.deep_view()[k]).position
                        == Some(k as usize)))
            }))
        }),
{
    let ghost fsv = fields.deep_view();
    let n = fields.len();
    let mut attrs: Vec<DatatypeAttribute> = Vec::new();
    let mut i: usize = 0;
    proof {
        assert(attrs.deep_view() =~= Seq::<DatatypeAttributeV>::empty());
    }
    while i < n
        invariant
            0 <= i <= n,
            n == fields@.len(),
            fsv == fields.deep_view(),
            fsv.len() == n,
            forall|k: int| 0 <= k < fields@.len() ==> classifiable(#[trigger] fields@[k].deep_view()),
            spec_classify_from(fsv, 0) == (match spec_classify_from(fsv, i as int) {
                Ok(rest) => Ok::<Seq<DatatypeAttributeV>, ClassifyError>(attrs.deep_view() + rest),
                Err(e) => Err(e),
            }),
        decreases n - i,
    {
        proof {
            assert(fsv[i as int] == fields@[i as int].deep_view());
        }
        match fields[i].to_attributes() {
            Ok(v) => {
                let ghost prev = attrs.deep_view();
                let ghost vd = v.deep_view();
                let mut v2 = v;
                attrs.append(&mut v2);
                proof {
                    assert(attrs.deep_view() =~= prev + vd) by {
                        assert forall|t: int|
                            0 <= t < attrs@.len() implies #[trigger] attrs.deep_view()[t] == (prev
                            + vd)[t] by {
                            assert(attrs.deep_view()[t] == attrs@[t].deep_view());
                            if t < prev.len() {
                                assert(prev[t] == attrs@[t].deep_view());
                            } else {
                                assert(vd[t - prev.len()] == attrs@[t].deep_view());
                            }
                        }
                    }
                    assert(spec_to_attributes(fsv[i as int]) == Ok::<
                        Seq<DatatypeAttributeV>,
                        ClassifyError,
                    >(vd));
                    if spec_classify_from(fsv, i as int + 1) is Ok {
                        let rest = spec_classify_from(fsv, i as int + 1)->Ok_0;
                        assert(prev + (vd + rest) =~= (prev + vd) + rest);
                    }
                }
                i = i + 1;
            },
            Err(e) => {
                return Err(CompileError::Classify(e));
            },
        }
    }
    proof {
        assert(spec_classify_from(fsv, n as int) == Ok::<Seq<DatatypeAttributeV>, ClassifyError>(
            Seq::empty(),
        ));
        assert(attrs.deep_view() + Seq::<DatatypeAttributeV>::empty() =~= attrs.deep_view());
    }
    let errs = validate(&attrs);
    if errs.len() > 0 {
        return Err(CompileError::Validation(errs));
    }
    update(&mut attrs);
    Ok(attrs)
}

/// Compile one enumeration declaration: its directives (backing integer
/// kind, endianness) and its declared case values become an enumeration
/// schema whose codec writes and reads a single value of that width.
pub fn data_enum(args: &DataEnumArgs, cases: Vec<u128>) -> (r: EnumSchema)
    ensures
        r.ty == crate::data_enum::spec_enum_ty_from(args.args@, 0),
        r.endianness == crate::data_enum::spec_enum_endianness_from(args.args@, 0),
        r.cases@ == cases@,
{
    EnumSchema::produce(args, cases)
}

} // verus!
