//! The validator: before layout resolution commits, every explicit position
//! must be at most the expanded attribute count, and no two attributes may
//! claim the same position. Both checks are diagnostic: they surface every
//! violation found, and any violation is fatal to the record.
use vstd::prelude::*;

use crate::structs::{DatatypeAttribute, DatatypeAttributeV};

verus! {

/// One fatal validation failure.
#[derive(Clone, Debug, PartialEq, Eq)]
pub enum ValidationError {
    /// An explicit position exceeds the maximum allowed slot: carries the
    /// offending attribute's name, the maximum allowed value, and the value
    /// that was attempted.
    PositionOutOfRange { name: String, max: usize, attempted: usize },
    /// Two or more attributes claim one explicit position: carries the
    /// position and the names of all attributes that claim it.
    DuplicatePosition { position: usize, names: Vec<String> },
}

/// Mathematical model of [`ValidationError`].
pub enum ValidationErrorV {
    PositionOutOfRange { name: Seq<char>, max: usize, attempted: usize },
    DuplicatePosition { position: usize, names: Seq<Seq<char>> },
}

impl DeepView for ValidationError {
    type V = ValidationErrorV;

    open spec fn deep_view(&self) -> ValidationErrorV {
        match self {
            ValidationError::PositionOutOfRange { name, max, attempted } => {
                ValidationErrorV::PositionOutOfRange {
                    name: name@,
                    max: *max,
                    attempted: *attempted,
                }
            },
            ValidationError::DuplicatePosition { position, names } => {
                ValidationErrorV::DuplicatePosition {
                    position: *position,
                    names: names.deep_view(),
                }
            },
        }
    }
}

/// The range errors among the attributes at or after index `i`: one error
/// for each explicit position above the expanded attribute count.
pub open spec fn spec_range_errors(attrs: Seq<DatatypeAttributeV>, i: int) -> Seq<
    ValidationErrorV,
>
    decreases attrs.len() - i,
{
    if i < 0 || i >= attrs.len() {
        Seq::empty()
    } else {
        let rest = spec_range_errors(attrs, i + 1);
        match attrs[i].position {
            Some(p) => if p > attrs.len() {
                seq![
                    ValidationErrorV::PositionOutOfRange {
                        name: attrs[i].name,
                        max: attrs.len() as usize,
                        attempted: p,
                    },
                ] + rest
            } else {
                rest
            },
            None => rest,
        }
    }
}

/// The names of the attributes at or after index `j` that explicitly claim
/// position `p`, in declaration order.
pub open spec fn spec_claimants_from(attrs: Seq<DatatypeAttributeV>, p: usize, j: int) -> Seq<
    Seq<char>,
>
    decreases attrs.len() - j,
{
    if j < 0 || j >= attrs.len() {
        Seq::empty()
    } else if attrs[j].position == Some(p) {
        seq![attrs[j].name] + spec_claimants_from(attrs, p, j + 1)
    } else {
        spec_claimants_from(attrs, p, j + 1)
    }
}

/// Whether no attribute before index `i` claims position `p`.
pub open spec fn spec_first_claim(attrs: Seq<DatatypeAttributeV>, p: usize, i: int) -> bool {
    forall|j: int| 0 <= j < i ==> attrs[j].position != Some(p)
}

/// The duplicate-position errors among the attributes at or after index `i`:
/// one error per claimed position with two or more claimants, emitted at the
/// position's first claimant and naming every claimant.
pub open spec fn spec_dup_errors(attrs: Seq<DatatypeAttributeV>, i: int) -> Seq<ValidationErrorV>
    decreases attrs.len() - i,
{
    if i < 0 || i >= attrs.len() {
        Seq::empty()
    } else {
        let rest = spec_dup_errors(attrs, i + 1);
        match attrs[i].position {
            Some(p) => if spec_first_claim(attrs, p, i) && spec_claimants_from(attrs, p, 0).len()
                >= 2 {
                seq![
                    ValidationErrorV::DuplicatePosition {
                        position: p,
                        names: spec_claimants_from(attrs, p, 0),
                    },
                ] + rest
            } else {
                rest
            },
            None => rest,
        }
    }
}

/// Whether the explicit positions pass both validation checks: each at most
/// the expanded attribute count, and pairwise distinct.
pub open spec fn spec_positions_valid(attrs: Seq<DatatypeAttributeV>) -> bool {
    &&& forall|i: int|
        0 <= i < attrs.len() && #[trigger] claims_at(attrs, i) ==> pos_at(attrs, i) <= attrs.len()
    &&& forall|i: int, j: int|
        0 <= i < j < attrs.len() && #[trigger] claims_at(attrs, i) && #[trigger] claims_at(
            attrs,
            j,
        ) ==> pos_at(attrs, i) != pos_at(attrs, j)
}

/// Range check: every explicit position above the expanded attribute count
/// yields a `PositionOutOfRange` error naming the field, the maximum allowed
/// value and the attempted value.
pub fn check_for_invalid_indices(attrs: &Vec<DatatypeAttribute>) -> (r: Vec<ValidationError>)
    ensures
        r.deep_view() == spec_range_errors(attrs.deep_view(), 0),
{
    let ghost av = attrs.deep_view();
    let n = attrs.len();
    let mut out: Vec<ValidationError> = Vec::new();
    let mut i: usize = 0;
    while i < n
        invariant
            0 <= i <= n,
            n == attrs.len(),
            av == attrs.deep_view(),
            av.len() == n,
            spec_range_errors(av, 0) == out.deep_view() + spec_range_errors(av, i as int),
        decreases n - i,
    {
        if let Some(p) = attrs[i].position {
            if p > n {
                let e = ValidationError::PositionOutOfRange {
                    name: attrs[i].name.clone(),
                    max: n,
                    attempted: p,
                };
                let ghost old_out = out.deep_view();
                out.push(e);
                proof {
                    assert(out.deep_view() =~= old_out.push(
                        ValidationErrorV::PositionOutOfRange {
                            name: av[i as int].name,
                            max: n,
                            attempted: p,
                        },
                    ));
                    assert(spec_range_errors(av, i as int) == seq![
                        ValidationErrorV::PositionOutOfRange {
                            name: av[i as int].name,
                            max: n,
                            attempted: p,
                        },
                    ] + spec_range_errors(av, i + 1));
                    assert(spec_range_errors(av, 0) == out.deep_view() + spec_range_errors(
                        av,
                        i + 1,
                    ));
                }
            }
        }
        i = i + 1;
    }
    proof {
        assert(spec_range_errors(av, n as int) =~= Seq::<ValidationErrorV>::empty());
        assert(out.deep_view() =~= out.deep_view() + spec_range_errors(av, n as int));
    }
    out
}

/// Duplicate check: every position claimed by two or more attributes yields
/// one `DuplicatePosition` error naming the position and all its claimants.
pub fn check_for_double_indices(attrs: &Vec<DatatypeAttribute>) -> (r: Vec<ValidationError>)
    ensures
        r.deep_view() == spec_dup_errors(attrs.deep_view(), 0),
{
    let ghost av = attrs.deep_view();
    let n = attrs.len();
    let mut out: Vec<ValidationError> = Vec::new();
    let mut i: usize = 0;
    while i < n
        invariant
            0 <= i <= n,
            n == attrs.len(),
            av == attrs.deep_view(),
            av.len() == n,
            spec_dup_errors(av, 0) == out.deep_view() + spec_dup_errors(av, i as int),
        decreases n - i,
    {
        if let Some(p) = attrs[i].position {
            // does an earlier attribute claim the same position?
            let mut seen_before = false;
            let mut j: usize = 0;
            while j < i
                invariant
                    0 <= j <= i <= n,
                    n == attrs.len(),
                    av == attrs.deep_view(),
                    av.len() == n,
                    av[i as int].position == Some(p),
                    !seen_before ==> forall|k: int| 0 <= k < j ==> av[k].position != Some(p),
                    seen_before ==> !spec_first_claim(av, p, i as int),
                decreases i - j,
            {
                if let Some(q) = attrs[j].position {
                    if q == p {
                        seen_before = true;
                        proof {
                            assert(av[j as int].position == Some(p));
                        }
                    }
                }
                j = j + 1;
            }
            if !seen_before {
                // collect every claimant of this position
                let mut names: Vec<String> = Vec::new();
                let mut k: usize = 0;
                while k < n
                    invariant
                        0 <= k <= n,
                        n == attrs.len(),
                        av == attrs.deep_view(),
                        av.len() == n,
                        spec_claimants_from(av, p, 0) == names.deep_view()
                            + spec_claimants_from(av, p, k as int),
                    decreases n - k,
                {
                    let mut claims = false;
                    if let Some(q) = attrs[k].position {
                        if q == p {
                            claims = true;
                        }
                    }
                    if claims {
                        let ghost old_names = names.deep_view();
                        names.push(attrs[k].name.clone());
                        proof {
                            assert(names.deep_view() =~= old_names.push(av[k as int].name));
                            assert(spec_claimants_from(av, p, k as int) == seq![av[k as int].name]
                                + spec_claimants_from(av, p, k + 1));
                        }
                    }
                    k = k + 1;
                }
                proof {
                    assert(spec_claimants_from(av, p, n as int) =~= Seq::<Seq<char>>::empty());
                    assert(names.deep_view() =~= names.deep_view() + spec_claimants_from(
                        av,
                        p,
                        n as int,
                    ));
                    assert(names.deep_view() == spec_claimants_from(av, p, 0));
                    assert(names.deep_view().len() == names@.len());
                }
                if names.len() >= 2 {
                    let e = ValidationError::DuplicatePosition { position: p, names };
                    let ghost old_out = out.deep_view();
                    out.push(e);
                    proof {
                        assert(out.deep_view() =~= old_out.push(
                            ValidationErrorV::DuplicatePosition {
                                position: p,
                                names: spec_claimants_from(av, p, 0),
                            },
                        ));
                        assert(spec_dup_errors(av, i as int) == seq![
                            ValidationErrorV::DuplicatePosition {
                                position: p,
                                names: spec_claimants_from(av, p, 0),
                            },
                        ] + spec_dup_errors(av, i + 1));
                    }
                }
            }
        }
        i = i + 1;
    }
    proof {
        assert(spec_dup_errors(av, n as int) =~= Seq::<ValidationErrorV>::empty());
        assert(out.deep_view() =~= out.deep_view() + spec_dup_errors(av, n as int));
    }
    out
}

/// Run both validation checks over the fully expanded attribute list and
/// collect every violation: the range errors first, then the
/// duplicate-position errors. The result is empty exactly when the explicit
/// positions are valid.
pub fn validate(attrs: &Vec<DatatypeAttribute>) -> (r: Vec<ValidationError>)
    ensures
        r.deep_view() == spec_range_errors(attrs.deep_view(), 0) + spec_dup_errors(
            attrs.deep_view(),
            0,
        ),
        r@.len() == 0 <==> spec_positions_valid(attrs.deep_view()),
{
    let mut out = check_for_invalid_indices(attrs);
    let mut dups = check_for_double_indices(attrs);
    let ghost out0 = out.deep_view();
    let ghost dups0 = dups.deep_view();
    out.append(&mut dups);
    proof {
        assert(out.deep_view() =~= out0 + dups0);
        assert(out.deep_view().len() == out@.len());
        lemma_validate_complete(attrs.deep_view());
    }
    out
}

/// The validator finds no error exactly when every explicit position is in
/// range and no position is claimed twice.
pub proof fn lemma_validate_complete(attrs: Seq<DatatypeAttributeV>)
    ensures
        (spec_range_errors(attrs, 0) + spec_dup_errors(attrs, 0)).len() == 0
            <==> spec_positions_valid(attrs),
{
    lemma_range_errors_iff(attrs, 0);
    lemma_dup_errors_iff(attrs, 0);
    if spec_positions_valid(attrs) {
        assert forall|k: int|
            i_in(attrs, k) && #[trigger] claims_at(attrs, k) && spec_first_claim(
                attrs,
                pos_at(attrs, k),
                k,
            ) implies spec_claimants_from(attrs, pos_at(attrs, k), 0).len() < 2 by {
            let p = pos_at(attrs, k);
            if spec_claimants_from(attrs, p, 0).len() >= 2 {
                lemma_two_claimants(attrs, p, 0);
                let (k1, k2) = choose|k1: int, k2: int|
                    0 <= k1 < k2 < attrs.len() && #[trigger] attrs[k1].position == Some(p)
                        && #[trigger] attrs[k2].position == Some(p);
                assert(claims_at(attrs, k1) && claims_at(attrs, k2));
                assert(pos_at(attrs, k1) == p && pos_at(attrs, k2) == p);
                assert(false);
            }
        }
    }
    if (spec_range_errors(attrs, 0) + spec_dup_errors(attrs, 0)).len() == 0 {
        assert forall|i: int, j: int|
            0 <= i < j < attrs.len() && #[trigger] claims_at(attrs, i) && #[trigger] claims_at(
                attrs,
                j,
            ) implies pos_at(attrs, i) != pos_at(attrs, j) by {
            if pos_at(attrs, i) == pos_at(attrs, j) {
                let p = pos_at(attrs, i);
                assert(attrs[i].position == Some(p));
                assert(attrs[j].position == Some(p));
                lemma_first_claim_exists(attrs, p, 0, i);
                let k = spec_first_claim_index(attrs, p, 0);
                lemma_claimant_count_two(attrs, p, 0, i, j);
                assert(claims_at(attrs, k) && pos_at(attrs, k) == p);
                assert(spec_first_claim(attrs, p, k));
                assert(false);
            }
        }
    }
}

/// Shorthand: `k` is a valid index into the attribute list.
pub open spec fn i_in(attrs: Seq<DatatypeAttributeV>, k: int) -> bool {
    0 <= k < attrs.len()
}

/// Whether the attribute at index `k` carries an explicit position.
pub open spec fn claims_at(attrs: Seq<DatatypeAttributeV>, k: int) -> bool {
    attrs[k].position is Some
}

/// The explicit position of the attribute at index `k` (0 when absent).
pub open spec fn pos_at(attrs: Seq<DatatypeAttributeV>, k: int) -> usize {
    match attrs[k].position {
        Some(p) => p,
        None => 0,
    }
}

proof fn lemma_range_errors_iff(attrs: Seq<DatatypeAttributeV>, i: int)
    requires
        i >= 0,
    ensures
        spec_range_errors(attrs, i).len() == 0 <==> (forall|k: int|
            i <= k < attrs.len() ==> (#[trigger] claims_at(attrs, k) ==> pos_at(attrs, k)
                <= attrs.len())),
    decreases attrs.len() - i,
{
    if i < attrs.len() {
        lemma_range_errors_iff(attrs, i + 1);
        if claims_at(attrs, i) && pos_at(attrs, i) > attrs.len() {
            assert(spec_range_errors(attrs, i).len() > 0);
        } else {
            assert(spec_range_errors(attrs, i) == spec_range_errors(attrs, i + 1));
        }
    }
}

proof fn lemma_dup_errors_iff(attrs: Seq<DatatypeAttributeV>, i: int)
    requires
        i >= 0,
    ensures
        spec_dup_errors(attrs, i).len() == 0 <==> (forall|k: int|
            i <= k < attrs.len() ==> ((#[trigger] claims_at(attrs, k) && spec_first_claim(
                attrs,
                pos_at(attrs, k),
                k,
            )) ==> spec_claimants_from(attrs, pos_at(attrs, k), 0).len() < 2)),
    decreases attrs.len() - i,
{
    if i < attrs.len() {
        lemma_dup_errors_iff(attrs, i + 1);
        if claims_at(attrs, i) && spec_first_claim(attrs, pos_at(attrs, i), i)
            && spec_claimants_from(attrs, pos_at(attrs, i), 0).len() >= 2 {
            assert(spec_dup_errors(attrs, i).len() > 0);
        } else {
            assert(spec_dup_errors(attrs, i) == spec_dup_errors(attrs, i + 1));
        }
    }
}

/// The smallest index at or after `j` that claims position `p`, or the list
/// length if none does.
pub open spec fn spec_first_claim_index(attrs: Seq<DatatypeAttributeV>, p: usize, j: int) -> int
    decreases attrs.len() - j,
{
    if j < 0 || j >= attrs.len() {
        attrs.len() as int
    } else if attrs[j].position == Some(p) {
        j
    } else {
        spec_first_claim_index(attrs, p, j + 1)
    }
}

/// If some index in `[j, len)` claims `p`, the first claim index at or after
/// `j` is a claiming index whose earlier indices at or after `j` do not
/// claim `p`; combined with `witness < j`-freeness it gives a first claim.
proof fn lemma_first_claim_exists(attrs: Seq<DatatypeAttributeV>, p: usize, j: int, witness: int)
    requires
        0 <= j <= witness < attrs.len(),
        attrs[witness].position == Some(p),
    ensures
        j <= spec_first_claim_index(attrs, p, j) <= witness,
        attrs[spec_first_claim_index(attrs, p, j)].position == Some(p),
        forall|k: int|
            j <= k < spec_first_claim_index(attrs, p, j) ==> #[trigger] attrs[k].position != Some(
                p,
            ),
    decreases attrs.len() - j,
{
    if attrs[j].position == Some(p) {
    } else {
        lemma_first_claim_exists(attrs, p, j + 1, witness);
    }
}

/// Two distinct claiming indices at or after `j` put at least two names in
/// the claimant list from `j`.
proof fn lemma_claimant_count_two(
    attrs: Seq<DatatypeAttributeV>,
    p: usize,
    j: int,
    w1: int,
    w2: int,
)
    requires
        0 <= j <= w1 < w2 < attrs.len(),
        attrs[w1].position == Some(p),
        attrs[w2].position == Some(p),
    ensures
        spec_claimants_from(attrs, p, j).len() >= 2,
    decreases attrs.len() - j,
{
    if j == w1 {
        lemma_claimant_count_one(attrs, p, j + 1, w2);
    } else {
        lemma_claimant_count_two(attrs, p, j + 1, w1, w2);
    }
}

/// One claiming index at or after `j` puts at least one name in the
/// claimant list from `j`.
proof fn lemma_claimant_count_one(attrs: Seq<DatatypeAttributeV>, p: usize, j: int, w: int)
    requires
        0 <= j <= w < attrs.len(),
        attrs[w].position == Some(p),
    ensures
        spec_claimants_from(attrs, p, j).len() >= 1,
    decreases attrs.len() - j,
{
    if j < w {
        lemma_claimant_count_one(attrs, p, j + 1, w);
    }
}

/// At least two claimant names from `j` mean two distinct claiming indices
/// at or after `j` exist.
proof fn lemma_two_claimants(attrs: Seq<DatatypeAttributeV>, p: usize, j: int)
    requires
        0 <= j,
        spec_claimants_from(attrs, p, j).len() >= 2,
    ensures
        exists|k1: int, k2: int|
            j <= k1 < k2 < attrs.len() && #[trigger] attrs[k1].position == Some(p)
                && #[trigger] attrs[k2].position == Some(p),
    decreases attrs.len() - j,
{
    if j >= attrs.len() {
        assert(false);
    } else if attrs[j].position == Some(p) {
        lemma_one_claimant(attrs, p, j + 1);
        let k2 = choose|k2: int|
            j + 1 <= k2 < attrs.len() && #[trigger] attrs[k2].position == Some(p);
        assert(j <= j < k2 < attrs.len() && attrs[j].position == Some(p) && attrs[k2].position
            == Some(p));
    } else {
        lemma_two_claimants(attrs, p, j + 1);
        let (k1, k2) = choose|k1: int, k2: int|
            j + 1 <= k1 < k2 < attrs.len() && #[trigger] attrs[k1].position == Some(p)
                && #[trigger] attrs[k2].position == Some(p);
        assert(j <= k1 < k2 < attrs.len() && attrs[k1].position == Some(p) && attrs[k2].position
            == Some(p));
    }
}

/// At least one claimant name from `j` means a claiming index at or after
/// `j` exists.
proof fn lemma_one_claimant(attrs: Seq<DatatypeAttributeV>, p: usize, j: int)
    requires
        0 <= j,
        spec_claimants_from(attrs, p, j).len() >= 1,
    ensures
        exists|k: int| j <= k < attrs.len() && #[trigger] attrs[k].position == Some(p),
    decreases attrs.len() - j,
{
    if j >= attrs.len() {
        assert(false);
    } else if attrs[j].position == Some(p) {
    } else {
        lemma_one_claimant(attrs, p, j + 1);
    }
}

} // verus!
