//! The layout resolver: every attribute receives a final serialization
//! position. Explicit positions are honored verbatim; attributes without one
//! are walked in declaration order and each takes the lowest slot of
//! `0..N` (N = expanded attribute count) still unclaimed; finally the list
//! is sorted by position.
use vstd::prelude::*;

use crate::structs::{DatatypeAttribute, DatatypeAttributeV};
use crate::validate::{claims_at, pos_at};

verus! {

/// Whether some attribute at or after index `i` explicitly claims slot `q`.
pub open spec fn spec_claimed_from(av: Seq<DatatypeAttributeV>, i: int, q: usize) -> bool {
    exists|j: int| i <= j < av.len() && av[j].position == Some(q)
}

/// Whether any attribute explicitly claims slot `q`.
pub open spec fn spec_claimed(av: Seq<DatatypeAttributeV>, q: usize) -> bool {
    spec_claimed_from(av, 0, q)
}

/// How many of the slots `0..k` are claimed by attributes at or after `i`.
pub open spec fn spec_claimed_upto_from(av: Seq<DatatypeAttributeV>, i: int, k: usize) -> nat
    decreases k,
{
    if k == 0 {
        0
    } else {
        spec_claimed_upto_from(av, i, (k - 1) as usize) + if spec_claimed_from(
            av,
            i,
            (k - 1) as usize,
        ) {
            1nat
        } else {
            0nat
        }
    }
}

/// How many attributes at or after index `i` carry an explicit position.
pub open spec fn spec_somes_from(av: Seq<DatatypeAttributeV>, i: int) -> nat
    decreases av.len() - i,
{
    if i < 0 || i >= av.len() {
        0
    } else {
        (if av[i].position is Some {
            1nat
        } else {
            0nat
        }) + spec_somes_from(av, i + 1)
    }
}

/// How many attributes at or after index `i` lack an explicit position.
pub open spec fn spec_nones_from(av: Seq<DatatypeAttributeV>, i: int) -> nat
    decreases av.len() - i,
{
    if i < 0 || i >= av.len() {
        0
    } else {
        (if av[i].position is None {
            1nat
        } else {
            0nat
        }) + spec_nones_from(av, i + 1)
    }
}

/// How many attributes before index `i` lack an explicit position.
pub open spec fn spec_nones_upto(av: Seq<DatatypeAttributeV>, i: int) -> nat
    decreases i,
{
    if i <= 0 {
        0
    } else {
        spec_nones_upto(av, i - 1) + if av[i - 1].position is None {
            1nat
        } else {
            0nat
        }
    }
}

/// The unclaimed slots among `0..k`, in increasing order.
pub open spec fn spec_free_slots(av: Seq<DatatypeAttributeV>, k: usize) -> Seq<usize>
    decreases k,
{
    if k == 0 {
        Seq::empty()
    } else {
        spec_free_slots(av, (k - 1) as usize) + (if spec_claimed(av, (k - 1) as usize) {
            Seq::empty()
        } else {
            seq![(k - 1) as usize]
        })
    }
}

/// Claiming at or after `i` is claiming at `i` or claiming at or after
/// `i + 1`.
proof fn lemma_claimed_from_step(av: Seq<DatatypeAttributeV>, i: int, q: usize)
    requires
        0 <= i < av.len(),
    ensures
        spec_claimed_from(av, i, q) <==> (av[i].position == Some(q) || spec_claimed_from(
            av,
            i + 1,
            q,
        )),
{
    if av[i].position == Some(q) {
        assert(spec_claimed_from(av, i, q));
    }
    if spec_claimed_from(av, i, q) && av[i].position != Some(q) {
        let j = choose|j: int| i <= j < av.len() && av[j].position == Some(q);
        assert(i + 1 <= j < av.len() && av[j].position == Some(q));
    }
}

/// Dropping the attribute at index `i` frees at most one slot of `0..k`,
/// and only the slot that attribute itself claims.
proof fn lemma_claimed_upto_step(av: Seq<DatatypeAttributeV>, i: int, k: usize)
    requires
        0 <= i < av.len(),
    ensures
        spec_claimed_upto_from(av, i, k) <= spec_claimed_upto_from(av, i + 1, k) + (
        if av[i].position is Some {
            1nat
        } else {
            0nat
        }),
        av[i].position is None ==> spec_claimed_upto_from(av, i, k) == spec_claimed_upto_from(
            av,
            i + 1,
            k,
        ),
        spec_claimed_upto_from(av, i, k) <= spec_claimed_upto_from(av, i + 1, k) + (
        if claims_at(av, i) && (pos_at(av, i) as nat) < k && !spec_claimed_from(
            av,
            i + 1,
            pos_at(av, i),
        ) {
            1nat
        } else {
            0nat
        }),
    decreases k,
{
    if k > 0 {
        let s = (k - 1) as usize;
        lemma_claimed_upto_step(av, i, s);
        lemma_claimed_from_step(av, i, s);
    }
}

/// No attribute at or after the end of the list claims anything.
proof fn lemma_claimed_upto_end(av: Seq<DatatypeAttributeV>, i: int, k: usize)
    requires
        i >= av.len(),
    ensures
        spec_claimed_upto_from(av, i, k) == 0,
    decreases k,
{
    if k > 0 {
        lemma_claimed_upto_end(av, i, (k - 1) as usize);
    }
}

/// At most as many slots are claimed by the attributes at or after `i` as
/// there are explicit positions among them.
proof fn lemma_claimed_upto_bounded(av: Seq<DatatypeAttributeV>, i: int, k: usize)
    requires
        0 <= i,
    ensures
        spec_claimed_upto_from(av, i, k) <= spec_somes_from(av, i),
    decreases av.len() - i,
{
    if i >= av.len() {
        lemma_claimed_upto_end(av, i, k);
    } else {
        lemma_claimed_upto_bounded(av, i + 1, k);
        lemma_claimed_upto_step(av, i, k);
    }
}

/// The free slots below `k` and the claimed slots below `k` partition `0..k`.
proof fn lemma_free_slots_len(av: Seq<DatatypeAttributeV>, k: usize)
    ensures
        spec_free_slots(av, k).len() + spec_claimed_upto_from(av, 0, k) == k,
    decreases k,
{
    if k > 0 {
        lemma_free_slots_len(av, (k - 1) as usize);
    }
}

/// Every free slot is below `k`, is unclaimed, and the list of free slots
/// is strictly increasing.
pub proof fn lemma_free_slots_props(av: Seq<DatatypeAttributeV>, k: usize)
    ensures
        forall|t: int|
            0 <= t < spec_free_slots(av, k).len() ==> (#[trigger] spec_free_slots(av, k)[t] as nat)
                < k && !spec_claimed(av, spec_free_slots(av, k)[t]),
        forall|t1: int, t2: int|
            0 <= t1 < t2 < spec_free_slots(av, k).len() ==> #[trigger] spec_free_slots(av, k)[t1]
                < #[trigger] spec_free_slots(av, k)[t2],
    decreases k,
{
    if k > 0 {
        lemma_free_slots_props(av, (k - 1) as usize);
        let prev = spec_free_slots(av, (k - 1) as usize);
        let cur = spec_free_slots(av, k);
        assert forall|t: int| 0 <= t < cur.len() implies (#[trigger] cur[t] as nat) < k
            && !spec_claimed(av, cur[t]) by {
            if t < prev.len() {
                assert(cur[t] == prev[t]);
            }
        }
        assert forall|t1: int, t2: int| 0 <= t1 < t2 < cur.len() implies #[trigger] cur[t1]
            < #[trigger] cur[t2] by {
            if t2 < prev.len() {
                assert(cur[t1] == prev[t1] && cur[t2] == prev[t2]);
            } else {
                assert(cur[t1] == prev[t1]);
                assert((prev[t1] as nat) < (k - 1) as nat || prev[t1] as nat == (k - 1) as nat);
            }
        }
    }
}

/// There are at least as many free slots in `0..N` as attributes without an
/// explicit position.
pub proof fn lemma_enough_free_slots(av: Seq<DatatypeAttributeV>, n: usize)
    requires
        av.len() == n,
    ensures
        spec_free_slots(av, n).len() >= spec_nones_from(av, 0),
{
    lemma_free_slots_len(av, n);
    lemma_claimed_upto_bounded(av, 0, n);
    lemma_counts_total(av, 0);
}

/// Explicit and absent positions at or after `i` together count the rest of
/// the list.
proof fn lemma_counts_total(av: Seq<DatatypeAttributeV>, i: int)
    requires
        0 <= i <= av.len(),
    ensures
        spec_somes_from(av, i) + spec_nones_from(av, i) == av.len() - i,
    decreases av.len() - i,
{
    if i < av.len() {
        lemma_counts_total(av, i + 1);
    }
}

/// Splitting the count of absent positions at an index.
pub proof fn lemma_nones_split(av: Seq<DatatypeAttributeV>, i: int)
    requires
        0 <= i <= av.len(),
    ensures
        spec_nones_upto(av, i) + spec_nones_from(av, i) == spec_nones_from(av, 0),
    decreases i,
{
    if i > 0 {
        lemma_nones_split(av, i - 1);
        assert(spec_nones_upto(av, i) == spec_nones_upto(av, i - 1) + (
        if av[i - 1].position is None {
            1nat
        } else {
            0nat
        }));
        assert(spec_nones_from(av, i - 1) == (if av[i - 1].position is None {
            1nat
        } else {
            0nat
        }) + spec_nones_from(av, i));
    }
}


/// Strict validity: every explicit position is below the expanded attribute
/// count and no two attributes share one. (The validator's range check also
/// admits a position equal to the count; such a position resolves outside
/// `0..N` and breaks the permutation property, so the permutation law asks
/// for strictness.)
pub open spec fn spec_positions_strict(av: Seq<DatatypeAttributeV>) -> bool {
    &&& forall|i: int|
        0 <= i < av.len() && #[trigger] claims_at(av, i) ==> (pos_at(av, i) as nat) < av.len()
    &&& forall|i: int, j: int|
        0 <= i < j < av.len() && #[trigger] claims_at(av, i) && #[trigger] claims_at(av, j)
            ==> pos_at(av, i) != pos_at(av, j)
}

/// The attribute at index `i` after position assignment: explicit positions
/// stay; an absent one takes the next free slot, counted by how many
/// unpositioned attributes precede it.
pub open spec fn spec_assign_at(av: Seq<DatatypeAttributeV>, i: int) -> DatatypeAttributeV {
    if av[i].position is Some {
        av[i]
    } else {
        DatatypeAttributeV {
            name: av[i].name,
            ty: av[i].ty,
            endianness: av[i].endianness,
            position: Some(
                spec_free_slots(av, av.len() as usize)[spec_nones_upto(av, i) as int],
            ),
            reserved: av[i].reserved,
        }
    }
}

/// The whole attribute list after position assignment, before sorting.
pub open spec fn spec_assign(av: Seq<DatatypeAttributeV>) -> Seq<DatatypeAttributeV> {
    Seq::new(av.len(), |i: int| spec_assign_at(av, i))
}

/// The sequence of position fields of an attribute list.
pub open spec fn spec_positions_of(av: Seq<DatatypeAttributeV>) -> Seq<Option<usize>> {
    Seq::new(av.len(), |i: int| av[i].position)
}

/// Non-decreasing positions (over attributes that all carry one).
pub open spec fn spec_sorted_by_position(av: Seq<DatatypeAttributeV>) -> bool {
    forall|i: int, j: int|
        0 <= i < j < av.len() ==> #[trigger] pos_at(av, i) <= #[trigger] pos_at(av, j)
            || !claims_at(av, i) || !claims_at(av, j)
}

/// Assign every attribute without an explicit position the lowest free slot
/// of `0..N`, walking them in declaration order; explicit positions are left
/// untouched.
fn assign_positions(attrs: &mut Vec<DatatypeAttribute>)
    ensures
        final(attrs).deep_view() == spec_assign(old(attrs).deep_view()),
{
    let ghost av = attrs.deep_view();
    let n = attrs.len();
    proof {
        assert(av.len() == n);
        assert(av.len() as usize == n);
    }
    // build the list of unclaimed slots of 0..n, in increasing order
    let mut positions: Vec<usize> = Vec::new();
    let mut k: usize = 0;
    while k < n
        invariant
            0 <= k <= n,
            n == attrs.len(),
            av == attrs.deep_view(),
            av.len() == n,
            positions@ == spec_free_slots(av, k),
        decreases n - k,
    {
        let mut used = false;
        let mut j: usize = 0;
        while j < n
            invariant
                0 <= j <= n,
                n == attrs.len(),
                av == attrs.deep_view(),
                av.len() == n,
                used <==> exists|t: int| 0 <= t < j && #[trigger] av[t].position == Some(k),
            decreases n - j,
        {
            let mut hit = false;
            if let Some(q) = attrs[j].position {
                if q == k {
                    hit = true;
                }
            }
            if hit {
                proof {
                    assert(av[j as int].position == Some(k));
                }
                used = true;
            }
            j = j + 1;
        }
        proof {
            if used {
                assert(spec_claimed(av, k));
            } else {
                if spec_claimed(av, k) {
                    let t = choose|t: int| 0 <= t < av.len() && av[t].position == Some(k);
                    assert(false);
                }
            }
        }
        let ghost old_positions = positions@;
        if !used {
            positions.push(k);
        }
        proof {
            assert(positions@ =~= spec_free_slots(av, (k + 1) as usize));
        }
        k = k + 1;
    }
    let ghost free = spec_free_slots(av, n);
    proof {
        lemma_enough_free_slots(av, n);
        assert(positions@ =~= free.subrange(spec_nones_upto(av, 0) as int, free.len() as int));
    }
    // walk the attributes in declaration order; each unpositioned one takes
    // the lowest free slot still available
    proof {
        assert(av.subrange(0, n as int) =~= av);
    }
    let mut out: Vec<DatatypeAttribute> = Vec::new();
    let mut i: usize = 0;
    while i < n
        invariant
            0 <= i <= n,
            n == av.len(),
            free == spec_free_slots(av, n),
            free.len() >= spec_nones_from(av, 0),
            attrs.deep_view() == av.subrange(i as int, n as int),
            out@.len() == i,
            out.deep_view() == spec_assign(av).subrange(0, i as int),
            positions@ == free.subrange(spec_nones_upto(av, i as int) as int, free.len() as int),
        decreases n - i,
    {
        let ghost prev_attrs = attrs@;
        let ghost prev_dv = attrs.deep_view();
        proof {
            assert(attrs@.len() == av.subrange(i as int, n as int).len());
            assert(prev_dv[0] == prev_attrs[0].deep_view());
        }
        let mut a = attrs.remove(0);
        proof {
            assert(a == prev_attrs[0]);
            assert(a.deep_view() == av.subrange(i as int, n as int)[0]);
            assert(av.subrange(i as int, n as int)[0] == av[i as int]);
            assert(attrs@ =~= prev_attrs.subrange(1, prev_attrs.len() as int));
            assert forall|t: int| 0 <= t < attrs@.len() implies #[trigger] attrs.deep_view()[t]
                == av.subrange(i as int + 1, n as int)[t] by {
                assert(attrs.deep_view()[t] == attrs@[t].deep_view());
                assert(attrs@[t] == prev_attrs[t + 1]);
                assert(prev_dv[t + 1] == prev_attrs[t + 1].deep_view());
                assert(prev_dv[t + 1] == av.subrange(i as int, n as int)[t + 1]);
            }
            assert(attrs.deep_view() =~= av.subrange(i as int + 1, n as int));
        }
        let ghost nu = spec_nones_upto(av, i as int);
        if a.position.is_none() {
            proof {
                lemma_nones_split(av, i as int);
                assert(spec_nones_from(av, i as int) >= 1);
                assert(nu < free.len());
                assert(positions@.len() > 0);
                assert(positions@[0] == free[nu as int]);
            }
            let slot = positions.remove(0);
            a.position = Some(slot);
            proof {
                assert(positions@ =~= free.subrange(nu as int + 1, free.len() as int));
                assert(spec_nones_upto(av, i as int + 1) == nu + 1);
            }
        } else {
            proof {
                assert(spec_nones_upto(av, i as int + 1) == nu);
            }
        }
        let ghost out_prev = out.deep_view();
        out.push(a);
        proof {
            assert(a.deep_view() == spec_assign_at(av, i as int));
            assert(out.deep_view() =~= out_prev.push(spec_assign_at(av, i as int)));
            assert(out.deep_view() =~= spec_assign(av).subrange(0, i as int + 1));
        }
        i = i + 1;
    }
    proof {
        assert(out.deep_view() =~= spec_assign(av));
    }
    *attrs = out;
}

/// Sort the attribute list by resolved position, ascending. The attribute
/// multiset and the position multiset are preserved.
fn sort_by_position(attrs: &mut Vec<DatatypeAttribute>)
    requires
        forall|i: int| 0 <= i < old(attrs).deep_view().len() ==> claims_at(old(attrs).deep_view(), i),
    ensures
        final(attrs)@.len() == old(attrs)@.len(),
        final(attrs).deep_view().to_multiset() == old(attrs).deep_view().to_multiset(),
        spec_positions_of(final(attrs).deep_view()).to_multiset() == spec_positions_of(
            old(attrs).deep_view(),
        ).to_multiset(),
        forall|i: int|
            0 <= i < final(attrs).deep_view().len() ==> claims_at(final(attrs).deep_view(), i),
        spec_sorted_by_position(final(attrs).deep_view()),
{
    broadcast use vstd::seq_lib::group_to_multiset_ensures;

    let ghost av0 = attrs.deep_view();
    let n0 = attrs.len();
    let mut out: Vec<DatatypeAttribute> = Vec::new();
    while attrs.len() > 0
        invariant
            out@.len() + attrs@.len() == n0,
            av0.len() == n0,
            out.deep_view().to_multiset().add(attrs.deep_view().to_multiset())
                == av0.to_multiset(),
            spec_positions_of(out.deep_view()).to_multiset().add(
                spec_positions_of(attrs.deep_view()).to_multiset(),
            ) == spec_positions_of(av0).to_multiset(),
            forall|i: int| 0 <= i < out.deep_view().len() ==> claims_at(out.deep_view(), i),
            forall|i: int| 0 <= i < attrs.deep_view().len() ==> claims_at(attrs.deep_view(), i),
            spec_sorted_by_position(out.deep_view()),
            forall|oi: int, aj: int|
                0 <= oi < out.deep_view().len() && 0 <= aj < attrs.deep_view().len()
                    ==> #[trigger] pos_at(out.deep_view(), oi) <= #[trigger] pos_at(
                    attrs.deep_view(),
                    aj,
                ),
        decreases attrs.len(),
    {
        let ghost adv = attrs.deep_view();
        // find the index of a minimal remaining position
        let mut m: usize = 0;
        let mut j: usize = 1;
        while j < attrs.len()
            invariant
                0 <= m < j <= attrs.len(),
                adv == attrs.deep_view(),
                adv.len() == attrs@.len(),
                forall|t: int| 0 <= t < adv.len() ==> claims_at(adv, t),
                forall|t: int| 0 <= t < j ==> pos_at(adv, m as int) <= #[trigger] pos_at(adv, t),
            decreases attrs.len() - j,
        {
            proof {
                assert(adv[j as int] == attrs@[j as int].deep_view());
                assert(adv[m as int] == attrs@[m as int].deep_view());
            }
            let pj = match attrs[j].position {
                Some(p) => p,
                None => 0,
            };
            let pm = match attrs[m].position {
                Some(p) => p,
                None => 0,
            };
            proof {
                assert(pj == pos_at(adv, j as int));
                assert(pm == pos_at(adv, m as int));
            }
            if pj < pm {
                m = j;
            }
            j = j + 1;
        }
        let ghost out_prev = out.deep_view();
        let ghost prev_attrs = attrs@;
        proof {
            assert(prev_attrs[m as int].deep_view() == adv[m as int]);
        }
        let a = attrs.remove(m);
        out.push(a);
        proof {
            assert(a == prev_attrs[m as int]);
            assert(a.deep_view() == adv[m as int]);
            assert forall|t: int| 0 <= t < out@.len() implies #[trigger] out.deep_view()[t]
                == out_prev.push(adv[m as int])[t] by {
                assert(out.deep_view()[t] == out@[t].deep_view());
            }
            assert(out.deep_view() =~= out_prev.push(adv[m as int]));
            assert forall|t: int| 0 <= t < attrs@.len() implies #[trigger] attrs.deep_view()[t]
                == adv.remove(m as int)[t] by {
                assert(attrs.deep_view()[t] == attrs@[t].deep_view());
                assert(attrs@ == prev_attrs.remove(m as int));
                if t < m {
                    assert(attrs@[t] == prev_attrs[t]);
                    assert(adv.remove(m as int)[t] == adv[t]);
                    assert(adv[t] == prev_attrs[t].deep_view());
                } else {
                    assert(attrs@[t] == prev_attrs[t + 1]);
                    assert(adv.remove(m as int)[t] == adv[t + 1]);
                    assert(adv[t + 1] == prev_attrs[t + 1].deep_view());
                }
            }
            assert(attrs.deep_view() =~= adv.remove(m as int));
            vstd::seq_lib::to_multiset_build(out_prev, adv[m as int]);
            vstd::seq_lib::to_multiset_remove(adv, m as int);
            vstd::seq_lib::to_multiset_contains(adv, adv[m as int]);
            assert(adv.contains(adv[m as int]));
            assert(adv.to_multiset().count(adv[m as int]) > 0);
            assert(out.deep_view().to_multiset().add(attrs.deep_view().to_multiset())
                =~= out_prev.to_multiset().add(adv.to_multiset()));
            // position multisets move the same way
            let op = spec_positions_of(out_prev);
            let ap = spec_positions_of(adv);
            assert(spec_positions_of(out.deep_view()) =~= op.push(adv[m as int].position));
            assert(spec_positions_of(attrs.deep_view()) =~= ap.remove(m as int));
            vstd::seq_lib::to_multiset_build(op, adv[m as int].position);
            vstd::seq_lib::to_multiset_remove(ap, m as int);
            assert forall|t: int| 0 <= t < out.deep_view().len() implies claims_at(
                out.deep_view(),
                t,
            ) by {
                if t < out_prev.len() {
                    assert(out.deep_view()[t] == out_prev[t]);
                    assert(claims_at(out_prev, t));
                } else {
                    assert(out.deep_view()[t] == adv[m as int]);
                    assert(claims_at(adv, m as int));
                }
            }
            assert forall|t: int| 0 <= t < attrs.deep_view().len() implies claims_at(
                attrs.deep_view(),
                t,
            ) by {
                if t < m {
                    assert(attrs.deep_view()[t] == adv[t]);
                    assert(claims_at(adv, t));
                } else {
                    assert(attrs.deep_view()[t] == adv[t + 1]);
                    assert(claims_at(adv, t + 1));
                }
            }
            let odv = out.deep_view();
            let rdv = attrs.deep_view();
            assert forall|i: int, j: int|
                0 <= i < j < odv.len() implies #[trigger] pos_at(odv, i) <= #[trigger] pos_at(
                odv,
                j,
            ) || !claims_at(odv, i) || !claims_at(odv, j) by {
                if j < out_prev.len() {
                    assert(odv[i] == out_prev[i] && odv[j] == out_prev[j]);
                    assert(pos_at(odv, i) == pos_at(out_prev, i));
                    assert(pos_at(odv, j) == pos_at(out_prev, j));
                } else {
                    assert(odv[i] == out_prev[i] && odv[j] == adv[m as int]);
                    assert(pos_at(odv, i) == pos_at(out_prev, i));
                    assert(pos_at(odv, j) == pos_at(adv, m as int));
                }
            }
            assert forall|oi: int, aj: int|
                0 <= oi < odv.len() && 0 <= aj < rdv.len() implies #[trigger] pos_at(odv, oi)
                <= #[trigger] pos_at(rdv, aj) by {
                let src = if aj < m { aj } else { aj + 1 };
                assert(rdv[aj] == adv[src]);
                assert(pos_at(rdv, aj) == pos_at(adv, src));
                if oi < out_prev.len() {
                    assert(odv[oi] == out_prev[oi]);
                    assert(pos_at(odv, oi) == pos_at(out_prev, oi));
                    assert(pos_at(out_prev, oi) <= pos_at(adv, src));
                } else {
                    assert(odv[oi] == adv[m as int]);
                    assert(pos_at(odv, oi) == pos_at(adv, m as int));
                    assert(pos_at(adv, m as int) <= pos_at(adv, src));
                }
            }
            assert(ap[m as int] == adv[m as int].position);
            vstd::seq_lib::to_multiset_contains(ap, adv[m as int].position);
            assert(ap.contains(adv[m as int].position));
            assert(ap.to_multiset().count(adv[m as int].position) > 0);
            assert(spec_positions_of(out.deep_view()).to_multiset().add(
                spec_positions_of(attrs.deep_view()).to_multiset(),
            ) =~= op.to_multiset().add(ap.to_multiset()));
        }
    }
    proof {
        assert(attrs.deep_view().to_multiset() =~= Seq::<DatatypeAttributeV>::empty().to_multiset());
        assert(out.deep_view().to_multiset() =~= av0.to_multiset());
        assert(spec_positions_of(attrs.deep_view()) =~= Seq::<Option<usize>>::empty());
        assert(spec_positions_of(out.deep_view()).to_multiset() =~= spec_positions_of(
            av0,
        ).to_multiset());
        vstd::seq_lib::lemma_multiset_commutative(out.deep_view(), attrs.deep_view());
    }
    *attrs = out;
}


/// Counting absent positions is monotone in the prefix length, strictly so
/// across an index that itself lacks a position.
proof fn lemma_nones_upto_monotone(av: Seq<DatatypeAttributeV>, i: int, j: int)
    requires
        0 <= i <= j,
    ensures
        spec_nones_upto(av, i) <= spec_nones_upto(av, j),
        (i < j && av[i].position is None) ==> spec_nones_upto(av, i) < spec_nones_upto(av, j),
    decreases j - i,
{
    if i < j {
        lemma_nones_upto_monotone(av, i + 1, j);
    }
}

/// Under strict validity, position assignment gives every attribute a
/// position, all positions lie below the attribute count, and no two are
/// equal.
proof fn lemma_assign_positions_good(av: Seq<DatatypeAttributeV>, n: usize)
    requires
        av.len() == n,
        spec_positions_strict(av),
    ensures
        forall|i: int|
            0 <= i < n ==> claims_at(spec_assign(av), i) && (#[trigger] pos_at(
                spec_assign(av),
                i,
            ) as nat) < n,
        spec_positions_of(spec_assign(av)).no_duplicates(),
{
    let asg = spec_assign(av);
    let free = spec_free_slots(av, n);
    lemma_enough_free_slots(av, n);
    lemma_free_slots_props(av, n);
    assert forall|i: int| 0 <= i < n implies claims_at(asg, i) && (#[trigger] pos_at(asg, i) as nat)
        < n by {
        assert(asg[i] == spec_assign_at(av, i));
        if av[i].position is Some {
            assert(claims_at(av, i));
        } else {
            lemma_nones_split(av, i);
            assert(spec_nones_from(av, i) >= 1);
            assert(spec_nones_upto(av, i) < free.len());
        }
    }
    let pos = spec_positions_of(asg);
    assert forall|i: int, j: int| 0 <= i < j < n implies pos[i] != pos[j] by {
        assert(asg[i] == spec_assign_at(av, i));
        assert(asg[j] == spec_assign_at(av, j));
        if av[i].position is Some && av[j].position is Some {
            assert(claims_at(av, i) && claims_at(av, j));
        } else if av[i].position is Some && av[j].position is None {
            lemma_nones_split(av, j);
            assert(spec_nones_upto(av, j) < free.len());
            assert(!spec_claimed(av, free[spec_nones_upto(av, j) as int]));
            assert(spec_claimed(av, pos_at(av, i)));
        } else if av[i].position is None && av[j].position is Some {
            lemma_nones_split(av, i);
            assert(spec_nones_upto(av, i) < free.len());
            assert(!spec_claimed(av, free[spec_nones_upto(av, i) as int]));
            assert(spec_claimed(av, pos_at(av, j)));
        } else {
            lemma_nones_split(av, i);
            lemma_nones_split(av, j);
            lemma_nones_upto_monotone(av, i, j);
            assert(spec_nones_upto(av, i) < spec_nones_upto(av, j) < free.len());
            assert(free[spec_nones_upto(av, i) as int] < free[spec_nones_upto(av, j) as int]);
        }
    }
    assert forall|i: int, j: int|
        0 <= i < pos.len() && 0 <= j < pos.len() && i != j implies pos[i] != pos[j] by {
        if i < j {
            assert(pos[i] != pos[j]);
        } else {
            assert(pos[j] != pos[i]);
        }
    }
    assert(pos.no_duplicates());
}

/// A list of distinct, sorted positions that all lie below the list length
/// is the identity: the attribute at index `i` sits at position `i`.
proof fn lemma_pos_lower_bound(fv: Seq<DatatypeAttributeV>, i: int)
    requires
        0 <= i < fv.len(),
        forall|a: int, b: int|
            0 <= a < b < fv.len() ==> #[trigger] pos_at(fv, a) < #[trigger] pos_at(fv, b),
    ensures
        pos_at(fv, i) >= i,
    decreases i,
{
    if i > 0 {
        lemma_pos_lower_bound(fv, i - 1);
        assert(pos_at(fv, i - 1) < pos_at(fv, i));
    }
}

proof fn lemma_pos_upper_bound(fv: Seq<DatatypeAttributeV>, i: int)
    requires
        0 <= i < fv.len(),
        forall|a: int, b: int|
            0 <= a < b < fv.len() ==> #[trigger] pos_at(fv, a) < #[trigger] pos_at(fv, b),
        forall|a: int| 0 <= a < fv.len() ==> (#[trigger] pos_at(fv, a) as nat) < fv.len(),
    ensures
        pos_at(fv, i) <= i,
    decreases fv.len() - i,
{
    if i < fv.len() - 1 {
        lemma_pos_upper_bound(fv, i + 1);
        assert(pos_at(fv, i) < pos_at(fv, i + 1));
    }
}

/// Reorder the attribute list into increasing position order, assigning each
/// attribute without an explicit position the lowest free slot first.
///
/// The resulting list is a reordering of [`spec_assign`] applied to the
/// input, sorted by position, with every position assigned. An attribute
/// that had an explicit position is kept exactly as it was (its position is
/// honored verbatim). When the explicit positions are strictly valid, the
/// resolved positions are exactly the permutation `0..N`: the attribute at
/// index `i` of the result carries position `i`.
pub fn reorder_positions_increasing(attrs: &mut Vec<DatatypeAttribute>)
    ensures
        final(attrs)@.len() == old(attrs)@.len(),
        final(attrs).deep_view().to_multiset() == spec_assign(old(attrs).deep_view()).to_multiset(),
        forall|i: int|
            0 <= i < final(attrs).deep_view().len() ==> claims_at(final(attrs).deep_view(), i),
        spec_sorted_by_position(final(attrs).deep_view()),
        forall|i: int|
            0 <= i < old(attrs).deep_view().len() && claims_at(old(attrs).deep_view(), i)
                ==> final(attrs).deep_view().contains(#[trigger] old(attrs).deep_view()[i]),
        spec_positions_strict(old(attrs).deep_view()) ==> forall|i: int|
            0 <= i < final(attrs).deep_view().len()
                ==> (#[trigger] final(attrs).deep_view()[i]).position == Some(i as usize),
{
    broadcast use vstd::seq_lib::group_to_multiset_ensures;

    let ghost av = attrs.deep_view();
    let n = attrs.len();
    assign_positions(attrs);
    let ghost asg = spec_assign(av);
    proof {
        assert(attrs.deep_view() == asg);
        assert forall|i: int| 0 <= i < attrs.deep_view().len() implies claims_at(
            attrs.deep_view(),
            i,
        ) by {
            assert(asg[i] == spec_assign_at(av, i));
        }
    }
    sort_by_position(attrs);
    let ghost fdv = attrs.deep_view();
    proof {
        // an attribute with an explicit position survives unchanged
        assert forall|i: int|
            0 <= i < av.len() && claims_at(av, i) implies fdv.contains(#[trigger] av[i]) by {
            assert(asg[i] == spec_assign_at(av, i));
            assert(asg[i] == av[i]);
            assert(asg.contains(av[i]));
            vstd::seq_lib::to_multiset_contains(asg, av[i]);
            vstd::seq_lib::to_multiset_contains(fdv, av[i]);
        }
        // under strict validity the result carries positions 0..N in order
        if spec_positions_strict(av) {
            lemma_assign_positions_good(av, n);
            let pos_a = spec_positions_of(asg);
            let pos_f = spec_positions_of(fdv);
            assert(pos_f.to_multiset() == pos_a.to_multiset());
            pos_a.lemma_multiset_has_no_duplicates();
            assert forall|x: Option<usize>|
                pos_f.to_multiset().contains(x) implies pos_f.to_multiset().count(x) == 1 by {
                assert(pos_a.to_multiset().count(x) == pos_f.to_multiset().count(x));
            }
            pos_f.lemma_multiset_has_no_duplicates_conv();
            assert forall|i: int|
                0 <= i < fdv.len() implies claims_at(fdv, i) && (#[trigger] pos_at(fdv, i) as nat)
                < fdv.len() by {
                assert(pos_f[i] == fdv[i].position);
                vstd::seq_lib::to_multiset_contains(pos_f, pos_f[i]);
                assert(pos_f.contains(pos_f[i]));
                vstd::seq_lib::to_multiset_contains(pos_a, pos_f[i]);
                assert(pos_a.contains(pos_f[i]));
                let t = choose|t: int| 0 <= t < pos_a.len() && pos_a[t] == pos_f[i];
                assert(pos_a[t] == asg[t].position);
                assert(claims_at(asg, t) && (pos_at(asg, t) as nat) < n);
            }
            assert forall|a: int, b: int|
                0 <= a < b < fdv.len() implies #[trigger] pos_at(fdv, a) < #[trigger] pos_at(
                fdv,
                b,
            ) by {
                assert(pos_at(fdv, a) <= pos_at(fdv, b));
                if pos_at(fdv, a) == pos_at(fdv, b) {
                    assert(pos_f[a] == fdv[a].position);
                    assert(pos_f[b] == fdv[b].position);
                    assert(pos_f[a] == pos_f[b]);
                    assert(false);
                }
            }
            assert forall|i: int|
                0 <= i < fdv.len() implies (#[trigger] fdv[i]).position == Some(i as usize) by {
                lemma_pos_lower_bound(fdv, i);
                lemma_pos_upper_bound(fdv, i);
                assert(pos_at(fdv, i) == i as usize);
                assert(claims_at(fdv, i));
            }
        }
    }
}

/// Resolve the layout: validate-clean attribute lists come out as a
/// contiguous, position-sorted permutation. This is the resolver's public
/// entry point.
pub fn update(attrs: &mut Vec<DatatypeAttribute>)
    ensures
        final(attrs)@.len() == old(attrs)@.len(),
        final(attrs).deep_view().to_multiset() == spec_assign(old(attrs).deep_view()).to_multiset(),
        forall|i: int|
            0 <= i < final(attrs).deep_view().len() ==> claims_at(final(attrs).deep_view(), i),
        spec_sorted_by_position(final(attrs).deep_view()),
        forall|i: int|
            0 <= i < old(attrs).deep_view().len() && claims_at(old(attrs).deep_view(), i)
                ==> final(attrs).deep_view().contains(#[trigger] old(attrs).deep_view()[i]),
        spec_positions_strict(old(attrs).deep_view()) ==> forall|i: int|
            0 <= i < final(attrs).deep_view().len()
                ==> (#[trigger] final(attrs).deep_view()[i]).position == Some(i as usize),
{
    reorder_positions_increasing(attrs)
}

} // verus!