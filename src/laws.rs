//! Laws of multi-scalar multiplication, proved over the defining sum and the
//! bucket method's result.
use vstd::prelude::*;
use crate::group::{AddGroup, lincomb, scale, lemma_lincomb_add, lemma_lincomb_ext, lemma_lincomb_single, lemma_lincomb_zero, lemma_scale_one};
use crate::scalar::Scalar;
use crate::msm::{msm_spec, pippenger, pair_count, scalar_values, valid_window, canonical_scalars, lemma_canonical_covered, lemma_pippenger_is_msm};

verus! {

/// The window width does not change the result: for canonical scalars the
/// bucket method gives the same element with any two accepted widths.
pub proof fn lemma_window_width_invariance<G: AddGroup>(bases: Seq<G>, scalars: Seq<Scalar>, c1: nat, c2: nat)
    requires
        valid_window(c1),
        valid_window(c2),
        canonical_scalars(scalars),
    ensures
        pippenger(bases, scalars, c1) == pippenger(bases, scalars, c2),
{
    lemma_canonical_covered(scalars, c1);
    lemma_canonical_covered(scalars, c2);
    lemma_pippenger_is_msm(bases, scalars, c1);
    lemma_pippenger_is_msm(bases, scalars, c2);
}

/// Replacing the scalar of pair `i` by zero removes exactly
/// `scalars[i] · bases[i]` from the sum.
pub proof fn lemma_zero_scalar_removes<G: AddGroup>(bases: Seq<G>, scalars: Seq<Scalar>, i: int, zero: Scalar)
    requires
        0 <= i < pair_count(bases.len(), scalars.len()),
        zero.value() == 0,
    ensures
        msm_spec(bases, scalars) == G::sum(msm_spec(bases, scalars.update(i, zero)), scale(scalars[i].value(), bases[i])),
{
    let n = pair_count(bases.len(), scalars.len());
    let kept = scalars.update(i, zero);
    assert(pair_count(bases.len(), kept.len()) == n);
    let e = Seq::new(n, |j: int| if j == i { scalars[i].value() } else { 0nat });
    lemma_lincomb_add(scalar_values(kept, n), e, scalar_values(scalars, n), bases, n);
    lemma_lincomb_single(e, bases, n, i);
}

/// A pair whose scalar is one contributes its base exactly once.
pub proof fn lemma_unit_scalar_once<G: AddGroup>(bases: Seq<G>, scalars: Seq<Scalar>, i: int, zero: Scalar)
    requires
        0 <= i < pair_count(bases.len(), scalars.len()),
        scalars[i].value() == 1,
        zero.value() == 0,
    ensures
        msm_spec(bases, scalars) == G::sum(msm_spec(bases, scalars.update(i, zero)), bases[i]),
{
    lemma_zero_scalar_removes(bases, scalars, i, zero);
    lemma_scale_one(bases[i]);
}

/// Scalars that are all zero give the identity, whatever the length.
pub proof fn lemma_all_zero_scalars<G: AddGroup>(bases: Seq<G>, scalars: Seq<Scalar>)
    requires
        forall|i: int| 0 <= i < scalars.len() ==> #[trigger] scalars[i].value() == 0,
    ensures
        msm_spec(bases, scalars) == G::ident(),
{
    let n = pair_count(bases.len(), scalars.len());
    lemma_lincomb_zero(scalar_values(scalars, n), bases, n);
}

/// Combinations whose coefficients vanish from `m` on only depend on the
/// first `m` terms.
proof fn lemma_lincomb_prefix<G: AddGroup>(a: Seq<nat>, bases: Seq<G>, n: nat, m: nat)
    requires
        m <= n,
        forall|j: int| m <= j < n ==> a[j] == 0,
    ensures
        lincomb(a, bases, n) == lincomb(a, bases, m),
    decreases n,
{
    if n > m {
        lemma_lincomb_prefix(a, bases, (n - 1) as nat, m);
        G::lemma_sum_ident(lincomb(a, bases, (n - 1) as nat));
    }
}

/// Pairs after position `m` whose scalars are all zero change nothing: the
/// sum equals the sum over the first `m` pairs alone.
pub proof fn lemma_zero_tail<G: AddGroup>(bases: Seq<G>, scalars: Seq<Scalar>, m: nat)
    requires
        m <= pair_count(bases.len(), scalars.len()),
        forall|j: int| m <= j < scalars.len() ==> #[trigger] scalars[j].value() == 0,
    ensures
        msm_spec(bases, scalars) == msm_spec(bases.take(m as int), scalars.take(m as int)),
{
    let n = pair_count(bases.len(), scalars.len());
    let bt = bases.take(m as int);
    let st = scalars.take(m as int);
    assert(pair_count(bt.len(), st.len()) == m);
    lemma_lincomb_prefix(scalar_values(scalars, n), bases, n, m);
    lemma_lincomb_ext(scalar_values(scalars, n), scalar_values(st, m), bases, m);
    lemma_lincomb_bases_prefix(scalar_values(st, m), bases, bt, m);
}

/// A combination of `m` terms only reads the first `m` bases.
proof fn lemma_lincomb_bases_prefix<G: AddGroup>(a: Seq<nat>, bases: Seq<G>, other: Seq<G>, m: nat)
    requires
        forall|j: int| 0 <= j < m ==> bases[j] == other[j],
    ensures
        lincomb(a, bases, m) == lincomb(a, other, m),
    decreases m,
{
    if m > 0 {
        lemma_lincomb_bases_prefix(a, bases, other, (m - 1) as nat);
    }
}

} // verus!
