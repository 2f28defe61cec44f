//! The defining sum computed directly: one double-and-add scalar
//! multiplication per pair, added up from the left.
use vstd::prelude::*;
use vstd::arithmetic::power2::{pow2, lemma_pow2_pos, lemma_pow2_adds, lemma2_to64};
use vstd::arithmetic::div_mod::{lemma_fundamental_div_mod, lemma_div_denominator, lemma_basic_div};
use crate::group::{AddGroup, scale, lemma_scale_add};
use crate::scalar::{Scalar, SCALAR_CAPACITY_BITS, lemma_limbs_bound};
use crate::msm::{msm_spec, pair_count, scalar_values};

verus! {

/// `s · p` by double-and-add over the scalar's bits, most significant first.
pub fn scalar_mul<G: AddGroup>(p: &G, s: &Scalar) -> (r: G)
    ensures
        r == scale(s.value(), *p),
{
    let ghost v = s.value() as int;
    let mut acc = G::zero();
    let mut k: usize = SCALAR_CAPACITY_BITS;
    proof {
        lemma_limbs_bound(s.limbs@);
        assert(64 * s.limbs@.len() == 256);
        lemma_basic_div(v, pow2(256) as int);
    }
    while k > 0
        invariant
            k <= SCALAR_CAPACITY_BITS,
            v == s.value(),
            acc == scale((v / pow2(k as nat) as int) as nat, *p),
        decreases k,
    {
        k = k - 1;
        let b = s.bit(k);
        proof {
            let hi = v / pow2((k + 1) as nat) as int;
            lemma2_to64();
            lemma_pow2_pos(k as nat);
            lemma_pow2_adds(k as nat, 1);
            lemma_div_denominator(v, pow2(k as nat) as int, 2);
            lemma_fundamental_div_mod(v / pow2(k as nat) as int, 2);
            lemma_scale_add(hi as nat, hi as nat, *p);
        }
        acc = acc.double();
        if b == 1 {
            acc = acc.add(p);
        }
    }
    proof {
        lemma2_to64();
        assert(v / pow2(0) as int == v);
    }
    acc
}

/// `Σ_i scalars[i] · bases[i]` over the first `min(bases.len(), scalars.len())`
/// pairs, one scalar multiplication per pair.
pub fn naive_multi_scalar_mul<G: AddGroup>(bases: &Vec<G>, scalars: &Vec<Scalar>) -> (r: G)
    ensures
        r == msm_spec(bases@, scalars@),
{
    let n: usize = if bases.len() <= scalars.len() { bases.len() } else { scalars.len() };
    let ghost vals = scalar_values(scalars@, n as nat);
    let mut acc = G::zero();
    let mut i: usize = 0;
    while i < n
        invariant
            n == pair_count(bases@.len(), scalars@.len()),
            vals == scalar_values(scalars@, n as nat),
            i <= n,
            acc == crate::group::lincomb(vals, bases@, i as nat),
        decreases n - i,
    {
        let term = scalar_mul(&bases[i], &scalars[i]);
        acc = acc.add(&term);
        i = i + 1;
    }
    acc
}

} // verus!
