//! Commutative monoids written additively (a group's addition), scalar multiples and linear
//! combinations of a sequence of elements.
use vstd::prelude::*;

verus! {

/// A commutative monoid written additively: the addition of a commutative
/// group, without its inverse, which is all the bucket method uses.
///
/// The spec functions `sum` and `ident` are the law; the proof functions are
/// its axioms, which every implementation proves.
pub trait AddGroup: Sized {
    /// The group operation.
    spec fn sum(a: Self, b: Self) -> Self;

    /// The identity element.
    spec fn ident() -> Self;

    proof fn lemma_sum_assoc(a: Self, b: Self, c: Self)
        ensures
            Self::sum(Self::sum(a, b), c) == Self::sum(a, Self::sum(b, c)),
    ;

    proof fn lemma_sum_comm(a: Self, b: Self)
        ensures
            Self::sum(a, b) == Self::sum(b, a),
    ;

    proof fn lemma_sum_ident(a: Self)
        ensures
            Self::sum(a, Self::ident()) == a,
    ;

    /// The identity element.
    fn zero() -> (r: Self)
        ensures
            r == Self::ident(),
    ;

    /// `self + other`.
    fn add(&self, other: &Self) -> (r: Self)
        ensures
            r == Self::sum(*self, *other),
    ;

    /// `self + self`.
    fn double(&self) -> (r: Self)
        ensures
            r == Self::sum(*self, *self),
    ;

    /// A copy of `self`.
    fn duplicate(&self) -> (r: Self)
        ensures
            r == *self,
    ;
}

/// `k · p`: the sum of `k` copies of `p`.
pub open spec fn scale<G: AddGroup>(k: nat, p: G) -> G
    decreases k,
{
    if k == 0 {
        G::ident()
    } else {
        G::sum(scale((k - 1) as nat, p), p)
    }
}

/// `c` successive doublings of `p`.
pub open spec fn double_n<G: AddGroup>(p: G, c: nat) -> G
    decreases c,
{
    if c == 0 {
        p
    } else {
        let q = double_n(p, (c - 1) as nat);
        G::sum(q, q)
    }
}

/// `Σ_{i < n} coeffs[i] · bases[i]`, folded from the left starting at the identity.
pub open spec fn lincomb<G: AddGroup>(coeffs: Seq<nat>, bases: Seq<G>, n: nat) -> G
    decreases n,
{
    if n == 0 {
        G::ident()
    } else {
        let i = (n - 1) as int;
        G::sum(lincomb(coeffs, bases, (n - 1) as nat), scale(coeffs[i], bases[i]))
    }
}

pub proof fn lemma_ident_sum<G: AddGroup>(a: G)
    ensures
        G::sum(G::ident(), a) == a,
{
    G::lemma_sum_comm(G::ident(), a);
    G::lemma_sum_ident(a);
}

/// `(x + y) + (z + w) == (x + z) + (y + w)`.
pub proof fn lemma_sum_swap<G: AddGroup>(x: G, y: G, z: G, w: G)
    ensures
        G::sum(G::sum(x, y), G::sum(z, w)) == G::sum(G::sum(x, z), G::sum(y, w)),
{
    G::lemma_sum_assoc(x, y, G::sum(z, w));
    G::lemma_sum_assoc(y, z, w);
    G::lemma_sum_comm(y, z);
    G::lemma_sum_assoc(z, y, w);
    G::lemma_sum_assoc(x, z, G::sum(y, w));
}

/// `(a + b) · p == a · p + b · p`.
pub proof fn lemma_scale_add<G: AddGroup>(a: nat, b: nat, p: G)
    ensures
        scale(a + b, p) == G::sum(scale(a, p), scale(b, p)),
    decreases b,
{
    if b == 0 {
        G::lemma_sum_ident(scale(a, p));
        assert(a + b == a);
    } else {
        lemma_scale_add(a, (b - 1) as nat, p);
        assert((a + b - 1) as nat == a + (b - 1) as nat);
        G::lemma_sum_assoc(scale(a, p), scale((b - 1) as nat, p), p);
    }
}

/// `1 · p == p`.
pub proof fn lemma_scale_one<G: AddGroup>(p: G)
    ensures
        scale(1, p) == p,
{
    assert(scale(0, p) == G::ident());
    lemma_ident_sum(p);
}

/// Coefficients that agree below `n` give the same combination.
pub proof fn lemma_lincomb_ext<G: AddGroup>(a: Seq<nat>, b: Seq<nat>, bases: Seq<G>, n: nat)
    requires
        forall|i: int| 0 <= i < n ==> a[i] == b[i],
    ensures
        lincomb(a, bases, n) == lincomb(b, bases, n),
    decreases n,
{
    if n > 0 {
        lemma_lincomb_ext(a, b, bases, (n - 1) as nat);
    }
}

/// Coefficients that vanish below `n` give the identity.
pub proof fn lemma_lincomb_zero<G: AddGroup>(a: Seq<nat>, bases: Seq<G>, n: nat)
    requires
        forall|i: int| 0 <= i < n ==> a[i] == 0,
    ensures
        lincomb(a, bases, n) == G::ident(),
    decreases n,
{
    if n > 0 {
        lemma_lincomb_zero(a, bases, (n - 1) as nat);
        G::lemma_sum_ident(G::ident());
    }
}

/// Linear combinations add coefficient-wise.
pub proof fn lemma_lincomb_add<G: AddGroup>(a: Seq<nat>, b: Seq<nat>, c: Seq<nat>, bases: Seq<G>, n: nat)
    requires
        forall|i: int| 0 <= i < n ==> c[i] == a[i] + b[i],
    ensures
        lincomb(c, bases, n) == G::sum(lincomb(a, bases, n), lincomb(b, bases, n)),
    decreases n,
{
    if n == 0 {
        G::lemma_sum_ident(G::ident());
    } else {
        let m = (n - 1) as nat;
        let i = m as int;
        lemma_lincomb_add(a, b, c, bases, m);
        lemma_scale_add(a[i], b[i], bases[i]);
        lemma_sum_swap(
            lincomb(a, bases, m),
            lincomb(b, bases, m),
            scale(a[i], bases[i]),
            scale(b[i], bases[i]),
        );
    }
}

/// Coefficients that vanish everywhere below `n` but at `j` give `a[j] · bases[j]`.
pub proof fn lemma_lincomb_single<G: AddGroup>(a: Seq<nat>, bases: Seq<G>, n: nat, j: int)
    requires
        0 <= j < n,
        forall|i: int| 0 <= i < n && i != j ==> a[i] == 0,
    ensures
        lincomb(a, bases, n) == scale(a[j], bases[j]),
    decreases n,
{
    let m = (n - 1) as nat;
    if j == m {
        lemma_lincomb_zero(a, bases, m);
        lemma_ident_sum(scale(a[j], bases[j]));
    } else {
        lemma_lincomb_single(a, bases, m, j);
        G::lemma_sum_ident(scale(a[j], bases[j]));
    }
}

/// `c` doublings multiply every coefficient by `2^c`.
pub proof fn lemma_double_n_lincomb<G: AddGroup>(a: Seq<nat>, b: Seq<nat>, bases: Seq<G>, n: nat, c: nat)
    requires
        forall|i: int| 0 <= i < n ==> b[i] == vstd::arithmetic::power2::pow2(c) * a[i],
    ensures
        double_n(lincomb(a, bases, n), c) == lincomb(b, bases, n),
    decreases c,
{
    vstd::arithmetic::power2::lemma_pow2_pos(c);
    if c == 0 {
        vstd::arithmetic::power2::lemma2_to64();
        assert forall|i: int| 0 <= i < n implies b[i] == a[i] by {
            assert(b[i] == 1 * a[i]);
        }
        lemma_lincomb_ext(a, b, bases, n);
    } else {
        let d = (c - 1) as nat;
        let h = Seq::new(n, |i: int| vstd::arithmetic::power2::pow2(d) * a[i]);
        assert forall|i: int| 0 <= i < n implies b[i] == h[i] + h[i] by {
            vstd::arithmetic::power2::lemma_pow2_unfold(c);
            assert(vstd::arithmetic::power2::pow2(c) * a[i] == 2 * (vstd::arithmetic::power2::pow2(d) * a[i])) by (nonlinear_arith)
                requires vstd::arithmetic::power2::pow2(c) == 2 * vstd::arithmetic::power2::pow2(d);
        }
        vstd::arithmetic::power2::lemma_pow2_pos(d);
        lemma_double_n_lincomb(a, h, bases, n, d);
        lemma_lincomb_add(h, h, b, bases, n);
    }
}

/// Raising one coefficient by one adds that base once.
pub proof fn lemma_lincomb_bump<G: AddGroup>(a: Seq<nat>, b: Seq<nat>, bases: Seq<G>, n: nat, j: int)
    requires
        0 <= j < n,
        b[j] == a[j] + 1,
        forall|i: int| 0 <= i < n && i != j ==> b[i] == a[i],
    ensures
        lincomb(b, bases, n) == G::sum(lincomb(a, bases, n), bases[j]),
{
    let e = Seq::new(n, |i: int| if i == j { 1nat } else { 0nat });
    lemma_lincomb_add(a, e, b, bases, n);
    lemma_lincomb_single(e, bases, n, j);
    lemma_scale_one(bases[j]);
}

} // verus!
