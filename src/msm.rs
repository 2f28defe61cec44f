//! The bucket method: operand pairing, window partition, per-window bucket
//! accumulation and the weighted fold of the window sums.
use vstd::prelude::*;
use vstd::arithmetic::power2::{pow2, lemma_pow2_pos, lemma_pow2_adds, lemma_pow2_strictly_increases, lemma2_to64};
use vstd::arithmetic::div_mod::{lemma_div_multiples_vanish_fancy, lemma_fundamental_div_mod, lemma_div_denominator, lemma_basic_div};
use crate::group::{AddGroup, double_n, lincomb, lemma_lincomb_add, lemma_lincomb_bump, lemma_lincomb_ext, lemma_lincomb_zero, lemma_double_n_lincomb};
use crate::scalar::{Scalar, window_value, lemma_limbs_bound};

verus! {

/// Bit length of the scalar field's modulus; scalars are below `2^SCALAR_BITS`.
pub const SCALAR_BITS: usize = 255;

/// Default window width, in bits.
pub const WINDOW_BITS: usize = 21;

/// Why a multi-scalar multiplication was refused.
#[derive(Clone, Copy, Debug, PartialEq, Eq, Structural)]
pub enum MsmError {
    /// The window width is zero, or too wide for the machine: a window digit
    /// must fit in 64 bits and the `2^c - 1` buckets must be countable in a
    /// `usize`.
    InvalidWindow,
}

/// Whether `c` is an accepted window width: at least one bit, a digit that
/// fits in 64 bits, and a bucket count `2^c - 1` that fits in a `usize`.
pub open spec fn valid_window(c: nat) -> bool {
    1 <= c < 64 && pow2(c) - 1 <= usize::MAX
}

/// Number of pairs used: the shorter of the two inputs.
pub open spec fn pair_count(n_bases: nat, n_scalars: nat) -> nat {
    if n_bases <= n_scalars {
        n_bases
    } else {
        n_scalars
    }
}

/// The integer values of the first `n` scalars.
pub open spec fn scalar_values(scalars: Seq<Scalar>, n: nat) -> Seq<nat> {
    Seq::new(n, |i: int| scalars[i].value())
}

/// The defining sum `Σ_i scalars[i] · bases[i]` over the paired prefix,
/// folded from the left with single-scalar multiples.
pub open spec fn msm_spec<G: AddGroup>(bases: Seq<G>, scalars: Seq<Scalar>) -> G {
    let n = pair_count(bases.len(), scalars.len());
    lincomb(scalar_values(scalars, n), bases, n)
}

/// `ceil(num_bits / c)`: how many windows of `c` bits cover `num_bits` bits.
pub open spec fn num_windows(num_bits: nat, c: nat) -> nat
    recommends
        c > 0,
{
    ((num_bits + c - 1) as int / c as int) as nat
}

/// The window-`[w, w + c)` digits of the paired scalars.
pub open spec fn window_coeffs(scalars: Seq<Scalar>, n: nat, w: nat, c: nat) -> Seq<nat> {
    Seq::new(n, |i: int| window_value(scalars[i].value(), w, c))
}

/// `Σ_i window_w(scalars[i]) · bases[i]`: what one window contributes.
pub open spec fn window_sum<G: AddGroup>(bases: Seq<G>, scalars: Seq<Scalar>, w: nat, c: nat) -> G {
    let n = pair_count(bases.len(), scalars.len());
    lincomb(window_coeffs(scalars, n, w, c), bases, n)
}

/// The running total after folding window sums `k..` from the highest down:
/// each step adds a window sum and doubles `c` times.
pub open spec fn horner_fold<G: AddGroup>(sums: Seq<G>, c: nat, k: nat) -> G
    decreases sums.len() - k,
{
    if k >= sums.len() {
        G::ident()
    } else {
        double_n(G::sum(horner_fold(sums, c, k + 1), sums[k as int]), c)
    }
}

/// The lowest window sum plus the weighted fold of the higher ones.
pub open spec fn combine_spec<G: AddGroup>(sums: Seq<G>, c: nat) -> G {
    G::sum(sums[0], horner_fold(sums, c, 1))
}

/// The window sums, lowest window first.
pub open spec fn window_sums<G: AddGroup>(bases: Seq<G>, scalars: Seq<Scalar>, c: nat) -> Seq<G> {
    Seq::new(num_windows(SCALAR_BITS as nat, c), |t: int| window_sum(bases, scalars, (t * c) as nat, c))
}

/// What the bucket method computes with windows of `c` bits.
pub open spec fn pippenger<G: AddGroup>(bases: Seq<G>, scalars: Seq<Scalar>, c: nat) -> G {
    combine_spec(window_sums(bases, scalars, c), c)
}

/// The digit under which a scalar is bucketed; unit scalars bypass the
/// buckets.
pub open spec fn bucket_digit(s: Scalar, w: nat, c: nat) -> nat {
    if s.value() == 1 {
        0
    } else {
        window_value(s.value(), w, c)
    }
}

/// What a unit scalar adds directly to the window sum.
pub open spec fn unit_digit(s: Scalar, w: nat) -> nat {
    if s.value() == 1 && w == 0 {
        1
    } else {
        0
    }
}

/// Coefficients of bucket `k` after the first `i` pairs.
pub open spec fn bucket_coeffs(scalars: Seq<Scalar>, n: nat, i: nat, w: nat, c: nat, k: nat) -> Seq<nat> {
    Seq::new(n, |j: int| if j < i && bucket_digit(scalars[j], w, c) == k + 1 { 1nat } else { 0nat })
}

/// Coefficients of the unit scalars among the first `i` pairs.
pub open spec fn unit_coeffs(scalars: Seq<Scalar>, n: nat, i: nat, w: nat) -> Seq<nat> {
    Seq::new(n, |j: int| if j < i { unit_digit(scalars[j], w) } else { 0nat })
}

/// Coefficients of the running suffix sum over buckets `k..`.
pub open spec fn running_coeffs(scalars: Seq<Scalar>, n: nat, w: nat, c: nat, k: nat) -> Seq<nat> {
    Seq::new(n, |j: int| if bucket_digit(scalars[j], w, c) > k { 1nat } else { 0nat })
}

/// Coefficients of the window result once buckets `k..` are folded in.
pub open spec fn folded_coeffs(scalars: Seq<Scalar>, n: nat, w: nat, c: nat, k: nat) -> Seq<nat> {
    Seq::new(
        n,
        |j: int|
            unit_digit(scalars[j], w) + if bucket_digit(scalars[j], w, c) > k {
                (bucket_digit(scalars[j], w, c) - k) as nat
            } else {
                0nat
            },
    )
}

/// `2^c - 1`, the number of buckets of a `c`-bit window, where it fits in a
/// `usize`.
fn bucket_count(c: usize) -> (r: Option<usize>)
    ensures
        r is Some <==> pow2(c as nat) - 1 <= usize::MAX,
        r is Some ==> r->Some_0 == pow2(c as nat) - 1,
{
    let mut m: usize = 0;
    let mut k: usize = 0;
    proof {
        lemma2_to64();
    }
    while k < c
        invariant
            k <= c,
            m == pow2(k as nat) - 1,
        decreases c - k,
    {
        proof {
            lemma2_to64();
            lemma_pow2_adds(k as nat, 1);
            lemma_pow2_pos(k as nat);
        }
        if m > (usize::MAX - 1) / 2 {
            proof {
                // 2^(k + 1) - 1 == 2m + 1 already exceeds usize::MAX
                if k + 1 < c {
                    lemma_pow2_strictly_increases((k + 1) as nat, c as nat);
                }
            }
            return None;
        }
        m = 2 * m + 1;
        k = k + 1;
    }
    Some(m)
}

/// The window starts `0, c, 2c, ...` below `num_bits`.
pub fn window_starts(num_bits: usize, c: usize) -> (r: Result<Vec<usize>, MsmError>)
    ensures
        c == 0 <==> r is Err,
        r is Err ==> r == Err::<Vec<usize>, MsmError>(MsmError::InvalidWindow),
        r is Ok ==> ({
            let v = r->Ok_0@;
            &&& v.len() == num_windows(num_bits as nat, c as nat)
            &&& forall|t: int| 0 <= t < v.len() ==> v[t] == t * c && v[t] < num_bits
        }),
{
    if c == 0 {
        return Err(MsmError::InvalidWindow);
    }
    let mut v: Vec<usize> = Vec::new();
    let mut w: usize = 0;
    let mut more: bool = num_bits > 0;
    proof {
        assert(v@.len() * c == 0) by (nonlinear_arith)
            requires v@.len() == 0;
    }
    while more
        invariant
            c > 0,
            more ==> w < num_bits && w == v.len() * c,
            !more ==> num_bits <= v.len() * c,
            v.len() == 0 || (v.len() - 1) * c < num_bits,
            forall|t: int| 0 <= t < v.len() ==> v[t] == t * c && v[t] < num_bits,
        decreases (if more { num_bits - w + 1 } else { 0 }),
    {
        proof {
            assert((v.len() + 1) * c == v.len() * c + c) by (nonlinear_arith);
        }
        v.push(w);
        if c >= num_bits - w {
            more = false;
        } else {
            w = w + c;
        }
    }
    proof {
        let i = v.len();
        if i == 0 {
            lemma_basic_div(num_bits + c - 1, c as int);
        } else {
            assert((i - 1) * c == i * c - c) by (nonlinear_arith)
                requires i >= 1;
            lemma_div_multiples_vanish_fancy(i as int, num_bits + c - 1 - i * c, c as int);
            assert(c * i == i * c) by (nonlinear_arith);
        }
    }
    Ok(v)
}

/// The window digits of the scalar `1`: one in the lowest window, zero above.
pub proof fn lemma_unit_window(w: nat, c: nat)
    requires
        c >= 1,
    ensures
        window_value(1, w, c) == (if w == 0 { 1nat } else { 0nat }),
{
    lemma2_to64();
    lemma_pow2_pos(c);
    if c > 1 {
        lemma_pow2_strictly_increases(1, c);
    }
    if w > 0 {
        lemma_pow2_strictly_increases(0, w);
        lemma_basic_div(1, pow2(w) as int);
        assert(1int / pow2(w) as int == 0);
        assert(0int % pow2(c) as int == 0);
    } else {
        assert(1int / pow2(w) as int == 1);
        vstd::arithmetic::div_mod::lemma_small_mod(1, pow2(c));
    }
}

/// A window digit lies below `2^c`.
pub proof fn lemma_window_bound(v: nat, w: nat, c: nat)
    ensures
        window_value(v, w, c) < pow2(c),
{
    lemma_pow2_pos(c);
    lemma_pow2_pos(w);
}

/// The sum that one window of `c` bits starting at bit `w_start` contributes,
/// computed with `2^c - 1` buckets and a running suffix sum.
///
/// Pairs with a zero scalar are skipped; a unit scalar is added straight
/// to the result, in the lowest window only.
pub fn bucket_window_sum<G: AddGroup>(bases: &Vec<G>, scalars: &Vec<Scalar>, w_start: usize, c: usize) -> (r: G)
    requires
        valid_window(c as nat),
    ensures
        r == window_sum(bases@, scalars@, w_start as nat, c as nat),
{
    let n: usize = if bases.len() <= scalars.len() { bases.len() } else { scalars.len() };
    let ghost gn = n as nat;
    let ghost w = w_start as nat;
    let ghost cc = c as nat;
    let ghost sc = scalars@;
    let ghost bs = bases@;
    proof {
        lemma_pow2_pos(c as nat);
    }
    let num_buckets: usize = match bucket_count(c) {
        Some(m) => m,
        None => {
            proof {
                assert(false);
            }
            0
        },
    };
    proof {
        lemma2_to64();
        lemma_pow2_strictly_increases(0, cc);
    }
    let mut buckets: Vec<G> = Vec::new();
    while buckets.len() < num_buckets
        invariant
            buckets.len() <= num_buckets,
            forall|k: int| 0 <= k < buckets.len() ==> buckets[k] == G::ident(),
        decreases num_buckets - buckets.len(),
    {
        buckets.push(G::zero());
    }
    let mut res: G = G::zero();
    proof {
        assert forall|k: int| 0 <= k < num_buckets implies buckets[k] == lincomb(bucket_coeffs(sc, gn, 0, w, cc, k as nat), bs, gn) by {
            lemma_lincomb_zero(bucket_coeffs(sc, gn, 0, w, cc, k as nat), bs, gn);
        }
        lemma_lincomb_zero(unit_coeffs(sc, gn, 0, w), bs, gn);
    }
    let mut i: usize = 0;
    while i < n
        invariant
            n == pair_count(bases@.len(), scalars@.len()),
            gn == n, w == w_start, cc == c, sc == scalars@, bs == bases@,
            valid_window(cc),
            num_buckets == pow2(cc) - 1,
            i <= n,
            buckets.len() == num_buckets,
            forall|k: int| 0 <= k < num_buckets ==> buckets[k] == lincomb(bucket_coeffs(sc, gn, i as nat, w, cc, k as nat), bs, gn),
            res == lincomb(unit_coeffs(sc, gn, i as nat, w), bs, gn),
        decreases n - i,
    {
        let s = &scalars[i];
        let ghost i0 = i as nat;
        if s.is_zero() {
            proof {
                lemma_pow2_pos(w);
                lemma_pow2_pos(cc);
                assert(0int / pow2(w) as int == 0);
                assert(0int % pow2(cc) as int == 0);
                assert(bucket_digit(sc[i as int], w, cc) == 0);
                lemma_lincomb_ext(unit_coeffs(sc, gn, i0, w), unit_coeffs(sc, gn, i0 + 1, w), bs, gn);
                assert forall|k: int| 0 <= k < num_buckets implies buckets[k] == lincomb(bucket_coeffs(sc, gn, i0 + 1, w, cc, k as nat), bs, gn) by {
                    lemma_lincomb_ext(bucket_coeffs(sc, gn, i0, w, cc, k as nat), bucket_coeffs(sc, gn, i0 + 1, w, cc, k as nat), bs, gn);
                }
            }
        } else if s.is_one() {
            if w_start == 0 {
                proof {
                    lemma_lincomb_bump(unit_coeffs(sc, gn, i0, w), unit_coeffs(sc, gn, i0 + 1, w), bs, gn, i as int);
                }
                res = res.add(&bases[i]);
            } else {
                proof {
                    lemma_lincomb_ext(unit_coeffs(sc, gn, i0, w), unit_coeffs(sc, gn, i0 + 1, w), bs, gn);
                }
            }
            proof {
                assert(bucket_digit(sc[i as int], w, cc) == 0);
                assert forall|k: int| 0 <= k < num_buckets implies buckets[k] == lincomb(bucket_coeffs(sc, gn, i0 + 1, w, cc, k as nat), bs, gn) by {
                    lemma_lincomb_ext(bucket_coeffs(sc, gn, i0, w, cc, k as nat), bucket_coeffs(sc, gn, i0 + 1, w, cc, k as nat), bs, gn);
                }
            }
        } else {
            let digit = s.window(w_start, c);
            proof {
                lemma_window_bound(s.value(), w, cc);
                lemma_lincomb_ext(unit_coeffs(sc, gn, i0, w), unit_coeffs(sc, gn, i0 + 1, w), bs, gn);
            }
            if digit != 0 {
                let idx: usize = (digit - 1) as usize;
                proof {
                    lemma_lincomb_bump(
                        bucket_coeffs(sc, gn, i0, w, cc, idx as nat),
                        bucket_coeffs(sc, gn, i0 + 1, w, cc, idx as nat),
                        bs, gn, i as int,
                    );
                }
                let updated = buckets[idx].add(&bases[i]);
                buckets.set(idx, updated);
                proof {
                    assert forall|k: int| 0 <= k < num_buckets && k != idx implies buckets[k] == lincomb(bucket_coeffs(sc, gn, i0 + 1, w, cc, k as nat), bs, gn) by {
                        lemma_lincomb_ext(bucket_coeffs(sc, gn, i0, w, cc, k as nat), bucket_coeffs(sc, gn, i0 + 1, w, cc, k as nat), bs, gn);
                    }
                }
            } else {
                proof {
                    assert forall|k: int| 0 <= k < num_buckets implies buckets[k] == lincomb(bucket_coeffs(sc, gn, i0 + 1, w, cc, k as nat), bs, gn) by {
                        lemma_lincomb_ext(bucket_coeffs(sc, gn, i0, w, cc, k as nat), bucket_coeffs(sc, gn, i0 + 1, w, cc, k as nat), bs, gn);
                    }
                }
            }
        }
        i = i + 1;
    }
    // Fold: res += Σ_k (Σ_{j ≥ k} buckets[j]), scanning from the top bucket down.
    let mut running: G = G::zero();
    proof {
        assert forall|j: int| 0 <= j < gn implies bucket_digit(#[trigger] sc[j], w, cc) <= num_buckets by {
            lemma_window_bound(sc[j].value(), w, cc);
        }
        lemma_lincomb_zero(running_coeffs(sc, gn, w, cc, num_buckets as nat), bs, gn);
        lemma_lincomb_ext(unit_coeffs(sc, gn, gn, w), folded_coeffs(sc, gn, w, cc, num_buckets as nat), bs, gn);
    }
    let mut k: usize = num_buckets;
    while k > 0
        invariant
            n == pair_count(bases@.len(), scalars@.len()),
            gn == n, w == w_start, cc == c, sc == scalars@, bs == bases@,
            k <= num_buckets,
            buckets.len() == num_buckets,
            forall|j: int| 0 <= j < gn ==> bucket_digit(#[trigger] sc[j], w, cc) <= num_buckets,
            forall|b: int| 0 <= b < num_buckets ==> buckets[b] == lincomb(bucket_coeffs(sc, gn, gn, w, cc, b as nat), bs, gn),
            running == lincomb(running_coeffs(sc, gn, w, cc, k as nat), bs, gn),
            res == lincomb(folded_coeffs(sc, gn, w, cc, k as nat), bs, gn),
        decreases k,
    {
        let ghost k0 = k as nat;
        k = k - 1;
        proof {
            lemma_lincomb_add(
                running_coeffs(sc, gn, w, cc, k0),
                bucket_coeffs(sc, gn, gn, w, cc, k as nat),
                running_coeffs(sc, gn, w, cc, k as nat),
                bs, gn,
            );
        }
        running = running.add(&buckets[k]);
        proof {
            lemma_lincomb_add(
                folded_coeffs(sc, gn, w, cc, k0),
                running_coeffs(sc, gn, w, cc, k as nat),
                folded_coeffs(sc, gn, w, cc, k as nat),
                bs, gn,
            );
        }
        res = res.add(&running);
    }
    proof {
        assert forall|j: int| 0 <= j < gn implies folded_coeffs(sc, gn, w, cc, 0)[j] == window_coeffs(sc, gn, w, cc)[j] by {
            if sc[j].value() == 1 {
                lemma_unit_window(w, cc);
            }
        }
        lemma_lincomb_ext(folded_coeffs(sc, gn, w, cc, 0), window_coeffs(sc, gn, w, cc), bs, gn);
    }
    res
}

/// Folds the window sums, lowest window first, into one element: the higher
/// windows are folded from the top down, each step adding a window sum and
/// doubling `c` times, and the lowest window sum is added last.
pub fn combine_windows<G: AddGroup>(sums: &Vec<G>, c: usize) -> (r: G)
    requires
        sums.len() >= 1,
    ensures
        r == combine_spec(sums@, c as nat),
{
    let lowest = sums[0].duplicate();
    let mut total = G::zero();
    let mut t: usize = sums.len();
    while t > 1
        invariant
            1 <= t <= sums.len(),
            total == horner_fold(sums@, c as nat, t as nat),
        decreases t,
    {
        t = t - 1;
        total = total.add(&sums[t]);
        let ghost start = total;
        let mut d: usize = 0;
        while d < c
            invariant
                d <= c,
                total == double_n(start, d as nat),
            decreases c - d,
        {
            total = total.double();
            d = d + 1;
        }
    }
    lowest.add(&total)
}

/// The bucket method with windows of `c` bits over `SCALAR_BITS`-bit
/// scalars, pairing `bases[i]` with `scalars[i]` up to the shorter length.
///
/// Refuses only a window width of zero and widths beyond the machine's
/// limits (see `valid_window`). The result is `Σ_i scalars[i] · bases[i]`
/// whenever the windows cover every scalar's bits, in particular for scalars
/// below `2^SCALAR_BITS`.
pub fn multi_scalar_mul_with_window<G: AddGroup>(bases: &Vec<G>, scalars: &Vec<Scalar>, c: usize) -> (r: Result<G, MsmError>)
    ensures
        !valid_window(c as nat) <==> r is Err,
        r is Err ==> r == Err::<G, MsmError>(MsmError::InvalidWindow),
        r is Ok ==> r->Ok_0 == pippenger(bases@, scalars@, c as nat),
        r is Ok && windows_cover(scalars@, c as nat) ==> r->Ok_0 == msm_spec(bases@, scalars@),
        r is Ok && canonical_scalars(scalars@) ==> r->Ok_0 == msm_spec(bases@, scalars@),
{
    if c == 0 || c >= 64 {
        return Err(MsmError::InvalidWindow);
    }
    if bucket_count(c).is_none() {
        return Err(MsmError::InvalidWindow);
    }
    Ok(bucket_msm(bases, scalars, c))
}

/// The bucket method with an accepted window width.
fn bucket_msm<G: AddGroup>(bases: &Vec<G>, scalars: &Vec<Scalar>, c: usize) -> (r: G)
    requires
        valid_window(c as nat),
    ensures
        r == pippenger(bases@, scalars@, c as nat),
        windows_cover(scalars@, c as nat) ==> r == msm_spec(bases@, scalars@),
        canonical_scalars(scalars@) ==> r == msm_spec(bases@, scalars@),
{
    let starts = match window_starts(SCALAR_BITS, c) {
        Ok(v) => v,
        Err(_) => {
            proof {
                assert(false);
            }
            Vec::new()
        },
    };
    let ghost expected = window_sums(bases@, scalars@, c as nat);
    let mut sums: Vec<G> = Vec::new();
    let mut t: usize = 0;
    while t < starts.len()
        invariant
            valid_window(c as nat),
            starts@.len() == num_windows(SCALAR_BITS as nat, c as nat),
            forall|u: int| 0 <= u < starts@.len() ==> starts@[u] == u * c,
            expected == window_sums(bases@, scalars@, c as nat),
            t <= starts.len(),
            sums.len() == t,
            forall|u: int| 0 <= u < t ==> sums[u] == expected[u],
        decreases starts.len() - t,
    {
        let sum = bucket_window_sum(bases, scalars, starts[t], c);
        sums.push(sum);
        t = t + 1;
    }
    proof {
        assert(sums@ =~= expected);
        assert(starts@.len() >= 1) by {
            assert(starts@.len() == (SCALAR_BITS + c - 1) as int / c as int);
            vstd::arithmetic::div_mod::lemma_div_is_ordered((c as int), (SCALAR_BITS + c - 1) as int, c as int);
            vstd::arithmetic::div_mod::lemma_div_by_multiple(1, c as int);
        }
        if canonical_scalars(scalars@) {
            lemma_canonical_covered(scalars@, c as nat);
        }
        if windows_cover(scalars@, c as nat) {
            lemma_pippenger_is_msm(bases@, scalars@, c as nat);
        }
    }
    combine_windows(&sums, c)
}

/// Every scalar is below `2^SCALAR_BITS`, as canonical scalar-field
/// encodings are.
pub open spec fn canonical_scalars(scalars: Seq<Scalar>) -> bool {
    forall|i: int| 0 <= i < scalars.len() ==> #[trigger] scalars[i].value() < pow2(SCALAR_BITS as nat)
}

/// The windows of `c` bits hold every bit of every scalar: each lies below
/// `2^(t · c)`, `t` being the number of windows.
pub open spec fn windows_cover(scalars: Seq<Scalar>, c: nat) -> bool {
    forall|i: int| 0 <= i < scalars.len() ==> #[trigger] scalars[i].value() < pow2(num_windows(SCALAR_BITS as nat, c) * c)
}

/// The windows of any width cover canonical scalars.
pub proof fn lemma_canonical_covered(scalars: Seq<Scalar>, c: nat)
    requires
        1 <= c,
        canonical_scalars(scalars),
    ensures
        windows_cover(scalars, c),
{
    let t = num_windows(SCALAR_BITS as nat, c);
    lemma_fundamental_div_mod((SCALAR_BITS + c - 1) as int, c as int);
    assert(t * c >= SCALAR_BITS) by (nonlinear_arith)
        requires
            (SCALAR_BITS + c - 1) as int == c * t + ((SCALAR_BITS + c - 1) as int % (c as int)),
            ((SCALAR_BITS + c - 1) as int % (c as int)) < c;
    if t * c > SCALAR_BITS {
        lemma_pow2_strictly_increases(SCALAR_BITS as nat, t * c);
    }
}

/// The default windows cover every scalar: 13 windows of 21 bits span 273
/// bits, more than the 256 a scalar holds.
pub proof fn lemma_default_width_covers(scalars: Seq<Scalar>)
    ensures
        windows_cover(scalars, WINDOW_BITS as nat),
{
    assert(num_windows(SCALAR_BITS as nat, WINDOW_BITS as nat) * WINDOW_BITS == 273);
    lemma_pow2_strictly_increases(256, 273);
    assert forall|i: int| 0 <= i < scalars.len() implies #[trigger] scalars[i].value() < pow2(273) by {
        lemma_limbs_bound(scalars[i].limbs@);
        assert(64 * scalars[i].limbs@.len() == 256);
    }
}

/// Coefficients of the fold of windows `k..`: each scalar shifted right by
/// `k · c` bits, then left by `c` bits.
pub open spec fn horner_coeffs(scalars: Seq<Scalar>, n: nat, c: nat, k: nat) -> Seq<nat> {
    Seq::new(n, |j: int| pow2(c) * ((scalars[j].value() as int / pow2(k * c) as int) as nat))
}

proof fn lemma_horner_lincomb<G: AddGroup>(bases: Seq<G>, scalars: Seq<Scalar>, c: nat, k: nat)
    requires
        1 <= c,
        1 <= k <= num_windows(SCALAR_BITS as nat, c),
        windows_cover(scalars, c),
    ensures
        ({
            let n = pair_count(bases.len(), scalars.len());
            horner_fold(window_sums(bases, scalars, c), c, k) == lincomb(horner_coeffs(scalars, n, c, k), bases, n)
        }),
    decreases num_windows(SCALAR_BITS as nat, c) - k,
{
    let n = pair_count(bases.len(), scalars.len());
    let t = num_windows(SCALAR_BITS as nat, c);
    let sums = window_sums(bases, scalars, c);
    lemma_pow2_pos(c);
    if k == t {
        // every scalar lies below 2^(t·c)
        assert forall|j: int| 0 <= j < n implies horner_coeffs(scalars, n, c, k)[j] == 0 by {
            let v = scalars[j].value();
            lemma_basic_div(v as int, pow2(t * c) as int);
        }
        lemma_lincomb_zero(horner_coeffs(scalars, n, c, k), bases, n);
    } else {
        lemma_horner_lincomb(bases, scalars, c, k + 1);
        let hk1 = horner_coeffs(scalars, n, c, k + 1);
        let wk = window_coeffs(scalars, n, k * c, c);
        let x = Seq::new(n, |j: int| (scalars[j].value() as int / pow2(k * c) as int) as nat);
        assert(sums[k as int] == lincomb(wk, bases, n));
        assert forall|j: int| 0 <= j < n implies x[j] == hk1[j] + wk[j] by {
            let v = scalars[j].value() as int;
            lemma_pow2_pos(k * c);
            lemma_pow2_adds(k * c, c);
            assert((k + 1) * c == k * c + c) by (nonlinear_arith);
            lemma_div_denominator(v, pow2(k * c) as int, pow2(c) as int);
            lemma_fundamental_div_mod(v / pow2(k * c) as int, pow2(c) as int);
        }
        lemma_lincomb_add(hk1, wk, x, bases, n);
        lemma_double_n_lincomb(x, horner_coeffs(scalars, n, c, k), bases, n, c);
    }
}

/// With windows of any accepted width that cover the scalars' bits, the
/// bucket method's result is the defining sum `Σ_i scalars[i] · bases[i]`.
pub proof fn lemma_pippenger_is_msm<G: AddGroup>(bases: Seq<G>, scalars: Seq<Scalar>, c: nat)
    requires
        valid_window(c),
        windows_cover(scalars, c),
    ensures
        pippenger(bases, scalars, c) == msm_spec(bases, scalars),
{
    let n = pair_count(bases.len(), scalars.len());
    let t = num_windows(SCALAR_BITS as nat, c);
    let sums = window_sums(bases, scalars, c);
    lemma_pow2_pos(c);
    assert(t >= 1) by {
        vstd::arithmetic::div_mod::lemma_div_is_ordered(c as int, (SCALAR_BITS + c - 1) as int, c as int);
        vstd::arithmetic::div_mod::lemma_div_by_multiple(1, c as int);
    }
    lemma_horner_lincomb(bases, scalars, c, 1);
    let w0 = window_coeffs(scalars, n, 0, c);
    let h1 = horner_coeffs(scalars, n, c, 1);
    let v = scalar_values(scalars, n);
    assert(sums[0] == lincomb(w0, bases, n));
    assert forall|j: int| 0 <= j < n implies v[j] == w0[j] + h1[j] by {
        lemma2_to64();
        assert(1 * c == c);
        lemma_fundamental_div_mod(scalars[j].value() as int, pow2(c) as int);
    }
    lemma_lincomb_add(w0, h1, v, bases, n);
}

/// Multi-scalar multiplication with the default window width.
pub struct VariableBaseMSM2;

impl VariableBaseMSM2 {
    /// `Σ_i scalars[i] · bases[i]` over the first `min(bases.len(), scalars.len())`
    /// pairs, by the bucket method with windows of `WINDOW_BITS` bits.
    pub fn multi_scalar_mul<G: AddGroup>(bases: &Vec<G>, scalars: &Vec<Scalar>) -> (r: G)
        ensures
            r == pippenger(bases@, scalars@, WINDOW_BITS as nat),
            r == msm_spec(bases@, scalars@),
    {
        proof {
            lemma_default_width_covers(scalars@);
            lemma2_to64();
        }
        bucket_msm(bases, scalars, WINDOW_BITS)
    }
}

} // verus!
