//! Scalars as fixed-width little-endian limb integers, and the extraction of
//! a window of their bits.
use vstd::prelude::*;
use vstd::arithmetic::power2::{pow2, lemma_pow2_adds, lemma_pow2_pos, lemma_pow2_strictly_increases, lemma2_to64};
use vstd::arithmetic::div_mod::{lemma_div_multiples_vanish_fancy, lemma_mod_multiples_vanish, lemma_fundamental_div_mod, lemma_div_denominator, lemma_basic_div, lemma_mod_breakdown};

verus! {

/// Number of bits a scalar can hold.
pub const SCALAR_CAPACITY_BITS: usize = 256;

/// The integer that little-endian 64-bit limbs encode.
pub open spec fn limbs_value(s: Seq<u64>) -> nat
    decreases s.len(),
{
    if s.len() == 0 {
        0
    } else {
        (s[0] + pow2(64) * limbs_value(s.drop_first())) as nat
    }
}

/// Bits `[w, w + c)` of `v`, as an integer in `[0, 2^c)`.
pub open spec fn window_value(v: nat, w: nat, c: nat) -> nat {
    ((v as int / pow2(w) as int) % (pow2(c) as int)) as nat
}

/// Bit `p` of `v`.
pub open spec fn bit_of(v: nat, p: nat) -> nat {
    ((v as int / pow2(p) as int) % 2) as nat
}

/// A scalar-field element in its canonical integer encoding: four 64-bit
/// limbs, least significant first.
#[derive(Clone, Copy, Debug, PartialEq, Eq)]
pub struct Scalar {
    pub limbs: [u64; 4],
}

impl Scalar {
    /// The integer this scalar encodes.
    pub open spec fn value(&self) -> nat {
        limbs_value(self.limbs@)
    }

    pub fn from_limbs(limbs: [u64; 4]) -> (r: Scalar)
        ensures
            r.limbs == limbs,
    {
        Scalar { limbs }
    }

    pub fn from_u64(x: u64) -> (r: Scalar)
        ensures
            r.value() == x,
    {
        let r = Scalar { limbs: [x, 0, 0, 0] };
        proof {
            lemma_value_four(r.limbs@);
        }
        r
    }

    pub fn zero() -> (r: Scalar)
        ensures
            r.value() == 0,
    {
        Scalar::from_u64(0)
    }

    pub fn one() -> (r: Scalar)
        ensures
            r.value() == 1,
    {
        Scalar::from_u64(1)
    }

    /// Whether this scalar is the additive identity.
    pub fn is_zero(&self) -> (r: bool)
        ensures
            r == (self.value() == 0),
    {
        proof {
            lemma_value_four(self.limbs@);
        }
        self.limbs[0] == 0 && self.limbs[1] == 0 && self.limbs[2] == 0 && self.limbs[3] == 0
    }

    /// Whether this scalar is the multiplicative identity.
    pub fn is_one(&self) -> (r: bool)
        ensures
            r == (self.value() == 1),
    {
        proof {
            lemma_value_four(self.limbs@);
        }
        self.limbs[0] == 1 && self.limbs[1] == 0 && self.limbs[2] == 0 && self.limbs[3] == 0
    }

    /// Bit `p` of this scalar.
    pub fn bit(&self, p: usize) -> (r: u64)
        ensures
            r == bit_of(self.value(), p as nat),
    {
        proof {
            lemma_pow2_pos(p as nat);
        }
        if p < SCALAR_CAPACITY_BITS {
            let limb = self.limbs[p / 64];
            let shift = (p % 64) as u64;
            proof {
                vstd::bits::lemma_u64_shr_is_div(limb, shift);
                lemma_limbs_bit(self.limbs@, p as nat);
            }
            (limb >> shift) % 2
        } else {
            proof {
                lemma_limbs_bound(self.limbs@);
                assert(64 * self.limbs@.len() == 256);
                if p > 256 {
                    lemma_pow2_strictly_increases(256, p as nat);
                }
                lemma_basic_div(self.value() as int, pow2(p as nat) as int);
            }
            0
        }
    }

    /// Bits `[w_start, w_start + c)` of this scalar: the scalar shifted right
    /// by `w_start` bits, modulo `2^c`.
    pub fn window(&self, w_start: usize, c: usize) -> (r: u64)
        requires
            c < 64,
        ensures
            r == window_value(self.value(), w_start as nat, c as nat),
    {
        let ghost v = self.value();
        let ghost x: int = v as int / pow2(w_start as nat) as int;
        proof {
            lemma_pow2_pos(w_start as nat);
            lemma2_to64();
        }
        let mut acc: u64 = 0;
        let mut pw: u64 = 1;
        let mut k: usize = 0;
        while k < c
            invariant
                k <= c < 64,
                pw == pow2(k as nat),
                x == v as int / pow2(w_start as nat) as int,
                x >= 0,
                pow2(w_start as nat) > 0,
                self.limbs@.len() == 4,
                v == self.value(),
                acc as int == x % (pw as int),
                acc < pw,
            decreases c - k,
        {
            let b: u64 = if w_start < SCALAR_CAPACITY_BITS && k < SCALAR_CAPACITY_BITS - w_start {
                self.bit(w_start + k)
            } else {
                proof {
                    // the bit lies beyond the scalar's capacity
                    let p = (w_start + k) as nat;
                    lemma_limbs_bound(self.limbs@);
                    assert(64 * self.limbs@.len() == 256);
                    if p > 256 {
                        lemma_pow2_strictly_increases(256, p);
                    }
                    lemma_basic_div(v as int, pow2(p) as int);
                }
                0
            };
            proof {
                lemma2_to64();
                lemma_pow2_pos(k as nat);
                lemma_pow2_adds(w_start as nat, k as nat);
                lemma_div_denominator(v as int, pow2(w_start as nat) as int, pow2(k as nat) as int);
                lemma_mod_breakdown(x, pw as int, 2);
                lemma_pow2_adds(k as nat, 1);
                lemma_pow2_strictly_increases((k + 1) as nat, 64);
                assert(x / pw as int == v as int / pow2((w_start + k) as nat) as int);
                assert(b == bit_of(v, (w_start + k) as nat));
                assert(b == (x / pw as int) % 2);
                assert(b <= 1);
                assert(acc + pw * b < pw * 2) by (nonlinear_arith)
                    requires acc < pw, b <= 1;
            }
            acc = acc + pw * b;
            pw = pw * 2;
            k = k + 1;
        }
        acc
    }
}

/// A four-limb value, written out.
pub proof fn lemma_value_four(s: Seq<u64>)
    requires
        s.len() == 4,
    ensures
        limbs_value(s) == s[0] + pow2(64) * (s[1] + pow2(64) * (s[2] + pow2(64) * s[3])),
        limbs_value(s) == 0 <==> (s[0] == 0 && s[1] == 0 && s[2] == 0 && s[3] == 0),
        limbs_value(s) == 1 <==> (s[0] == 1 && s[1] == 0 && s[2] == 0 && s[3] == 0),
        (s[1] == 0 && s[2] == 0 && s[3] == 0) ==> limbs_value(s) == s[0],
{
    reveal_with_fuel(limbs_value, 5);
    let m = pow2(64);
    lemma2_to64();
    assert(s.drop_first().drop_first().drop_first().drop_first().len() == 0);
    let t3 = s[3] as nat;
    let t2 = (s[2] + m * t3) as nat;
    let t1 = (s[1] + m * t2) as nat;
    assert(t3 == 0 ==> m * t3 == 0) by (nonlinear_arith);
    assert(t2 == 0 ==> m * t2 == 0) by (nonlinear_arith);
    assert(t1 == 0 ==> m * t1 == 0) by (nonlinear_arith);
    assert(t3 > 0 ==> m * t3 >= m) by (nonlinear_arith);
    assert(t2 > 0 ==> m * t2 >= m) by (nonlinear_arith);
    assert(t1 > 0 ==> m * t1 >= m) by (nonlinear_arith);
}

/// Limbs encode a value below `2^(64 · len)`.
pub proof fn lemma_limbs_bound(s: Seq<u64>)
    ensures
        limbs_value(s) < pow2(64 * s.len()),
    decreases s.len(),
{
    lemma2_to64();
    if s.len() == 0 {
    } else {
        let t = s.drop_first();
        lemma_limbs_bound(t);
        lemma_pow2_adds(64, 64 * t.len());
        assert(64 + 64 * t.len() == 64 * s.len());
        let m = pow2(64);
        let q = pow2(64 * t.len());
        let r = limbs_value(t);
        assert(s[0] + m * r < m * q) by (nonlinear_arith)
            requires s[0] < m, r < q, r >= 0;
    }
}

/// Bit `p` of the value is bit `p mod 64` of limb `p / 64`.
pub proof fn lemma_limbs_bit(s: Seq<u64>, p: nat)
    requires
        p < 64 * s.len(),
    ensures
        bit_of(limbs_value(s), p) == (s[(p / 64) as int] as nat / pow2(p % 64)) % 2,
    decreases s.len(),
{
    lemma2_to64();
    let t = s.drop_first();
    let m = pow2(64);
    let r = limbs_value(t);
    let v = limbs_value(s);
    assert(v == s[0] + m * r);
    if p < 64 {
        let d = pow2(p);
        let e = pow2((64 - p) as nat);
        lemma_pow2_pos(p);
        lemma_pow2_adds(p, (64 - p) as nat);
        lemma_pow2_adds(1, (63 - p) as nat);
        lemma_fundamental_div_mod(s[0] as int, d as int);
        let q = s[0] as int / d as int;
        let rem = s[0] as int % d as int;
        assert(v == d * (e * r + q) + rem) by (nonlinear_arith)
            requires v == s[0] + m * r, m == d * e, s[0] == d * q + rem;
        lemma_div_multiples_vanish_fancy(e * r + q, rem, d as int);
        let h = pow2((63 - p) as nat);
        assert(e * r + q == 2 * (h * r) + q) by (nonlinear_arith)
            requires e == 2 * h;
        lemma_mod_multiples_vanish((h * r) as int, q, 2);
    } else {
        lemma_pow2_pos((p - 64) as nat);
        lemma_pow2_adds(64, (p - 64) as nat);
        lemma_div_denominator(v as int, m as int, pow2((p - 64) as nat) as int);
        assert(v == m * r + s[0]);
        lemma_div_multiples_vanish_fancy(r as int, s[0] as int, m as int);
        lemma_limbs_bit(t, (p - 64) as nat);
        assert((p - 64) as nat / 64 == p / 64 - 1);
        assert((p - 64) as nat % 64 == p % 64);
    }
}

} // verus!
