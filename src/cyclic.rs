//! The cyclic group of integers modulo `2^64`, a small concrete instance of
//! [`AddGroup`] whose arithmetic is easy to check by hand.
use vstd::prelude::*;
use crate::group::AddGroup;

verus! {

/// An element of the integers modulo `2^64`, under addition.
#[derive(Clone, Copy, Debug, PartialEq, Eq, Structural)]
pub struct CyclicU64 {
    pub value: u64,
}

impl CyclicU64 {
    pub fn new(value: u64) -> (r: CyclicU64)
        ensures
            r.value == value,
    {
        CyclicU64 { value }
    }
}

impl AddGroup for CyclicU64 {
    open spec fn sum(a: Self, b: Self) -> Self {
        CyclicU64 { value: ((a.value as int + b.value as int) % 0x1_0000_0000_0000_0000) as u64 }
    }

    open spec fn ident() -> Self {
        CyclicU64 { value: 0 }
    }

    proof fn lemma_sum_assoc(a: Self, b: Self, c: Self) {
        let m: int = 0x1_0000_0000_0000_0000;
        let (x, y, z) = (a.value as int, b.value as int, c.value as int);
        assert(((x + y) % m + z) % m == (x + (y + z) % m) % m) by {
            vstd::arithmetic::div_mod::lemma_add_mod_noop(x + y, z, m);
            vstd::arithmetic::div_mod::lemma_add_mod_noop(x, y + z, m);
            vstd::arithmetic::div_mod::lemma_small_mod(z as nat, m as nat);
            vstd::arithmetic::div_mod::lemma_small_mod(x as nat, m as nat);
        }
    }

    proof fn lemma_sum_comm(a: Self, b: Self) {
    }

    proof fn lemma_sum_ident(a: Self) {
    }

    fn zero() -> (r: Self) {
        CyclicU64 { value: 0 }
    }

    fn add(&self, other: &Self) -> (r: Self) {
        CyclicU64 { value: self.value.wrapping_add(other.value) }
    }

    fn double(&self) -> (r: Self) {
        CyclicU64 { value: self.value.wrapping_add(self.value) }
    }

    fn duplicate(&self) -> (r: Self) {
        *self
    }
}

} // verus!
