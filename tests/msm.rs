use wlc_msm_bal::cyclic::CyclicU64;
use wlc_msm_bal::group::AddGroup;
use wlc_msm_bal::msm::{
    bucket_window_sum, combine_windows, multi_scalar_mul_with_window, window_starts, MsmError,
    VariableBaseMSM2, SCALAR_BITS, WINDOW_BITS,
};
use wlc_msm_bal::reference::{naive_multi_scalar_mul, scalar_mul};
use wlc_msm_bal::scalar::Scalar;

fn pts(values: &[u64]) -> Vec<CyclicU64> {
    values.iter().map(|v| CyclicU64::new(*v)).collect()
}

fn scs(values: &[u64]) -> Vec<Scalar> {
    values.iter().map(|v| Scalar::from_u64(*v)).collect()
}

/// Deterministic pseudo-random generator (xorshift64*), seeded per test.
struct Rng(u64);

impl Rng {
    fn next(&mut self) -> u64 {
        self.0 ^= self.0 >> 12;
        self.0 ^= self.0 << 25;
        self.0 ^= self.0 >> 27;
        self.0.wrapping_mul(0x2545_F491_4F6C_DD1D)
    }

    /// A scalar below 2^255.
    fn scalar(&mut self) -> Scalar {
        Scalar::from_limbs([self.next(), self.next(), self.next(), self.next() >> 1])
    }
}

/// Σ scalar · base in the integers modulo 2^64: only the lowest limb matters.
fn expected(bases: &[CyclicU64], scalars: &[Scalar]) -> u64 {
    bases
        .iter()
        .zip(scalars.iter())
        .fold(0u64, |acc, (b, s)| acc.wrapping_add(b.value.wrapping_mul(s.limbs[0])))
}

#[test]
fn concrete_scenario_two_zero_five() {
    let bases = pts(&[7, 11, 13]);
    let scalars = scs(&[2, 0, 5]);
    let wide = multi_scalar_mul_with_window(&bases, &scalars, 21).unwrap();
    let narrow = multi_scalar_mul_with_window(&bases, &scalars, 1).unwrap();
    assert_eq!(wide.value, 2 * 7 + 5 * 13);
    assert_eq!(narrow, wide);
    assert_eq!(VariableBaseMSM2::multi_scalar_mul(&bases, &scalars), wide);
}

#[test]
fn matches_naive_reference_on_random_inputs() {
    let mut rng = Rng(0x1234_5678_9abc_def1);
    let bases: Vec<CyclicU64> = (0..200).map(|_| CyclicU64::new(rng.next())).collect();
    let scalars: Vec<Scalar> = (0..200).map(|_| rng.scalar()).collect();
    let naive = naive_multi_scalar_mul(&bases, &scalars);
    assert_eq!(naive.value, expected(&bases, &scalars));
    assert_eq!(VariableBaseMSM2::multi_scalar_mul(&bases, &scalars), naive);
}

#[test]
fn every_window_width_gives_the_same_result() {
    let mut rng = Rng(42);
    let bases: Vec<CyclicU64> = (0..40).map(|_| CyclicU64::new(rng.next())).collect();
    let scalars: Vec<Scalar> = (0..40).map(|_| rng.scalar()).collect();
    let want = expected(&bases, &scalars);
    for c in 1..=24usize {
        let r = multi_scalar_mul_with_window(&bases, &scalars, c).unwrap();
        assert_eq!(r.value, want, "window width {}", c);
    }
}

#[test]
fn zero_scalar_removes_its_base() {
    let bases = pts(&[3, 5, 9, 17]);
    let scalars = scs(&[4, 6, 8, 10]);
    let full = VariableBaseMSM2::multi_scalar_mul(&bases, &scalars);
    let mut zeroed = scalars.clone();
    zeroed[2] = Scalar::zero();
    let without = VariableBaseMSM2::multi_scalar_mul(&bases, &zeroed);
    assert_eq!(full.value, 12 + 30 + 72 + 170);
    assert_eq!(without.value, full.value - 72);
}

#[test]
fn zero_tail_changes_nothing() {
    let bases = pts(&[3, 5, 9, 17]);
    let scalars = scs(&[4, 6, 0, 0]);
    let r = VariableBaseMSM2::multi_scalar_mul(&bases, &scalars);
    let prefix = VariableBaseMSM2::multi_scalar_mul(&bases[..2].to_vec(), &scalars[..2].to_vec());
    assert_eq!(r, prefix);
    assert_eq!(r.value, 42);
}

#[test]
fn unit_scalar_added_once() {
    let bases = pts(&[1000]);
    let scalars = vec![Scalar::one()];
    for c in [1usize, 2, 7, 21, 24] {
        let r = multi_scalar_mul_with_window(&bases, &scalars, c).unwrap();
        assert_eq!(r.value, 1000, "window width {}", c);
    }
    let bases = pts(&[1000, 1, 10]);
    let scalars = scs(&[1, 1, 3]);
    assert_eq!(VariableBaseMSM2::multi_scalar_mul(&bases, &scalars).value, 1031);
}

#[test]
fn all_zero_scalars_give_identity() {
    for len in [1usize, 2, 17, 300] {
        let bases: Vec<CyclicU64> = (0..len as u64).map(|v| CyclicU64::new(v * 31 + 7)).collect();
        let scalars = vec![Scalar::zero(); len];
        assert_eq!(VariableBaseMSM2::multi_scalar_mul(&bases, &scalars).value, 0);
        assert_eq!(multi_scalar_mul_with_window(&bases, &scalars, 3).unwrap().value, 0);
    }
}

#[test]
fn empty_input_gives_identity() {
    let bases: Vec<CyclicU64> = Vec::new();
    let scalars: Vec<Scalar> = Vec::new();
    assert_eq!(VariableBaseMSM2::multi_scalar_mul(&bases, &scalars), CyclicU64::new(0));
}

#[test]
fn mismatched_lengths_are_truncated() {
    let bases = pts(&[2, 3, 5]);
    let scalars = scs(&[10, 100]);
    assert_eq!(VariableBaseMSM2::multi_scalar_mul(&bases, &scalars).value, 320);
    let bases = pts(&[2]);
    let scalars = scs(&[10, 100, 1000]);
    assert_eq!(VariableBaseMSM2::multi_scalar_mul(&bases, &scalars).value, 20);
}

#[test]
fn invalid_window_width_is_refused() {
    let bases = pts(&[2]);
    let scalars = scs(&[3]);
    assert_eq!(multi_scalar_mul_with_window(&bases, &scalars, 0), Err(MsmError::InvalidWindow));
    assert_eq!(multi_scalar_mul_with_window(&bases, &scalars, 64), Err(MsmError::InvalidWindow));
    assert_eq!(multi_scalar_mul_with_window(&bases, &scalars, usize::MAX), Err(MsmError::InvalidWindow));
    assert_eq!(multi_scalar_mul_with_window(&bases, &scalars, 25).unwrap().value, 6);
}

#[test]
fn default_width_covers_every_scalar_bit() {
    let bases = pts(&[7, 9]);
    let scalars = vec![
        Scalar::from_limbs([5, 0, 0, 0x8000_0000_0000_0000]),
        Scalar::from_limbs([u64::MAX, u64::MAX, u64::MAX, u64::MAX]),
    ];
    let r = VariableBaseMSM2::multi_scalar_mul(&bases, &scalars);
    assert_eq!(r.value, 35u64.wrapping_add(9u64.wrapping_mul(u64::MAX)));
    assert_eq!(r, naive_multi_scalar_mul(&bases, &scalars));
}

#[test]
fn window_starts_partition_the_scalar_bits() {
    let starts = window_starts(SCALAR_BITS, WINDOW_BITS).unwrap();
    assert_eq!(starts, (0..13).map(|t| t * 21).collect::<Vec<usize>>());
    assert_eq!(window_starts(255, 1).unwrap().len(), 255);
    assert_eq!(window_starts(10, 5).unwrap(), vec![0, 5]);
    assert_eq!(window_starts(11, 5).unwrap(), vec![0, 5, 10]);
    assert_eq!(window_starts(0, 5).unwrap(), Vec::<usize>::new());
    assert_eq!(window_starts(255, 0), Err(MsmError::InvalidWindow));
}

#[test]
fn scalar_window_extracts_bits() {
    let s = Scalar::from_u64(0b1011_0110);
    assert_eq!(s.window(0, 4), 0b0110);
    assert_eq!(s.window(4, 4), 0b1011);
    assert_eq!(s.window(2, 3), 0b101);
    assert_eq!(s.window(8, 21), 0);
    // a window that straddles two limbs
    let t = Scalar::from_limbs([0x8000_0000_0000_0000, 1, 0, 0]);
    assert_eq!(t.window(63, 2), 3);
    assert_eq!(t.window(62, 4), 0b0110);
    let top = Scalar::from_limbs([0, 0, 0, 0xC000_0000_0000_0000]);
    assert_eq!(top.window(252, 21), 0b1100);
    assert_eq!(top.window(300, 5), 0);
}

#[test]
fn scalar_identities() {
    assert!(Scalar::zero().is_zero());
    assert!(!Scalar::zero().is_one());
    assert!(Scalar::one().is_one());
    assert!(!Scalar::from_limbs([1, 0, 1, 0]).is_one());
    assert!(!Scalar::from_limbs([0, 0, 0, 1]).is_zero());
}

#[test]
fn bucket_window_sum_of_one_window() {
    let bases = pts(&[1, 10, 100]);
    let scalars = scs(&[3, 5, 1]);
    // low two bits: 3, 1, and the unit scalar
    assert_eq!(bucket_window_sum(&bases, &scalars, 0, 2).value, 3 + 10 + 100);
    // bits 2..4: 0, 1; the unit scalar is not counted again
    assert_eq!(bucket_window_sum(&bases, &scalars, 2, 2).value, 10);
}

#[test]
fn combine_windows_weights_each_window() {
    let sums = pts(&[1, 2, 3]);
    // 1 + 2·2^4 + 3·2^8
    assert_eq!(combine_windows(&sums, 4).value, 1 + 32 + 768);
    assert_eq!(combine_windows(&pts(&[9]), 4).value, 9);
}

#[test]
fn scalar_mul_by_double_and_add() {
    let p = CyclicU64::new(3);
    assert_eq!(scalar_mul(&p, &Scalar::from_u64(14)).value, 42);
    assert_eq!(scalar_mul(&p, &Scalar::zero()).value, 0);
    // 2^64 · p vanishes modulo 2^64
    assert_eq!(scalar_mul(&p, &Scalar::from_limbs([0, 1, 0, 0])).value, 0);
}

#[test]
fn cyclic_group_wraps() {
    let a = CyclicU64::new(u64::MAX);
    assert_eq!(a.add(&CyclicU64::new(2)).value, 1);
    assert_eq!(a.double().value, u64::MAX - 1);
    assert_eq!(CyclicU64::zero().value, 0);
}

#[test]
fn scale_scenario_many_points() {
    let n = 1usize << 19;
    let mut rng = Rng(0x5eed);
    let bases: Vec<CyclicU64> = (0..n).map(|_| CyclicU64::new(rng.next())).collect();
    let scalars: Vec<Scalar> = (0..n).map(|_| rng.scalar()).collect();
    let r = multi_scalar_mul_with_window(&bases, &scalars, 21).unwrap();
    assert_eq!(r.value, expected(&bases, &scalars));
}
