//! The deterministic generator.

use trading_simulator::rng::{Rng, UNIT};

#[test]
fn same_seed_reproduces_the_same_stream() {
    let mut a = Rng::seed_from_u64(42);
    let mut b = Rng::seed_from_u64(42);
    for _ in 0..1_000 {
        assert_eq!(a.next_u64(), b.next_u64());
    }
}

#[test]
fn different_seeds_diverge_immediately() {
    let mut a = Rng::seed_from_u64(1);
    let mut b = Rng::seed_from_u64(2);
    assert_ne!(a.next_u64(), b.next_u64());
}

#[test]
fn uniform_int_respects_bounds() {
    let mut rng = Rng::seed_from_u64(11);
    for _ in 0..1_000 {
        let value = rng.uniform_int(-3, 5);
        assert!((-3..=5).contains(&value));
    }
}

#[test]
fn streams_start_with_known_values() {
    let mut rng = Rng::seed_from_u64(42);
    assert_eq!(rng.next_u64(), 0xd076_4d4f_4476_689f);
    assert_eq!(rng.next_u64(), 0x519e_4174_576f_3791);
    assert_eq!(rng.next_u64(), 0xfbe0_7cfb_0c24_ed8c);
    let mut rng = Rng::seed_from_u64(0);
    assert_eq!(rng.next_u64(), 0x5317_5d61_490b_23df);
    let mut rng = Rng::seed_from_u64(11);
    assert_eq!(rng.uniform_int(-3, 5), 4);
    let mut rng = Rng::seed_from_u64(11);
    assert_eq!(rng.next_unit(), 7_744_236_095_884_584);
}

#[test]
fn units_and_chances_stay_in_range() {
    let mut rng = Rng::seed_from_u64(3);
    for _ in 0..1_000 {
        assert!(rng.next_unit() < UNIT);
        assert!(!rng.bernoulli(0));
        assert!(rng.bernoulli(UNIT));
    }
    assert_eq!(rng.uniform_int(7, 7), 7);
}
