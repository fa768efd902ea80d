use aoc::error::ConfigError;
use aoc::generators::{compare_low_bits, run_judge, Generator};

const GEN_MODULO: u64 = 2_147_483_647;
const GEN_FACTOR_A: u64 = 16807;
const GEN_FACTOR_B: u64 = 48271;
const GEN_ACCEPT_A: u64 = 4;
const GEN_ACCEPT_B: u64 = 8;

fn first_pairs(mut a: Generator, mut b: Generator, n: usize) -> Vec<(u64, u64)> {
    let mut pairs = Vec::new();
    for _ in 0..n {
        pairs.push((a.next_value().unwrap(), b.next_value().unwrap()));
    }
    pairs
}

#[test]
fn test_generators() {
    let a = Generator::new(GEN_MODULO, GEN_FACTOR_A, 65).unwrap();
    let b = Generator::new(GEN_MODULO, GEN_FACTOR_B, 8921).unwrap();
    let expects = vec![
        (1092455, 430625591),
        (1181022009, 1233683848),
        (245556042, 1431495498),
        (1744312007, 137874439),
        (1352636452, 285222916),
    ];
    assert_eq!(first_pairs(a, b, 5), expects);
}

#[test]
fn test_accepting_generators() {
    let a = Generator::with_accept(GEN_MODULO, GEN_FACTOR_A, 65, GEN_ACCEPT_A).unwrap();
    let b = Generator::with_accept(GEN_MODULO, GEN_FACTOR_B, 8921, GEN_ACCEPT_B).unwrap();
    let expects = vec![
        (1352636452, 1233683848),
        (1992081072, 862516352),
        (530830436, 1159784568),
        (1980017072, 1616057672),
        (740335192, 412269392),
    ];
    assert_eq!(first_pairs(a, b, 5), expects);
}

#[test]
fn test_accepting_judgement() {
    let mut a = Generator::with_accept(GEN_MODULO, GEN_FACTOR_A, 65, GEN_ACCEPT_A).unwrap();
    let mut b = Generator::with_accept(GEN_MODULO, GEN_FACTOR_B, 8921, GEN_ACCEPT_B).unwrap();
    let mut index = 0;
    let found = loop {
        let pair = (a.next_value().unwrap(), b.next_value().unwrap());
        if compare_low_bits(pair.0, pair.1) {
            break (index, pair);
        }
        index += 1;
    };
    assert_eq!(found, (1055, (1023762912, 896885216)));
}

#[test]
fn test_accepting_count() {
    let a = Generator::with_accept(GEN_MODULO, GEN_FACTOR_A, 65, GEN_ACCEPT_A).unwrap();
    let b = Generator::with_accept(GEN_MODULO, GEN_FACTOR_B, 8921, GEN_ACCEPT_B).unwrap();
    assert_eq!(run_judge(a, b, 5_000_000), Some(309));
}

#[test]
fn judge_counts_unfiltered_pairs() {
    let a = Generator::new(GEN_MODULO, GEN_FACTOR_A, 65).unwrap();
    let b = Generator::new(GEN_MODULO, GEN_FACTOR_B, 8921).unwrap();
    assert_eq!(run_judge(a, b, 40_000_000), Some(588));
}

#[test]
fn judge_finds_one_match_in_first_five_pairs() {
    let a = Generator::new(GEN_MODULO, GEN_FACTOR_A, 65).unwrap();
    let b = Generator::new(GEN_MODULO, GEN_FACTOR_B, 8921).unwrap();
    assert_eq!(run_judge(a, b, 5), Some(1));
    let a = Generator::new(GEN_MODULO, GEN_FACTOR_A, 65).unwrap();
    let b = Generator::new(GEN_MODULO, GEN_FACTOR_B, 8921).unwrap();
    assert_eq!(run_judge(a, b, 2), Some(0));
    let a = Generator::new(GEN_MODULO, GEN_FACTOR_A, 65).unwrap();
    let b = Generator::new(GEN_MODULO, GEN_FACTOR_B, 8921).unwrap();
    assert_eq!(run_judge(a, b, 0), Some(0));
}

#[test]
fn judge_is_deterministic() {
    let run = || {
        let a = Generator::with_accept(GEN_MODULO, GEN_FACTOR_A, 65, GEN_ACCEPT_A).unwrap();
        let b = Generator::with_accept(GEN_MODULO, GEN_FACTOR_B, 8921, GEN_ACCEPT_B).unwrap();
        run_judge(a, b, 2000)
    };
    assert_eq!(run(), run());
    assert_eq!(run(), Some(1));
}

#[test]
fn low_bits_compare_only_sixteen_bits() {
    assert!(compare_low_bits(245556042, 1431495498));
    assert!(!compare_low_bits(1092455, 430625591));
    assert!(compare_low_bits(0x1_0000, 0));
    assert!(compare_low_bits(0xffff_ffff_0000_1234, 0x1234));
    assert!(!compare_low_bits(0x8000, 0));
    assert!(!compare_low_bits(1, 2));
}

#[test]
fn zero_modulus_is_rejected() {
    assert!(matches!(Generator::new(0, 16807, 65), Err(ConfigError::ZeroModulus)));
    assert!(matches!(
        Generator::with_accept(0, 16807, 65, 0),
        Err(ConfigError::ZeroModulus)
    ));
}

#[test]
fn zero_accept_divisor_is_rejected() {
    assert!(matches!(
        Generator::with_accept(GEN_MODULO, GEN_FACTOR_A, 65, 0),
        Err(ConfigError::ZeroAcceptDivisor)
    ));
}

#[test]
fn generator_that_never_accepts_reports_exhaustion() {
    // The states of 1 * 1 mod 3 stay at 1, which is never even.
    let mut stuck = Generator::with_accept(3, 1, 1, 2).unwrap();
    assert_eq!(stuck.next_value(), None);
    let a = Generator::with_accept(3, 1, 1, 2).unwrap();
    let b = Generator::new(GEN_MODULO, GEN_FACTOR_B, 8921).unwrap();
    assert_eq!(run_judge(a, b, 1), None);
}

#[test]
fn large_operands_do_not_overflow() {
    let modulus = u64::MAX;
    let mut g = Generator::new(modulus, u64::MAX - 1, u64::MAX - 2).unwrap();
    // (m - 2) * (m - 1) mod m == 2
    assert_eq!(g.next_value(), Some(2));
    // 2 * (m - 1) mod m == m - 2
    assert_eq!(g.next_value(), Some(u64::MAX - 2));
}

#[test]
fn seed_is_reduced_before_the_first_step() {
    let mut plain = Generator::new(7, 3, 5).unwrap();
    let mut large = Generator::new(7, 3, 5 + 7 * 1000).unwrap();
    for _ in 0..10 {
        assert_eq!(plain.next_value(), large.next_value());
    }
    let mut g = Generator::new(7, 3, 5).unwrap();
    assert_eq!(g.next_value(), Some(1));
    assert_eq!(g.next_value(), Some(3));
}
