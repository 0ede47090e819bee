use modarith::gcd::gcd64;
use modarith::ops::{add64, flr64, mod64, mul64, sub64};
use modarith::power::{div64, inv64, pow64};
use modarith::prime::{miller_rabin, ptest};

const MOD: i64 = 0x7fffffffffffffe7;
const A01: i64 = 0x7fffffffffffff5b;
const B01: i64 = 0x7ffffffffffffefd;

#[test]
fn floor_division_rounds_down() {
    assert_eq!(flr64(7, 2), 3);
    assert_eq!(flr64(-7, 2), -4);
    assert_eq!(flr64(7, -2), -4);
    assert_eq!(flr64(-7, -2), 3);
    assert_eq!(flr64(-8, 2), -4);
    assert_eq!(flr64(i64::MIN, 1), i64::MIN);
    assert_eq!(flr64(i64::MIN, 2), -(1i64 << 62));
    assert_eq!(flr64(i64::MAX, -1), -i64::MAX);
    assert_eq!(flr64(i64::MIN, i64::MAX), -2);
}

#[test]
fn floor_division_remainder_takes_divisor_sign() {
    let cases: [(i64, i64); 6] = [(7, 2), (-7, 2), (7, -2), (-7, -2), (A01, -MOD), (-B01, 3)];
    for (a, b) in cases {
        let q = flr64(a, b) as i128;
        let r = a as i128 - q * b as i128;
        assert_eq!(q * b as i128 + r, a as i128);
        if b > 0 {
            assert!(0 <= r && r < b as i128);
        } else {
            assert!((b as i128) < r && r <= 0);
        }
    }
}

#[test]
fn canonical_residue_stays_in_range() {
    let values: [i64; 7] = [0, 1, -1, 17, -17, i64::MAX, i64::MIN];
    let moduli: [i64; 6] = [1, -1, 5, -5, i64::MAX, i64::MIN];
    for a in values {
        for m in moduli {
            let r = mod64(a, m);
            if m > 0 {
                assert!(0 <= r && r < m);
            } else {
                assert!(m < r && r <= 0);
            }
            assert_eq!((a as i128 - r as i128) % (m as i128), 0);
        }
    }
}

#[test]
fn canonical_residue_of_multiples_is_zero() {
    assert_eq!(mod64(0, -5), 0);
    assert_eq!(mod64(-10, 5), 0);
    assert_eq!(mod64(10, -5), 0);
    assert_eq!(mod64(i64::MIN, -1), 0);
    assert_eq!(mod64(i64::MIN, i64::MIN), 0);
    assert_eq!(mod64(i64::MAX, i64::MIN), -1);
}

#[test]
fn adding_zero_and_subtracting_self() {
    let moduli: [i64; 4] = [7, -7, MOD, i64::MIN];
    for m in moduli {
        for a in [0, 5, -5, A01, -B01, i64::MIN] {
            assert_eq!(add64(a, 0, m), mod64(a, m));
            assert_eq!(sub64(a, a, m), 0);
        }
    }
}

#[test]
fn sum_equal_to_negative_modulus_is_zero() {
    assert_eq!(add64(-2, -3, -5), 0);
    assert_eq!(add64(2, 3, 5), 0);
    assert_eq!(sub64(i64::MIN, 1, i64::MIN), -1);
}

#[test]
fn product_matches_native_multiplication() {
    for a in [-1000i64, -37, 0, 1, 42, 999] {
        for b in [-77i64, -1, 0, 3, 500] {
            for m in [2i64, 97, -97, 1, -1, 1_000_003] {
                let expected = (a as i128 * b as i128).rem_euclid(m.abs() as i128);
                let expected = if m < 0 && expected != 0 { expected - m.abs() as i128 } else { expected };
                assert_eq!(mul64(a, b, m) as i128, expected);
            }
        }
    }
}

#[test]
fn product_near_the_boundary() {
    assert_eq!(mul64(A01, B01, MOD), 32760);
    assert_eq!(mul64(i64::MAX, i64::MAX, i64::MIN), i64::MIN + 1);
    assert_eq!(mul64(MOD - 1, MOD - 1, MOD), 1);
}

#[test]
fn power_laws() {
    for m in [MOD, 97, -97, 1] {
        for a in [A01, -3, 10] {
            assert_eq!(pow64(a, 0, m), mod64(1, m));
            assert_eq!(pow64(a, 1, m), mod64(a, m));
            for (k1, k2) in [(3i64, 4i64), (0, 9), (123456789, 987654321)] {
                assert_eq!(pow64(a, k1 + k2, m), mul64(pow64(a, k1, m), pow64(a, k2, m), m));
            }
        }
    }
}

#[test]
fn power_exact_values() {
    assert_eq!(pow64(2, 10, 1_000_007), 1024);
    assert_eq!(pow64(3, 5, -7), -2);
    assert_eq!(pow64(-2, 3, 11), 3);
    assert_eq!(pow64(A01, MOD - 1, MOD), 1);
}

#[test]
fn inverse_round_trip() {
    for m in [MOD, A01, B01, 97] {
        for a in [A01, B01, 2, -5, 12345] {
            if mod64(a, m) != 0 {
                assert_eq!(mul64(a, inv64(a, m), m), 1);
            }
        }
    }
    assert_eq!(inv64(3, 7), 5);
}

#[test]
fn division_round_trip() {
    assert_eq!(mul64(867154635943611399, B01, MOD), mod64(A01, MOD));
    for m in [MOD, A01, 97] {
        for a in [A01, -B01, 7] {
            for b in [B01, 3, -11] {
                if mod64(b, m) != 0 {
                    assert_eq!(mul64(div64(a, b, m), b, m), mod64(a, m));
                }
            }
        }
    }
}

#[test]
fn gcd_signs_and_edges() {
    assert_eq!(gcd64(12, 18), 6);
    assert_eq!(gcd64(0, 5), 5);
    assert_eq!(gcd64(17, 1), 1);
    assert_eq!(gcd64(-12, 18).abs(), 6);
    assert_eq!(gcd64(i64::MIN, -1), -1);
    assert_eq!(gcd64(-1, i64::MIN).abs(), 1);
    assert_eq!(gcd64(i64::MIN, i64::MIN), i64::MIN);
}

#[test]
fn witness_rejects_and_accepts() {
    assert!(miller_rabin(97, 2));
    assert!(miller_rabin(2, 5));
    assert!(!miller_rabin(221, 137));
    assert!(miller_rabin(221, 174));
    assert!(!miller_rabin(10, 3));
}

#[test]
fn primality_boundary() {
    for n in [i64::MIN, -7, -1, 0, 1] {
        assert!(!ptest(n));
    }
    assert!(ptest(2));
    assert!(ptest(3));
    assert!(!ptest(4));
    assert!(ptest(37));
    assert!(ptest(41));
    assert!(!ptest(3215031751));
}

#[test]
fn primality_matches_trial_division() {
    let limit: i64 = 1_000_000;
    for n in 0..limit {
        let mut prime = n >= 2;
        let mut d: i64 = 2;
        while d * d <= n {
            if n % d == 0 {
                prime = false;
                break;
            }
            d += 1;
        }
        assert_eq!(ptest(n), prime, "n = {}", n);
    }
}

#[test]
fn literal_scenarios() {
    assert_eq!(mod64(MOD, A01), 140);
    assert_eq!(add64(A01, B01, MOD), 9223372036854775409);
    assert_eq!(mul64(A01, B01, MOD), 32760);
    assert_eq!(div64(A01, B01, MOD), 867154635943611399);
    assert!(ptest(MOD));
    assert!(!ptest(MOD - 1));
    assert!(ptest(A01));
    assert!(!ptest(A01 - 1));
}
