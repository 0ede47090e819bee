use modarith::gcd::gcd64;
use modarith::ops::{add64, flr64, mod64, mul64, sub64};
use modarith::power::div64;
use modarith::prime::ptest;

const MOD: i64 = 0x7fffffffffffffe7;
const A01: i64 = 0x7fffffffffffff5b;
const B01: i64 = 0x7ffffffffffffefd;

#[test]
fn test_flr64() {
    assert_eq!(flr64(MOD, A01), 1, "Error");
    assert_eq!(flr64(A01, B01), 1, "Error");
    assert_eq!(flr64(B01, MOD), 0, "Error");
    assert_eq!(flr64(-MOD, A01), -2, "Error");
    assert_eq!(flr64(-A01, B01), -2, "Error");
    assert_eq!(flr64(-B01, MOD), -1, "Error");
    assert_eq!(flr64(MOD, -A01), -2, "Error");
    assert_eq!(flr64(A01, -B01), -2, "Error");
    assert_eq!(flr64(B01, -MOD), -1, "Error");
}

#[test]
fn test_mod64() {
    assert_eq!(mod64(10, 3), 1, "Error");
    assert_eq!(mod64(15, 7), 1, "Error");
    assert_eq!(mod64(-8, 5), 2, "Error");
    assert_eq!(mod64(-11, 4), 1, "Error");
    assert_eq!(mod64(20, -6), -4, "Error");
    assert_eq!(mod64(MOD, A01), 140, "Error");
    assert_eq!(mod64(A01, -MOD), -140, "Error");
    assert_eq!(mod64(-A01, MOD), 140, "Error");
    assert_eq!(mod64(-MOD, -A01), -140, "Error");
    assert_eq!(mod64(MOD, B01), 234, "Error");
    assert_eq!(mod64(B01, -MOD), -234, "Error");
    assert_eq!(mod64(-B01, MOD), 234, "Error");
    assert_eq!(mod64(-MOD, -B01), -234, "Error");
    assert_eq!(mod64(-A01, B01), 9223372036854775455, "Error");
}

#[test]
fn test_add64() {
    assert_eq!(add64(A01, B01, MOD), 9223372036854775409, "Error");
    assert_eq!(add64(-A01, -B01, -MOD), -9223372036854775409, "Error");
    assert_eq!(add64(-A01, -B01, MOD), 374, "Error");
    assert_eq!(add64(A01, -B01, -MOD), -9223372036854775689, "Error");
    assert_eq!(add64(-A01, B01, -MOD), -94, "Error");
    assert_eq!(add64(MOD, B01, A01), 46, "Error");
    assert_eq!(add64(MOD, -B01, A01), 234, "Error");
    assert_eq!(add64(MOD, A01, B01), 328, "Error");
    assert_eq!(add64(-A01, B01, -MOD), -94, "Error");
    assert_eq!(add64(A01, -B01, MOD), 94, "Error");
    assert_eq!(add64(MOD, -A01, B01), 140, "Error");
}

#[test]
fn test_sub64() {
    assert_eq!(sub64(A01, B01, MOD), 94, "Error");
    assert_eq!(sub64(B01, A01, MOD), 9223372036854775689, "Error");
    assert_eq!(sub64(MOD, A01, B01), 140, "Error");
    assert_eq!(sub64(MOD, B01, A01), 234, "Error");
}

#[test]
fn test_mul64() {
    assert_eq!(mul64(0, 0, MOD), 0, "Error");
    assert_eq!(mul64(A01, B01, MOD), 32760, "Error");
    assert_eq!(mul64(-A01, B01, MOD), 9223372036854743023, "Error");
    assert_eq!(mul64(A01, -B01, MOD), 9223372036854743023, "Error");
    assert_eq!(mul64(A01, B01, MOD), 32760, "Error");
    assert_eq!(mul64(A01, B01, -MOD), -9223372036854743023, "Error");
    assert_eq!(mul64(-A01, -B01, -MOD), -9223372036854743023, "Error");
}

#[test]
fn test_gcd64() {
    assert_eq!(gcd64(A01, B01), 1, "Error");
    assert_eq!(gcd64(A01, MOD), 1, "Error");
    assert_eq!(gcd64(B01, MOD), 1, "Error");
    assert_eq!(gcd64(114514, 1919810), 2, "Error");
}

#[test]
fn test_div64() {
    assert_eq!(div64(A01, B01, MOD), 867154635943611399, "Error");
    assert_eq!(div64(B01, A01, MOD), 1449387034362893339, "Error");
    assert_eq!(div64(MOD, B01, A01), 8830888120392870295, "Error");
    assert_eq!(div64(MOD, A01, B01), 392483916461905345, "Error");
    assert_eq!(div64(-A01, B01, MOD), 8356217400911164384, "Error");
    assert_eq!(div64(-B01, A01, MOD), 7773985002491882444, "Error");
    assert_eq!(div64(-MOD, B01, A01), 392483916461905348, "Error");
    assert_eq!(div64(-MOD, A01, B01), 8830888120392870204, "Error");
}

#[test]
fn test_ptest() {
    assert!(ptest(2), "Error");
    assert!(ptest(A01), "Error");
    assert!(!ptest(A01 - 1), "Error");
    assert!(ptest(B01), "Error");
    assert!(!ptest(B01 - 1), "Error");
    assert!(ptest(MOD), "Error");
    assert!(!ptest(MOD - 1), "Error");
}
