//! Modular exponentiation, inverse and division.
use crate::fermat::is_prime;
use crate::laws::{lemma_division_round_trip, lemma_fermat_residue, lemma_inverse_round_trip};
use crate::ops::{lemma_low_bit, mod64, mul64};
use crate::residue::{canonical_mod, lemma_canonical_idempotent, lemma_canonical_mul};
use vstd::arithmetic::power::{
    lemma_pow0, lemma_pow1, lemma_pow_adds, lemma_pow_multiplies, lemma_square_is_pow2, pow,
};
use vstd::prelude::*;

verus! {

/// A power may be taken of the residue instead of the base.
pub proof fn lemma_canonical_pow(x: int, e: nat, m: int)
    requires
        m != 0,
    ensures
        canonical_mod(pow(canonical_mod(x, m), e), m) == canonical_mod(pow(x, e), m),
    decreases e,
{
    reveal(pow);
    if e > 0 {
        let c = canonical_mod(x, m);
        lemma_canonical_pow(x, (e - 1) as nat, m);
        lemma_canonical_mul(c, pow(c, (e - 1) as nat), m);
        lemma_canonical_mul(x, pow(x, (e - 1) as nat), m);
        lemma_canonical_idempotent(x, m);
    }
}

/// One step of square-and-multiply keeps `acc * x^e` in its residue class.
proof fn lemma_square_and_multiply_step(acc: int, x: int, e: nat, m: int, acc2: int, x2: int)
    requires
        m != 0,
        acc2 == (if e % 2 == 1 { canonical_mod(acc * x, m) } else { acc }),
        x2 == canonical_mod(x * x, m),
    ensures
        canonical_mod(acc2 * pow(x2, e / 2), m) == canonical_mod(acc * pow(x, e), m),
{
    let h = e / 2;
    let b = e % 2;
    lemma_pow_adds(x, 2 * h, b);
    lemma_pow_multiplies(x, 2, h);
    lemma_square_is_pow2(x);
    lemma_pow0(x);
    lemma_pow1(x);
    assert(pow(x, b) == (if b == 1 { x } else { 1 }));
    assert(pow(x, e) == pow(x * x, h) * pow(x, b));
    lemma_canonical_mul(acc2, pow(x2, h), m);
    lemma_canonical_pow(x * x, h, m);
    if b == 1 {
        lemma_canonical_idempotent(acc * x, m);
    }
    assert(canonical_mod(acc2, m) == canonical_mod(acc * pow(x, b), m));
    lemma_canonical_mul(acc * pow(x, b), pow(x * x, h), m);
    assert(acc * pow(x, b) * pow(x * x, h) == acc * pow(x, e)) by (nonlinear_arith)
        requires
            pow(x, e) == pow(x * x, h) * pow(x, b),
    ;
}

/// `a^b mod m` by square-and-multiply over the bits of the exponent, which
/// is used as given.
pub fn pow64(a: i64, b: i64, m: i64) -> (r: i64)
    requires
        m != 0,
        b >= 0,
    ensures
        r == canonical_mod(pow(a as int, b as nat), m as int),
{
    let mut x = mod64(a, m);
    let mut e = b;
    let mut res: i64 = 1;
    proof {
        lemma_canonical_pow(a as int, b as nat, m as int);
    }
    while e != 0
        invariant
            m != 0,
            e >= 0,
            canonical_mod(res * pow(x as int, e as nat), m as int) == canonical_mod(
                pow(a as int, b as nat),
                m as int,
            ),
        decreases e,
    {
        proof {
            lemma_low_bit(e);
        }
        let ghost acc = res;
        let ghost x0 = x;
        if (e & 1) != 0 {
            res = mul64(res, x, m);
        }
        x = mul64(x, x, m);
        proof {
            lemma_square_and_multiply_step(acc as int, x0 as int, e as nat, m as int, res as int, x as int);
        }
        e >>= 1;
    }
    proof {
        reveal(pow);
    }
    mod64(res, m)
}

/// The modular inverse by Fermat's little theorem: `a^(m-2) mod m`. It is
/// the inverse of `a` when `m` is prime and does not divide `a`.
pub fn inv64(a: i64, m: i64) -> (r: i64)
    requires
        m >= 2,
    ensures
        r == canonical_mod(pow(a as int, (m - 2) as nat), m as int),
        is_prime(m as int) && canonical_mod(a as int, m as int) != 0 ==> canonical_mod(a * r, m as int)
            == 1,
{
    let r = pow64(a, m - 2, m);
    proof {
        if is_prime(m as int) && canonical_mod(a as int, m as int) != 0 {
            lemma_inverse_round_trip(a as int, m as int);
            lemma_fermat_residue(a as int, m as int);
        }
    }
    r
}

/// Modular division: `a` times the inverse of `b`, modulo a prime `m`.
pub fn div64(a: i64, b: i64, m: i64) -> (r: i64)
    requires
        m >= 2,
    ensures
        r == canonical_mod(a * pow(b as int, (m - 2) as nat), m as int),
        is_prime(m as int) && canonical_mod(b as int, m as int) != 0 ==> canonical_mod(r * b, m as int)
            == canonical_mod(a as int, m as int),
{
    let inv = inv64(b, m);
    proof {
        lemma_canonical_mul(a as int, pow(b as int, (m - 2) as nat), m as int);
        if is_prime(m as int) && canonical_mod(b as int, m as int) != 0 {
            lemma_division_round_trip(a as int, b as int, m as int);
        }
    }
    mul64(a, inv, m)
}

} // verus!
