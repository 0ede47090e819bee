//! Algebraic laws that relate the operations, stated over their models.
use crate::fermat::{is_prime, lemma_fermat_little};
use crate::residue::{
    canonical_mod, floor_div, in_canonical_range, lemma_canonical_fixed, lemma_canonical_mul,
    lemma_canonical_positive, lemma_canonical_range, lemma_floor_div_unique,
};
use vstd::arithmetic::power::{lemma_pow0, lemma_pow1, lemma_pow_adds, pow};
use vstd::prelude::*;

verus! {

/// Floored division: quotient times divisor plus remainder gives back the
/// dividend, and the remainder is zero or has the divisor's sign, smaller in
/// magnitude than the divisor.
pub proof fn lemma_floor_div_law(a: int, b: int)
    requires
        b != 0,
    ensures
        floor_div(a, b) * b + (a - floor_div(a, b) * b) == a,
        b > 0 ==> 0 <= a - floor_div(a, b) * b < b,
        b < 0 ==> b < a - floor_div(a, b) * b <= 0,
{
    lemma_canonical_range(a, b);
    assert(floor_div(a, b) * b == b * floor_div(a, b)) by (nonlinear_arith);
}

/// Adding zero only reduces, and subtracting a value from itself gives the
/// canonical zero, whatever the sign of the modulus.
pub proof fn lemma_additive_identity_inverse(a: int, m: int)
    requires
        m != 0,
    ensures
        canonical_mod(a + 0, m) == canonical_mod(a, m),
        canonical_mod(a - a, m) == 0,
{
    assert(in_canonical_range(0 - m * 0, m));
    lemma_floor_div_unique(0, 0, m);
}

/// Exponentiation agrees with multiplication: the zeroth power is the
/// residue of one, the first power the residue of the base, and the power
/// of a sum of exponents the product of the two powers.
pub proof fn lemma_pow_consistency(a: int, k1: nat, k2: nat, m: int)
    requires
        m != 0,
    ensures
        canonical_mod(pow(a, 0), m) == canonical_mod(1, m),
        canonical_mod(pow(a, 1), m) == canonical_mod(a, m),
        canonical_mod(pow(a, k1 + k2), m) == canonical_mod(
            canonical_mod(pow(a, k1), m) * canonical_mod(pow(a, k2), m),
            m,
        ),
{
    lemma_pow0(a);
    lemma_pow1(a);
    lemma_pow_adds(a, k1, k2);
    lemma_canonical_mul(pow(a, k1), pow(a, k2), m);
}

/// Fermat's little theorem on residues: modulo a prime `m` that does not
/// divide `a`, `a^(m-1)` reduces to one.
pub proof fn lemma_fermat_residue(a: int, m: int)
    requires
        is_prime(m),
        canonical_mod(a, m) != 0,
    ensures
        canonical_mod(a * pow(a, (m - 2) as nat), m) == 1,
        canonical_mod(1, m) == 1,
{
    lemma_canonical_positive(a, m);
    lemma_fermat_little(m, a);
    reveal(pow);
    assert(pow(a, (m - 1) as nat) == a * pow(a, (m - 2) as nat));
    lemma_canonical_positive(a * pow(a, (m - 2) as nat), m);
    lemma_canonical_fixed(1, m);
}

/// Modulo a prime `m` that does not divide `a`, `a` times its inverse
/// `a^(m-2) mod m` is the residue of one.
pub proof fn lemma_inverse_round_trip(a: int, m: int)
    requires
        is_prime(m),
        canonical_mod(a, m) != 0,
    ensures
        canonical_mod(a * canonical_mod(pow(a, (m - 2) as nat), m), m) == canonical_mod(1, m),
{
    lemma_canonical_mul(a, pow(a, (m - 2) as nat), m);
    lemma_fermat_residue(a, m);
}

/// Modulo a prime `m` that does not divide `b`, dividing `a` by `b` and
/// multiplying back by `b` gives the residue of `a`.
pub proof fn lemma_division_round_trip(a: int, b: int, m: int)
    requires
        is_prime(m),
        canonical_mod(b, m) != 0,
    ensures
        canonical_mod(canonical_mod(a * pow(b, (m - 2) as nat), m) * b, m) == canonical_mod(a, m),
{
    let y = b * pow(b, (m - 2) as nat);
    lemma_canonical_mul(a * pow(b, (m - 2) as nat), b, m);
    assert(a * pow(b, (m - 2) as nat) * b == a * y) by (nonlinear_arith)
        requires
            y == b * pow(b, (m - 2) as nat),
    ;
    lemma_canonical_mul(a, y, m);
    lemma_fermat_residue(b, m);
    assert(a * 1 == a);
}

} // verus!
