//! The mathematical model: floored division and the canonical residue,
//! with the facts about them that the executable code relies on.
use vstd::arithmetic::div_mod::lemma_fundamental_div_mod;
use vstd::arithmetic::div_mod::lemma_fundamental_div_mod_converse;
use vstd::arithmetic::div_mod::lemma_mod_bound;
use vstd::prelude::*;

verus! {

/// `floor(a / b)`, the quotient rounded toward negative infinity.
pub open spec fn floor_div(a: int, b: int) -> int {
    if b > 0 {
        a / b
    } else {
        (-a) / (-b)
    }
}

/// The canonical residue of `a` modulo `m`: `a - m * floor(a / m)`.
pub open spec fn canonical_mod(a: int, m: int) -> int {
    a - m * floor_div(a, m)
}

/// `r` lies in the canonical range of `m`: `[0, m)` for a positive
/// modulus, `(m, 0]` for a negative one.
pub open spec fn in_canonical_range(r: int, m: int) -> bool {
    if m > 0 {
        0 <= r < m
    } else {
        m < r <= 0
    }
}

/// The canonical residue lies in the canonical range.
pub proof fn lemma_canonical_range(a: int, m: int)
    requires
        m != 0,
    ensures
        in_canonical_range(canonical_mod(a, m), m),
{
    if m > 0 {
        lemma_fundamental_div_mod(a, m);
        lemma_mod_bound(a, m);
    } else {
        lemma_fundamental_div_mod(-a, -m);
        lemma_mod_bound(-a, -m);
        assert(m * ((-a) / (-m)) == -((-m) * ((-a) / (-m)))) by (nonlinear_arith);
    }
}

/// A quotient that leaves a remainder in the canonical range is the floored
/// quotient.
pub proof fn lemma_floor_div_unique(a: int, q: int, m: int)
    requires
        m != 0,
        in_canonical_range(a - m * q, m),
    ensures
        floor_div(a, m) == q,
        canonical_mod(a, m) == a - m * q,
{
    if m > 0 {
        assert(a == q * m + (a - m * q)) by (nonlinear_arith);
        lemma_fundamental_div_mod_converse(a, m, q, a - m * q);
    } else {
        assert(-a == q * (-m) + (-(a - m * q))) by (nonlinear_arith);
        lemma_fundamental_div_mod_converse(-a, -m, q, -(a - m * q));
    }
}

/// Adding a multiple of the modulus leaves the residue unchanged.
pub proof fn lemma_canonical_shift(a: int, k: int, m: int)
    requires
        m != 0,
    ensures
        canonical_mod(a + m * k, m) == canonical_mod(a, m),
{
    lemma_canonical_range(a, m);
    let q = floor_div(a, m);
    assert(a + m * k - m * (q + k) == a - m * q) by (nonlinear_arith);
    lemma_floor_div_unique(a + m * k, q + k, m);
}

/// Rust's truncating quotient: rounded toward zero.
pub open spec fn trunc_div(a: int, b: int) -> int {
    if a >= 0 && b > 0 {
        a / b
    } else if a < 0 && b < 0 {
        (-a) / (-b)
    } else if a < 0 {
        -((-a) / b)
    } else {
        -(a / (-b))
    }
}

/// Rust's truncating remainder: it takes the sign of the dividend.
pub open spec fn trunc_rem(a: int, b: int) -> int {
    if a >= 0 {
        a % b
    } else {
        -((-a) % b)
    }
}

/// The truncating quotient and remainder rebuild the dividend, and the
/// remainder is smaller than the divisor and carries the dividend's sign.
pub proof fn lemma_trunc_div_rem(a: int, b: int)
    requires
        b != 0,
    ensures
        a == b * trunc_div(a, b) + trunc_rem(a, b),
        a >= 0 ==> 0 <= trunc_rem(a, b) < (if b > 0 { b } else { -b }),
        a < 0 ==> -(if b > 0 { b } else { -b }) < trunc_rem(a, b) <= 0,
        (if b > 0 { b } else { -b }) * (if trunc_div(a, b) >= 0 { trunc_div(a, b) } else { -trunc_div(a, b) })
            <= (if a >= 0 { a } else { -a }),
        (a >= 0) == (b > 0) ==> trunc_div(a, b) >= 0,
        (a >= 0) != (b > 0) ==> trunc_div(a, b) <= 0,
{
    let y = if a >= 0 { a } else { -a };
    let c = if b > 0 { b } else { -b };
    lemma_fundamental_div_mod(y, c);
    lemma_mod_bound(y, c);
    assert(y % b == y % c) by {
        if b < 0 {
            lemma_fundamental_div_mod(y, b);
            assert(y == c * (-(y / b)) + y % b) by (nonlinear_arith)
                requires
                    y == b * (y / b) + y % b,
                    c == -b,
            ;
            lemma_fundamental_div_mod_converse(y, c, -(y / b), y % b);
        }
    }
    let q = y / c;
    vstd::arithmetic::div_mod::lemma_div_pos_is_pos(y, c);
    assert(trunc_div(a, b) == (if (a >= 0) == (b > 0) { q } else { -q }));
    assert(trunc_rem(a, b) == (if a >= 0 { y % c } else { -(y % c) }));
    assert(b * (if (a >= 0) == (b > 0) { q } else { -q }) == (if a >= 0 { c * q } else { -(c * q) }))
        by (nonlinear_arith)
        requires
            c == (if b > 0 { b } else { -b }),
    ;
}

/// A value already in the canonical range is its own residue.
pub proof fn lemma_canonical_fixed(r: int, m: int)
    requires
        m != 0,
        in_canonical_range(r, m),
    ensures
        canonical_mod(r, m) == r,
{
    assert(r - m * 0 == r) by (nonlinear_arith);
    lemma_floor_div_unique(r, 0, m);
}

} // verus!

verus! {

/// Reducing an already reduced value changes nothing.
pub proof fn lemma_canonical_idempotent(a: int, m: int)
    requires
        m != 0,
    ensures
        canonical_mod(canonical_mod(a, m), m) == canonical_mod(a, m),
{
    lemma_canonical_range(a, m);
    lemma_canonical_fixed(canonical_mod(a, m), m);
}

/// Residues may be added before or after reduction.
pub proof fn lemma_canonical_add(x: int, y: int, m: int)
    requires
        m != 0,
    ensures
        canonical_mod(canonical_mod(x, m) + canonical_mod(y, m), m) == canonical_mod(x + y, m),
        canonical_mod(canonical_mod(x, m) + y, m) == canonical_mod(x + y, m),
{
    let qx = floor_div(x, m);
    let qy = floor_div(y, m);
    assert(m * qx + m * qy == m * (qx + qy)) by (nonlinear_arith);
    lemma_canonical_shift(x + y, -(qx + qy), m);
    assert(m * (-(qx + qy)) == -(m * (qx + qy))) by (nonlinear_arith);
    lemma_canonical_shift(x + y, -qx, m);
    assert(m * (-qx) == -(m * qx)) by (nonlinear_arith);
}

/// Residues may be multiplied before or after reduction.
pub proof fn lemma_canonical_mul(x: int, y: int, m: int)
    requires
        m != 0,
    ensures
        canonical_mod(canonical_mod(x, m) * canonical_mod(y, m), m) == canonical_mod(x * y, m),
        canonical_mod(canonical_mod(x, m) * y, m) == canonical_mod(x * y, m),
        canonical_mod(x * canonical_mod(y, m), m) == canonical_mod(x * y, m),
{
    let qx = floor_div(x, m);
    let qy = floor_div(y, m);
    let k = m * qx * qy - qx * y - x * qy;
    assert((x - m * qx) * (y - m * qy) == x * y + m * k) by (nonlinear_arith)
        requires
            k == m * qx * qy - qx * y - x * qy,
    ;
    lemma_canonical_shift(x * y, k, m);
    assert((x - m * qx) * y == x * y + m * (-(qx * y))) by (nonlinear_arith);
    lemma_canonical_shift(x * y, -(qx * y), m);
    assert(x * (y - m * qy) == x * y + m * (-(x * qy))) by (nonlinear_arith);
    lemma_canonical_shift(x * y, -(x * qy), m);
}

/// For a positive modulus the canonical residue is the Euclidean remainder.
pub proof fn lemma_canonical_positive(a: int, m: int)
    requires
        m > 0,
    ensures
        canonical_mod(a, m) == a % m,
{
    lemma_fundamental_div_mod(a, m);
}

} // verus!
