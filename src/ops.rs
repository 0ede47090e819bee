//! The executable operations.
use crate::residue::{
    canonical_mod, floor_div, in_canonical_range, lemma_canonical_add, lemma_canonical_fixed, lemma_canonical_mul, lemma_canonical_range,
    lemma_canonical_shift, lemma_floor_div_unique, lemma_trunc_div_rem, trunc_div, trunc_rem,
};
use vstd::prelude::*;

verus! {

/// Floored division: the quotient of `a / b` rounded toward negative
/// infinity.
pub fn flr64(a: i64, b: i64) -> (r: i64)
    requires
        b != 0,
        !(a == i64::MIN && b == -1),
    ensures
        r == floor_div(a as int, b as int),
{
    proof {
        lemma_trunc_div_rem(a as int, b as int);
        let q = trunc_div(a as int, b as int);
        let c: int = if b > 0 { b as int } else { -b };
        let y: int = if a >= 0 { a as int } else { -a };
        assert(i64::MIN <= q <= i64::MAX) by (nonlinear_arith)
            requires
                c * (if q >= 0 { q } else { -q }) <= y,
                c >= 1,
                y <= 0x8000_0000_0000_0000,
                q > 0 && a < 0 ==> b < 0,
                y == 0x8000_0000_0000_0000 ==> a == i64::MIN,
                a == i64::MIN ==> b != -1,
                b < 0 ==> c == -b,
        ;
    }
    let q = match a.checked_div(b) {
        Some(q) => q,
        None => 0,
    };
    let t = a % b;
    proof {
        assert(q == trunc_div(a as int, b as int));
        assert(t == trunc_rem(a as int, b as int));
    }
    if t != 0 && (a < 0) != (b < 0) {
        proof {
            assert(q > i64::MIN) by (nonlinear_arith)
                requires
                    a == b * q + t,
                    t != 0,
                    a >= 0 ==> 0 < t && b < 0,
                    a < 0 ==> t < 0 && b > 0,
                    i64::MIN <= a,
            ;
            assert(a - b * (q - 1) == t + b) by (nonlinear_arith)
                requires
                    a == b * q + t,
            ;
            lemma_floor_div_unique(a as int, q - 1, b as int);
        }
        q - 1
    } else {
        proof {
            lemma_floor_div_unique(a as int, q as int, b as int);
        }
        q
    }
}

/// The canonical residue of `a` modulo `m`: congruent to `a`, in `[0, m)`
/// for a positive modulus and in `(m, 0]` for a negative one.
pub fn mod64(a: i64, m: i64) -> (r: i64)
    requires
        m != 0,
    ensures
        r == canonical_mod(a as int, m as int),
        in_canonical_range(r as int, m as int),
{
    proof {
        lemma_canonical_range(a as int, m as int);
    }
    if m == -1 {
        proof {
            lemma_floor_div_unique(a as int, -a, m as int);
        }
        return 0;
    }
    let t = a % m;
    proof {
        lemma_trunc_div_rem(a as int, m as int);
        assert(t == trunc_rem(a as int, m as int));
    }
    let ghost q = trunc_div(a as int, m as int);
    if t != 0 && (t < 0) != (m < 0) {
        proof {
            assert(a - m * (q - 1) == t + m) by (nonlinear_arith)
                requires
                    a == m * q + t,
            ;
            lemma_floor_div_unique(a as int, q - 1, m as int);
        }
        t + m
    } else {
        proof {
            lemma_floor_div_unique(a as int, q, m as int);
        }
        t
    }
}

/// `(a + b) mod m`, computed without leaving the `i64` range.
pub fn add64(a: i64, b: i64, m: i64) -> (r: i64)
    requires
        m != 0,
    ensures
        r == canonical_mod(a + b, m as int),
{
    let x = mod64(a, m);
    let y = mod64(b, m);
    proof {
        lemma_canonical_add(a as int, b as int, m as int);
    }
    let r = if m > 0 {
        if y < m - x {
            x + y
        } else if x > y {
            x - m + y
        } else {
            y - m + x
        }
    } else {
        if y > m - x {
            x + y
        } else if x < y {
            x - m + y
        } else {
            y - m + x
        }
    };
    proof {
        if r == x + y {
            lemma_floor_div_unique(x + y, 0, m as int);
        } else {
            lemma_floor_div_unique(x + y, 1, m as int);
        }
    }
    r
}

/// `(a - b) mod m`: the sum of `a` and the negated residue of `b`.
pub fn sub64(a: i64, b: i64, m: i64) -> (r: i64)
    requires
        m != 0,
    ensures
        r == canonical_mod(a - b, m as int),
{
    let y = mod64(b, m);
    proof {
        let q = floor_div(b as int, m as int);
        lemma_canonical_shift(a - b, q, m as int);
    }
    add64(a, -y, m)
}

/// The low bit and the rest of a non-negative integer.
pub(crate) proof fn lemma_low_bit(y: i64)
    requires
        y >= 0,
    ensures
        (y & 1) == y % 2,
        (y >> 1) == y / 2,
{
    assert((y & 1) == y % 2 && (y >> 1) == y / 2) by (bit_vector)
        requires
            y >= 0,
    ;
}

/// One step of double-and-add keeps `acc + x * y` in its residue class.
proof fn lemma_double_and_add_step(acc: int, x: int, y: int, m: int, acc2: int, x2: int)
    requires
        m != 0,
        y >= 0,
        acc2 == canonical_mod(acc + x * (y % 2), m),
        x2 == canonical_mod(x + x, m),
    ensures
        canonical_mod(acc2 + x2 * (y / 2), m) == canonical_mod(acc + x * y, m),
{
    let k1 = floor_div(acc + x * (y % 2), m);
    let k2 = floor_div(x + x, m);
    let h = y / 2;
    let b = y % 2;
    assert(acc2 + x2 * h == acc + x * y + m * (-(k1 + k2 * h))) by (nonlinear_arith)
        requires
            acc2 == acc + x * b - m * k1,
            x2 == x + x - m * k2,
            y == 2 * h + b,
    ;
    lemma_canonical_shift(acc + x * y, -(k1 + k2 * h), m);
}

/// `(a * b) mod m` by double-and-add: every intermediate value is a residue,
/// so nothing overflows even when both operands are near `i64::MAX`.
pub fn mul64(a: i64, b: i64, m: i64) -> (r: i64)
    requires
        m != 0,
    ensures
        r == canonical_mod(a * b, m as int),
{
    let mut x = mod64(a, m);
    let mut y = mod64(b, m);
    proof {
        lemma_canonical_mul(a as int, b as int, m as int);
    }
    if y < 0 {
        proof {
            assert((-x) * (-y) == x * y) by (nonlinear_arith);
        }
        y = -y;
        x = -x;
    }
    let mut res: i64 = 0;
    proof {
        lemma_canonical_fixed(0, m as int);
    }
    while y != 0
        invariant
            m != 0,
            y >= 0,
            in_canonical_range(res as int, m as int),
            canonical_mod(res + x * y, m as int) == canonical_mod(a * b, m as int),
        decreases y,
    {
        proof {
            lemma_low_bit(y);
        }
        let ghost acc = res;
        if (y & 1) != 0 {
            res = add64(res, x, m);
            proof {
                assert(y % 2 == 1);
                assert(x * (y % 2) == x);
            }
        } else {
            proof {
                assert(y % 2 == 0);
                assert(x * (y % 2) == 0);
                lemma_canonical_fixed(acc as int, m as int);
            }
        }
        let ghost x0 = x;
        x = add64(x, x, m);
        proof {
            lemma_double_and_add_step(acc as int, x0 as int, y as int, m as int, res as int, x as int);
            lemma_canonical_range(acc + x0 * (y % 2), m as int);
        }
        y >>= 1;
    }
    proof {
        lemma_canonical_fixed(res as int, m as int);
    }
    res
}

} // verus!
