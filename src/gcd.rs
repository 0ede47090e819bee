//! The Euclidean greatest common divisor.
use crate::residue::{lemma_trunc_div_rem, trunc_div, trunc_rem};
use vstd::arithmetic::div_mod::lemma_fundamental_div_mod;
use vstd::prelude::*;

verus! {

/// `d` divides `x`.
pub open spec fn divides(d: int, x: int) -> bool {
    x % d == 0
}

/// The absolute value.
pub open spec fn abs(x: int) -> int {
    if x >= 0 {
        x
    } else {
        -x
    }
}

/// A multiple of `d` is divisible by `d`.
pub proof fn lemma_divides_intro(d: int, x: int, k: int)
    requires
        d != 0,
        x == d * k,
    ensures
        divides(d, x),
{
    lemma_fundamental_div_mod(x, d);
    let j = k - x / d;
    assert(x % d == d * j) by (nonlinear_arith)
        requires
            x == d * k,
            x == d * (x / d) + x % d,
            j == k - x / d,
    ;
    assert(j == 0) by (nonlinear_arith)
        requires
            d != 0,
            0 <= d * j < abs(d),
    ;
}

/// What `d` divides is a multiple of `d`.
pub proof fn lemma_divides_elim(d: int, x: int)
    requires
        d != 0,
        divides(d, x),
    ensures
        x == d * (x / d),
{
    lemma_fundamental_div_mod(x, d);
}

/// The greatest common divisor of `a` and `b`, up to sign: it divides both,
/// and every common divisor divides it.
pub fn gcd64(a: i64, b: i64) -> (r: i64)
    requires
        b != 0,
    ensures
        r != 0,
        divides(r as int, a as int),
        divides(r as int, b as int),
        forall|d: int|
            d != 0 && divides(d, a as int) && divides(d, b as int) ==> #[trigger] divides(d, r as int),
        a >= 0 && b > 0 ==> r > 0,
    decreases abs(b as int),
{
    proof {
        lemma_divides_intro(b as int, b as int, 1);
    }
    if b == -1 {
        proof {
            lemma_divides_intro(-1, a as int, -a);
        }
        return b;
    }
    let t = a % b;
    let ghost q = trunc_div(a as int, b as int);
    proof {
        lemma_trunc_div_rem(a as int, b as int);
        assert(t == trunc_rem(a as int, b as int));
    }
    if t == 0 {
        proof {
            lemma_divides_intro(b as int, a as int, q);
        }
        b
    } else {
        let r = gcd64(b, t);
        proof {
            let kb = (b as int) / (r as int);
            let kt = (t as int) / (r as int);
            lemma_divides_elim(r as int, b as int);
            lemma_divides_elim(r as int, t as int);
            assert(a == r * (kb * q + kt)) by (nonlinear_arith)
                requires
                    a == b * q + t,
                    b == r * kb,
                    t == r * kt,
            ;
            lemma_divides_intro(r as int, a as int, kb * q + kt);
            assert forall|d: int|
                d != 0 && divides(d, a as int) && divides(d, b as int) implies #[trigger] divides(
                d,
                r as int,
            ) by {
                let ka = (a as int) / d;
                let kd = (b as int) / d;
                lemma_divides_elim(d, a as int);
                lemma_divides_elim(d, b as int);
                assert(t == d * (ka - kd * q)) by (nonlinear_arith)
                    requires
                        a == b * q + t,
                        a == d * ka,
                        b == d * kd,
                ;
                lemma_divides_intro(d, t as int, ka - kd * q);
            }
        }
        r
    }
}

} // verus!
