//! Deterministic primality testing by strong probable-prime tests.
use crate::ops::{mod64, mul64};
use crate::power::pow64;
use crate::fermat::{is_prime, lemma_fermat_little, lemma_prime_divides_factor};
use crate::residue::{
    canonical_mod, lemma_canonical_fixed, lemma_canonical_mul, lemma_canonical_positive,
    lemma_canonical_range,
};
use vstd::arithmetic::div_mod::{lemma_fundamental_div_mod, lemma_mod_multiples_basic, lemma_small_mod};
use vstd::arithmetic::power::{lemma_pow0, lemma_pow_adds, pow};
use vstd::arithmetic::power2::{lemma_pow2, lemma_pow2_unfold, pow2};
use vstd::prelude::*;

verus! {

/// The odd part of `k`: `k` with every factor two divided out.
pub open spec fn odd_part(k: nat) -> nat
    decreases k,
{
    if k > 0 && k % 2 == 0 {
        odd_part(k / 2)
    } else {
        k
    }
}

/// How many factors two divide `k`.
pub open spec fn two_exponent(k: nat) -> nat
    decreases k,
{
    if k > 0 && k % 2 == 0 {
        1 + two_exponent(k / 2)
    } else {
        0
    }
}

/// Some value among `x`, `x^2`, `x^4`, ..., with `k` squarings modulo `n`
/// at most, equals `n - 1`.
pub open spec fn reaches_minus_one(x: int, n: int, k: nat) -> bool
    decreases k,
{
    x == n - 1 || (k > 0 && reaches_minus_one(canonical_mod(x * x, n), n, (k - 1) as nat))
}

/// `n` passes the strong probable-prime test to `base`: with
/// `n - 1 = d * 2^s` and `d` odd, `x = base^d mod n` is 1, or one of
/// `x, x^2, ..., x^(2^(s-1))` is `n - 1` (`x` itself is always checked).
pub open spec fn strong_probable_prime(n: int, base: int) -> bool {
    let d = odd_part((n - 1) as nat);
    let s = two_exponent((n - 1) as nat);
    let x = canonical_mod(pow(base, d), n);
    x == 1 || reaches_minus_one(x, n, if s > 0 { (s - 1) as nat } else { 0 })
}

/// One round of Miller-Rabin: false only when `base` witnesses that `n` is
/// composite.
pub fn miller_rabin(n: i64, base: i64) -> (r: bool)
    requires
        n >= 2,
    ensures
        r == strong_probable_prime(n as int, base as int),
{
    let mut d = n - 1;
    let mut s: i64 = 0;
    while d % 2 == 0
        invariant
            n >= 2,
            d > 0,
            s >= 0,
            s + d <= n - 1,
            odd_part(d as nat) == odd_part((n - 1) as nat),
            s + two_exponent(d as nat) == two_exponent((n - 1) as nat),
        decreases d,
    {
        proof {
            crate::ops::lemma_low_bit(d);
        }
        d >>= 1;
        s += 1;
    }
    assert(odd_part(d as nat) == d && two_exponent(d as nat) == 0);
    let mut x = pow64(base, d, n);
    if x == 1 {
        return true;
    }
    let mut rounds: i64 = if s > 0 { s - 1 } else { 0 };
    let ghost x0 = x;
    let ghost k0 = rounds;
    while x != n - 1
        invariant
            n >= 2,
            rounds >= 0,
            k0 >= 0,
            x0 != 1,
            x0 == canonical_mod(pow(base as int, odd_part((n - 1) as nat)), n as int),
            k0 == (if two_exponent((n - 1) as nat) > 0 {
                (two_exponent((n - 1) as nat) - 1) as int
            } else {
                0
            }),
            reaches_minus_one(x0 as int, n as int, k0 as nat) == reaches_minus_one(
                x as int,
                n as int,
                rounds as nat,
            ),
        decreases rounds,
    {
        if rounds == 0 {
            return false;
        }
        x = mul64(x, x, n);
        rounds -= 1;
    }
    true
}

/// The fixed witness bases, enough for every 64-bit input.
pub open spec fn witness_bases() -> Seq<int> {
    seq![2, 3, 5, 7, 11, 13, 17, 19, 23, 29, 31, 37]
}

/// `n` passes the deterministic test: it is at least 2, and it is 2 or 3 or
/// a strong probable prime to every witness base below it.
pub open spec fn passes_primality_test(n: int) -> bool {
    n >= 2 && (n < 4 || forall|i: int|
        0 <= i < 12 && witness_bases()[i] < n ==> strong_probable_prime(n, #[trigger] witness_bases()[i]))
}

/// Deterministic primality test over the witnesses 2, 3, 5, ..., 37.
pub fn ptest(n: i64) -> (r: bool)
    ensures
        r == passes_primality_test(n as int),
        n < 2 ==> !r,
        n == 2 || n == 3 ==> r,
        is_prime(n as int) ==> r,
{
    proof {
        if is_prime(n as int) {
            lemma_primes_pass(n as int);
        }
    }
    if n < 2 {
        return false;
    }
    if n < 4 {
        return true;
    }
    let bases: [i64; 12] = [2, 3, 5, 7, 11, 13, 17, 19, 23, 29, 31, 37];
    assert(bases@ =~= witness_bases().map_values(|v: int| v as i64));
    let mut i: usize = 0;
    while i < 12 && bases[i] < n
        invariant
            n >= 4,
            i <= 12,
            bases@ =~= witness_bases().map_values(|v: int| v as i64),
            is_prime(n as int) ==> passes_primality_test(n as int),
            forall|j: int| 0 <= j < i ==> strong_probable_prime(n as int, #[trigger] witness_bases()[j]),
        decreases 12 - i,
    {
        if !miller_rabin(n, bases[i]) {
            proof {
                if is_prime(n as int) {
                    assert(strong_probable_prime(n as int, witness_bases()[i as int]));
                }
            }
            return false;
        }
        i += 1;
    }
    true
}

/// `x` squared `j` times modulo `n`.
pub open spec fn squared(x: int, n: int, j: nat) -> int
    decreases j,
{
    if j == 0 {
        x
    } else {
        squared(canonical_mod(x * x, n), n, (j - 1) as nat)
    }
}

/// `n - 1 = d * 2^s` with `d` the odd part and `s` the exponent of two.
proof fn lemma_odd_decomposition(k: nat)
    requires
        k > 0,
    ensures
        k == odd_part(k) * pow2(two_exponent(k)),
    decreases k,
{
    if k % 2 == 0 {
        let h = k / 2;
        lemma_odd_decomposition(h);
        let t = two_exponent(h);
        assert(odd_part(k) == odd_part(h) && two_exponent(k) == t + 1);
        lemma_pow2_unfold(t + 1);
        assert(k == odd_part(h) * pow2(t + 1)) by (nonlinear_arith)
            requires
                k == 2 * h,
                h == odd_part(h) * pow2(t),
                pow2(t + 1) == 2 * pow2(t),
        ;
    } else {
        lemma_pow2(0);
        lemma_pow0(2);
        assert(odd_part(k) == k && two_exponent(k) == 0);
        assert(k * pow2(0) == k);
    }
}

/// Squaring `j` times multiplies the exponent by `2^j`.
proof fn lemma_squared_pow(b: int, e: nat, n: int, j: nat)
    requires
        n != 0,
    ensures
        squared(canonical_mod(pow(b, e), n), n, j) == canonical_mod(pow(b, e * pow2(j)), n),
    decreases j,
{
    if j == 0 {
        lemma_pow2(0);
        lemma_pow0(2);
    } else {
        let c = canonical_mod(pow(b, e), n);
        lemma_canonical_mul(pow(b, e), pow(b, e), n);
        lemma_pow_adds(b, e, e);
        assert(canonical_mod(c * c, n) == canonical_mod(pow(b, e + e), n));
        lemma_squared_pow(b, e + e, n, (j - 1) as nat);
        lemma_pow2_unfold(j);
        assert((e + e) * pow2((j - 1) as nat) == e * pow2(j)) by (nonlinear_arith)
            requires
                pow2(j) == 2 * pow2((j - 1) as nat),
        ;
    }
}

/// Modulo a prime, the only square roots of one are one and minus one.
proof fn lemma_square_root_of_one(p: int, x: int)
    requires
        is_prime(p),
        0 <= x < p,
        canonical_mod(x * x, p) == 1,
    ensures
        x == 1 || x == p - 1,
{
    lemma_canonical_positive(x * x, p);
    if x != 1 {
        assert(x != 0);
        lemma_fundamental_div_mod(x * x, p);
        let j = (x * x) / p;
        assert((x - 1) * (x + 1) == j * p) by (nonlinear_arith)
            requires
                x * x == p * j + 1,
        ;
        lemma_mod_multiples_basic(j, p);
        lemma_prime_divides_factor(p, x - 1, x + 1);
        if x + 1 < p {
            lemma_small_mod((x + 1) as nat, p as nat);
        }
    }
}

/// Modulo a prime, a value other than one whose `(k + 1)`-th repeated square
/// is one reaches minus one within `k` squarings.
proof fn lemma_square_chain(p: int, x: int, k: nat)
    requires
        is_prime(p),
        0 <= x < p,
        x != 1,
        squared(x, p, k + 1) == 1,
    ensures
        reaches_minus_one(x, p, k),
    decreases k,
{
    let y = canonical_mod(x * x, p);
    lemma_canonical_range(x * x, p);
    assert(squared(x, p, k + 1) == squared(y, p, k));
    if y == 1 {
        lemma_square_root_of_one(p, x);
    } else {
        assert(k > 0);
        lemma_square_chain(p, y, (k - 1) as nat);
    }
}

/// Every prime is a strong probable prime to every base it does not divide.
pub proof fn lemma_prime_strong_probable(p: int, base: int)
    requires
        is_prime(p),
        canonical_mod(base, p) != 0,
    ensures
        strong_probable_prime(p, base),
{
    let k = (p - 1) as nat;
    let d = odd_part(k);
    let s = two_exponent(k);
    lemma_odd_decomposition(k);
    lemma_canonical_positive(base, p);
    lemma_fermat_little(p, base);
    lemma_canonical_positive(pow(base, k), p);
    lemma_squared_pow(base, d, p, s);
    let x = canonical_mod(pow(base, d), p);
    lemma_canonical_range(pow(base, d), p);
    if x != 1 {
        if s == 0 {
            lemma_pow2(0);
            lemma_pow0(2);
            assert(d * pow2(0) == d);
        } else {
            lemma_square_chain(p, x, (s - 1) as nat);
        }
    }
}

/// Every prime passes the deterministic test.
pub proof fn lemma_primes_pass(n: int)
    requires
        is_prime(n),
    ensures
        passes_primality_test(n),
{
    assert forall|i: int| 0 <= i < 12 && witness_bases()[i] < n implies strong_probable_prime(
        n,
        #[trigger] witness_bases()[i],
    ) by {
        let w = witness_bases()[i];
        assert(2 <= w);
        lemma_canonical_fixed(w, n);
        lemma_prime_strong_probable(n, w);
    }
}

} // verus!
