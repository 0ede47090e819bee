//! Fermat's little theorem, from binomial coefficients: for a prime `p`,
//! `p` divides every inner coefficient of `(x + 1)^p`, so `a^p` and `a`
//! agree modulo `p`.
use vstd::arithmetic::div_mod::{
    lemma_add_mod_noop, lemma_fundamental_div_mod, lemma_mod_multiples_basic,
    lemma_mul_mod_noop_left, lemma_small_mod,
};
use vstd::arithmetic::power::{lemma0_pow, lemma_pow_mod_noop, pow};
use vstd::prelude::*;

verus! {

/// `p` is a prime number.
pub open spec fn is_prime(p: int) -> bool {
    p >= 2 && forall|d: int| 2 <= d < p ==> #[trigger] (p % d) != 0
}

/// The binomial coefficient `n choose k`, by Pascal's rule.
pub open spec fn binomial(n: nat, k: nat) -> nat
    decreases n,
{
    if k == 0 {
        1
    } else if n == 0 {
        0
    } else {
        binomial((n - 1) as nat, (k - 1) as nat) + binomial((n - 1) as nat, k)
    }
}

proof fn lemma_binomial_above(n: nat, k: nat)
    requires
        k > n,
    ensures
        binomial(n, k) == 0,
    decreases n,
{
    if n > 0 {
        lemma_binomial_above((n - 1) as nat, (k - 1) as nat);
        lemma_binomial_above((n - 1) as nat, k);
    }
}

proof fn lemma_binomial_diagonal(n: nat)
    ensures
        binomial(n, n) == 1,
    decreases n,
{
    if n > 0 {
        lemma_binomial_diagonal((n - 1) as nat);
        lemma_binomial_above((n - 1) as nat, n);
    }
}

/// `k * C(n, k) == n * C(n - 1, k - 1)`.
proof fn lemma_binomial_absorption(n: nat, k: nat)
    requires
        n >= 1,
        k >= 1,
    ensures
        k * binomial(n, k) == n * binomial((n - 1) as nat, (k - 1) as nat),
    decreases n,
{
    if n == 1 {
        if k > 1 {
            lemma_binomial_above(0, (k - 1) as nat);
            lemma_binomial_above(1, k);
            assert(k * 0 == 0);
        } else {
            assert(binomial(0, 0) == 1);
            assert(binomial(0, 1) == 0);
            assert(binomial(1, 1) == 1);
        }
    } else {
        let c = binomial((n - 1) as nat, (k - 1) as nat);
        let d = binomial((n - 1) as nat, k);
        lemma_binomial_absorption((n - 1) as nat, k);
        let e = binomial((n - 2) as nat, (k - 1) as nat);
        if k == 1 {
            assert(k * binomial(n, k) == n * c) by (nonlinear_arith)
                requires
                    k == 1,
                    binomial(n, k) == c + d,
                    k * d == (n - 1) * e,
                    e == 1,
                    c == 1,
            ;
        } else {
            lemma_binomial_absorption((n - 1) as nat, (k - 1) as nat);
            let f = binomial((n - 2) as nat, (k - 2) as nat);
            assert(k * binomial(n, k) == n * c) by (nonlinear_arith)
                requires
                    binomial(n, k) == c + d,
                    k * d == (n - 1) * e,
                    (k - 1) * c == (n - 1) * f,
                    c == f + e,
            ;
        }
    }
}

/// Euclid's lemma in the form used here: a prime that divides `k * x`, with
/// `0 < k < p`, divides `x`.
pub proof fn lemma_prime_divides_factor(p: int, k: int, x: int)
    requires
        is_prime(p),
        0 < k < p,
        (k * x) % p == 0,
    ensures
        x % p == 0,
    decreases k,
{
    if k > 1 {
        let r = p % k;
        let q = p / k;
        assert(r != 0);
        lemma_fundamental_div_mod(p, k);
        lemma_fundamental_div_mod(k * x, p);
        let j = (k * x) / p;
        assert(r * x == (x - q * j) * p) by (nonlinear_arith)
            requires
                p == k * q + r,
                k * x == p * j,
        ;
        lemma_mod_multiples_basic(x - q * j, p);
        lemma_prime_divides_factor(p, r, x);
    } else {
        assert(k == 1);
        assert(1 * x == x);
    }
}

/// A prime divides each inner binomial coefficient of its own row.
proof fn lemma_prime_divides_binomial(p: int, k: nat)
    requires
        is_prime(p),
        0 < k < p,
    ensures
        binomial(p as nat, k) as int % p == 0,
{
    lemma_binomial_absorption(p as nat, k);
    let c = binomial((p - 1) as nat, (k - 1) as nat) as int;
    lemma_mod_multiples_basic(c, p);
    assert(k * (binomial(p as nat, k) as int) == c * p) by (nonlinear_arith)
        requires
            k * binomial(p as nat, k) == p * c,
    ;
    lemma_prime_divides_factor(p, k as int, binomial(p as nat, k) as int);
}

/// The partial binomial sum `C(n, 0) + C(n, 1) x + ... + C(n, j) x^j`.
pub open spec fn binomial_sum(n: nat, j: nat, x: int) -> int
    decreases j,
{
    if j == 0 {
        1
    } else {
        binomial_sum(n, (j - 1) as nat, x) + binomial(n, j) * pow(x, j)
    }
}

/// Pascal's rule lifted to the partial sums.
proof fn lemma_binomial_sum_step(n: nat, j: nat, x: int)
    requires
        j >= 1,
    ensures
        binomial_sum(n + 1, j, x) == binomial_sum(n, j, x) + x * binomial_sum(n, (j - 1) as nat, x),
    decreases j,
{
    reveal(pow);
    let e = pow(x, (j - 1) as nat);
    assert(pow(x, j) == x * e);
    let c = binomial(n, (j - 1) as nat);
    let d = binomial(n, j);
    assert(binomial(n + 1, j) == c + d);
    assert(binomial_sum(n + 1, j, x) == binomial_sum(n + 1, (j - 1) as nat, x) + (c + d) * pow(x, j));
    assert(binomial_sum(n, j, x) == binomial_sum(n, (j - 1) as nat, x) + d * pow(x, j));
    if j == 1 {
        assert(binomial_sum(n + 1, 0, x) == 1);
        assert(binomial_sum(n, 0, x) == 1);
        assert(e == 1);
        assert(c == 1);
        assert((c + d) * (x * e) == x * (1 as int) + d * (x * e)) by (nonlinear_arith)
            requires
                c == 1,
                e == 1,
        ;
    } else {
        lemma_binomial_sum_step(n, (j - 1) as nat, x);
        let a = binomial_sum(n, (j - 1) as nat, x);
        let b = binomial_sum(n, (j - 2) as nat, x);
        assert(binomial_sum(n, (j - 1) as nat, x) == b + c * e);
        assert(a + x * b + (c + d) * (x * e) == a + d * (x * e) + x * (b + c * e)) by (nonlinear_arith);
    }
}

/// Terms past `n` add nothing.
proof fn lemma_binomial_sum_complete(n: nat, j: nat, x: int)
    requires
        j >= n,
    ensures
        binomial_sum(n, j, x) == binomial_sum(n, n, x),
    decreases j,
{
    if j > n {
        lemma_binomial_above(n, j);
        lemma_binomial_sum_complete(n, (j - 1) as nat, x);
        assert(0 * pow(x, j) == 0);
    }
}

/// The binomial theorem for `(x + 1)^n`.
pub proof fn lemma_binomial_theorem(x: int, n: nat)
    ensures
        pow(x + 1, n) == binomial_sum(n, n, x),
    decreases n,
{
    reveal(pow);
    if n > 0 {
        let m = (n - 1) as nat;
        lemma_binomial_theorem(x, m);
        lemma_binomial_sum_step(m, n, x);
        lemma_binomial_sum_complete(m, n, x);
        let s = binomial_sum(m, m, x);
        assert((x + 1) * s == s + x * s) by (nonlinear_arith);
    }
}

/// Below the last term, a prime row sums to one modulo the prime.
proof fn lemma_binomial_sum_mod_prime(p: int, j: nat, x: int)
    requires
        is_prime(p),
        j < p,
    ensures
        binomial_sum(p as nat, j, x) % p == 1,
    decreases j,
{
    if j > 0 {
        lemma_binomial_sum_mod_prime(p, (j - 1) as nat, x);
        lemma_prime_divides_binomial(p, j);
        let c = binomial(p as nat, j) as int;
        let t = c * pow(x, j);
        lemma_mul_mod_noop_left(c, pow(x, j), p);
        assert(0 * pow(x, j) == 0);
        assert(t % p == 0);
        lemma_add_mod_noop(binomial_sum(p as nat, (j - 1) as nat, x), t, p);
        lemma_small_mod(1, p as nat);
        assert(binomial_sum(p as nat, j, x) == binomial_sum(p as nat, (j - 1) as nat, x) + t);
    } else {
        lemma_small_mod(1, p as nat);
    }
}

/// `(x + 1)^p` and `x^p + 1` agree modulo a prime `p`.
proof fn lemma_freshman(p: int, x: int)
    requires
        is_prime(p),
    ensures
        pow(x + 1, p as nat) % p == (pow(x, p as nat) + 1) % p,
{
    let n = p as nat;
    lemma_binomial_theorem(x, n);
    lemma_binomial_sum_mod_prime(p, (n - 1) as nat, x);
    lemma_binomial_diagonal(n);
    let a = binomial_sum(n, (n - 1) as nat, x);
    assert(binomial_sum(n, n, x) == a + pow(x, n));
    lemma_add_mod_noop(a, pow(x, n), p);
    lemma_add_mod_noop(1, pow(x, n), p);
    lemma_small_mod(1, p as nat);
}

/// `a^p` and `a` agree modulo a prime `p`, for natural `a`.
proof fn lemma_pow_prime_fixed(p: int, a: nat)
    requires
        is_prime(p),
    ensures
        pow(a as int, p as nat) % p == a as int % p,
    decreases a,
{
    if a == 0 {
        lemma0_pow(p as nat);
    } else {
        let b = (a - 1) as nat;
        lemma_pow_prime_fixed(p, b);
        lemma_freshman(p, b as int);
        lemma_add_mod_noop(pow(b as int, p as nat), 1, p);
        lemma_add_mod_noop(b as int, 1, p);
    }
}

/// Fermat's little theorem: `a^(p-1)` is one modulo a prime `p` that does
/// not divide `a`.
pub proof fn lemma_fermat_little(p: int, a: int)
    requires
        is_prime(p),
        a % p != 0,
    ensures
        pow(a, (p - 1) as nat) % p == 1,
{
    let r = a % p;
    lemma_pow_mod_noop(a, (p - 1) as nat, p);
    lemma_pow_prime_fixed(p, r as nat);
    reveal(pow);
    let e = pow(r, (p - 1) as nat);
    assert(pow(r, p as nat) == r * e);
    lemma_small_mod(r as nat, p as nat);
    lemma_fundamental_div_mod(r * e, p);
    let j = (r * e) / p;
    assert(r * (e - 1) == j * p) by (nonlinear_arith)
        requires
            r * e == p * j + r,
    ;
    lemma_mod_multiples_basic(j, p);
    lemma_prime_divides_factor(p, r, e - 1);
    lemma_add_mod_noop(e - 1, 1, p);
    lemma_small_mod(1, p as nat);
}

} // verus!
