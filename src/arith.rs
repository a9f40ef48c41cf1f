//! The mathematical model: divisors, primes and prime exponents, with the
//! number-theoretic lemmas that the algorithms rest on.

use vstd::arithmetic::div_mod::{
    lemma_div_is_strictly_smaller, lemma_fundamental_div_mod, lemma_mod_multiples_basic,
};
use vstd::arithmetic::power::{lemma_pow_positive, pow};
use vstd::prelude::*;

verus! {

/// The positive divisors of `n`.
pub open spec fn divisors(n: int) -> Set<int> {
    Set::new(|x: int| 1 <= x <= n && n % x == 0)
}

/// d(n): how many positive integers divide `n`.
pub open spec fn divisor_count(n: int) -> nat {
    divisors(n).len()
}

/// The number of `m` in `[1, k]` with `d(m) == d(m + 1)`: the terms of the
/// sequence of such `m` (2, 14, 21, 26, ...) that do not exceed `k`. The
/// algorithms walk `n` over `[2, k + 1]` and compare `d(n)` with `d(n - 1)`,
/// which counts the same pairs.
pub open spec fn match_count(k: int) -> nat
    decreases k,
{
    if k <= 0 {
        0
    } else {
        match_count(k - 1) + if divisor_count(k) == divisor_count(k + 1) {
            1nat
        } else {
            0nat
        }
    }
}

/// `p` is at least 2 and no integer from 2 to `p - 1` divides it.
pub open spec fn is_prime(p: int) -> bool {
    p >= 2 && forall|q: int| 2 <= q < p ==> #[trigger] (p % q) != 0
}

/// How many times `p` divides `n` (for `n > 0` and `p >= 2`).
pub open spec fn exponent(n: int, p: int) -> nat
    decreases n via division_decreases
{
    if n > 0 && p >= 2 && n % p == 0 {
        1 + exponent(n / p, p)
    } else {
        0
    }
}

/// What is left of `n` once every factor `p` is divided out.
pub open spec fn strip(n: int, p: int) -> int
    decreases n via strip_decreases
{
    if n > 0 && p >= 2 && n % p == 0 {
        strip(n / p, p)
    } else {
        n
    }
}

/// Dividing a positive multiple of `p >= 2` by `p` makes it smaller.
#[via_fn]
proof fn division_decreases(n: int, p: int) {
    if n > 0 && p >= 2 && n % p == 0 {
        lemma_div_is_strictly_smaller(n, p);
    }
}

/// Dividing a positive multiple of `p >= 2` by `p` makes it smaller.
#[via_fn]
proof fn strip_decreases(n: int, p: int) {
    if n > 0 && p >= 2 && n % p == 0 {
        lemma_div_is_strictly_smaller(n, p);
    }
}

/// `n % d == 0` means that `n` is `d` times its quotient.
pub proof fn lemma_mod_zero_quotient(n: int, d: int)
    requires
        d > 0,
        n % d == 0,
    ensures
        n == d * (n / d),
{
    lemma_fundamental_div_mod(n, d);
}

/// A product has no remainder by either of its factors.
pub proof fn lemma_product_mod(d: int, k: int)
    requires
        d > 0,
    ensures
        (d * k) % d == 0,
        (k * d) % d == 0,
{
    lemma_mod_multiples_basic(k, d);
    assert(d * k == k * d) by (nonlinear_arith);
}

/// Divisibility is transitive.
pub proof fn lemma_divides_trans(a: int, b: int, c: int)
    requires
        a > 0,
        b > 0,
        b % a == 0,
        c % b == 0,
    ensures
        c % a == 0,
{
    lemma_mod_zero_quotient(b, a);
    lemma_mod_zero_quotient(c, b);
    let s = b / a;
    let t = c / b;
    assert(c == a * (s * t)) by (nonlinear_arith)
        requires
            c == b * t,
            b == a * s,
    ;
    lemma_product_mod(a, s * t);
}

/// A positive multiple of `d` is at least `d`.
pub proof fn lemma_divisor_le(n: int, d: int)
    requires
        d > 0,
        n > 0,
        n % d == 0,
    ensures
        d <= n,
{
    lemma_mod_zero_quotient(n, d);
    let q = n / d;
    assert(d <= n) by (nonlinear_arith)
        requires
            n == d * q,
            n > 0,
            d > 0,
    ;
}

/// If `p` divides `x * b` and `y * b`, it divides `(x - c * y) * b`.
proof fn lemma_combination_mod(p: int, b: int, x: int, y: int, c: int)
    requires
        p > 0,
        (x * b) % p == 0,
        (y * b) % p == 0,
    ensures
        ((x - c * y) * b) % p == 0,
{
    lemma_mod_zero_quotient(x * b, p);
    lemma_mod_zero_quotient(y * b, p);
    let s = (x * b) / p;
    let t = (y * b) / p;
    assert((x - c * y) * b == p * (s - c * t)) by (nonlinear_arith)
        requires
            x * b == p * s,
            y * b == p * t,
    ;
    lemma_product_mod(p, s - c * t);
}

/// Descent step of Euclid's lemma: if `p` divides `a * b` for some `0 < a < p`,
/// then `p` divides `b`.
proof fn lemma_euclid_descent(p: int, a: int, b: int)
    requires
        is_prime(p),
        0 < a < p,
        (a * b) % p == 0,
    ensures
        b % p == 0,
    decreases a,
{
    if a == 1 {
        assert(a * b == b) by (nonlinear_arith)
            requires
                a == 1,
        ;
    } else {
        let r = p % a;
        let q = p / a;
        lemma_fundamental_div_mod(p, a);
        assert(r != 0);
        assert(0 < r < a);
        lemma_product_mod(p, b);
        assert((p * b) % p == 0);
        lemma_combination_mod(p, b, p, a, q);
        assert(p - q * a == r) by (nonlinear_arith)
            requires
                p == a * q + r,
        ;
        lemma_euclid_descent(p, r, b);
    }
}

/// Euclid's lemma: a prime that divides a product divides one of its factors.
pub proof fn lemma_euclid(p: int, a: int, b: int)
    requires
        is_prime(p),
        (a * b) % p == 0,
    ensures
        a % p == 0 || b % p == 0,
{
    if a % p != 0 {
        let r = a % p;
        let q = a / p;
        lemma_fundamental_div_mod(a, p);
        lemma_product_mod(p, q * b);
        lemma_product_mod(p, 1);
        assert((p * b) % p == 0) by {
            lemma_product_mod(p, b);
        }
        lemma_combination_mod(p, b, a, p, q);
        assert(a - q * p == r) by (nonlinear_arith)
            requires
                a == p * q + r,
        ;
        lemma_euclid_descent(p, r, b);
    }
}

/// Every positive `x` is `p` to its exponent times a rest that `p` does not divide.
pub proof fn lemma_decompose(x: int, p: int)
    requires
        x > 0,
        p >= 2,
    ensures
        x == pow(p, exponent(x, p)) * strip(x, p),
        strip(x, p) > 0,
        strip(x, p) % p != 0,
    decreases x,
{
    reveal(pow);
    if x % p == 0 {
        lemma_mod_zero_quotient(x, p);
        lemma_div_is_strictly_smaller(x, p);
        let q = x / p;
        assert(q > 0) by (nonlinear_arith)
            requires
                x == p * q,
                x > 0,
                p >= 2,
        ;
        lemma_decompose(q, p);
        let e = exponent(q, p);
        assert(pow(p, e + 1) == p * pow(p, e));
        assert(x == pow(p, e + 1) * strip(q, p)) by (nonlinear_arith)
            requires
                x == p * q,
                q == pow(p, e) * strip(q, p),
                pow(p, e + 1) == p * pow(p, e),
        ;
    } else {
        assert(pow(p, 0) == 1);
    }
}

/// The exponent and the rest of `p^i * y`: `p^i` adds `i` to the exponent of `y`.
pub proof fn lemma_exponent_of_product(p: int, i: nat, y: int)
    requires
        p >= 2,
        y > 0,
    ensures
        exponent(pow(p, i) * y, p) == i + exponent(y, p),
        strip(pow(p, i) * y, p) == strip(y, p),
        y % p != 0 ==> exponent(pow(p, i) * y, p) == i,
        y % p != 0 ==> strip(pow(p, i) * y, p) == y,
    decreases i,
{
    reveal(pow);
    if i == 0 {
        assert(pow(p, 0) * y == y);
    } else {
        let j = (i - 1) as nat;
        lemma_exponent_of_product(p, j, y);
        lemma_pow_positive(p, j);
        let m = pow(p, j) * y;
        assert(pow(p, i) == p * pow(p, j));
        assert(pow(p, i) * y == p * m) by (nonlinear_arith)
            requires
                pow(p, i) == p * pow(p, j),
                m == pow(p, j) * y,
        ;
        assert(m > 0) by (nonlinear_arith)
            requires
                m == pow(p, j) * y,
                pow(p, j) > 0,
                y > 0,
        ;
        lemma_product_mod(p, m);
        vstd::arithmetic::div_mod::lemma_div_multiples_vanish(m, p);
        assert((p * m) / p == m);
    }
    if y % p != 0 {
        assert(exponent(y, p) == 0);
        assert(strip(y, p) == y);
    }
}

/// If `p^i` divides `n > 0`, then `i` is at most the exponent of `p` in `n`.
pub proof fn lemma_power_divides(n: int, p: int, i: nat)
    requires
        n > 0,
        p >= 2,
        n % pow(p, i) == 0,
    ensures
        i <= exponent(n, p),
    decreases i,
{
    reveal(pow);
    if i > 0 {
        let j = (i - 1) as nat;
        lemma_pow_positive(p, j);
        lemma_pow_positive(p, i);
        assert(pow(p, i) == p * pow(p, j));
        lemma_mod_zero_quotient(n, pow(p, i));
        let t = n / pow(p, i);
        assert(n == p * (pow(p, j) * t)) by (nonlinear_arith)
            requires
                n == pow(p, i) * t,
                pow(p, i) == p * pow(p, j),
        ;
        lemma_product_mod(p, pow(p, j) * t);
        vstd::arithmetic::div_mod::lemma_div_multiples_vanish(pow(p, j) * t, p);
        let q = n / p;
        assert(q == pow(p, j) * t);
        assert(q > 0) by (nonlinear_arith)
            requires
                n == p * q,
                n > 0,
                p >= 2,
        ;
        lemma_product_mod(pow(p, j), t);
        lemma_power_divides(q, p, j);
    }
}

/// If `y` divides `p^e * r` and the prime `p` does not divide `y`, then `y` divides `r`.
pub proof fn lemma_coprime_divides(p: int, e: nat, r: int, y: int)
    requires
        is_prime(p),
        y > 0,
        y % p != 0,
        (pow(p, e) * r) % y == 0,
    ensures
        r % y == 0,
    decreases e,
{
    reveal(pow);
    if e > 0 {
        let j = (e - 1) as nat;
        let m = pow(p, j) * r;
        assert(pow(p, e) * r == p * m) by (nonlinear_arith)
            requires
                pow(p, e) == p * pow(p, j),
                m == pow(p, j) * r,
        ;
        lemma_mod_zero_quotient(p * m, y);
        let t = (p * m) / y;
        assert(p * m == y * t);
        lemma_product_mod(p, m);
        lemma_euclid(p, y, t);
        lemma_mod_zero_quotient(t, p);
        let s = t / p;
        assert(p * m == p * (y * s)) by (nonlinear_arith)
            requires
                p * m == y * t,
                t == p * s,
        ;
        assert(m == y * s) by (nonlinear_arith)
            requires
                p * m == p * (y * s),
                p >= 2,
        ;
        lemma_product_mod(y, s);
        lemma_coprime_divides(p, j, r, y);
    } else {
        assert(pow(p, 0) * r == r);
    }
}

/// A prime that divides a power of the prime `p` is `p`.
pub proof fn lemma_prime_divides_power(q: int, p: int, i: nat)
    requires
        is_prime(q),
        is_prime(p),
        pow(p, i) % q == 0,
    ensures
        q == p,
    decreases i,
{
    reveal(pow);
    if i == 0 {
        assert(pow(p, 0) == 1);
        assert(1int % q == 1) by {
            vstd::arithmetic::div_mod::lemma_small_mod(1, q as nat);
        }
    } else {
        let j = (i - 1) as nat;
        assert(pow(p, i) == p * pow(p, j));
        lemma_euclid(q, p, pow(p, j));
        if p % q == 0 {
            lemma_divisor_le(p, q);
            if q < p {
                assert(p % q != 0);
            }
        } else {
            lemma_prime_divides_power(q, p, j);
        }
    }
}

/// Every integer from 2 up has a prime divisor no larger than itself.
pub proof fn lemma_prime_factor(x: int) -> (q: int)
    requires
        x >= 2,
    ensures
        is_prime(q),
        q <= x,
        x % q == 0,
    decreases x,
{
    if is_prime(x) {
        vstd::arithmetic::div_mod::lemma_mod_self_0(x);
        x
    } else {
        let d = choose|d: int| 2 <= d < x && #[trigger] (x % d) == 0;
        let q = lemma_prime_factor(d);
        lemma_divides_trans(q, d, x);
        q
    }
}
/// No multiple of `p` lies strictly between two consecutive multiples.
pub proof fn lemma_between_multiples(i: int, x: int, p: int)
    requires
        p > 0,
        i % p == 0,
        i < x < i + p,
    ensures
        x % p != 0,
{
    lemma_mod_zero_quotient(i, p);
    if x % p == 0 {
        lemma_mod_zero_quotient(x, p);
        let a = i / p;
        let b = x / p;
        assert(false) by (nonlinear_arith)
            requires
                i == p * a,
                x == p * b,
                i < x < i + p,
                p > 0,
        ;
    }
}

/// There are at most `k` matches among the first `k` integers.
pub proof fn lemma_match_count_bound(k: int)
    ensures
        match_count(k) <= if k > 0 { k } else { 0 },
    decreases k,
{
    if k > 0 {
        lemma_match_count_bound(k - 1);
    }
}

/// Comparing a quotient with `q` is comparing the dividend with `q * d`.
pub proof fn lemma_quotient_compare(a: int, d: int, q: int)
    requires
        a >= 0,
        d > 0,
        q >= 0,
    ensures
        a / d >= q <==> q * d <= a,
{
    lemma_fundamental_div_mod(a, d);
    let t = a / d;
    let r = a % d;
    assert(a / d >= q <==> q * d <= a) by (nonlinear_arith)
        requires
            a == d * t + r,
            0 <= r < d,
            t == a / d,
            d > 0,
    ;
}

} // verus!
