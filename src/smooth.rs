//! Divisors whose prime factors all lie below a bound. Sieving the primes below
//! `m` leaves at each index `n` the number of such divisors of `n`; once every
//! prime up to `n` has been sieved, that number is `d(n)`.

use vstd::arithmetic::power::{lemma_pow_adds, lemma_pow_positive, pow};
use vstd::prelude::*;
use vstd::relations::injective_on;
use vstd::set_lib::{
    lemma_int_range, lemma_len_subset, lemma_map_size, lemma_set_disjoint_lens, set_int_range,
};

use crate::arith::{
    divisor_count, divisors, exponent, is_prime, lemma_coprime_divides, lemma_decompose, lemma_divides_trans,
    lemma_divisor_le, lemma_euclid, lemma_exponent_of_product, lemma_mod_zero_quotient,
    lemma_power_divides, lemma_prime_divides_power, lemma_prime_factor, lemma_product_mod,
    strip,
};

verus! {

/// Every prime that divides `x` is below `m`.
pub open spec fn is_smooth(x: int, m: int) -> bool {
    forall|q: int| is_prime(q) && #[trigger] (x % q) == 0 ==> q < m
}

/// The divisors of `n` whose prime factors all lie below `m`.
pub open spec fn smooth_divisors(n: int, m: int) -> Set<int> {
    Set::new(|x: int| 1 <= x <= n && n % x == 0 && is_smooth(x, m))
}

/// How many divisors of `n` have all their prime factors below `m`.
pub open spec fn smooth_divisor_count(n: int, m: int) -> nat {
    smooth_divisors(n, m).len()
}

/// Sieving `m` turns the counts for the bound `m` into those for `m + 1`: a
/// prime multiplies each count by one more than its exponent, anything else
/// leaves it alone.
pub proof fn lemma_smooth_step(n: int, m: int)
    requires
        n >= 1,
        m >= 2,
    ensures
        is_prime(m) ==> smooth_divisor_count(n, m + 1) == (exponent(n, m) + 1)
            * smooth_divisor_count(n, m),
        !is_prime(m) ==> smooth_divisor_count(n, m + 1) == smooth_divisor_count(n, m),
{
    if is_prime(m) {
        lemma_smooth_step_prime(n, m);
    } else {
        lemma_smooth_step_composite(n, m);
    }
}

/// Sieving the prime `p` takes the count of `n` to its count for the bound
/// `p + 1`, which is at most `n`.
pub proof fn lemma_prime_pass(n: int, p: int)
    requires
        n >= 1,
        is_prime(p),
    ensures
        smooth_divisor_count(n, p) * (exponent(n, p) + 1) == smooth_divisor_count(n, p + 1),
        smooth_divisor_count(n, p + 1) <= n,
{
    lemma_smooth_step_prime(n, p);
    lemma_divisors_finite(n, p + 1);
    assert(smooth_divisor_count(n, p) * (exponent(n, p) + 1) == (exponent(n, p) + 1)
        * smooth_divisor_count(n, p)) by (nonlinear_arith);
}

/// The divisor sets are finite, and there are at most `n` of them.
pub proof fn lemma_divisors_finite(n: int, m: int)
    requires
        n >= 0,
    ensures
        divisors(n).finite(),
        smooth_divisors(n, m).finite(),
        smooth_divisor_count(n, m) <= divisor_count(n),
        divisor_count(n) <= n,
{
    lemma_int_range(1, n + 1);
    assert(divisors(n).subset_of(set_int_range(1, n + 1)));
    lemma_len_subset(divisors(n), set_int_range(1, n + 1));
    assert(smooth_divisors(n, m).subset_of(divisors(n)));
    lemma_len_subset(smooth_divisors(n, m), divisors(n));
}

/// 1 divides everything and has no prime factor.
proof fn lemma_one_is_smooth_divisor(n: int, m: int)
    requires
        n >= 1,
    ensures
        smooth_divisors(n, m).contains(1),
{
    assert(n % 1 == 0);
    assert forall|q: int| is_prime(q) && #[trigger] (1int % q) == 0 implies q < m by {
        vstd::arithmetic::div_mod::lemma_small_mod(1, q as nat);
    }
}

/// Before any prime is sieved, 1 is the only divisor counted.
pub proof fn lemma_smooth_start(n: int)
    requires
        n >= 1,
    ensures
        smooth_divisor_count(n, 2) == 1,
{
    lemma_one_is_smooth_divisor(n, 2);
    assert forall|x: int| smooth_divisors(n, 2).contains(x) implies x == 1 by {
        if x >= 2 {
            let q = lemma_prime_factor(x);
            assert(x % q == 0);
        }
    }
    assert(smooth_divisors(n, 2) =~= set![1int]);
}

/// Raising the bound past a number that is not prime counts nothing new.
pub proof fn lemma_smooth_step_composite(n: int, m: int)
    requires
        !is_prime(m),
    ensures
        smooth_divisors(n, m + 1) == smooth_divisors(n, m),
{
    assert(smooth_divisors(n, m + 1) =~= smooth_divisors(n, m));
}

/// Once the bound passes `n`, every divisor of `n` is counted.
pub proof fn lemma_smooth_complete(n: int, m: int)
    requires
        n >= 1,
        m > n,
    ensures
        smooth_divisors(n, m) == divisors(n),
        smooth_divisor_count(n, m) == divisor_count(n),
{
    assert forall|x: int| divisors(n).contains(x) implies smooth_divisors(n, m).contains(x) by {
        assert forall|q: int| is_prime(q) && #[trigger] (x % q) == 0 implies q < m by {
            lemma_divisor_le(x, q);
        }
    }
    assert(smooth_divisors(n, m) =~= divisors(n));
}

/// Below the bound `n` itself, `n` has a counted divisor besides 1 exactly when
/// it is not prime.
pub proof fn lemma_smooth_prime_test(n: int)
    requires
        n >= 2,
    ensures
        smooth_divisor_count(n, n) == 1 <==> is_prime(n),
{
    lemma_divisors_finite(n, n);
    lemma_one_is_smooth_divisor(n, n);
    if is_prime(n) {
        assert forall|x: int| smooth_divisors(n, n).contains(x) implies x == 1 by {
            if x >= 2 {
                if x < n {
                    assert(n % x != 0);
                } else {
                    vstd::arithmetic::div_mod::lemma_mod_self_0(n);
                    assert(x % n == 0);
                }
            }
        }
        assert(smooth_divisors(n, n) =~= set![1int]);
    } else {
        let d = choose|d: int| 2 <= d < n && #[trigger] (n % d) == 0;
        let q = lemma_prime_factor(d);
        lemma_divides_trans(q, d, n);
        assert forall|r: int| is_prime(r) && #[trigger] (q % r) == 0 implies r < n by {
            lemma_divisor_le(q, r);
        }
        assert(smooth_divisors(n, n).contains(q));
        assert(set![1int, q].subset_of(smooth_divisors(n, n)));
        lemma_len_subset(set![1int, q], smooth_divisors(n, n));
        assert(set![1int, q].len() == 2);
    }
}

/// A counted divisor for the bound `p` times a power of `p` that still divides
/// `n` is a counted divisor for the bound `p + 1`.
proof fn lemma_lift_divisor(n: int, p: int, i: nat, y: int)
    requires
        n >= 1,
        is_prime(p),
        i <= exponent(n, p),
        smooth_divisors(n, p).contains(y),
    ensures
        smooth_divisors(n, p + 1).contains(pow(p, i) * y),
        exponent(pow(p, i) * y, p) == i,
{
    let e = exponent(n, p);
    let r = strip(n, p);
    lemma_decompose(n, p);
    if y % p == 0 {
        assert(p < p);
    }
    lemma_coprime_divides(p, e, r, y);
    lemma_mod_zero_quotient(r, y);
    let s = r / y;
    let rest = (e - i) as nat;
    lemma_pow_adds(p, i, rest);
    assert(i + rest == e);
    lemma_pow_positive(p, i);
    let x = pow(p, i) * y;
    assert(n == x * (pow(p, rest) * s)) by (nonlinear_arith)
        requires
            n == pow(p, e) * r,
            pow(p, e) == pow(p, i) * pow(p, rest),
            r == y * s,
            x == pow(p, i) * y,
    ;
    assert(x >= 1) by (nonlinear_arith)
        requires
            x == pow(p, i) * y,
            pow(p, i) > 0,
            y >= 1,
    ;
    lemma_product_mod(x, pow(p, rest) * s);
    lemma_divisor_le(n, x);
    assert forall|q: int| is_prime(q) && #[trigger] (x % q) == 0 implies q < p + 1 by {
        lemma_euclid(q, pow(p, i), y);
        if pow(p, i) % q == 0 {
            lemma_prime_divides_power(q, p, i);
        }
    }
    lemma_exponent_of_product(p, i, y);
}

/// A counted divisor for the bound `p + 1` is a power of `p`, no higher than in
/// `n`, times a counted divisor for the bound `p`.
proof fn lemma_lower_divisor(n: int, p: int, x: int)
    requires
        n >= 1,
        is_prime(p),
        smooth_divisors(n, p + 1).contains(x),
    ensures
        smooth_divisors(n, p).contains(strip(x, p)),
        x == pow(p, exponent(x, p)) * strip(x, p),
        exponent(x, p) <= exponent(n, p),
{
    let i = exponent(x, p);
    let y = strip(x, p);
    lemma_decompose(x, p);
    lemma_pow_positive(p, i);
    lemma_product_mod(y, pow(p, i));
    assert(x % y == 0);
    lemma_divides_trans(y, x, n);
    lemma_divisor_le(x, y);
    assert forall|q: int| is_prime(q) && #[trigger] (y % q) == 0 implies q < p by {
        lemma_divides_trans(q, y, x);
    }
    lemma_product_mod(pow(p, i), y);
    lemma_divides_trans(pow(p, i), x, n);
    lemma_power_divides(n, p, i);
}

/// The counted divisors for the bound `p + 1` in which `p` occurs fewer than `i`
/// times are `i` times as many as the counted divisors for the bound `p`.
proof fn lemma_levels_below(n: int, p: int, i: nat)
    requires
        n >= 1,
        is_prime(p),
        i <= exponent(n, p) + 1,
    ensures
        smooth_divisors(n, p + 1).filter(|x: int| exponent(x, p) < i).len() == i
            * smooth_divisor_count(n, p),
    decreases i,
{
    let a = smooth_divisors(n, p + 1);
    let b = smooth_divisors(n, p);
    lemma_divisors_finite(n, p + 1);
    lemma_divisors_finite(n, p);
    if i == 0 {
        assert(a.filter(|x: int| exponent(x, p) < 0) =~= Set::empty());
    } else {
        let j = (i - 1) as nat;
        lemma_levels_below(n, p, j);
        let below = a.filter(|x: int| exponent(x, p) < j);
        let level = a.filter(|x: int| exponent(x, p) == j);
        let f = |y: int| pow(p, j) * y;
        assert forall|y: int| b.contains(y) implies level.contains(f(y)) by {
            lemma_lift_divisor(n, p, j, y);
        }
        assert forall|x: int| level.contains(x) implies b.map(f).contains(x) by {
            lemma_lower_divisor(n, p, x);
            assert(f(strip(x, p)) == x);
        }
        assert(level =~= b.map(f));
        lemma_pow_positive(p, j);
        assert forall|y1: int, y2: int|
            b.contains(y1) && b.contains(y2) && #[trigger] f(y1) == #[trigger] f(
                y2,
            ) implies y1 == y2 by {
            assert(y1 == y2) by (nonlinear_arith)
                requires
                    pow(p, j) * y1 == pow(p, j) * y2,
                    pow(p, j) > 0,
            ;
        }
        assert(injective_on(f, b));
        lemma_map_size(b, level, f);
        lemma_len_subset(below, a);
        lemma_set_disjoint_lens(below, level);
        assert(a.filter(|x: int| exponent(x, p) < i) =~= below + level);
        assert(i * b.len() == j * b.len() + b.len()) by (nonlinear_arith)
            requires
                i == j + 1,
        ;
    }
}

/// Sieving the prime `p` multiplies the count of `n` by one more than the
/// exponent of `p` in `n`.
pub proof fn lemma_smooth_step_prime(n: int, p: int)
    requires
        n >= 1,
        is_prime(p),
    ensures
        smooth_divisor_count(n, p + 1) == (exponent(n, p) + 1) * smooth_divisor_count(n, p),
{
    let a = smooth_divisors(n, p + 1);
    let e = exponent(n, p);
    lemma_levels_below(n, p, e + 1);
    assert forall|x: int| a.contains(x) implies exponent(x, p) < e + 1 by {
        lemma_lower_divisor(n, p, x);
    }
    assert(a.filter(|x: int| exponent(x, p) < e + 1) =~= a);
}

} // verus!
