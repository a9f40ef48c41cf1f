//! The prime-multiple sieve that finds each exponent by repeated division.

use vstd::arithmetic::div_mod::lemma_div_is_strictly_smaller;
use vstd::prelude::*;

use crate::arith::{
    exponent, is_prime, lemma_between_multiples, lemma_match_count_bound,
    lemma_mod_zero_quotient, lemma_product_mod, match_count,
};
use crate::smooth::{
    lemma_prime_pass, lemma_smooth_complete, lemma_smooth_prime_test, lemma_smooth_start,
    lemma_smooth_step, smooth_divisor_count,
};

verus! {

/// How many times `factor` divides `n`.
pub fn find_exponent(n: usize, factor: usize) -> (r: usize)
    requires
        n > 0,
        factor >= 2,
    ensures
        r == exponent(n as int, factor as int),
        r <= n,
{
    let mut m: usize = n;
    let mut e: usize = 0;
    while m % factor == 0
        invariant
            factor >= 2,
            m > 0,
            e + exponent(m as int, factor as int) == exponent(n as int, factor as int),
            e <= n - m,
        decreases m,
    {
        proof {
            lemma_mod_zero_quotient(m as int, factor as int);
            lemma_div_is_strictly_smaller(m as int, factor as int);
            let q = m as int / factor as int;
            assert(q > 0) by (nonlinear_arith)
                requires
                    m == factor * q,
                    m > 0,
                    factor >= 2,
            ;
        }
        m = m / factor;
        e = e + 1;
    }
    e
}

/// Multiplies each entry `factors[x]`, `x >= 1`, by one more than the exponent
/// of `p` in `x`, finding each exponent by repeated division.
pub fn multiply_by_exponents(factors: &mut Vec<usize>, p: usize)
    requires
        p >= 2,
        forall|x: int|
            1 <= x < old(factors).len() ==> old(factors)[x] * (exponent(x, p as int) + 1)
                <= usize::MAX,
    ensures
        final(factors).len() == old(factors).len(),
        old(factors).len() > 0 ==> final(factors)[0] == old(factors)[0],
        forall|x: int|
            1 <= x < final(factors).len() ==> final(factors)[x] == old(factors)[x] * (exponent(
                x,
                p as int,
            ) + 1),
{
    let len = factors.len();
    let mut i: usize = if p < len {
        p
    } else {
        len
    };
    assert forall|x: int| 1 <= x < len implies factors[x] == old(factors)[x] * if x < i {
        exponent(x, p as int) + 1
    } else {
        1
    } by {
        assert(factors[x] == old(factors)[x]);
        if x < i {
            vstd::arithmetic::div_mod::lemma_small_mod(x as nat, p as nat);
            assert(exponent(x, p as int) == 0);
            assert(old(factors)[x] * (exponent(x, p as int) + 1) == old(factors)[x]);
        } else {
            assert(old(factors)[x] * 1 == old(factors)[x]);
        }
    }
    while i < len
        invariant
            p >= 2,
            len == factors.len(),
            len == old(factors).len(),
            i <= len,
            i < len ==> i % p == 0 && p <= i,
            i == len || p <= i,
            len > 0 ==> factors[0] == old(factors)[0],
            forall|x: int|
                1 <= x < len ==> old(factors)[x] * (exponent(x, p as int) + 1) <= usize::MAX,
            forall|x: int|
                1 <= x < len ==> factors[x] == old(factors)[x] * if x < i {
                    exponent(x, p as int) + 1
                } else {
                    1
                },
        decreases len - i,
    {
        let e = find_exponent(i, p);
        factors.set(i, factors[i] * (e + 1));
        let ghost before = i;
        if len - i <= p {
            i = len;
        } else {
            i = i + p;
        }
        proof {
            if i < len {
                lemma_mod_zero_quotient(before as int, p as int);
                lemma_product_mod(p as int, before as int / p as int + 1);
                assert(p * (before as int / p as int + 1) == before + p) by (nonlinear_arith)
                    requires
                        before == p * (before as int / p as int),
                ;
            }
        }
        assert forall|x: int| before < x < i implies exponent(x, p as int) == 0 by {
            lemma_between_multiples(before as int, x, p as int);
        }
    }
}

/// The number of `m` in `[1, k]` with `d(m) == d(m + 1)`, by a sieve over
/// prime multiples that finds each exponent by repeated division.
pub fn the_fast_one(k: usize) -> (r: usize)
    requires
        k + 2 <= usize::MAX,
    ensures
        r == match_count(k as int),
{
    let top: usize = k + 1;
    let mut count: usize = 0;
    let mut factors: Vec<usize> = vec![1; top + 1];
    proof {
        assert forall|x: int| 1 <= x <= top implies factors[x] == smooth_divisor_count(x, 2) by {
            lemma_smooth_start(x);
        }
    }
    let mut n: usize = 2;
    while n <= top
        invariant
            2 <= n <= top + 1,
            top == k + 1,
            top + 1 <= usize::MAX,
            factors.len() == top + 1,
            forall|x: int| 1 <= x <= top ==> factors[x] == smooth_divisor_count(x, n as int),
            count == match_count(n - 2),
        decreases top + 1 - n,
    {
        proof {
            lemma_smooth_prime_test(n as int);
        }
        if factors[n] == 1 {
            proof {
                assert forall|x: int| 1 <= x <= top implies smooth_divisor_count(x, n as int) * (
                exponent(x, n as int) + 1) <= usize::MAX by {
                    lemma_prime_pass(x, n as int);
                }
            }
            multiply_by_exponents(&mut factors, n);
        }
        proof {
            assert forall|x: int| 1 <= x <= top implies factors[x] == smooth_divisor_count(
                x,
                n + 1,
            ) by {
                if is_prime(n as int) {
                    lemma_prime_pass(x, n as int);
                } else {
                    lemma_smooth_step(x, n as int);
                }
            }
            lemma_smooth_complete(n as int, n + 1);
            lemma_smooth_complete(n - 1, n + 1);
            lemma_match_count_bound(n - 2);
        }
        if factors[n] == factors[n - 1] {
            count = count + 1;
        }
        n = n + 1;
    }
    count
}

} // verus!
