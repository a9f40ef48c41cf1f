//! Counting by trial division: each divisor count is found on its own by
//! pairing each divisor up to the square root with its cofactor.

use vstd::arithmetic::div_mod::{lemma_div_multiples_vanish, lemma_fundamental_div_mod};
use vstd::prelude::*;
use vstd::set_lib::lemma_len_subset;

use crate::arith::{
    divisor_count, divisors, lemma_match_count_bound, lemma_mod_zero_quotient, lemma_product_mod,
    match_count,
};
use crate::smooth::lemma_divisors_finite;

verus! {

/// The divisors of `n` met by the time trial division reaches `i`: those below
/// `i`, and those whose cofactor is below `i`.
pub open spec fn paired_divisors(n: int, i: int) -> Set<int> {
    divisors(n).filter(|x: int| x < i || n / x < i)
}

/// A divisor and its cofactor multiply back to `n`, and each is the other's
/// cofactor.
proof fn lemma_cofactor(n: int, x: int)
    requires
        n > 0,
        x > 0,
        n % x == 0,
    ensures
        n == x * (n / x),
        n / x > 0,
        n / (n / x) == x,
        n % (n / x) == 0,
{
    lemma_mod_zero_quotient(n, x);
    let q = n / x;
    assert(q > 0) by (nonlinear_arith)
        requires
            n == x * q,
            n > 0,
            x > 0,
    ;
    assert(n == q * x) by (nonlinear_arith)
        requires
            n == x * q,
    ;
    lemma_div_multiples_vanish(x, q);
    lemma_product_mod(q, x);
}

/// Past the square root, a divisor at least `i` has a cofactor below `i`.
proof fn lemma_past_root(n: int, i: int, x: int)
    requires
        n > 0,
        i > 0,
        i > n / i,
        x >= i,
        n % x == 0,
    ensures
        n / x < i,
{
    lemma_cofactor(n, x);
    lemma_fundamental_div_mod(n, i);
    let q = n / x;
    let t = n / i;
    let r = n % i;
    assert(0 <= r < i);
    if q >= i {
        assert(false) by (nonlinear_arith)
            requires
                n == x * q,
                x >= i,
                q >= i,
                n == i * t + r,
                r < i,
                t < i,
                i > 0,
        ;
    }
}

/// The number of positive divisors of `n`, by trial division up to its square
/// root.
pub fn count_factors(n: usize) -> (r: usize)
    requires
        n >= 2,
    ensures
        r == divisor_count(n as int),
{
    let mut count: usize = 2;
    let mut i: usize = 2;
    proof {
        lemma_divisors_finite(n as int, 0);
        lemma_cofactor(n as int, 1);
        lemma_cofactor(n as int, n as int);
        assert forall|x: int| paired_divisors(n as int, 2).contains(x) implies x == 1 || x
            == n by {
            if x >= 2 {
                lemma_cofactor(n as int, x);
                assert(n as int / x == 1);
                assert(x * 1 == x);
            }
        }
        vstd::arithmetic::div_mod::lemma_mod_self_0(n as int);
        vstd::arithmetic::div_mod::lemma_div_basics(n as int);
        assert(paired_divisors(n as int, 2) =~= set![1int, n as int]);
    }
    while i <= n / i
        invariant
            n >= 2,
            2 <= i <= n,
            divisors(n as int).finite(),
            divisor_count(n as int) <= n,
            count == paired_divisors(n as int, i as int).len(),
        decreases n - i,
    {
        let ghost old_set = paired_divisors(n as int, i as int);
        let ghost new_set = paired_divisors(n as int, i + 1);
        proof {
            lemma_len_subset(old_set, divisors(n as int));
            lemma_len_subset(new_set, divisors(n as int));
            assert(i <= n / i);
            assert(i * i <= n) by (nonlinear_arith)
                requires
                    i <= n / i,
                    i > 0,
            ;
            assert(i < n) by (nonlinear_arith)
                requires
                    i * i <= n,
                    i >= 2,
            ;
        }
        if n % i == 0 {
            let q = n / i;
            proof {
                lemma_cofactor(n as int, i as int);
                assert forall|x: int| new_set.contains(x) && !old_set.contains(x) implies x == i
                    || x == q by {
                    if x != i {
                        lemma_cofactor(n as int, x);
                        assert(n as int / x == i);
                    }
                }
                assert(!old_set.contains(i as int));
                assert(!old_set.contains(q as int));
            }
            if i != q {
                proof {
                    assert(new_set =~= old_set.insert(i as int).insert(q as int));
                }
                count = count + 2;
            } else {
                proof {
                    assert(new_set =~= old_set.insert(i as int));
                }
                count = count + 1;
            }
        } else {
            proof {
                assert forall|x: int| new_set.contains(x) implies old_set.contains(x) by {
                    if x == i {
                    } else if n as int / x == i {
                        lemma_cofactor(n as int, x);
                        lemma_product_mod(i as int, x);
                        assert(n == x * i) by (nonlinear_arith)
                            requires
                                n == x * (n as int / x),
                                n as int / x == i,
                        ;
                    }
                }
                assert(new_set =~= old_set);
            }
        }
        i = i + 1;
    }
    proof {
        assert forall|x: int| divisors(n as int).contains(x) implies paired_divisors(
            n as int,
            i as int,
        ).contains(x) by {
            if x >= i {
                lemma_past_root(n as int, i as int, x);
            }
        }
        assert(paired_divisors(n as int, i as int) =~= divisors(n as int));
    }
    count
}

/// d(1) is 1.
pub proof fn lemma_divisor_count_one()
    ensures
        divisor_count(1) == 1,
{
    assert(divisors(1) =~= set![1int]);
}

/// The number of `m` in `[1, k]` with `d(m) == d(m + 1)`, by trial division.
pub fn the_naive_one(k: usize) -> (r: usize)
    requires
        k < usize::MAX,
    ensures
        r == match_count(k as int),
{
    let mut count: usize = 0;
    let mut last: usize = 1;
    let mut m: usize = 0;
    proof {
        lemma_divisor_count_one();
    }
    while m < k
        invariant
            m <= k < usize::MAX,
            last == divisor_count(m + 1),
            count == match_count(m as int),
        decreases k - m,
    {
        let current = count_factors(m + 2);
        proof {
            lemma_match_count_bound(m as int);
        }
        if current == last {
            count = count + 1;
        }
        last = current;
        m = m + 1;
    }
    count
}

} // verus!
