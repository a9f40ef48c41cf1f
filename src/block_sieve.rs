//! The block sieve. Along the multiples of a prime `p`, the exponents of `p`
//! repeat in a self-similar pattern: at level `i`, the indices whose exponent is
//! exactly `i` come in runs of `p - 1` multiples of `p^i`, one run in each span
//! of `p^(i + 1)`. Each run is updated in one pass, with no division.

use vstd::arithmetic::div_mod::{
    lemma_fundamental_div_mod, lemma_fundamental_div_mod_converse_mod,
};
use vstd::arithmetic::power::{lemma_pow_positive, lemma_pow_strictly_increases, pow};
use vstd::prelude::*;

use crate::smooth::{
    lemma_prime_pass, lemma_smooth_complete, lemma_smooth_prime_test, lemma_smooth_start,
    lemma_smooth_step, smooth_divisor_count,
};
use crate::arith::{
    exponent, is_prime, lemma_match_count_bound, match_count, lemma_between_multiples, lemma_decompose, lemma_exponent_of_product,
    lemma_mod_zero_quotient, lemma_product_mod, lemma_quotient_compare, strip,
};

verus! {

/// The factor that levels `1` to `below - 1` contribute for an exponent `e`.
pub open spec fn level_factor(e: nat, below: nat) -> nat {
    if 1 <= e < below {
        e + 1
    } else {
        1
    }
}

/// Within the span `[j, j + p^(i + 1))` that starts at `j = p^i * (1 + t * p)`,
/// the indices whose exponent of `p` is exactly `i` are the first `p - 1`
/// multiples of `p^i` counted from `j`.
pub proof fn lemma_block(p: int, i: nat, t: int, x: int)
    requires
        p >= 2,
        t >= 0,
        pow(p, i) * (1 + t * p) <= x < pow(p, i) * (1 + t * p) + p * pow(p, i),
    ensures
        exponent(x, p) == i <==> (x < pow(p, i) * (1 + t * p) + (p - 1) * pow(p, i) && (x - pow(
            p,
            i,
        ) * (1 + t * p)) % pow(p, i) == 0),
{
    let step = pow(p, i);
    let j = step * (1 + t * p);
    lemma_pow_positive(p, i);
    assert(j >= 1) by (nonlinear_arith)
        requires
            j == step * (1 + t * p),
            step > 0,
            t >= 0,
            p >= 2,
    ;
    let d = x - j;
    lemma_fundamental_div_mod(d, step);
    let s = d / step;
    let u = d % step;
    assert(0 <= s < p) by (nonlinear_arith)
        requires
            d == step * s + u,
            0 <= u < step,
            0 <= d < p * step,
    ;
    let c = 1 + t * p + s;
    assert(x == c * step + u) by (nonlinear_arith)
        requires
            x == j + d,
            j == step * (1 + t * p),
            d == step * s + u,
            c == 1 + t * p + s,
    ;
    if u != 0 {
        lemma_fundamental_div_mod_converse_mod(x, step, c, u);
        if exponent(x, p) == i {
            lemma_decompose(x, p);
            lemma_product_mod(step, strip(x, p));
        }
    } else {
        assert(x == step * c);
        assert(c >= 1) by (nonlinear_arith)
            requires
                c == 1 + t * p + s,
                t >= 0,
                s >= 0,
                p >= 2,
        ;
        lemma_exponent_of_product(p, i, c);
        assert(x < j + (p - 1) * step <==> s < p - 1) by (nonlinear_arith)
            requires
                x == j + step * s,
                step > 0,
        ;
        if s < p - 1 {
            lemma_fundamental_div_mod_converse_mod(c, p, t, 1 + s);
        } else {
            assert(c == p * (1 + t)) by (nonlinear_arith)
                requires
                    c == 1 + t * p + s,
                    s == p - 1,
            ;
            lemma_product_mod(p, 1 + t);
        }
    }
}

/// Multiplies by `m` every entry `factors[x]` with `start <= x < end` and
/// `x - start` a multiple of `stride`.
pub fn apply_multiplier(
    factors: &mut Vec<usize>,
    start: usize,
    end: usize,
    stride: usize,
    m: usize,
)
    requires
        stride > 0,
        start <= end <= old(factors).len(),
        forall|x: int|
            start <= x < end && (x - start) % (stride as int) == 0 ==> old(factors)[x] * m
                <= usize::MAX,
    ensures
        final(factors).len() == old(factors).len(),
        forall|x: int|
            0 <= x < old(factors).len() ==> final(factors)[x] == if start <= x < end && (x
                - start) % (stride as int) == 0 {
                old(factors)[x] * m
            } else {
                old(factors)[x] as int
            },
{
    let mut idx: usize = start;
    proof {
        vstd::arithmetic::div_mod::lemma_small_mod(0, stride as nat);
    }
    while idx < end
        invariant
            stride > 0,
            start <= idx <= end,
            end <= old(factors).len(),
            factors.len() == old(factors).len(),
            idx < end ==> (idx - start) % (stride as int) == 0,
            forall|x: int|
                start <= x < end && (x - start) % (stride as int) == 0 ==> old(factors)[x] * m
                    <= usize::MAX,
            forall|x: int|
                0 <= x < old(factors).len() ==> factors[x] == if start <= x < idx && (x - start)
                    % (stride as int) == 0 {
                    old(factors)[x] * m
                } else {
                    old(factors)[x] as int
                },
        decreases end - idx,
    {
        factors.set(idx, factors[idx] * m);
        let ghost before = idx;
        if end - idx <= stride {
            idx = end;
        } else {
            idx = idx + stride;
        }
        proof {
            assert forall|x: int| before < x < idx implies #[trigger] ((x - start) % (stride as int)) != 0 by {
                lemma_between_multiples(before - start, x - start, stride as int);
            }
            if idx < end {
                let a = before - start;
                lemma_mod_zero_quotient(a, stride as int);
                lemma_product_mod(stride as int, a / (stride as int) + 1);
                assert(stride * (a / (stride as int) + 1) == a + stride) by (nonlinear_arith)
                    requires
                        a == stride * (a / (stride as int)),
                ;
            }
        }
    }
}

/// A positive `x` below `p^(level + 1)` has an exponent of `p` of at most `level`.
proof fn lemma_exponent_below_power(x: int, p: int, level: nat)
    requires
        p >= 2,
        1 <= x < pow(p, level + 1),
    ensures
        exponent(x, p) <= level,
{
    let e = exponent(x, p);
    lemma_decompose(x, p);
    lemma_pow_positive(p, e);
    assert(pow(p, e) <= x) by (nonlinear_arith)
        requires
            x == pow(p, e) * strip(x, p),
            strip(x, p) > 0,
            pow(p, e) > 0,
    ;
    if e > level {
        lemma_pow_strictly_increases(p as nat, level + 1, e);
    }
}

/// Multiplies each entry `factors[x]`, `x >= 1`, by one more than the exponent
/// of `p` in `x`. Level `i` multiplies by `i + 1` the runs of `p - 1`
/// consecutive multiples of `p^i` that start at `p^i * (1 + t * p)`.
pub fn multiply_by_exponent_blocks(factors: &mut Vec<usize>, p: usize)
    requires
        p >= 2,
        forall|x: int|
            1 <= x < old(factors).len() ==> old(factors)[x] * (exponent(x, p as int) + 1)
                <= usize::MAX,
    ensures
        final(factors).len() == old(factors).len(),
        old(factors).len() > 0 ==> final(factors)[0] == old(factors)[0],
        forall|x: int|
            1 <= x < final(factors).len() ==> final(factors)[x] == old(factors)[x] * (exponent(
                x,
                p as int,
            ) + 1),
{
    let len = factors.len();
    if len <= p {
        assert forall|x: int| 1 <= x < len implies factors[x] == old(factors)[x] * (exponent(
            x,
            p as int,
        ) + 1) by {
            vstd::arithmetic::div_mod::lemma_small_mod(x as nat, p as nat);
            assert(exponent(x, p as int) == 0);
            assert(old(factors)[x] * 1 == old(factors)[x]);
        }
        return;
    }
    let top: usize = len - 1;
    let mut level: usize = 1;
    let mut step: usize = p;
    let mut more = true;
    proof {
        vstd::arithmetic::power::lemma_pow1(p as int);
        assert forall|x: int| 1 <= x < len implies factors[x] == old(factors)[x] * level_factor(
            exponent(x, p as int),
            1,
        ) by {
            assert(old(factors)[x] * 1 == old(factors)[x]);
        }
    }
    while more
        invariant
            p >= 2,
            len == factors.len(),
            len == old(factors).len(),
            top == len - 1,
            p <= top,
            1 <= level < step,
            step == pow(p as int, level as nat),
            more ==> step <= top,
            !more ==> forall|x: int| 1 <= x <= top ==> exponent(x, p as int) <= level,
            factors[0] == old(factors)[0],
            forall|x: int|
                1 <= x < len ==> old(factors)[x] * (exponent(x, p as int) + 1) <= usize::MAX,
            forall|x: int|
                1 <= x < len ==> factors[x] == old(factors)[x] * level_factor(
                    exponent(x, p as int),
                    if more {
                        level as nat
                    } else {
                        (level + 1) as nat
                    },
                ),
        decreases (if more {
            top + 1 - step
        } else {
            0
        }),
    {
        let mut j: usize = step;
        let ghost mut t: int = 0;
        let mut going = true;
        proof {
            assert(j == step * (1 + t * p)) by (nonlinear_arith)
                requires
                    j == step,
                    t == 0,
            ;
            assert forall|x: int| 1 <= x < len implies factors[x] == old(factors)[x]
                * level_factor(exponent(x, p as int), level as nat) * (if exponent(x, p as int)
                == level && (!going || x < j) {
                level + 1
            } else {
                1
            }) by {
                if x < j {
                    lemma_exponent_below_power(x, p as int, (level - 1) as nat);
                }
                assert(old(factors)[x] * level_factor(exponent(x, p as int), level as nat) * 1
                    == old(factors)[x] * level_factor(exponent(x, p as int), level as nat));
            }
        }
        while going
            invariant
                p >= 2,
                len == factors.len(),
                len == old(factors).len(),
                top == len - 1,
                1 <= level < step <= top,
                step == pow(p as int, level as nat),
                t >= 0,
                j == step * (1 + t * p),
                j >= step,
                going ==> j <= top,
                factors[0] == old(factors)[0],
                forall|x: int|
                    1 <= x < len ==> old(factors)[x] * (exponent(x, p as int) + 1)
                        <= usize::MAX,
                forall|x: int|
                    1 <= x < len ==> factors[x] == old(factors)[x] * level_factor(
                        exponent(x, p as int),
                        level as nat,
                    ) * (if exponent(x, p as int) == level && (!going || x < j) {
                        level + 1
                    } else {
                        1
                    }),
            decreases (if going {
                top + 1 - j
            } else {
                0
            }),
        {
            let room = len - j;
            proof {
                lemma_quotient_compare(room as int, step as int, p - 1);
            }
            let end: usize = if room / step < p - 1 {
                len
            } else {
                j + (p - 1) * step
            };
            proof {
                assert(end <= j + (p - 1) * step);
                assert((p - 1) * step + step == p * step) by (nonlinear_arith);
                assert(step * (1 + t * p) + p * step == j + p * step);
                assert forall|x: int| j <= x < len && x < j + p * step implies (exponent(
                    x,
                    p as int,
                ) == level <==> (x < end && (x - j) % (step as int) == 0)) by {
                    lemma_block(p as int, level as nat, t, x);
                }
                assert forall|x: int|
                    j <= x < end && (x - j) % (step as int) == 0 implies #[trigger] factors[x]
                    * (level + 1) <= usize::MAX by {
                    lemma_block(p as int, level as nat, t, x);
                    assert(factors[x] == old(factors)[x] * 1 * 1);
                }
            }
            let ghost before = *factors;
            let ghost j0 = j;
            let ghost t0 = t;
            apply_multiplier(factors, j, end, step, level + 1);
            assert(factors[0] == before[0]);
            proof {
                lemma_quotient_compare((top - j) as int, step as int, p as int);
            }
            if (top - j) / step < p {
                going = false;
            } else {
                j = j + p * step;
                proof {
                    t = t + 1;
                    assert(j == step * (1 + t * p)) by (nonlinear_arith)
                        requires
                            j == j0 + p * step,
                            j0 == step * (1 + (t - 1) * p),
                    ;
                }
            }
            proof {
                assert forall|x: int| 1 <= x < len implies factors[x] == old(factors)[x]
                    * level_factor(exponent(x, p as int), level as nat) * (if exponent(
                    x,
                    p as int,
                ) == level && (!going || x < j) {
                    level + 1
                } else {
                    1
                }) by {
                    if j0 <= x && x < j0 + p * step {
                        lemma_block(p as int, level as nat, t0, x);
                    }
                }
            }
        }
        proof {
            assert forall|x: int| 1 <= x < len implies factors[x] == old(factors)[x]
                * level_factor(exponent(x, p as int), (level + 1) as nat) by {
                if exponent(x, p as int) == level {
                    assert(old(factors)[x] * 1 * (level + 1) == old(factors)[x] * (level + 1));
                } else {
                    assert(old(factors)[x] * level_factor(exponent(x, p as int), level as nat) * 1
                        == old(factors)[x] * level_factor(exponent(x, p as int), level as nat));
                }
            }
            lemma_quotient_compare(top as int, p as int, step as int);
        }
        if step <= top / p {
            proof {
                vstd::arithmetic::power::lemma_pow_adds(p as int, level as nat, 1);
                vstd::arithmetic::power::lemma_pow1(p as int);
                assert(step * p >= step + 1) by (nonlinear_arith)
                    requires
                        p >= 2,
                        step >= 1,
                ;
            }
            step = step * p;
            level = level + 1;
        } else {
            more = false;
            proof {
                vstd::arithmetic::power::lemma_pow_adds(p as int, level as nat, 1);
                vstd::arithmetic::power::lemma_pow1(p as int);
                assert forall|x: int| 1 <= x <= top implies exponent(x, p as int) <= level by {
                    lemma_exponent_below_power(x, p as int, level as nat);
                }
            }
        }
    }
    assert forall|x: int| 1 <= x < len implies factors[x] == old(factors)[x] * (exponent(
        x,
        p as int,
    ) + 1) by {
        if exponent(x, p as int) == 0 {
            assert(old(factors)[x] * 1 == old(factors)[x]);
        }
    }
}

/// The number of `m` in `[1, k]` with `d(m) == d(m + 1)`, by a sieve over
/// prime multiples that updates the runs of each exponent level in blocks.
pub fn the_faster_one(k: usize) -> (r: usize)
    requires
        k + 2 <= usize::MAX,
    ensures
        r == match_count(k as int),
{
    let top: usize = k + 1;
    let mut count: usize = 0;
    let mut factors: Vec<usize> = vec![1; top + 1];
    proof {
        assert forall|x: int| 1 <= x <= top implies factors[x] == smooth_divisor_count(x, 2) by {
            lemma_smooth_start(x);
        }
    }
    let mut n: usize = 2;
    while n <= top
        invariant
            2 <= n <= top + 1,
            top == k + 1,
            top + 1 <= usize::MAX,
            factors.len() == top + 1,
            forall|x: int| 1 <= x <= top ==> factors[x] == smooth_divisor_count(x, n as int),
            count == match_count(n - 2),
        decreases top + 1 - n,
    {
        proof {
            lemma_smooth_prime_test(n as int);
        }
        if factors[n] == 1 {
            proof {
                assert forall|x: int| 1 <= x <= top implies smooth_divisor_count(x, n as int) * (
                exponent(x, n as int) + 1) <= usize::MAX by {
                    lemma_prime_pass(x, n as int);
                }
            }
            multiply_by_exponent_blocks(&mut factors, n);
        }
        proof {
            assert forall|x: int| 1 <= x <= top implies factors[x] == smooth_divisor_count(
                x,
                n + 1,
            ) by {
                if is_prime(n as int) {
                    lemma_prime_pass(x, n as int);
                } else {
                    lemma_smooth_step(x, n as int);
                }
            }
            lemma_smooth_complete(n as int, n + 1);
            lemma_smooth_complete(n - 1, n + 1);
            lemma_match_count_bound(n - 2);
        }
        if factors[n] == factors[n - 1] {
            count = count + 1;
        }
        n = n + 1;
    }
    count
}

} // verus!
