//! Integer division facts used by the payment and schedule proofs.
use vstd::prelude::*;
use vstd::arithmetic::div_mod::{lemma_fundamental_div_mod, lemma_div_is_ordered};

verus! {

/// Division rounded up, for a non-negative numerator and a positive divisor.
pub open spec fn ceil_div(a: int, d: int) -> int {
    (a + d - 1) / d
}

/// The quotient is at most `q` when the numerator is below `(q + 1) * d`.
pub proof fn lemma_div_at_most(a: int, d: int, q: int)
    requires
        0 <= a,
        0 < d,
        a < (q + 1) * d,
    ensures
        a / d <= q,
{
    lemma_fundamental_div_mod(a, d);
    let k = a / d;
    assert(0 <= a % d < d);
    if k >= q + 1 {
        assert(d * k >= (q + 1) * d) by (nonlinear_arith)
            requires k >= q + 1, d > 0;
    }
}

/// The quotient is at least `q` when the numerator is at least `q * d`.
pub proof fn lemma_div_at_least(a: int, d: int, q: int)
    requires
        0 < d,
        q * d <= a,
    ensures
        q <= a / d,
{
    lemma_fundamental_div_mod(a, d);
    let k = a / d;
    assert(0 <= a % d < d);
    if k < q {
        assert(d * k <= q * d - d) by (nonlinear_arith)
            requires k <= q - 1, d > 0;
    }
}

/// Dividing by a larger divisor gives no larger quotient.
pub proof fn lemma_div_by_larger(a: int, d1: int, d2: int)
    requires
        0 <= a,
        0 < d1 <= d2,
    ensures
        a / d2 <= a / d1,
        0 <= a / d2,
{
    vstd::arithmetic::div_mod::lemma_div_is_ordered_by_denominator(a, d1, d2);
    lemma_div_at_least(a, d2, 0);
}

/// Division by a positive divisor is monotone in the numerator.
pub proof fn lemma_div_monotone(a: int, b: int, d: int)
    requires
        a <= b,
        0 < d,
    ensures
        a / d <= b / d,
{
    lemma_div_is_ordered(a, b, d);
}

/// The quotient `q` of `x` by `d` satisfies `q * d <= x < (q + 1) * d`.
pub proof fn lemma_div_bounds_exact(x: int, d: int)
    requires
        0 < d,
    ensures
        (x / d) * d <= x < (x / d + 1) * d,
{
    lemma_fundamental_div_mod(x, d);
    assert(0 <= x % d < d);
    let q = x / d;
    assert(q * d == d * q) by (nonlinear_arith);
    assert((q + 1) * d == d * q + d) by (nonlinear_arith);
}

/// Bounds of a quotient rounded up.
pub proof fn lemma_ceil_div_bounds(a: int, d: int)
    requires
        0 <= a,
        0 < d,
    ensures
        ceil_div(a, d) * d >= a,
        (ceil_div(a, d) - 1) * d < a,
        ceil_div(a, d) >= 0,
        a >= 1 ==> ceil_div(a, d) >= 1,
        ceil_div(a, d) >= a / d,
{
    let q = ceil_div(a, d);
    lemma_fundamental_div_mod(a + d - 1, d);
    assert(0 <= (a + d - 1) % d < d);
    assert(q * d == d * q) by (nonlinear_arith);
    assert((q - 1) * d == q * d - d) by (nonlinear_arith);
    lemma_div_at_least(a + d - 1, d, 0);
    if a >= 1 {
        lemma_div_at_least(a + d - 1, d, 1);
    }
    lemma_div_monotone(a, a + d - 1, d);
}

/// Adding `k` multiples of the divisor adds `k` to the quotient.
pub proof fn lemma_div_shift(x: int, k: int, d: int)
    requires
        0 < d,
    ensures
        (x + k * d) / d == x / d + k,
{
    lemma_div_bounds_exact(x, d);
    let q = x / d;
    assert((q + k) * d <= x + k * d < (q + k + 1) * d) by (nonlinear_arith)
        requires q * d <= x < (q + 1) * d;
    assert(0 < d);
    lemma_div_bounds_exact(x + k * d, d);
    let q2 = (x + k * d) / d;
    assert(q2 == q + k) by (nonlinear_arith)
        requires q2 * d <= x + k * d < (q2 + 1) * d, (q + k) * d <= x + k * d < (q + k + 1) * d,
            d > 0;
}

} // verus!
