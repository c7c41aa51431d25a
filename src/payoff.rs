//! The schedule repays the whole principal: the final running balance is not positive.
//!
//! The proof compares the schedule with the exact annuity recurrence
//! `B(k+1) = B(k) * (1 + r) - payment`, scaled by `MONTHLY_RATE_DENOM^k` so
//! that it stays in integers.
use vstd::prelude::*;
use crate::arith::lemma_ceil_div_bounds;
use crate::loan::{
    LoanTerms, lemma_discount_bounds, monthly_payment, discount,
    FIXED_ONE, MONTHLY_RATE_DENOM,
};
use crate::schedule::{
    balance_after, interest_on, principal_total, lemma_balance_ordered, lemma_interest_monotone,
    lemma_principal_total,
};

verus! {

/// `x` to the power `k`.
pub open spec fn power(x: int, k: nat) -> int
    decreases k,
{
    if k == 0 { 1 } else { power(x, (k - 1) as nat) * x }
}

/// The balance after `k` payments of `payment` with interest charged exactly,
/// times `MONTHLY_RATE_DENOM^k`.
pub open spec fn scaled_exact_balance(t: LoanTerms, payment: int, k: nat) -> int
    decreases k,
{
    if k == 0 {
        t.principal as int
    } else {
        scaled_exact_balance(t, payment, (k - 1) as nat) * (MONTHLY_RATE_DENOM + t.annual_rate)
            - payment * power(MONTHLY_RATE_DENOM as int, k)
    }
}

/// The accumulated payments in `scaled_exact_balance`, without the payment factor.
pub open spec fn scaled_paid(rate: int, k: nat) -> int
    decreases k,
{
    if k == 0 {
        0
    } else {
        scaled_paid(rate, (k - 1) as nat) * (MONTHLY_RATE_DENOM + rate)
            + power(MONTHLY_RATE_DENOM as int, k)
    }
}

proof fn lemma_power_positive(x: int, k: nat)
    requires
        x >= 1,
    ensures
        power(x, k) >= 1,
    decreases k,
{
    if k > 0 {
        lemma_power_positive(x, (k - 1) as nat);
        let q = power(x, (k - 1) as nat);
        assert(q * x >= 1) by (nonlinear_arith) requires q >= 1, x >= 1;
    }
}

/// Closed form of the scaled exact balance.
proof fn lemma_scaled_exact_closed(t: LoanTerms, p: int, k: nat)
    ensures
        scaled_exact_balance(t, p, k) == t.principal * power(MONTHLY_RATE_DENOM + t.annual_rate, k)
            - p * scaled_paid(t.annual_rate as int, k),
        t.annual_rate * scaled_paid(t.annual_rate as int, k) == MONTHLY_RATE_DENOM * (
            power(MONTHLY_RATE_DENOM + t.annual_rate, k) - power(MONTHLY_RATE_DENOM as int, k)),
    decreases k,
{
    if k > 0 {
        let j = (k - 1) as nat;
        lemma_scaled_exact_closed(t, p, j);
        let d = MONTHLY_RATE_DENOM as int;
        let b = t.annual_rate as int;
        let a0 = power(d + b, j);
        let c0 = power(d, j);
        let g0 = scaled_paid(b, j);
        let e0 = scaled_exact_balance(t, p, j);
        let pr = t.principal as int;
        assert(power(d + b, k) == a0 * (d + b));
        assert(power(d, k) == c0 * d);
        assert(scaled_paid(b, k) == g0 * (d + b) + c0 * d);
        assert(scaled_exact_balance(t, p, k) == e0 * (d + b) - p * (c0 * d));
        assert(e0 * (d + b) - p * (c0 * d) == pr * (a0 * (d + b)) - p * (g0 * (d + b) + c0 * d))
            by (nonlinear_arith)
            requires e0 == pr * a0 - p * g0;
        assert(b * (g0 * (d + b) + c0 * d) == d * (a0 * (d + b) - c0 * d)) by (nonlinear_arith)
            requires b * g0 == d * (a0 - c0);
    }
}

/// The rounded-up discount factor is at least the exact `(D / (D + rate))^k`.
proof fn lemma_discount_lower(rate: int, k: nat)
    requires
        0 <= rate,
    ensures
        discount(rate, k) * power(MONTHLY_RATE_DENOM + rate, k)
            >= FIXED_ONE * power(MONTHLY_RATE_DENOM as int, k),
    decreases k,
{
    if k > 0 {
        let j = (k - 1) as nat;
        lemma_discount_lower(rate, j);
        lemma_discount_bounds(rate, j);
        let d = MONTHLY_RATE_DENOM as int;
        let h0 = discount(rate, j);
        let h = discount(rate, k);
        let a0 = power(d + rate, j);
        let c0 = power(d, j);
        assert(h0 * d >= 0) by (nonlinear_arith) requires h0 >= 0, d > 0;
        lemma_ceil_div_bounds(h0 * d, d + rate);
        assert(h * (d + rate) >= h0 * d);
        lemma_power_positive(d + rate, j);
        assert(h * (a0 * (d + rate)) >= FIXED_ONE * (c0 * d)) by (nonlinear_arith)
            requires h * (d + rate) >= h0 * d, h0 * a0 >= FIXED_ONE * c0, a0 >= 1, d > 0;
    }
}

/// While the running balance has stayed non-negative, it is at most the exact balance.
proof fn lemma_balance_below_exact(t: LoanTerms, k: nat)
    requires
        t.wf(),
        t.principal >= 0,
        forall|j: nat| j < k ==> 0 <= #[trigger] balance_after(t, j),
    ensures
        balance_after(t, k) * power(MONTHLY_RATE_DENOM as int, k) <= scaled_exact_balance(
            t,
            monthly_payment(t),
            k,
        ),
    decreases k,
{
    if k > 0 {
        let j = (k - 1) as nat;
        lemma_balance_below_exact(t, j);
        let d = MONTHLY_RATE_DENOM as int;
        let b = t.annual_rate as int;
        let x = balance_after(t, j);
        assert(0 <= x);
        let c0 = power(d, j);
        lemma_power_positive(d, j);
        let i = interest_on(x, b);
        assert(x * b >= 0) by (nonlinear_arith) requires x >= 0, b >= 0;
        crate::arith::lemma_div_bounds_exact(x * b, d);
        assert(i * d <= x * b);
        let y = balance_after(t, k);
        let p = monthly_payment(t);
        assert(y == x + i - p);
        let e0 = scaled_exact_balance(t, p, j);
        assert(y * (c0 * d) <= e0 * (d + b) - p * (c0 * d)) by (nonlinear_arith)
            requires y == x + i - p, i * d <= x * b, x * c0 <= e0, c0 >= 1, d > 0, b >= 0;
    }
}

/// The exact balance with the rounded-up payment is not positive at the end of the term.
proof fn lemma_exact_paid_off(t: LoanTerms)
    requires
        t.wf(),
        t.principal >= 0,
        t.annual_rate > 0,
    ensures
        scaled_exact_balance(t, monthly_payment(t), t.periods() as nat) <= 0,
{
    let n = t.periods() as nat;
    let d = MONTHLY_RATE_DENOM as int;
    let s = FIXED_ONE as int;
    let b = t.annual_rate as int;
    let pr = t.principal as int;
    let p = monthly_payment(t);
    lemma_scaled_exact_closed(t, p, n);
    lemma_discount_lower(b, n);
    lemma_discount_bounds(b, n);
    let h = discount(b, n);
    let a = power(d + b, n);
    let c = power(d, n);
    let num = pr * b * s;
    let den = d * (s - h);
    assert(num >= 0) by (nonlinear_arith) requires pr >= 0, b >= 0, s > 0, num == pr * b * s;
    assert(den >= 1) by (nonlinear_arith) requires h < s, d > 0, den == d * (s - h);
    lemma_ceil_div_bounds(num, den);
    assert(p * den >= num);
    lemma_power_positive(d + b, n);
    assert(pr * b * a <= p * d * (a - c)) by (nonlinear_arith)
        requires p * (d * (s - h)) >= pr * b * s, h * a >= s * c, a >= 1, s > 0, p >= 0, d > 0;
    let e = scaled_exact_balance(t, p, n);
    assert(b * e <= 0) by (nonlinear_arith)
        requires e == pr * a - p * scaled_paid(b, n), b * scaled_paid(b, n) == d * (a - c),
            pr * b * a <= p * d * (a - c);
    assert(e <= 0) by (nonlinear_arith) requires b * e <= 0, b > 0;
}

/// At a zero rate the balance falls by exactly one payment each period.
proof fn lemma_zero_rate_balance(t: LoanTerms, k: nat)
    requires
        t.annual_rate == 0,
    ensures
        balance_after(t, k) == t.principal - k * monthly_payment(t),
    decreases k,
{
    if k > 0 {
        lemma_zero_rate_balance(t, (k - 1) as nat);
        let x = balance_after(t, (k - 1) as nat);
        lemma_interest_monotone(x, x, 0);
        let p = monthly_payment(t);
        assert(k * p == (k - 1) * p + p) by (nonlinear_arith);
        assert(interest_on(x, t.annual_rate as int) == 0);
        assert(balance_after(t, k) == x - p);
    } else {
        assert(k * monthly_payment(t) == 0) by (nonlinear_arith) requires k == 0;
    }
}

/// The schedule repays the loan: the running balance after the last payment is
/// not positive, so the principal portions add up to at least the principal.
pub proof fn lemma_fully_amortized(t: LoanTerms)
    requires
        t.wf(),
        t.principal >= 0,
    ensures
        balance_after(t, t.periods() as nat) <= 0,
        principal_total(t, t.periods() as nat) >= t.principal,
{
    let n = t.periods() as nat;
    lemma_principal_total(t, n);
    if t.annual_rate == 0 {
        lemma_zero_rate_balance(t, n);
        lemma_ceil_div_bounds(t.principal as int, n as int);
        assert(n * monthly_payment(t) == monthly_payment(t) * n) by (nonlinear_arith);
    } else if exists|j: nat| j < n && #[trigger] balance_after(t, j) < 0 {
        let j = choose|j: nat| j < n && #[trigger] balance_after(t, j) < 0;
        lemma_balance_ordered(t, j, n);
    } else {
        lemma_balance_below_exact(t, n);
        lemma_exact_paid_off(t);
        lemma_power_positive(MONTHLY_RATE_DENOM as int, n);
        let c = power(MONTHLY_RATE_DENOM as int, n);
        let y = balance_after(t, n);
        assert(y <= 0) by (nonlinear_arith)
            requires y * c <= scaled_exact_balance(t, monthly_payment(t), n),
                scaled_exact_balance(t, monthly_payment(t), n) <= 0, c >= 1;
    }
}

/// One month of interest as the schedule takes it is at least the exact
/// interest less one micro-unit.
proof fn lemma_interest_lower(x: int, rate: int)
    requires
        0 <= rate,
    ensures
        interest_on(x, rate) * MONTHLY_RATE_DENOM >= x * rate - MONTHLY_RATE_DENOM,
{
    let d = MONTHLY_RATE_DENOM as int;
    if x >= 0 {
        crate::arith::lemma_div_bounds_exact(x * rate, d);
    } else {
        let m = (-x) * rate;
        assert(m >= 0) by (nonlinear_arith) requires x < 0, rate >= 0, m == (-x) * rate;
        crate::arith::lemma_div_bounds_exact(m, d);
        assert(x * rate == -m) by (nonlinear_arith) requires m == (-x) * rate;
    }
}

/// The running balance after `k` payments is at least the exact-interest
/// balance of a loan that pays one micro-unit more each month.
proof fn lemma_balance_above_exact(t: LoanTerms, k: nat)
    requires
        t.wf(),
    ensures
        balance_after(t, k) * power(MONTHLY_RATE_DENOM as int, k) >= scaled_exact_balance(
            t,
            monthly_payment(t) + 1,
            k,
        ),
    decreases k,
{
    if k > 0 {
        let j = (k - 1) as nat;
        lemma_balance_above_exact(t, j);
        let d = MONTHLY_RATE_DENOM as int;
        let b = t.annual_rate as int;
        let p = monthly_payment(t);
        let x = balance_after(t, j);
        let c0 = power(d, j);
        lemma_power_positive(d, j);
        let i = interest_on(x, b);
        lemma_interest_lower(x, b);
        let y = balance_after(t, k);
        assert(y == x + i - p);
        let e0 = scaled_exact_balance(t, p + 1, j);
        assert(y * (c0 * d) >= e0 * (d + b) - (p + 1) * (c0 * d)) by (nonlinear_arith)
            requires y == x + i - p, i * d >= x * b - d, x * c0 >= e0, c0 >= 1, d > 0, b >= 0;
    }
}

/// The principal repaid over the whole term, scaled by `MONTHLY_RATE_DENOM^n`,
/// is at most what payments one micro-unit above the monthly payment would
/// repay with interest charged exactly; while no balance before the last
/// payment is negative, it is at least what the monthly payment itself would
/// repay with exact interest. `lemma_fully_amortized` gives the lower bound
/// of the principal itself.
pub proof fn lemma_principal_total_bracketed(t: LoanTerms)
    requires
        t.wf(),
    ensures
        ({
            let n = t.periods() as nat;
            let c = power(MONTHLY_RATE_DENOM as int, n);
            &&& principal_total(t, n) * c <= t.principal * c - scaled_exact_balance(
                t,
                monthly_payment(t) + 1,
                n,
            )
            &&& (forall|j: nat| j < n ==> 0 <= #[trigger] balance_after(t, j)) ==> t.principal * c
                - scaled_exact_balance(t, monthly_payment(t), n) <= principal_total(t, n) * c
        }),
{
    let n = t.periods() as nat;
    let c = power(MONTHLY_RATE_DENOM as int, n);
    lemma_principal_total(t, n);
    lemma_balance_above_exact(t, n);
    if forall|j: nat| j < n ==> 0 <= #[trigger] balance_after(t, j) {
        assert(t.principal >= 0) by {
            if n > 0 {
                assert(0 <= balance_after(t, 0));
            }
        }
        lemma_balance_below_exact(t, n);
    }
    let y = balance_after(t, n);
    let pt = principal_total(t, n);
    assert(pt * c == t.principal * c - y * c) by (nonlinear_arith)
        requires pt == t.principal - y;
}

} // verus!
