//! The month-by-month amortization schedule of a loan.
use vstd::prelude::*;
use crate::arith::{lemma_ceil_div_bounds, lemma_div_at_least, lemma_div_by_larger, lemma_div_monotone};
use crate::loan::{
    LoanTerms, calculate_monthly_payment, lemma_discount_bounds,
    monthly_payment, discount, FIXED_ONE, MONTHLY_RATE_DENOM, PAYMENT_BOUND,
};

verus! {

/// Largest magnitude of a running balance that the schedule handles, in micro-units.
pub const BALANCE_LIMIT: i128 = 10_000_000_000_000_000_000_000_000_000;

/// One period of the schedule. Amounts are in micro-units.
#[derive(Clone, Copy, Debug, PartialEq, Eq, Structural)]
pub struct PeriodicBreakdown {
    /// Period number, starting at 1.
    pub period_index: u32,
    /// The fixed payment.
    pub payment: i128,
    /// Part of the payment that repays principal.
    pub principal_portion: i128,
    /// Part of the payment that pays interest.
    pub interest_portion: i128,
    /// Balance after this payment, shown as zero where it fell below zero.
    pub remaining_balance: i128,
}

/// One month of interest on a balance, rounded toward zero.
pub open spec fn interest_on(balance: int, rate: int) -> int {
    if balance >= 0 {
        balance * rate / (MONTHLY_RATE_DENOM as int)
    } else {
        -((-balance) * rate / (MONTHLY_RATE_DENOM as int))
    }
}

/// The running balance after `k` payments, not clamped at zero.
pub open spec fn balance_after(t: LoanTerms, k: nat) -> int
    decreases k,
{
    if k == 0 {
        t.principal as int
    } else {
        let b = balance_after(t, (k - 1) as nat);
        b + interest_on(b, t.annual_rate as int) - monthly_payment(t)
    }
}

/// Interest paid in the period after `k` payments.
pub open spec fn interest_at(t: LoanTerms, k: nat) -> int {
    interest_on(balance_after(t, k), t.annual_rate as int)
}

/// Principal repaid in the period after `k` payments.
pub open spec fn principal_at(t: LoanTerms, k: nat) -> int {
    monthly_payment(t) - interest_at(t, k)
}

/// A balance as shown: negative values read as zero.
pub open spec fn clamp_zero(x: int) -> int {
    if x >= 0 { x } else { 0 }
}

/// Principal repaid over the first `k` periods.
pub open spec fn principal_total(t: LoanTerms, k: nat) -> int
    decreases k,
{
    if k == 0 {
        0
    } else {
        principal_total(t, (k - 1) as nat) + principal_at(t, (k - 1) as nat)
    }
}

/// Every balance from which a period's interest is taken stays within `BALANCE_LIMIT`.
pub open spec fn balances_in_range(t: LoanTerms) -> bool {
    forall|k: nat| k < t.periods() ==> -BALANCE_LIMIT <= #[trigger] balance_after(t, k)
        <= BALANCE_LIMIT
}

/// Entry `i` of the schedule describes period `i + 1`.
pub open spec fn is_period(e: PeriodicBreakdown, t: LoanTerms, i: nat) -> bool {
    &&& e.period_index == i + 1
    &&& e.payment == monthly_payment(t)
    &&& e.interest_portion == interest_at(t, i)
    &&& e.principal_portion == principal_at(t, i)
    &&& e.remaining_balance == clamp_zero(balance_after(t, i + 1))
}

/// The amortization schedule: one entry per monthly payment, in order.
///
/// Each period's interest is taken from the unclamped running balance; only
/// the balance shown in an entry is clamped at zero. `None` when a running
/// balance leaves the range that the arithmetic handles.
pub fn generate_schedule(terms: &LoanTerms) -> (r: Option<Vec<PeriodicBreakdown>>)
    requires
        terms.wf(),
    ensures
        r is Some <==> balances_in_range(*terms),
        r matches Some(v) ==> {
            &&& v@.len() == terms.periods()
            &&& forall|i: int| 0 <= i < v@.len() ==> is_period(#[trigger] v@[i], *terms, i as nat)
        },
{
    let p: i128 = calculate_monthly_payment(terms);
    let n: u32 = terms.number_of_payments();
    let rate: u128 = terms.annual_rate as u128;
    let mut bal: i128 = terms.principal as i128;
    let mut v: Vec<PeriodicBreakdown> = Vec::new();
    let mut k: u32 = 0;
    while k < n
        invariant
            terms.wf(),
            n == terms.periods(),
            k <= n,
            rate == terms.annual_rate,
            p == monthly_payment(*terms),
            -PAYMENT_BOUND <= p <= PAYMENT_BOUND,
            bal == balance_after(*terms, k as nat),
            v@.len() == k,
            forall|i: int| 0 <= i < k ==> is_period(#[trigger] v@[i], *terms, i as nat),
            forall|j: nat| j < k ==> -BALANCE_LIMIT <= #[trigger] balance_after(*terms, j)
                <= BALANCE_LIMIT,
        decreases n - k,
    {
        if bal > BALANCE_LIMIT || bal < -BALANCE_LIMIT {
            assert(!balances_in_range(*terms)) by {
                assert(!(-BALANCE_LIMIT <= balance_after(*terms, k as nat) <= BALANCE_LIMIT));
            }
            return None;
        }
        let mag: u128 = if bal >= 0 { bal as u128 } else { (-bal) as u128 };
        assert(mag * rate <= 10_000_000_000_000_000_000_000_000_000u128 * 4_294_967_295u128)
            by (nonlinear_arith)
            requires mag <= 10_000_000_000_000_000_000_000_000_000u128, rate <= 4_294_967_295u128;
        let q: u128 = mag * rate / MONTHLY_RATE_DENOM;
        proof {
            lemma_div_by_larger((mag * rate) as int, 1, MONTHLY_RATE_DENOM as int);
        }
        let interest: i128 = if bal >= 0 { q as i128 } else { -(q as i128) };
        let principal_portion: i128 = p - interest;
        let next: i128 = bal - principal_portion;
        let shown: i128 = if next >= 0 { next } else { 0 };
        v.push(PeriodicBreakdown {
            period_index: k + 1,
            payment: p,
            principal_portion,
            interest_portion: interest,
            remaining_balance: shown,
        });
        bal = next;
        k = k + 1;
    }
    Some(v)
}

/// The principal repaid over the first `k` periods is the principal less the
/// running balance after `k` payments; over the whole term the principal
/// portions add up to the principal less the final, unclamped residue.
pub proof fn lemma_principal_total(t: LoanTerms, k: nat)
    ensures
        principal_total(t, k) == t.principal - balance_after(t, k),
    decreases k,
{
    if k > 0 {
        lemma_principal_total(t, (k - 1) as nat);
    }
}

/// Interest never decreases with the balance it is taken on, and is zero at a zero rate.
pub proof fn lemma_interest_monotone(b1: int, b2: int, rate: int)
    requires
        b1 <= b2,
        0 <= rate,
    ensures
        interest_on(b1, rate) <= interest_on(b2, rate),
        rate == 0 ==> interest_on(b1, rate) == 0,
{
    let d = MONTHLY_RATE_DENOM as int;
    if b1 >= 0 {
        assert(b1 * rate <= b2 * rate) by (nonlinear_arith) requires b1 <= b2, 0 <= rate;
        lemma_div_monotone(b1 * rate, b2 * rate, d);
    } else if b2 >= 0 {
        assert(0 <= (-b1) * rate) by (nonlinear_arith) requires b1 < 0, 0 <= rate;
        assert(0 <= b2 * rate) by (nonlinear_arith) requires b2 >= 0, 0 <= rate;
        lemma_div_at_least((-b1) * rate, d, 0);
        lemma_div_at_least(b2 * rate, d, 0);
    } else {
        assert((-b2) * rate <= (-b1) * rate) by (nonlinear_arith) requires b1 <= b2, 0 <= rate;
        lemma_div_monotone((-b2) * rate, (-b1) * rate, d);
    }
    if rate == 0 {
        assert(b1 * rate == 0 && (-b1) * rate == 0) by (nonlinear_arith) requires rate == 0;
    }
}

/// The monthly payment covers the interest on the whole principal.
proof fn lemma_payment_covers_interest(t: LoanTerms)
    requires
        t.wf(),
        t.principal >= 0,
    ensures
        interest_on(t.principal as int, t.annual_rate as int) <= monthly_payment(t),
{
    let n = t.periods();
    let rate = t.annual_rate as int;
    let p = t.principal as int;
    let d = MONTHLY_RATE_DENOM as int;
    let s = FIXED_ONE as int;
    if rate == 0 {
        lemma_interest_monotone(p, p, rate);
        lemma_ceil_div_bounds(p, n);
    } else {
        lemma_discount_bounds(rate, n as nat);
        let h = discount(rate, n as nat);
        let x = p * rate;
        let num = p * rate * s;
        let den = d * (s - h);
        assert(1 <= den <= d * s) by (nonlinear_arith) requires den == d * (s - h), 0 <= h < s, d > 0;
        assert(0 <= x) by (nonlinear_arith) requires x == p * rate, p >= 0, rate >= 0;
        assert(num == x * s) by (nonlinear_arith) requires num == p * rate * s, x == p * rate;
        lemma_ceil_div_bounds(num, den);
        lemma_div_by_larger(num, den, d * s);
        let q = x / d;
        crate::arith::lemma_div_bounds_exact(x, d);
        assert(q * (d * s) <= x * s) by (nonlinear_arith) requires q * d <= x, s > 0;
        lemma_div_at_least(num, d * s, q);
    }
}

/// The running balance never grows and never exceeds the principal.
proof fn lemma_balance_step(t: LoanTerms, k: nat)
    requires
        t.wf(),
        t.principal >= 0,
    ensures
        balance_after(t, k) <= t.principal,
        balance_after(t, k + 1) <= balance_after(t, k),
    decreases k,
{
    if k > 0 {
        lemma_balance_step(t, (k - 1) as nat);
    }
    lemma_payment_covers_interest(t);
    lemma_interest_monotone(balance_after(t, k), t.principal as int, t.annual_rate as int);
}

/// The running balance is non-increasing over the periods.
pub proof fn lemma_balance_ordered(t: LoanTerms, j: nat, k: nat)
    requires
        t.wf(),
        t.principal >= 0,
        j <= k,
    ensures
        balance_after(t, k) <= balance_after(t, j),
    decreases k - j,
{
    if j < k {
        lemma_balance_ordered(t, j, (k - 1) as nat);
        lemma_balance_step(t, (k - 1) as nat);
    }
}

/// From one period to a later one the interest portion does not grow and the
/// principal portion does not shrink; at a zero rate every interest portion is zero.
pub proof fn lemma_portions_monotone(t: LoanTerms, j: nat, k: nat)
    requires
        t.wf(),
        t.principal >= 0,
        j <= k,
    ensures
        interest_at(t, k) <= interest_at(t, j),
        principal_at(t, j) <= principal_at(t, k),
        t.annual_rate == 0 ==> interest_at(t, k) == 0 && principal_at(t, k) == monthly_payment(t),
{
    lemma_balance_ordered(t, j, k);
    lemma_interest_monotone(balance_after(t, k), balance_after(t, j), t.annual_rate as int);
}

} // verus!
