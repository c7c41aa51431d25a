//! Loan terms and the fixed monthly payment of an amortizing loan.
use vstd::prelude::*;
use crate::arith::{
    ceil_div, lemma_ceil_div_bounds, lemma_div_at_least, lemma_div_at_most, lemma_div_bounds_exact,
    lemma_div_by_larger, lemma_div_monotone, lemma_div_shift,
};
use vstd::arithmetic::div_mod::lemma_fundamental_div_mod;

verus! {

/// Millionths of a currency unit in one unit: the resolution of every amount.
pub const MICROS_PER_UNIT: u64 = 1_000_000;

/// Steps of the annual rate in one percent: the rate is held in 1/10_000 of a percent.
pub const RATE_STEPS_PER_PERCENT: u32 = 10_000;

/// Rate steps in a monthly rate of 100%: 100 percent, 12 months, 10_000 steps each.
/// The monthly rate is `annual_rate / MONTHLY_RATE_DENOM`.
pub const MONTHLY_RATE_DENOM: u128 = 12_000_000;

/// One, in the fixed-point scale used for the discount factor.
pub const FIXED_ONE: u128 = 1_000_000_000_000_000;

/// Bound on the magnitude of every monthly payment, in micro-units.
pub const PAYMENT_BOUND: i128 = 10_000_000_000_000_000_000_000_000_000_000_000_000;

/// Longest term, in years, whose number of months fits a `u32`.
pub const MAX_YEARS: u32 = 357_913_941;

/// The inputs of a fixed-rate loan.
#[derive(Clone, Copy, Debug, PartialEq, Eq, Structural)]
pub struct LoanTerms {
    /// Amount borrowed, in micro-units. A negative amount is taken as it is.
    pub principal: i64,
    /// Annual interest rate, in 1/10_000 of a percent.
    pub annual_rate: u32,
    /// Term of the loan, in years.
    pub years: u32,
}

impl LoanTerms {
    /// The term is at least one year and its number of months fits a `u32`.
    pub open spec fn wf(&self) -> bool {
        1 <= self.years <= MAX_YEARS
    }

    /// Number of monthly payments.
    pub open spec fn periods(&self) -> int {
        self.years * 12
    }

    /// Builds terms when the term is at least one year and its months fit a `u32`.
    pub fn new(principal: i64, annual_rate: u32, years: u32) -> (r: Option<LoanTerms>)
        ensures
            r is Some <==> 1 <= years <= MAX_YEARS,
            r matches Some(t) ==> (t.principal == principal && t.annual_rate == annual_rate
                && t.years == years && t.wf()),
    {
        if 1 <= years && years <= MAX_YEARS {
            Some(LoanTerms { principal, annual_rate, years })
        } else {
            None
        }
    }

    /// Number of monthly payments over the term.
    pub fn number_of_payments(&self) -> (n: u32)
        requires
            self.wf(),
        ensures
            n == self.periods(),
    {
        self.years * 12
    }
}

/// `(1 + r)^-k` for the monthly rate `r = rate / MONTHLY_RATE_DENOM`, in the
/// fixed-point scale `FIXED_ONE`, each of the `k` divisions rounded up.
pub open spec fn discount(rate: int, k: nat) -> int
    decreases k,
{
    if k == 0 {
        FIXED_ONE as int
    } else {
        ceil_div(
            discount(rate, (k - 1) as nat) * MONTHLY_RATE_DENOM,
            MONTHLY_RATE_DENOM + rate,
        )
    }
}

/// The monthly payment, in micro-units rounded up, for a non-negative
/// principal `p` over `n` months.
///
/// At a zero rate the principal is split evenly over the periods. Otherwise
/// the annuity formula `p * r / (1 - (1 + r)^-n)` is used.
pub open spec fn payment_for(p: int, rate: int, n: int) -> int {
    if rate == 0 {
        ceil_div(p, n)
    } else {
        ceil_div(p * rate * FIXED_ONE, MONTHLY_RATE_DENOM * (FIXED_ONE - discount(rate, n as nat)))
    }
}

/// The fixed monthly payment, in micro-units. A negative principal gives the
/// negated payment of its magnitude.
pub open spec fn monthly_payment(t: LoanTerms) -> int {
    if t.principal >= 0 {
        payment_for(t.principal as int, t.annual_rate as int, t.periods())
    } else {
        -payment_for(-t.principal, t.annual_rate as int, t.periods())
    }
}

/// The discount factor stays in `[0, 1]`, never grows, and is below one after
/// a period at a positive rate.
pub proof fn lemma_discount_bounds(rate: int, k: nat)
    requires
        0 <= rate,
    ensures
        0 <= discount(rate, k) <= FIXED_ONE,
        k >= 1 ==> discount(rate, k) <= discount(rate, (k - 1) as nat),
        k >= 1 && rate >= 1 ==> discount(rate, k) < FIXED_ONE,
    decreases k,
{
    if k > 0 {
        let x = discount(rate, (k - 1) as nat);
        lemma_discount_bounds(rate, (k - 1) as nat);
        let dd = MONTHLY_RATE_DENOM + rate;
        let a = x * MONTHLY_RATE_DENOM + dd - 1;
        assert(a < (x + 1) * dd) by (nonlinear_arith)
            requires a == x * MONTHLY_RATE_DENOM + dd - 1, dd == MONTHLY_RATE_DENOM + rate,
                x >= 0, rate >= 0;
        lemma_div_at_most(a, dd, x);
        assert(0 <= x * MONTHLY_RATE_DENOM) by (nonlinear_arith) requires x >= 0;
        lemma_div_at_least(a, dd, 0);
        if rate >= 1 && x == FIXED_ONE {
            assert(a < FIXED_ONE * dd) by (nonlinear_arith)
                requires a == x * MONTHLY_RATE_DENOM + dd - 1, dd == MONTHLY_RATE_DENOM + rate,
                    x == FIXED_ONE, rate >= 1;
            lemma_div_at_most(a, dd, (FIXED_ONE - 1) as int);
        }
    }
}

/// Computes `discount(rate, n)`.
fn discount_factor(rate: u32, n: u32) -> (h: u128)
    ensures
        h == discount(rate as int, n as nat),
{
    let dd: u128 = MONTHLY_RATE_DENOM + rate as u128;
    let mut h: u128 = FIXED_ONE;
    let mut k: u32 = 0;
    while k < n
        invariant
            k <= n,
            dd == MONTHLY_RATE_DENOM + rate,
            h == discount(rate as int, k as nat),
        decreases n - k,
    {
        proof {
            lemma_discount_bounds(rate as int, k as nat);
        }
        assert(h * MONTHLY_RATE_DENOM <= FIXED_ONE * MONTHLY_RATE_DENOM) by (nonlinear_arith)
            requires h <= FIXED_ONE;
        h = (h * MONTHLY_RATE_DENOM + dd - 1) / dd;
        k = k + 1;
    }
    h
}

/// Computes `payment_for(p, rate, n)`.
fn payment_magnitude(p: u64, rate: u32, n: u32) -> (r: u128)
    requires
        n >= 1,
    ensures
        r == payment_for(p as int, rate as int, n as int),
        r <= PAYMENT_BOUND,
        p > 0 ==> r > 0,
        p == 0 ==> r == 0,
{
    if rate == 0 {
        proof {
            lemma_ceil_div_bounds(p as int, n as int);
            lemma_div_by_larger(p + n - 1, 1, n as int);
        }
        let m: u128 = p as u128;
        return (m + n as u128 - 1) / n as u128;
    }
    let h: u128 = discount_factor(rate, n);
    proof {
        lemma_discount_bounds(rate as int, n as nat);
    }
    let pm: u128 = p as u128;
    let rm: u128 = rate as u128;
    assert(pm * rm <= 18_446_744_073_709_551_615u128 * 4_294_967_295u128) by (nonlinear_arith)
        requires pm <= 18_446_744_073_709_551_615u128, rm <= 4_294_967_295u128;
    let q: u128 = pm * rm;
    assert(MONTHLY_RATE_DENOM <= MONTHLY_RATE_DENOM * (FIXED_ONE - h) <= MONTHLY_RATE_DENOM
        * FIXED_ONE) by (nonlinear_arith)
        requires h < FIXED_ONE;
    let den: u128 = MONTHLY_RATE_DENOM * (FIXED_ONE - h);
    let a: u128 = q / den;
    let rem: u128 = q % den;
    proof {
        lemma_div_bounds_exact(q as int, den as int);
        lemma_fundamental_div_mod(q as int, den as int);
        lemma_div_by_larger(q as int, MONTHLY_RATE_DENOM as int, den as int);
        let top: int = 79_228_162_495_817_593_515_539_431_425int;
        lemma_div_monotone(q as int, top, MONTHLY_RATE_DENOM as int);
        assert(top / (MONTHLY_RATE_DENOM as int) <= 7_000_000_000_000_000_000_000);
    }
    assert(rem * FIXED_ONE < den * FIXED_ONE) by (nonlinear_arith) requires rem < den;
    assert(a * FIXED_ONE <= 7_000_000_000_000_000_000_000 * FIXED_ONE) by (nonlinear_arith)
        requires a <= 7_000_000_000_000_000_000_000u128;
    let c: u128 = (rem * FIXED_ONE + den - 1) / den;
    proof {
        lemma_div_at_most((rem * FIXED_ONE + den - 1) as int, den as int, FIXED_ONE as int);
        let x = rem * FIXED_ONE + den - 1;
        assert(q * FIXED_ONE + den - 1 == x + (a * FIXED_ONE) * den) by (nonlinear_arith)
            requires q == den * a + rem, x == rem * FIXED_ONE + den - 1;
        lemma_div_shift(x as int, (a * FIXED_ONE) as int, den as int);
        assert(q * FIXED_ONE == pm * rm * FIXED_ONE);
        lemma_ceil_div_bounds((q * FIXED_ONE) as int, den as int);
        if p > 0 {
            assert(q * FIXED_ONE >= 1) by (nonlinear_arith)
                requires q == pm * rm, pm >= 1, rm >= 1;
        } else {
            assert(q == 0) by (nonlinear_arith) requires q == pm * rm, pm == 0;
        }
    }
    a * FIXED_ONE + c
}

/// The fixed monthly payment of a loan, in micro-units.
pub fn calculate_monthly_payment(terms: &LoanTerms) -> (r: i128)
    requires
        terms.wf(),
    ensures
        r == monthly_payment(*terms),
        -PAYMENT_BOUND <= r <= PAYMENT_BOUND,
        terms.principal > 0 ==> r > 0,
        terms.principal >= 0 ==> r >= 0,
        terms.principal >= 0 && terms.annual_rate == 0 ==> r * terms.periods() >= terms.principal
            && (r - 1) * terms.periods() < terms.principal,
{
    let n: u32 = terms.number_of_payments();
    if terms.principal >= 0 {
        proof {
            if terms.annual_rate == 0 {
                lemma_ceil_div_bounds(terms.principal as int, n as int);
            }
        }
        payment_magnitude(terms.principal as u64, terms.annual_rate, n) as i128
    } else {
        let m: u64 = (-(terms.principal as i128)) as u64;
        -(payment_magnitude(m, terms.annual_rate, n) as i128)
    }
}

/// Terms that differ only in the sign of the principal.
pub open spec fn negated(t: LoanTerms) -> LoanTerms {
    LoanTerms { principal: (-t.principal) as i64, ..t }
}

/// A negated principal gives the negated payment.
pub proof fn lemma_negated_principal(t: LoanTerms)
    requires
        t.wf(),
        t.principal > i64::MIN,
    ensures
        monthly_payment(negated(t)) == -monthly_payment(t),
{
    let rate = t.annual_rate as int;
    let n = t.periods();
    if t.principal == 0 {
        lemma_payment_of_zero(rate, n);
    }
}

/// Nothing borrowed, nothing paid.
proof fn lemma_payment_of_zero(rate: int, n: int)
    requires
        0 <= rate,
        n >= 1,
    ensures
        payment_for(0, rate, n) == 0,
{
    if rate == 0 {
        lemma_ceil_div_bounds(0, n);
    } else {
        lemma_discount_bounds(rate, n as nat);
        let h = discount(rate, n as nat);
        let den = MONTHLY_RATE_DENOM * (FIXED_ONE - h);
        assert(den >= 1) by (nonlinear_arith) requires den == MONTHLY_RATE_DENOM * (FIXED_ONE - h),
            h < FIXED_ONE;
        assert(0 * rate * FIXED_ONE == 0);
        lemma_ceil_div_bounds(0, den);
    }
}

/// Micro-units in one cent.
pub const MICROS_PER_CENT: i128 = 10_000;

/// An amount in micro-units rounded to whole cents, halves away from zero.
pub open spec fn cents_of(amount: int) -> int {
    if amount >= 0 {
        (amount + 5_000) / 10_000
    } else {
        -((-amount + 5_000) / 10_000)
    }
}

/// Rounds an amount in micro-units to whole cents, halves away from zero.
pub fn to_cents(amount: i128) -> (r: i128)
    requires
        -100_000_000_000_000_000_000_000_000_000_000_000_000 <= amount
            <= 100_000_000_000_000_000_000_000_000_000_000_000_000,
    ensures
        r == cents_of(amount as int),
{
    if amount >= 0 {
        (amount + 5_000) / MICROS_PER_CENT
    } else {
        -((-amount + 5_000) / MICROS_PER_CENT)
    }
}

} // verus!
