use amortization::loan::{calculate_monthly_payment, to_cents, LoanTerms, MAX_YEARS, MICROS_PER_UNIT};
use amortization::schedule::{generate_schedule, PeriodicBreakdown};

const UNIT: u64 = MICROS_PER_UNIT;
const UNIT_I: i128 = 1_000_000;

fn terms(units: i64, rate_steps: u32, years: u32) -> LoanTerms {
    LoanTerms::new(units * UNIT as i64, rate_steps, years).unwrap()
}

fn schedule(t: &LoanTerms) -> Vec<PeriodicBreakdown> {
    generate_schedule(t).unwrap()
}

#[test]
fn scenario_thirty_year_mortgage() {
    let t = terms(200_000, 35_000, 30);
    let p = calculate_monthly_payment(&t);
    assert_eq!(p, 898_089_376);
    assert_eq!(to_cents(p), 89_809);
    let s = schedule(&t);
    assert_eq!(s[0].interest_portion, 583_333_333);
    assert_eq!(to_cents(s[0].interest_portion), 58_333);
    assert_eq!(to_cents(s[0].principal_portion), 31_476);
    assert_eq!(to_cents(s[0].remaining_balance), 19_968_524);
}

#[test]
fn scenario_zero_rate_even_split() {
    let t = terms(120_000, 0, 10);
    let p = calculate_monthly_payment(&t);
    assert_eq!(p, 1_000 * UNIT_I);
    assert_eq!(to_cents(p), 100_000);
    let s = schedule(&t);
    assert_eq!(s.len(), 120);
    for e in &s {
        assert_eq!(e.interest_portion, 0);
        assert_eq!(e.principal_portion, 1_000 * UNIT_I);
        assert_eq!(e.payment, p);
    }
    assert_eq!(s[119].remaining_balance, 0);
}

#[test]
fn scenario_one_year_final_balance_clamped() {
    let t = terms(1_000, 50_000, 1);
    let s = schedule(&t);
    assert_eq!(s.len(), 12);
    let last = s[11];
    assert_eq!(last.remaining_balance, 0);
    assert_eq!(to_cents(last.remaining_balance), 0);
    // the raw residue is a small overpayment
    let repaid: i128 = s.iter().map(|e| e.principal_portion).sum();
    assert!(repaid >= 1_000 * UNIT_I);
    assert!(repaid - 1_000 * UNIT_I < 1_000);
}

#[test]
fn payment_positive_for_positive_principal() {
    for &(units, rate, years) in &[(1i64, 0u32, 1u32), (1, 1, 1), (500, 999_999, 40), (1, 0, 1000)] {
        let t = terms(units, rate, years);
        assert!(calculate_monthly_payment(&t) > 0);
    }
    let tiny = LoanTerms::new(1, 0, 30).unwrap();
    assert_eq!(calculate_monthly_payment(&tiny), 1);
}

#[test]
fn zero_rate_payment_is_principal_over_periods() {
    let t = LoanTerms::new(1_000_000_001, 0, 1).unwrap();
    // 1_000_000_001 / 12 rounded up
    assert_eq!(calculate_monthly_payment(&t), 83_333_334);
    let zero = terms(0, 0, 5);
    assert_eq!(calculate_monthly_payment(&zero), 0);
}

#[test]
fn schedule_length_and_indices() {
    for years in [1u32, 2, 15, 30] {
        let t = terms(250_000, 42_500, years);
        let s = schedule(&t);
        assert_eq!(s.len(), (years * 12) as usize);
        assert_eq!(t.number_of_payments(), years * 12);
        for (i, e) in s.iter().enumerate() {
            assert_eq!(e.period_index as usize, i + 1);
        }
    }
}

#[test]
fn principal_portions_sum_to_principal() {
    let t = terms(200_000, 35_000, 30);
    let s = schedule(&t);
    let repaid: i128 = s.iter().map(|e| e.principal_portion).sum();
    let principal = 200_000 * UNIT_I;
    assert_eq!(repaid, 200_000_000_552);
    assert_eq!(to_cents(repaid - principal), 0);
}

#[test]
fn portions_monotone_over_periods() {
    let t = terms(100_000, 60_000, 30);
    let s = schedule(&t);
    for w in s.windows(2) {
        assert!(w[1].interest_portion <= w[0].interest_portion);
        assert!(w[1].principal_portion >= w[0].principal_portion);
        assert_eq!(w[0].principal_portion + w[0].interest_portion, w[0].payment);
    }
    assert_eq!(s[0].interest_portion, 500 * UNIT_I);
}

#[test]
fn terms_out_of_range_are_refused() {
    assert!(LoanTerms::new(1, 0, 0).is_none());
    assert!(LoanTerms::new(1, 0, MAX_YEARS + 1).is_none());
    let t = LoanTerms::new(i64::MAX, u32::MAX, MAX_YEARS).unwrap();
    assert_eq!(t.principal, i64::MAX);
    let t = LoanTerms::new(i64::MIN, u32::MAX, 1).unwrap();
    assert!(calculate_monthly_payment(&t) < 0);
}

#[test]
fn schedule_refused_when_balance_leaves_range() {
    let t = LoanTerms::new(i64::MAX, u32::MAX, 1).unwrap();
    assert_eq!(calculate_monthly_payment(&t), 3_301_173_437_325_736_364_142);
    assert!(generate_schedule(&t).is_none());
}

#[test]
fn negative_principal_negates_payment() {
    let t = terms(-200_000, 35_000, 30);
    assert_eq!(calculate_monthly_payment(&t), -898_089_376);
    let s = schedule(&t);
    assert_eq!(s.len(), 360);
    assert_eq!(s[0].interest_portion, -583_333_333);
    assert_eq!(s[0].principal_portion, -314_756_043);
    assert_eq!(s[0].remaining_balance, 0);
    let zero = terms(0, 35_000, 30);
    assert_eq!(calculate_monthly_payment(&zero), 0);
}

#[test]
fn high_rate_accepted() {
    // 3600% a year: 3% a day compounded monthly is far beyond ordinary loans
    let t = terms(1_000, 36_000_000, 1);
    let p = calculate_monthly_payment(&t);
    assert!(p > 3_000 * UNIT_I);
    let s = schedule(&t);
    assert_eq!(s.len(), 12);
    assert_eq!(s[11].remaining_balance, 0);
}

#[test]
fn cents_round_half_away_from_zero() {
    assert_eq!(to_cents(5_000), 1);
    assert_eq!(to_cents(4_999), 0);
    assert_eq!(to_cents(-5_000), -1);
    assert_eq!(to_cents(-4_999), 0);
    assert_eq!(to_cents(123_456_789), 12_346);
}
