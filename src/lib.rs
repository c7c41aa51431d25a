//! Fixed-rate loan amortization in exact fixed-point arithmetic.
//!
//! Money is counted in millionths of a currency unit and the annual interest
//! rate in ten-thousandths of a percent, so every step of the annuity formula
//! and of the balance recurrence is an integer operation whose rounding is
//! stated in the contracts.
pub mod arith;
pub mod decimal;
pub mod loan;
pub mod schedule;
pub mod payoff;
