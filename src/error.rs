use vstd::prelude::*;

verus! {

/// Every failure that the arithmetic or the pool can report.
#[derive(Debug, Clone, Copy, PartialEq, Eq, Structural)]
pub enum PoolError {
    /// A negative amount was supplied.
    InvalidArgument,
    /// The maximal fee is below the minimal fee.
    FeeOrderError,
    /// The maximal fee is above one hundred percent.
    FeeTooHigh,
    /// More pool shares are redeemed than exist.
    InsufficientShares,
    /// A swap would pay out more base tokens than the pool holds.
    InsufficientLiquidity,
    /// A division by a zero amount.
    DivisionByZero,
    /// A subtraction whose result would be negative.
    Underflow,
    /// A result that does not fit the 64-bit representation.
    Overflow,
}

} // verus!
