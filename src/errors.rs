use vstd::prelude::*;

verus! {

/// Failures of market operations.
#[derive(Clone, Copy, Debug, PartialEq, Eq, Structural)]
pub enum TokenMillError {
    /// The total supply fails the divisibility, minimum or cap checks.
    InvalidTotalSupply,
    /// The price curves were already set.
    PricesAlreadySet,
    /// A bid price is above the ask price at the same index.
    BidAskMismatch,
    /// A curve does not strictly increase.
    DecreasingPrices,
    /// The last ask price is above the maximum price.
    PriceTooHigh,
    /// Overflow, division by zero or a failed narrowing conversion.
    MathError,
    /// The net proceeds are outside the accepted migration band.
    NetSOLThreshold,
}

/// Whether a swap amount is what goes in or what comes out.
#[derive(Clone, Copy, Debug, PartialEq, Eq, Structural)]
pub enum SwapAmountType {
    ExactInput,
    ExactOutput,
}

} // verus!
