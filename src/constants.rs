use vstd::prelude::*;

verus! {

/// Seed of the market account address.
pub const MARKET_PDA_SEED: &'static str = "market";

/// Number of linear intervals that the price curve is made of.
pub const INTERVAL_NUMBER: u64 = 64;

/// Number of boundary prices of each curve: one more than the intervals.
pub const PRICES_LENGTH: usize = 65;

/// One whole base token in base units.
pub const BASE_PRECISION: u64 = 1_000_000;

/// Fixed-point scale of normalized amounts and of prices.
pub const SCALE: u128 = 1_000_000_000;

/// Largest total supply that a market accepts.
pub const MAX_TOTAL_SUPPLY: u64 = 1_000_000_000_000_000_000;

/// Largest price that a curve may reach.
pub const MAX_PRICE: u64 = 1_000_000_000_000_000_000;

/// Basis points in a whole.
pub const MAX_BPS: u128 = 10_000;

/// Lowest net quote proceeds accepted by the migration check.
pub const MIGRATION_MIN_NET_SOL: u64 = 60_000;

/// Highest net quote proceeds accepted by the migration check.
pub const MIGRATION_MAX_NET_SOL: u64 = 63_000;

/// Percentage of the total supply that must circulate before migration.
pub const MIGRATION_SUPPLY_PERCENT: u64 = 80;

/// Amount paid to the creator when the market migrates.
pub const CREATOR_MIGRATION_PAYOUT: u64 = 200;

} // verus!
