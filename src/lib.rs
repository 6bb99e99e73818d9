pub mod constants;
pub mod curve;
pub mod errors;
pub mod market;
pub mod math;

pub use errors::{SwapAmountType, TokenMillError};
pub use market::{Market, MarketFees};
pub use math::Rounding;
