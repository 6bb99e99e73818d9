use vstd::prelude::*;
use anchor_lang::prelude::Pubkey;
use crate::constants::{
    BASE_PRECISION, CREATOR_MIGRATION_PAYOUT, INTERVAL_NUMBER, MAX_BPS, MAX_PRICE, MAX_TOTAL_SUPPLY,
    MIGRATION_MAX_NET_SOL, MIGRATION_MIN_NET_SOL, MIGRATION_SUPPLY_PERCENT, PRICES_LENGTH, SCALE,
};
use crate::curve::{
    buy_walk, checked_pow10, curve_bounded, curve_increasing, get_delta_base_in, get_delta_base_out,
    lemma_buy_walk_bounds, lemma_div_round_le, lemma_quote_walk_bounds, lemma_segment_bounds,
    lemma_sell_walk_bounds, lemma_sell_walk_within, lemma_walk_bid_below_ask, pow10, quote_walk,
    segment_quote_cap, sell_walk,
};
use crate::errors::{SwapAmountType, TokenMillError};
use crate::math::{div, div_round, lemma_div_round_bounds, lemma_div_round_monotone, mul_div, Rounding};

verus! {

/// `anchor_lang::prelude::Pubkey`, a Solana account address: carried through
/// unread.
#[verifier::external_type_specification]
#[verifier::external_body]
pub struct ExPubkey(Pubkey);

/// Relies on `Pubkey::new_unique`: returns some address; nothing more is
/// claimed of it.
pub assume_specification[ Pubkey::new_unique ]() -> Pubkey;

/// Fee shares and pending fee balances of a market.
#[derive(Clone, Copy, Debug, PartialEq, Eq)]
pub struct MarketFees {
    pub staking_fee_share: u16,
    pub creator_fee_share: u16,
    pub pending_staking_fees: u64,
    pub pending_creator_fees: u64,
    pub referral_fee_share: u16,
    pub referral_enabled: bool,
}

/// A bonding-curve market: identity, supply accounting, price curves and fees.
#[derive(Clone, Copy, Debug, PartialEq, Eq)]
pub struct Market {
    pub config: Pubkey,
    pub creator: Pubkey,
    pub base_token_mint: Pubkey,
    pub quote_token_mint: Pubkey,
    pub base_reserve: u64,
    pub bid_prices: [u64; 65],
    pub ask_prices: [u64; 65],
    pub width_scaled: u64,
    pub total_supply: u64,
    pub fees: MarketFees,
    pub quote_token_decimals: u8,
    pub bump: u8,
    pub airdrop_ledger: u64,
}

/// Base amount in normalized units.
pub open spec fn normalize_base(amount: int) -> int {
    amount * SCALE / BASE_PRECISION as int
}

/// Outcome of converting `base` base units at `supply` along curve `c`:
/// `None` where the arithmetic fails, else the base actually swapped and the
/// quote it is worth, both in native units and rounded as asked.
pub open spec fn quote_outcome(
    c: Seq<u64>,
    width: int,
    decimals: nat,
    supply: int,
    base: int,
    rounding: Rounding,
) -> Option<(int, int)> {
    let ns = normalize_base(supply);
    if width == 0 || ns / width >= PRICES_LENGTH {
        None
    } else {
        let walk = quote_walk(c, width, ns / width, ns % width, normalize_base(base), rounding);
        let base_swapped = base - div_round(walk.0 * BASE_PRECISION, SCALE as int, rounding);
        let quote_swapped = div_round(walk.1 * pow10(decimals), SCALE as int, rounding);
        if pow10(decimals) > u128::MAX || quote_swapped > u64::MAX {
            None
        } else {
            Some((base_swapped, quote_swapped))
        }
    }
}

/// Quote amount in normalized units.
pub open spec fn normalize_quote(amount: int, decimals: nat) -> int {
    amount * SCALE / pow10(decimals)
}

/// Outcome of spending `quote` quote units on the ask curve `c` from `supply`
/// upward: `None` where the arithmetic fails, else the base bought (rounded
/// down) and the quote spent.
pub open spec fn buy_outcome(c: Seq<u64>, width: int, decimals: nat, supply: int, quote: int) -> Option<(int, int)> {
    let ns = normalize_base(supply);
    if width == 0 || pow10(decimals) > u128::MAX || ns / width >= PRICES_LENGTH {
        None
    } else {
        let walk = buy_walk(c, width, ns / width, ns % width, normalize_quote(quote, decimals));
        let base = div_round(walk.1 * BASE_PRECISION, SCALE as int, Rounding::Down);
        let spent = quote - div_round(walk.0 * pow10(decimals), SCALE as int, Rounding::Down);
        if base > u64::MAX {
            None
        } else {
            Some((base, spent))
        }
    }
}

/// Outcome of selling base on the bid curve `c` from `supply` downward until
/// `quote` quote units come in: `None` where the arithmetic fails, else the
/// base to sell (rounded up) and the quote obtained.
pub open spec fn sell_outcome(c: Seq<u64>, width: int, decimals: nat, supply: int, quote: int) -> Option<(int, int)> {
    let ns = normalize_base(supply);
    if width == 0 || pow10(decimals) > u128::MAX {
        None
    } else {
        let k = if ns % width == 0 { ns / width } else { ns / width + 1 };
        let avail = if ns % width == 0 { width } else { ns % width };
        if k >= PRICES_LENGTH {
            None
        } else {
            let walk = sell_walk(c, width, k, avail, normalize_quote(quote, decimals));
            let base = div_round(walk.1 * BASE_PRECISION, SCALE as int, Rounding::Up);
            let obtained = quote - div_round(walk.0 * pow10(decimals), SCALE as int, Rounding::Up);
            if base > u64::MAX {
                None
            } else {
                Some((base, obtained))
            }
        }
    }
}

impl Market {
    /// The state that every operation relies on: both curves bounded and
    /// non-decreasing with bid at or below ask, no more in reserve than was
    /// ever issued, and a curve width that is either disabled or one
    /// interval's share of the total supply in normalized units.
    pub open spec fn wf(&self) -> bool {
        &&& curve_bounded(self.bid_prices@)
        &&& curve_bounded(self.ask_prices@)
        &&& forall|i: int| 0 <= i < PRICES_LENGTH ==> self.bid_prices@[i] <= self.ask_prices@[i]
        &&& self.base_reserve <= self.total_supply
        &&& self.width_scaled == 0 || self.width_scaled * INTERVAL_NUMBER == self.total_supply * 1000
    }

    /// The curve that a conversion of kind `t` walks: bid for sales, ask for buys.
    pub open spec fn curve_of(&self, t: SwapAmountType) -> Seq<u64> {
        match t {
            SwapAmountType::ExactInput => self.bid_prices@,
            SwapAmountType::ExactOutput => self.ask_prices@,
        }
    }

    /// Base units sold out of the reserve.
    pub open spec fn spec_circulating_supply(&self) -> int {
        self.total_supply - self.base_reserve
    }

    /// Whether the curves were set: the last ask price is nonzero.
    pub fn are_prices_set(&self) -> (r: bool)
        ensures
            r == (self.ask_prices@[INTERVAL_NUMBER as int] != 0),
    {
        self.ask_prices[INTERVAL_NUMBER as usize] != 0
    }

    /// Base units sold out of the reserve.
    pub fn circulating_supply(&self) -> (r: u64)
        requires
            self.wf(),
        ensures
            r == self.spec_circulating_supply(),
    {
        self.total_supply - self.base_reserve
    }

    /// Quote worth of `base_amount` base units starting at `supply` on the bid
    /// curve (`ExactInput`) or the ask curve (`ExactOutput`).
    pub fn get_quote_amount_with_parameters(
        &self,
        supply: u64,
        base_amount: u64,
        swap_amount_type: SwapAmountType,
        rounding: Rounding,
    ) -> (r: Result<(u64, u64), TokenMillError>)
        requires
            self.wf(),
        ensures
            ({
                let outcome = quote_outcome(
                    self.curve_of(swap_amount_type),
                    self.width_scaled as int,
                    self.quote_token_decimals as nat,
                    supply as int,
                    base_amount as int,
                    rounding,
                );
                match r {
                    Ok((b, q)) => outcome == Some((b as int, q as int)),
                    Err(e) => e == TokenMillError::MathError && outcome is None,
                }
            }),
    {
        let price_curve: &[u64; 65] = match swap_amount_type {
            SwapAmountType::ExactInput => &self.bid_prices,
            SwapAmountType::ExactOutput => &self.ask_prices,
        };
        let ghost c = price_curve@;
        assert(c == self.curve_of(swap_amount_type));
        let width = self.width_scaled as u128;
        if width == 0 {
            return Err(TokenMillError::MathError);
        }
        let normalized_supply = (supply as u128) * SCALE / (BASE_PRECISION as u128);
        let mut normalized_base_amount_left = (base_amount as u128) * SCALE / (BASE_PRECISION as u128);
        let ghost base0 = normalized_base_amount_left as int;
        assert(base0 == base_amount * 1000) by (nonlinear_arith)
            requires
                base0 == (base_amount * 1_000_000_000) / 1_000_000,
        ;
        let mut normalized_quote_amount: u128 = 0;
        let start = normalized_supply / width;
        if start >= PRICES_LENGTH as u128 {
            return Err(TokenMillError::MathError);
        }
        let mut i = start as usize;
        let mut interval_supply_already_used = normalized_supply % width;
        let ghost used0 = interval_supply_already_used as int;
        let mut price_0 = price_curve[i];
        i = i + 1;
        proof {
            lemma_quote_walk_bounds(c, width as int, i - 1, used0, base0, rounding);
        }
        while normalized_base_amount_left > 0 && i < PRICES_LENGTH
            invariant
                curve_bounded(c),
                c == price_curve@,
                0 < width <= u64::MAX,
                1 <= i <= PRICES_LENGTH,
                price_0 == c[i - 1],
                interval_supply_already_used < width,
                normalized_base_amount_left <= base0,
                base0 <= u64::MAX * 1000,
                normalized_quote_amount <= (i - 1) * segment_quote_cap(),
                quote_walk(c, width as int, start as int, used0, base0, rounding) == ({
                    let rest = quote_walk(
                        c,
                        width as int,
                        i - 1,
                        interval_supply_already_used as int,
                        normalized_base_amount_left as int,
                        rounding,
                    );
                    (rest.0, normalized_quote_amount + rest.1)
                }),
            decreases PRICES_LENGTH - i,
        {
            let price_1 = price_curve[i];
            let room = width - interval_supply_already_used;
            let delta_base = if normalized_base_amount_left < room {
                normalized_base_amount_left
            } else {
                room
            };
            proof {
                lemma_segment_bounds(
                    price_0 as int,
                    price_1 as int,
                    width as int,
                    interval_supply_already_used as int,
                    delta_base as int,
                    rounding,
                );
                assert((i - 1) * segment_quote_cap() + segment_quote_cap() == i * segment_quote_cap())
                    by (nonlinear_arith);
            }
            let slope_part = ((price_1 - price_0) as u128) * (delta_base + 2 * interval_supply_already_used);
            let delta_quote = match mul_div(
                delta_base,
                slope_part + 2 * (price_0 as u128) * width,
                2 * SCALE * width,
                rounding,
            ) {
                Some(v) => v,
                None => return Err(TokenMillError::MathError),
            };
            normalized_base_amount_left = normalized_base_amount_left - delta_base;
            normalized_quote_amount = normalized_quote_amount + delta_quote;
            interval_supply_already_used = 0;
            price_0 = price_1;
            i = i + 1;
        }
        proof {
            lemma_div_round_bounds(
                normalized_base_amount_left as int * BASE_PRECISION,
                SCALE as int,
                rounding,
            );
            crate::curve::lemma_div_round_le(
                normalized_base_amount_left as int * BASE_PRECISION,
                SCALE as int,
                base_amount as int,
                rounding,
            );
        }
        let unabsorbed = match div(
            normalized_base_amount_left * (BASE_PRECISION as u128),
            SCALE,
            rounding,
        ) {
            Some(v) => v,
            None => return Err(TokenMillError::MathError),
        };
        let base_amount_swapped = base_amount - unabsorbed;
        let quote_precision = match checked_pow10(self.quote_token_decimals) {
            Some(v) => v,
            None => return Err(TokenMillError::MathError),
        };
        let quote_amount_swapped = match mul_div(normalized_quote_amount, quote_precision, SCALE, rounding) {
            Some(v) => v,
            None => return Err(TokenMillError::MathError),
        };
        if quote_amount_swapped > u64::MAX as u128 {
            return Err(TokenMillError::MathError);
        }
        Ok((base_amount_swapped, quote_amount_swapped as u64))
    }
}

impl Market {
    /// Outcome of `get_quote_amount`: `None` where it fails.
    pub open spec fn quote_amount_outcome(&self, base_amount: int, t: SwapAmountType) -> Option<(int, int)> {
        let circulating = self.spec_circulating_supply();
        match t {
            SwapAmountType::ExactInput => if base_amount > circulating {
                None
            } else {
                quote_outcome(self.bid_prices@, self.width_scaled as int, self.quote_token_decimals as nat,
                    circulating - base_amount, base_amount, Rounding::Down)
            },
            SwapAmountType::ExactOutput => quote_outcome(self.ask_prices@, self.width_scaled as int,
                self.quote_token_decimals as nat, circulating, base_amount, Rounding::Up),
        }
    }

    /// Quote for selling `base_amount` base into the bid curve just below the
    /// circulating supply (`ExactInput`, rounded down), or for buying it off
    /// the ask curve just above (`ExactOutput`, rounded up). Gives the base
    /// actually swapped and its quote.
    pub fn get_quote_amount(&self, base_amount: u64, swap_amount_type: SwapAmountType) -> (r: Result<(u64, u64), TokenMillError>)
        requires
            self.wf(),
        ensures
            match r {
                Ok((b, q)) => self.quote_amount_outcome(base_amount as int, swap_amount_type) == Some((b as int, q as int)),
                Err(e) => e == TokenMillError::MathError && self.quote_amount_outcome(base_amount as int, swap_amount_type) is None,
            },
    {
        let circulating_supply = self.circulating_supply();
        let (supply, rounding) = match swap_amount_type {
            SwapAmountType::ExactInput => {
                if base_amount > circulating_supply {
                    return Err(TokenMillError::MathError);
                }
                (circulating_supply - base_amount, Rounding::Down)
            },
            SwapAmountType::ExactOutput => (circulating_supply, Rounding::Up),
        };
        self.get_quote_amount_with_parameters(supply, base_amount, swap_amount_type, rounding)
    }

    /// Base to sell down the bid curve, from the circulating supply, so that
    /// `quote_amount` quote comes in: gives the base (rounded up) and the quote
    /// obtained, less where the curve runs out.
    pub fn get_base_amount_in(&self, quote_amount: u64) -> (r: Result<(u64, u64), TokenMillError>)
        requires
            self.wf(),
        ensures
            ({
                let outcome = sell_outcome(self.bid_prices@, self.width_scaled as int,
                    self.quote_token_decimals as nat, self.spec_circulating_supply(), quote_amount as int);
                match r {
                    Ok((b, q)) => outcome == Some((b as int, q as int)),
                    Err(e) => e == TokenMillError::MathError && outcome is None,
                }
            }),
    {
        let price_curve = &self.bid_prices;
        let ghost c = price_curve@;
        let circulating_supply = self.circulating_supply();
        let width = self.width_scaled as u128;
        if width == 0 {
            return Err(TokenMillError::MathError);
        }
        let quote_precision = match checked_pow10(self.quote_token_decimals) {
            Some(v) => v,
            None => return Err(TokenMillError::MathError),
        };
        proof {
            crate::curve::lemma_pow10_positive(self.quote_token_decimals as nat);
        }
        let normalized_supply = (circulating_supply as u128) * SCALE / (BASE_PRECISION as u128);
        let mut normalized_quote_amount_left = (quote_amount as u128) * SCALE / quote_precision;
        let ghost quote0 = normalized_quote_amount_left as int;
        let mut normalized_base_amount: u128 = 0;
        let mut i_wide = normalized_supply / width;
        let mut interval_supply_available = normalized_supply % width;
        if interval_supply_available == 0 {
            interval_supply_available = width;
        } else {
            i_wide = i_wide + 1;
        }
        if i_wide >= PRICES_LENGTH as u128 {
            return Err(TokenMillError::MathError);
        }
        let mut i = i_wide as usize;
        let ghost k0 = i as int;
        let ghost avail0 = interval_supply_available as int;
        let mut price_1 = price_curve[i];
        proof {
            lemma_sell_walk_bounds(c, width as int, k0, avail0, quote0);
        }
        while normalized_quote_amount_left > 0 && i > 0
            invariant
                curve_bounded(c),
                c == price_curve@,
                0 < width <= u64::MAX,
                i < PRICES_LENGTH,
                price_1 == c[i as int],
                0 <= interval_supply_available <= width,
                normalized_quote_amount_left <= quote0,
                normalized_base_amount <= (k0 - i) * width,
                k0 < PRICES_LENGTH,
                i <= k0,
                sell_walk(c, width as int, k0, avail0, quote0) == ({
                    let rest = sell_walk(
                        c,
                        width as int,
                        i as int,
                        interval_supply_available as int,
                        normalized_quote_amount_left as int,
                    );
                    (rest.0, normalized_base_amount + rest.1)
                }),
            decreases i,
        {
            let price_0 = price_curve[i - 1];
            let (delta_base, delta_quote) = get_delta_base_in(
                price_0,
                price_1,
                width,
                interval_supply_available,
                normalized_quote_amount_left,
            );
            proof {
                assert((k0 - i) * width + width == (k0 - (i - 1)) * width) by (nonlinear_arith);
                assert((k0 - (i - 1)) * width <= 65 * u64::MAX) by (nonlinear_arith)
                    requires
                        k0 - (i - 1) <= 65,
                        0 < width <= u64::MAX,
                ;
            }
            normalized_base_amount = normalized_base_amount + delta_base;
            normalized_quote_amount_left = normalized_quote_amount_left - delta_quote;
            interval_supply_available = width;
            price_1 = price_0;
            i = i - 1;
        }
        proof {
            assert((k0 - i) * width <= 65 * u64::MAX) by (nonlinear_arith)
                requires
                    k0 - i <= 65,
                    0 < width <= u64::MAX,
            ;
            lemma_quote_left_fits(normalized_quote_amount_left as int, quote_amount as int, quote_precision as int, Rounding::Up);
        }
        let base_amount_swapped = match div(normalized_base_amount * (BASE_PRECISION as u128), SCALE, Rounding::Up) {
            Some(v) => v,
            None => return Err(TokenMillError::MathError),
        };
        let unobtained = match mul_div(normalized_quote_amount_left, quote_precision, SCALE, Rounding::Up) {
            Some(v) => v,
            None => return Err(TokenMillError::MathError),
        };
        Ok((base_amount_swapped, quote_amount - unobtained as u64))
    }

    /// Base bought up the ask curve, from the circulating supply, by spending
    /// `quote_amount` quote: gives the base (rounded down) and the quote spent,
    /// less where the curve runs out.
    pub fn get_base_amount_out(&self, quote_amount: u64) -> (r: Result<(u64, u64), TokenMillError>)
        requires
            self.wf(),
        ensures
            ({
                let outcome = buy_outcome(self.ask_prices@, self.width_scaled as int,
                    self.quote_token_decimals as nat, self.spec_circulating_supply(), quote_amount as int);
                match r {
                    Ok((b, q)) => outcome == Some((b as int, q as int)),
                    Err(e) => e == TokenMillError::MathError && outcome is None,
                }
            }),
    {
        let price_curve = &self.ask_prices;
        let ghost c = price_curve@;
        let circulating_supply = self.circulating_supply();
        let width = self.width_scaled as u128;
        if width == 0 {
            return Err(TokenMillError::MathError);
        }
        let quote_precision = match checked_pow10(self.quote_token_decimals) {
            Some(v) => v,
            None => return Err(TokenMillError::MathError),
        };
        proof {
            crate::curve::lemma_pow10_positive(self.quote_token_decimals as nat);
        }
        let normalized_supply = (circulating_supply as u128) * SCALE / (BASE_PRECISION as u128);
        let mut normalized_quote_amount_left = (quote_amount as u128) * SCALE / quote_precision;
        let ghost quote0 = normalized_quote_amount_left as int;
        let mut normalized_base_amount: u128 = 0;
        let start = normalized_supply / width;
        if start >= PRICES_LENGTH as u128 {
            return Err(TokenMillError::MathError);
        }
        let mut i = start as usize;
        let mut interval_supply_already_used = normalized_supply % width;
        let ghost used0 = interval_supply_already_used as int;
        let mut price_0 = price_curve[i];
        proof {
            lemma_buy_walk_bounds(c, width as int, i as int, used0, quote0);
        }
        while normalized_quote_amount_left > 0 && i < PRICES_LENGTH - 1
            invariant
                curve_bounded(c),
                c == price_curve@,
                0 < width <= u64::MAX,
                start <= i < PRICES_LENGTH,
                price_0 == c[i as int],
                interval_supply_already_used < width,
                normalized_quote_amount_left <= quote0,
                normalized_base_amount <= (i - start) * width,
                buy_walk(c, width as int, start as int, used0, quote0) == ({
                    let rest = buy_walk(
                        c,
                        width as int,
                        i as int,
                        interval_supply_already_used as int,
                        normalized_quote_amount_left as int,
                    );
                    (rest.0, normalized_base_amount + rest.1)
                }),
            decreases PRICES_LENGTH - i,
        {
            let price_1 = price_curve[i + 1];
            let (delta_base, delta_quote) = get_delta_base_out(
                price_0,
                price_1,
                width,
                interval_supply_already_used,
                normalized_quote_amount_left,
            );
            proof {
                assert((i - start) * width + width == (i + 1 - start) * width) by (nonlinear_arith);
                assert((i + 1 - start) * width <= 65 * u64::MAX) by (nonlinear_arith)
                    requires
                        i + 1 - start <= 65,
                        0 < width <= u64::MAX,
                ;
            }
            normalized_base_amount = normalized_base_amount + delta_base;
            normalized_quote_amount_left = normalized_quote_amount_left - delta_quote;
            interval_supply_already_used = 0;
            price_0 = price_1;
            i = i + 1;
        }
        proof {
            assert((i - start) * width <= 65 * u64::MAX) by (nonlinear_arith)
                requires
                    i - start <= 65,
                    0 < width <= u64::MAX,
            ;
            lemma_quote_left_fits(normalized_quote_amount_left as int, quote_amount as int, quote_precision as int, Rounding::Down);
        }
        let base_amount_swapped = match div(normalized_base_amount * (BASE_PRECISION as u128), SCALE, Rounding::Down) {
            Some(v) => v,
            None => return Err(TokenMillError::MathError),
        };
        let unspent = match mul_div(normalized_quote_amount_left, quote_precision, SCALE, Rounding::Down) {
            Some(v) => v,
            None => return Err(TokenMillError::MathError),
        };
        Ok((base_amount_swapped, quote_amount - unspent as u64))
    }
}

/// Quote left over in normalized units, turned back into native units, never
/// exceeds the native amount it came from.
proof fn lemma_quote_left_fits(left: int, quote: int, precision: int, rounding: Rounding)
    requires
        0 <= quote,
        precision > 0,
        0 <= left <= quote * SCALE / precision,
    ensures
        0 <= div_round(left * precision, SCALE as int, rounding) <= quote,
{
    vstd::arithmetic::div_mod::lemma_fundamental_div_mod(quote * SCALE, precision);
    assert(0 <= left * precision <= SCALE * quote) by (nonlinear_arith)
        requires
            0 <= left <= quote * SCALE / precision,
            precision * ((quote * SCALE) / precision) <= quote * SCALE,
            precision > 0,
    ;
    lemma_div_round_le(left * precision, SCALE as int, quote, rounding);
    lemma_div_round_bounds(left * precision, SCALE as int, rounding);
}

/// Index `i` of a candidate pair of curves is in order: bid at or below ask,
/// and both strictly above the previous index.
pub open spec fn index_in_order(bid: Seq<u64>, ask: Seq<u64>, i: int) -> bool {
    &&& bid[i] <= ask[i]
    &&& i > 0 ==> ask[i - 1] < ask[i] && bid[i - 1] < bid[i]
}

/// Every index of a candidate pair of curves is in order.
pub open spec fn all_in_order(bid: Seq<u64>, ask: Seq<u64>) -> bool {
    forall|i: int| 0 <= i < PRICES_LENGTH ==> index_in_order(bid, ask, i)
}

/// `j` is the first index of a candidate pair of curves that is out of order.
pub open spec fn first_out_of_order(bid: Seq<u64>, ask: Seq<u64>, j: int) -> bool {
    &&& 0 <= j < PRICES_LENGTH
    &&& forall|i: int| 0 <= i < j ==> index_in_order(bid, ask, i)
    &&& !index_in_order(bid, ask, j)
}

proof fn lemma_first_out_of_order_unique(bid: Seq<u64>, ask: Seq<u64>, j: int)
    requires
        first_out_of_order(bid, ask, j),
    ensures
        forall|k: int| first_out_of_order(bid, ask, k) ==> k == j,
        !all_in_order(bid, ask),
{
    assert forall|k: int| first_out_of_order(bid, ask, k) implies k == j by {
        if k < j {
            assert(index_in_order(bid, ask, k));
        } else if k > j {
            assert(index_in_order(bid, ask, j));
        }
    }
}

/// A total supply that a market accepts: within the cap, divisible by the
/// number of intervals, and each interval's share at least one whole token.
pub open spec fn valid_total_supply(total_supply: int) -> bool {
    &&& total_supply <= MAX_TOTAL_SUPPLY
    &&& total_supply / INTERVAL_NUMBER as int >= BASE_PRECISION
    &&& total_supply % INTERVAL_NUMBER as int == 0
}

/// `amount * share_bps / MAX_BPS`, rounded down.
pub open spec fn fee_part(amount: int, share_bps: int) -> int {
    amount * share_bps / MAX_BPS as int
}

/// `amount * share_bps / MAX_BPS`, computed.
fn fee_share(amount: u64, share_bps: u16) -> (r: u128)
    ensures
        r == fee_part(amount as int, share_bps as int),
        r <= 7 * (amount as int),
{
    assert((amount as int) * (share_bps as int) <= (amount as int) * 70_000) by (nonlinear_arith)
        requires
            0 <= share_bps <= 65535,
            0 <= amount,
    ;
    (amount as u128) * (share_bps as u128) / MAX_BPS
}

proof fn lemma_strict_curve_bounded(c: Seq<u64>)
    requires
        c.len() == PRICES_LENGTH,
        forall|i: int| 0 < i < c.len() ==> c[i - 1] < #[trigger] c[i],
        c[PRICES_LENGTH - 1] <= MAX_PRICE,
    ensures
        curve_bounded(c),
{
    assert forall|i: int, j: int| 0 <= i <= j < c.len() implies c[i] <= c[j] by {
        lemma_strict_curve_step(c, i, j);
    }
    assert forall|i: int| 0 <= i < c.len() implies c[i] <= MAX_PRICE by {
        lemma_strict_curve_step(c, i, PRICES_LENGTH - 1);
    }
}

proof fn lemma_strict_curve_grows(c: Seq<u64>, i: int)
    requires
        0 <= i < c.len(),
        forall|k: int| 0 < k < c.len() ==> c[k - 1] < #[trigger] c[k],
    ensures
        c[i] >= i,
    decreases i,
{
    if i > 0 {
        lemma_strict_curve_grows(c, i - 1);
    }
}

proof fn lemma_strict_curve_step(c: Seq<u64>, i: int, j: int)
    requires
        0 <= i <= j < c.len(),
        forall|k: int| 0 < k < c.len() ==> c[k - 1] < #[trigger] c[k],
    ensures
        c[i] <= c[j],
    decreases j - i,
{
    if i < j {
        lemma_strict_curve_step(c, i, j - 1);
    }
}

impl Market {
    /// The market after migration: no reserve, no curve width, no referrals.
    pub open spec fn migrated(&self) -> Market {
        Market {
            base_reserve: 0,
            width_scaled: 0,
            fees: MarketFees { referral_enabled: false, ..self.fees },
            ..*self
        }
    }

    /// Sets up a market's identity, supply and fee shares. Fails with
    /// `InvalidTotalSupply`, changing nothing, where the supply is not
    /// acceptable.
    pub fn initialize(
        &mut self,
        bump: u8,
        config: Pubkey,
        creator: Pubkey,
        base_token_mint: Pubkey,
        quote_token_mint: Pubkey,
        quote_token_decimals: u8,
        total_supply: u64,
        creator_fee_share: u16,
        staking_fee_share: u16,
        referral_fee_share: u16,
    ) -> (r: Result<(), TokenMillError>)
        requires
            old(self).wf(),
        ensures
            final(self).wf(),
            r is Ok <==> valid_total_supply(total_supply as int),
            r is Err ==> r == Err::<(), TokenMillError>(TokenMillError::InvalidTotalSupply) && *final(self) == *old(self),
            r is Ok ==> *final(self) == (Market {
                bump,
                config,
                creator,
                base_token_mint,
                quote_token_mint,
                quote_token_decimals,
                total_supply,
                base_reserve: total_supply,
                width_scaled: (total_supply / INTERVAL_NUMBER * 1000) as u64,
                fees: MarketFees {
                    creator_fee_share,
                    staking_fee_share,
                    referral_fee_share,
                    referral_enabled: true,
                    ..old(self).fees
                },
                airdrop_ledger: 0,
                ..*old(self)
            }),
    {
        if total_supply > MAX_TOTAL_SUPPLY || total_supply / INTERVAL_NUMBER < BASE_PRECISION || (
        total_supply / INTERVAL_NUMBER) * INTERVAL_NUMBER != total_supply {
            return Err(TokenMillError::InvalidTotalSupply);
        }
        let share = total_supply / INTERVAL_NUMBER;
        let width = (share as u128) * SCALE / (BASE_PRECISION as u128);
        assert(width == share * 1000) by (nonlinear_arith)
            requires
                width == (share * 1_000_000_000) / 1_000_000,
        ;
        if width > u64::MAX as u128 {
            return Err(TokenMillError::MathError);
        }
        self.bump = bump;
        self.config = config;
        self.creator = creator;
        self.base_token_mint = base_token_mint;
        self.quote_token_mint = quote_token_mint;
        self.quote_token_decimals = quote_token_decimals;
        self.total_supply = total_supply;
        self.base_reserve = total_supply;
        self.width_scaled = width as u64;
        self.fees.creator_fee_share = creator_fee_share;
        self.fees.staking_fee_share = staking_fee_share;
        self.fees.referral_fee_share = referral_fee_share;
        self.fees.referral_enabled = true;
        self.airdrop_ledger = 0;
        Ok(())
    }

    /// Sets both price curves at once. Fails, changing nothing, with
    /// `PricesAlreadySet` where they were set, else at the first index out of
    /// order with `BidAskMismatch` (bid above ask) or `DecreasingPrices` (not
    /// strictly above the previous index), else with `PriceTooHigh` where the
    /// last ask price exceeds the maximum.
    #[verifier::rlimit(40)]
    pub fn check_and_set_prices(&mut self, bid_prices: [u64; 65], ask_prices: [u64; 65]) -> (r: Result<(), TokenMillError>)
        requires
            old(self).wf(),
        ensures
            final(self).wf(),
            r is Err ==> *final(self) == *old(self),
            old(self).ask_prices@[INTERVAL_NUMBER as int] != 0 ==> r == Err::<(), TokenMillError>(TokenMillError::PricesAlreadySet),
            old(self).ask_prices@[INTERVAL_NUMBER as int] == 0 ==> {
                &&& r == Err::<(), TokenMillError>(TokenMillError::BidAskMismatch) <==> exists|j: int|
                    first_out_of_order(bid_prices@, ask_prices@, j) && bid_prices@[j] > ask_prices@[j]
                &&& r == Err::<(), TokenMillError>(TokenMillError::DecreasingPrices) <==> exists|j: int|
                    first_out_of_order(bid_prices@, ask_prices@, j) && bid_prices@[j] <= ask_prices@[j]
                &&& r == Err::<(), TokenMillError>(TokenMillError::PriceTooHigh) <==> all_in_order(bid_prices@, ask_prices@)
                    && ask_prices@[INTERVAL_NUMBER as int] > MAX_PRICE
                &&& r is Ok <==> all_in_order(bid_prices@, ask_prices@) && ask_prices@[INTERVAL_NUMBER as int] <= MAX_PRICE
            },
            r is Ok ==> *final(self) == (Market { bid_prices, ask_prices, ..*old(self) }),
            r is Ok ==> final(self).ask_prices@[INTERVAL_NUMBER as int] != 0,
    {
        if self.are_prices_set() {
            return Err(TokenMillError::PricesAlreadySet);
        }
        let mut i: usize = 0;
        while i < PRICES_LENGTH
            invariant
                i <= PRICES_LENGTH,
                *self == *old(self),
                old(self).wf(),
                old(self).ask_prices@[INTERVAL_NUMBER as int] == 0,
                forall|k: int| 0 <= k < i ==> index_in_order(bid_prices@, ask_prices@, k),
            decreases PRICES_LENGTH - i,
        {
            let bid_price = bid_prices[i];
            let ask_price = ask_prices[i];
            if bid_price > ask_price {
                proof {
                    assert(first_out_of_order(bid_prices@, ask_prices@, i as int));
                    lemma_first_out_of_order_unique(bid_prices@, ask_prices@, i as int);
                }
                return Err(TokenMillError::BidAskMismatch);
            }
            if i > 0 && (ask_price <= ask_prices[i - 1] || bid_price <= bid_prices[i - 1]) {
                proof {
                    assert(first_out_of_order(bid_prices@, ask_prices@, i as int));
                    lemma_first_out_of_order_unique(bid_prices@, ask_prices@, i as int);
                }
                return Err(TokenMillError::DecreasingPrices);
            }
            i = i + 1;
        }
        proof {
            assert forall|j: int| !first_out_of_order(bid_prices@, ask_prices@, j) by {
                if 0 <= j < PRICES_LENGTH {
                    assert(index_in_order(bid_prices@, ask_prices@, j));
                }
            }
        }
        if ask_prices[INTERVAL_NUMBER as usize] > MAX_PRICE {
            return Err(TokenMillError::PriceTooHigh);
        }
        proof {
            assert forall|k: int| 0 < k < PRICES_LENGTH implies ask_prices@[k - 1] < #[trigger] ask_prices@[k] by {
                assert(index_in_order(bid_prices@, ask_prices@, k));
            }
            assert forall|k: int| 0 < k < PRICES_LENGTH implies bid_prices@[k - 1] < #[trigger] bid_prices@[k] by {
                assert(index_in_order(bid_prices@, ask_prices@, k));
            }
            lemma_strict_curve_bounded(ask_prices@);
            lemma_strict_curve_grows(ask_prices@, PRICES_LENGTH - 1);
            assert(index_in_order(bid_prices@, ask_prices@, PRICES_LENGTH - 1));
            lemma_strict_curve_bounded(bid_prices@);
        }
        proof {
            assert forall|k: int| 0 <= k < PRICES_LENGTH implies bid_prices@[k] <= ask_prices@[k] by {
                assert(index_in_order(bid_prices@, ask_prices@, k));
            }
        }
        self.bid_prices = bid_prices;
        self.ask_prices = ask_prices;
        Ok(())
    }

    /// Splits `swap_fee` into creator, staking, protocol and referral parts
    /// (in that order), the referral part being zero while referrals are
    /// disabled, and adds the creator and staking parts to the pending fees.
    /// Fails with `MathError`, changing nothing, where a part does not fit,
    /// the parts exceed the fee, or a pending balance would overflow.
    pub fn distribute_fee(&mut self, swap_fee: u64) -> (r: Result<(u64, u64, u64, u64), TokenMillError>)
        requires
            old(self).wf(),
        ensures
            final(self).wf(),
            ({
                let f = old(self).fees;
                let referral = if f.referral_enabled { fee_part(swap_fee as int, f.referral_fee_share as int) } else { 0 };
                let creator = fee_part(swap_fee as int, f.creator_fee_share as int);
                let staking = fee_part(swap_fee as int, f.staking_fee_share as int);
                let fits = creator + staking + referral <= swap_fee
                    && f.pending_creator_fees + creator <= u64::MAX
                    && f.pending_staking_fees + staking <= u64::MAX;
                &&& r is Ok <==> fits
                &&& r is Err ==> r == Err::<(u64, u64, u64, u64), TokenMillError>(TokenMillError::MathError)
                    && *final(self) == *old(self)
                &&& r matches Ok((c, s, p, rf)) ==> {
                    &&& c == creator
                    &&& s == staking
                    &&& rf == referral
                    &&& p == swap_fee - creator - staking - referral
                    &&& *final(self) == (Market {
                        fees: MarketFees {
                            pending_creator_fees: (f.pending_creator_fees + creator) as u64,
                            pending_staking_fees: (f.pending_staking_fees + staking) as u64,
                            ..f
                        },
                        ..*old(self)
                    })
                }
            }),
    {
        let mut referral_fee: u128 = 0;
        if self.fees.referral_enabled {
            referral_fee = fee_share(swap_fee, self.fees.referral_fee_share);
        }
        let creator_fee = fee_share(swap_fee, self.fees.creator_fee_share);
        let staking_fee = fee_share(swap_fee, self.fees.staking_fee_share);
        if creator_fee + staking_fee + referral_fee > swap_fee as u128 {
            return Err(TokenMillError::MathError);
        }
        let creator_fee = creator_fee as u64;
        let staking_fee = staking_fee as u64;
        let referral_fee = referral_fee as u64;
        let protocol_fee = swap_fee - creator_fee - staking_fee - referral_fee;
        let pending_creator = match self.fees.pending_creator_fees.checked_add(creator_fee) {
            Some(v) => v,
            None => return Err(TokenMillError::MathError),
        };
        let pending_staking = match self.fees.pending_staking_fees.checked_add(staking_fee) {
            Some(v) => v,
            None => return Err(TokenMillError::MathError),
        };
        self.fees.pending_creator_fees = pending_creator;
        self.fees.pending_staking_fees = pending_staking;
        Ok((creator_fee, staking_fee, protocol_fee, referral_fee))
    }

    /// Records `amount` base units handed out as an airdrop. Fails with
    /// `MathError`, changing nothing, where the ledger would overflow.
    pub fn add_airdrop(&mut self, amount: u64) -> (r: Result<(), TokenMillError>)
        requires
            old(self).wf(),
        ensures
            final(self).wf(),
            r is Ok <==> old(self).airdrop_ledger + amount <= u64::MAX,
            r is Err ==> r == Err::<(), TokenMillError>(TokenMillError::MathError) && *final(self) == *old(self),
            r is Ok ==> *final(self) == (Market { airdrop_ledger: (old(self).airdrop_ledger + amount) as u64, ..*old(self) }),
    {
        match self.airdrop_ledger.checked_add(amount) {
            Some(v) => {
                self.airdrop_ledger = v;
                Ok(())
            },
            None => Err(TokenMillError::MathError),
        }
    }

    /// Where the locked liquidity goes.
    fn get_vault_account(&self) -> Pubkey {
        Pubkey::new_unique()
    }

    /// Locks the liquidity: nothing stays in reserve.
    pub fn lock_liquidity(&mut self) -> (r: Result<(), TokenMillError>)
        ensures
            r is Ok,
            *final(self) == (Market { base_reserve: 0, ..*old(self) }),
    {
        let _vault_account = self.get_vault_account();
        self.base_reserve = 0;
        Ok(())
    }

    /// Turns the curve off: its width becomes zero.
    pub fn disable_bonding_curve(&mut self) -> (r: Result<(), TokenMillError>)
        ensures
            r is Ok,
            *final(self) == (Market { width_scaled: 0, ..*old(self) }),
    {
        self.width_scaled = 0;
        Ok(())
    }

    /// Pays `amount` to the creator; the transfer itself is outside the market
    /// state, which stays as it is.
    pub fn payout_creator(&self, amount: u64) -> (r: Result<(), TokenMillError>)
        ensures
            r is Ok,
    {
        let _ = (self.creator, amount);
        Ok(())
    }

    /// Moves the market to its terminal state: liquidity locked, curve
    /// disabled, creator paid, referrals off.
    pub fn migrate_to_raydium(&mut self) -> (r: Result<(), TokenMillError>)
        requires
            old(self).wf(),
        ensures
            r is Ok,
            final(self).wf(),
            *final(self) == old(self).migrated(),
    {
        let _ = self.lock_liquidity();
        let _ = self.disable_bonding_curve();
        let _ = self.payout_creator(CREATOR_MIGRATION_PAYOUT);
        self.fees.referral_enabled = false;
        Ok(())
    }

    /// Migrates the market once net proceeds are within the accepted band and
    /// the circulating supply has reached its share of the total supply.
    /// Fails with `NetSOLThreshold` outside the band, and with `MathError` where
    /// the curve is already disabled and migration is due again; a failure
    /// changes nothing.
    pub fn check_threshold_and_migrate(&mut self, net_sol: u64) -> (r: Result<(), TokenMillError>)
        requires
            old(self).wf(),
        ensures
            final(self).wf(),
            ({
                let due = old(self).spec_circulating_supply() >= old(self).total_supply * MIGRATION_SUPPLY_PERCENT / 100;
                &&& net_sol < MIGRATION_MIN_NET_SOL || net_sol > MIGRATION_MAX_NET_SOL
                    ==> r == Err::<(), TokenMillError>(TokenMillError::NetSOLThreshold)
                &&& MIGRATION_MIN_NET_SOL <= net_sol <= MIGRATION_MAX_NET_SOL && due && old(self).width_scaled == 0
                    ==> r == Err::<(), TokenMillError>(TokenMillError::MathError)
                &&& MIGRATION_MIN_NET_SOL <= net_sol <= MIGRATION_MAX_NET_SOL && !(due && old(self).width_scaled == 0)
                    ==> r is Ok
                &&& r is Err ==> *final(self) == *old(self)
                &&& r is Ok && due ==> *final(self) == old(self).migrated()
                &&& r is Ok && !due ==> *final(self) == *old(self)
            }),
    {
        if net_sol < MIGRATION_MIN_NET_SOL || net_sol > MIGRATION_MAX_NET_SOL {
            return Err(TokenMillError::NetSOLThreshold);
        }
        let threshold = (self.total_supply as u128) * (MIGRATION_SUPPLY_PERCENT as u128) / 100;
        if (self.circulating_supply() as u128) >= threshold {
            if self.width_scaled == 0 {
                return Err(TokenMillError::MathError);
            }
            let _ = self.migrate_to_raydium();
        }
        Ok(())
    }
}

/// Over the same range of supply, the bid curve rounded down never brings in
/// more quote than the ask curve rounded up costs.
pub proof fn lemma_bid_quote_at_most_ask_quote(m: Market, supply: u64, base_amount: u64)
    requires
        m.wf(),
        quote_outcome(m.bid_prices@, m.width_scaled as int, m.quote_token_decimals as nat, supply as int,
            base_amount as int, Rounding::Down) is Some,
        quote_outcome(m.ask_prices@, m.width_scaled as int, m.quote_token_decimals as nat, supply as int,
            base_amount as int, Rounding::Up) is Some,
    ensures
        quote_outcome(m.bid_prices@, m.width_scaled as int, m.quote_token_decimals as nat, supply as int,
            base_amount as int, Rounding::Down).unwrap().1
        <= quote_outcome(m.ask_prices@, m.width_scaled as int, m.quote_token_decimals as nat, supply as int,
            base_amount as int, Rounding::Up).unwrap().1,
{
    let w = m.width_scaled as int;
    let ns = normalize_base(supply as int);
    let nb = normalize_base(base_amount as int);
    let p = pow10(m.quote_token_decimals as nat);
    crate::curve::lemma_pow10_positive(m.quote_token_decimals as nat);
    lemma_walk_bid_below_ask(m.bid_prices@, m.ask_prices@, w, ns / w, ns % w, nb);
    let q1 = quote_walk(m.bid_prices@, w, ns / w, ns % w, nb, Rounding::Down).1;
    let q2 = quote_walk(m.ask_prices@, w, ns / w, ns % w, nb, Rounding::Up).1;
    lemma_quote_walk_bounds(m.bid_prices@, w, ns / w, ns % w, nb, Rounding::Down);
    assert(0 <= q1 * p <= q2 * p) by (nonlinear_arith)
        requires
            0 <= q1 <= q2,
            p >= 1,
    ;
    lemma_div_round_monotone(q1 * p, q2 * p, SCALE as int, Rounding::Down);
    lemma_div_round_bounds(q2 * p, SCALE as int, Rounding::Up);
}

/// Selling base into the curve and buying the same base straight back costs
/// at least what the sale brought in: rounding never creates free value.
pub proof fn lemma_sell_then_buy_back(m: Market, base_amount: u64)
    requires
        m.wf(),
        m.quote_amount_outcome(base_amount as int, SwapAmountType::ExactInput) is Some,
        (Market { base_reserve: (m.base_reserve + base_amount) as u64, ..m }).quote_amount_outcome(
            base_amount as int,
            SwapAmountType::ExactOutput,
        ) is Some,
    ensures
        m.quote_amount_outcome(base_amount as int, SwapAmountType::ExactInput).unwrap().0 == base_amount,
        m.quote_amount_outcome(base_amount as int, SwapAmountType::ExactInput).unwrap().1
            <= (Market { base_reserve: (m.base_reserve + base_amount) as u64, ..m }).quote_amount_outcome(
            base_amount as int,
            SwapAmountType::ExactOutput,
        ).unwrap().1,
{
    let supply = (m.spec_circulating_supply() - base_amount) as u64;
    let w = m.width_scaled as int;
    let ns = normalize_base(supply as int);
    let nb = normalize_base(base_amount as int);
    assert(ns == supply * 1000 && nb == base_amount * 1000) by (nonlinear_arith)
        requires
            ns == (supply * 1_000_000_000) / 1_000_000,
            nb == (base_amount * 1_000_000_000) / 1_000_000,
    ;
    vstd::arithmetic::div_mod::lemma_fundamental_div_mod(ns, w);
    assert(ns % w + nb <= (PRICES_LENGTH - 1 - ns / w) * w) by (nonlinear_arith)
        requires
            ns == w * (ns / w) + ns % w,
            ns + nb <= m.total_supply * 1000,
            w * 64 == m.total_supply * 1000,
    ;
    crate::curve::lemma_quote_walk_absorbs(m.bid_prices@, w, ns / w, ns % w, nb, Rounding::Down);
    assert(0int * BASE_PRECISION == 0);
    vstd::arithmetic::div_mod::lemma_small_mod(0, SCALE as nat);
    lemma_bid_quote_at_most_ask_quote(m, supply, base_amount);
}

/// Once migrated, a market quotes nothing: every conversion fails, and nothing
/// is left in reserve.
pub proof fn lemma_no_quotes_after_migration(m: Market, base_amount: u64, quote_amount: u64, t: SwapAmountType)
    requires
        m.wf(),
    ensures
        m.migrated().base_reserve == 0,
        m.migrated().quote_amount_outcome(base_amount as int, t) is None,
        sell_outcome(m.migrated().bid_prices@, m.migrated().width_scaled as int,
            m.migrated().quote_token_decimals as nat, m.migrated().spec_circulating_supply(), quote_amount as int) is None,
        buy_outcome(m.migrated().ask_prices@, m.migrated().width_scaled as int,
            m.migrated().quote_token_decimals as nat, m.migrated().spec_circulating_supply(), quote_amount as int) is None,
{
}

proof fn lemma_floor_of_difference(b: int, n: int, d: int)
    requires
        0 <= n,
        d > 0,
    ensures
        (b * d - n) / d == b - div_round(n, d, Rounding::Up),
{
    vstd::arithmetic::div_mod::lemma_fundamental_div_mod(n, d);
    let q = n / d;
    let r = n % d;
    if r == 0 {
        assert(b * d - n == d * (b - q) + 0) by (nonlinear_arith)
            requires
                n == d * q + r,
                r == 0,
        ;
        vstd::arithmetic::div_mod::lemma_fundamental_div_mod_converse(b * d - n, d, b - q, 0);
    } else {
        assert(b * d - n == d * (b - q - 1) + (d - r)) by (nonlinear_arith)
            requires
                n == d * q + r,
        ;
        vstd::arithmetic::div_mod::lemma_fundamental_div_mod_converse(b * d - n, d, b - q - 1, d - r);
    }
}

/// Spending the quote that buying some base cost, from the same circulating
/// supply, buys back at least that base.
pub proof fn lemma_buy_back_with_cost_gets_base(m: Market, base_amount: u64)
    requires
        m.wf(),
        curve_increasing(m.ask_prices@),
        m.quote_amount_outcome(base_amount as int, SwapAmountType::ExactOutput) is Some,
        buy_outcome(m.ask_prices@, m.width_scaled as int, m.quote_token_decimals as nat,
            m.spec_circulating_supply(),
            m.quote_amount_outcome(base_amount as int, SwapAmountType::ExactOutput).unwrap().1) is Some,
    ensures
        buy_outcome(m.ask_prices@, m.width_scaled as int, m.quote_token_decimals as nat,
            m.spec_circulating_supply(),
            m.quote_amount_outcome(base_amount as int, SwapAmountType::ExactOutput).unwrap().1).unwrap().0
            >= m.quote_amount_outcome(base_amount as int, SwapAmountType::ExactOutput).unwrap().0,
{
    let w = m.width_scaled as int;
    let dec = m.quote_token_decimals as nat;
    let p = pow10(dec);
    let ns = normalize_base(m.spec_circulating_supply());
    let nb = normalize_base(base_amount as int);
    assert(nb == base_amount * 1000) by (nonlinear_arith)
        requires
            nb == (base_amount * 1_000_000_000) / 1_000_000,
    ;
    let walk = quote_walk(m.ask_prices@, w, ns / w, ns % w, nb, Rounding::Up);
    let q1 = m.quote_amount_outcome(base_amount as int, SwapAmountType::ExactOutput).unwrap().1;
    crate::curve::lemma_pow10_positive(dec);
    vstd::arithmetic::div_mod::lemma_fundamental_div_mod(ns, w);
    lemma_quote_walk_bounds(m.ask_prices@, w, ns / w, ns % w, nb, Rounding::Up);
    assert(0 <= walk.1 * p) by (nonlinear_arith)
        requires
            walk.1 >= 0,
            p >= 1,
    ;
    lemma_div_round_bounds(walk.1 * p, SCALE as int, Rounding::Up);
    let nq = normalize_quote(q1, dec);
    assert((walk.1 * p) / p == walk.1) by (nonlinear_arith)
        requires
            p >= 1,
    ;
    vstd::arithmetic::div_mod::lemma_div_is_ordered(walk.1 * p, q1 * SCALE, p);
    crate::curve::lemma_buy_walk_covers(m.ask_prices@, w, ns / w, ns % w, nb, nq);
    lemma_floor_of_difference(base_amount as int, walk.0 * BASE_PRECISION, SCALE as int);
    assert((nb - walk.0) * BASE_PRECISION == base_amount * SCALE - walk.0 * BASE_PRECISION);
    vstd::arithmetic::div_mod::lemma_div_is_ordered(
        (nb - walk.0) * BASE_PRECISION,
        buy_walk(m.ask_prices@, w, ns / w, ns % w, nq).1 * BASE_PRECISION,
        SCALE as int,
    );
}

/// Asking a sale, from the same circulating supply, for the quote that selling
/// some base brought in sells no more than that base.
pub proof fn lemma_sell_for_proceeds_needs_no_more_base(m: Market, base_amount: u64)
    requires
        m.wf(),
        m.quote_amount_outcome(base_amount as int, SwapAmountType::ExactInput) is Some,
        sell_outcome(m.bid_prices@, m.width_scaled as int, m.quote_token_decimals as nat,
            m.spec_circulating_supply(),
            m.quote_amount_outcome(base_amount as int, SwapAmountType::ExactInput).unwrap().1) is Some,
    ensures
        sell_outcome(m.bid_prices@, m.width_scaled as int, m.quote_token_decimals as nat,
            m.spec_circulating_supply(),
            m.quote_amount_outcome(base_amount as int, SwapAmountType::ExactInput).unwrap().1).unwrap().0
            <= base_amount,
{
    let w = m.width_scaled as int;
    let dec = m.quote_token_decimals as nat;
    let p = pow10(dec);
    let s = m.spec_circulating_supply();
    let supply = s - base_amount;
    let ns0 = normalize_base(supply);
    let ns1 = normalize_base(s);
    let nb = normalize_base(base_amount as int);
    assert(ns0 == supply * 1000 && ns1 == s * 1000 && nb == base_amount * 1000) by (nonlinear_arith)
        requires
            ns0 == (supply * 1_000_000_000) / 1_000_000,
            ns1 == (s * 1_000_000_000) / 1_000_000,
            nb == (base_amount * 1_000_000_000) / 1_000_000,
    ;
    let walk = quote_walk(m.bid_prices@, w, ns0 / w, ns0 % w, nb, Rounding::Down);
    let q1 = m.quote_amount_outcome(base_amount as int, SwapAmountType::ExactInput).unwrap().1;
    crate::curve::lemma_pow10_positive(dec);
    vstd::arithmetic::div_mod::lemma_fundamental_div_mod(ns0, w);
    vstd::arithmetic::div_mod::lemma_fundamental_div_mod(ns1, w);
    lemma_quote_walk_bounds(m.bid_prices@, w, ns0 / w, ns0 % w, nb, Rounding::Down);
    assert(0 <= walk.1 * p) by (nonlinear_arith)
        requires
            walk.1 >= 0,
            p >= 1,
    ;
    lemma_div_round_bounds(walk.1 * p, SCALE as int, Rounding::Down);
    let nq = normalize_quote(q1, dec);
    assert((walk.1 * p) / p == walk.1) by (nonlinear_arith)
        requires
            p >= 1,
    ;
    vstd::arithmetic::div_mod::lemma_div_is_ordered(q1 * SCALE, walk.1 * p, p);
    assert(q1 * SCALE >= 0 && nq >= 0) by (nonlinear_arith)
        requires
            q1 >= 0,
            nq == (q1 * SCALE) / p,
            p >= 1,
    ;
    let kk = if ns1 % w == 0 { ns1 / w } else { ns1 / w + 1 };
    let avail = if ns1 % w == 0 { w } else { ns1 % w };
    assert((ns0 / w) * w == w * (ns0 / w)) by (nonlinear_arith);
    assert((ns1 / w) * w == w * (ns1 / w)) by (nonlinear_arith);
    assert((kk - 1) * w + w == kk * w) by (nonlinear_arith);
    if kk >= 1 {
        lemma_sell_walk_within(m.bid_prices@, w, kk, avail, ns0 / w, ns0 % w, nb, nq);
    }
    lemma_sell_walk_bounds(m.bid_prices@, w, kk, avail, nq);
    let sold = sell_walk(m.bid_prices@, w, kk, avail, nq).1;
    lemma_div_round_le(sold * BASE_PRECISION, SCALE as int, base_amount as int, Rounding::Up);
}

} // verus!
