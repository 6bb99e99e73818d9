use anchor_lang::prelude::Pubkey;
use token_mill::constants::{MAX_TOTAL_SUPPLY, PRICES_LENGTH};
use token_mill::curve::{checked_pow10, get_delta_base_in, get_delta_base_out};
use token_mill::math::{div, mul_div};
use token_mill::{Market, MarketFees, Rounding, SwapAmountType, TokenMillError};

const SUPPLY: u64 = 64_000_000_000;
const ONE_INTERVAL: u64 = 1_000_000_000;

fn blank_market() -> Market {
    Market {
        config: Pubkey::default(),
        creator: Pubkey::default(),
        base_token_mint: Pubkey::default(),
        quote_token_mint: Pubkey::default(),
        base_reserve: 0,
        bid_prices: [0; PRICES_LENGTH],
        ask_prices: [0; PRICES_LENGTH],
        width_scaled: 0,
        total_supply: 0,
        fees: MarketFees {
            staking_fee_share: 0,
            creator_fee_share: 0,
            pending_staking_fees: 0,
            pending_creator_fees: 0,
            referral_fee_share: 0,
            referral_enabled: false,
        },
        quote_token_decimals: 0,
        bump: 0,
        airdrop_ledger: 0,
    }
}

fn curves() -> ([u64; PRICES_LENGTH], [u64; PRICES_LENGTH]) {
    let mut bid = [0u64; PRICES_LENGTH];
    let mut ask = [0u64; PRICES_LENGTH];
    for i in 0..PRICES_LENGTH {
        ask[i] = (i as u64 + 1) * 1_000_000;
        bid[i] = (i as u64 + 1) * 900_000;
    }
    (bid, ask)
}

fn initialize(m: &mut Market, total_supply: u64) -> Result<(), TokenMillError> {
    m.initialize(
        7,
        Pubkey::new_unique(),
        Pubkey::new_unique(),
        Pubkey::new_unique(),
        Pubkey::new_unique(),
        9,
        total_supply,
        500,
        300,
        0,
    )
}

fn ready_market(circulating: u64) -> Market {
    let mut m = blank_market();
    initialize(&mut m, SUPPLY).unwrap();
    let (bid, ask) = curves();
    m.check_and_set_prices(bid, ask).unwrap();
    m.base_reserve = SUPPLY - circulating;
    m
}

#[test]
fn size() {
    let size = std::mem::size_of::<Market>() + 8;
    println!("Size of Market: {}", size);
    assert!(size < 10_240);
}

#[test]
fn initialize_sets_width_and_reserve() {
    let mut m = blank_market();
    assert_eq!(initialize(&mut m, SUPPLY), Ok(()));
    assert_eq!(m.width_scaled, 1_000_000_000_000);
    assert_eq!(m.base_reserve, SUPPLY);
    assert_eq!(m.total_supply, SUPPLY);
    assert!(m.fees.referral_enabled);
    assert_eq!(m.fees.creator_fee_share, 500);
    assert_eq!(m.bump, 7);
    assert_eq!(m.quote_token_decimals, 9);
}

#[test]
fn initialize_rejects_bad_supplies() {
    let mut m = blank_market();
    let before = m;
    assert_eq!(initialize(&mut m, SUPPLY + 1), Err(TokenMillError::InvalidTotalSupply));
    assert_eq!(initialize(&mut m, 64 * 999_999), Err(TokenMillError::InvalidTotalSupply));
    assert_eq!(initialize(&mut m, MAX_TOTAL_SUPPLY + 64), Err(TokenMillError::InvalidTotalSupply));
    assert_eq!(m, before);
    assert_eq!(initialize(&mut m, MAX_TOTAL_SUPPLY), Ok(()));
    assert_eq!(m.width_scaled, 15_625_000_000_000_000_000);
}

#[test]
fn prices_accepted_once() {
    let mut m = blank_market();
    initialize(&mut m, SUPPLY).unwrap();
    assert!(!m.are_prices_set());
    let (bid, ask) = curves();
    assert_eq!(m.check_and_set_prices(bid, ask), Ok(()));
    assert!(m.are_prices_set());
    assert_eq!(m.bid_prices, bid);
    assert_eq!(m.ask_prices, ask);
    assert_eq!(m.check_and_set_prices(bid, ask), Err(TokenMillError::PricesAlreadySet));
}

#[test]
fn prices_rejected() {
    let (bid, ask) = curves();
    let mut m = blank_market();
    initialize(&mut m, SUPPLY).unwrap();
    let before = m;

    let mut high_bid = bid;
    high_bid[5] = ask[5] + 1;
    assert_eq!(m.check_and_set_prices(high_bid, ask), Err(TokenMillError::BidAskMismatch));

    let mut flat_ask = ask;
    flat_ask[10] = flat_ask[9];
    assert_eq!(m.check_and_set_prices(bid, flat_ask), Err(TokenMillError::DecreasingPrices));

    let mut falling_bid = bid;
    falling_bid[3] = falling_bid[2] - 1;
    assert_eq!(m.check_and_set_prices(falling_bid, ask), Err(TokenMillError::DecreasingPrices));

    let mut too_high = ask;
    too_high[PRICES_LENGTH - 1] = 1_000_000_000_000_000_001;
    assert_eq!(m.check_and_set_prices(bid, too_high), Err(TokenMillError::PriceTooHigh));

    assert_eq!(m, before);
}

#[test]
fn buy_one_interval() {
    let m = ready_market(0);
    assert_eq!(m.circulating_supply(), 0);
    assert_eq!(
        m.get_quote_amount(ONE_INTERVAL, SwapAmountType::ExactOutput),
        Ok((ONE_INTERVAL, 1_500_000_000))
    );
}

#[test]
fn sell_one_interval() {
    let m = ready_market(2 * ONE_INTERVAL);
    assert_eq!(
        m.get_quote_amount(ONE_INTERVAL, SwapAmountType::ExactInput),
        Ok((ONE_INTERVAL, 2_250_000_000))
    );
}

#[test]
fn sell_more_than_circulating_fails() {
    let m = ready_market(ONE_INTERVAL);
    assert_eq!(
        m.get_quote_amount(ONE_INTERVAL + 1, SwapAmountType::ExactInput),
        Err(TokenMillError::MathError)
    );
}

#[test]
fn boundary_split_matches_whole() {
    let m = ready_market(0);
    let whole = m.get_quote_amount(2 * ONE_INTERVAL, SwapAmountType::ExactOutput).unwrap();
    let first = m.get_quote_amount(ONE_INTERVAL, SwapAmountType::ExactOutput).unwrap();
    let second = ready_market(ONE_INTERVAL)
        .get_quote_amount(ONE_INTERVAL, SwapAmountType::ExactOutput)
        .unwrap();
    assert_eq!(whole, (2 * ONE_INTERVAL, 4_000_000_000));
    assert_eq!(whole.1, first.1 + second.1);
    let direct = m
        .get_quote_amount_with_parameters(ONE_INTERVAL, ONE_INTERVAL, SwapAmountType::ExactOutput, Rounding::Up)
        .unwrap();
    assert_eq!(direct, second);
}

#[test]
fn sell_then_buy_back_costs_no_less() {
    let m = ready_market(2 * ONE_INTERVAL);
    let (sold, received) = m.get_quote_amount(ONE_INTERVAL, SwapAmountType::ExactInput).unwrap();
    let mut after = m;
    after.base_reserve += sold;
    let (bought, paid) = after.get_quote_amount(sold, SwapAmountType::ExactOutput).unwrap();
    assert_eq!(bought, sold);
    assert!(received <= paid);
    assert_eq!(paid, 2_500_000_000);
}

#[test]
fn partial_interval_quotes_round_by_direction() {
    let m = ready_market(0);
    let (_, up) = m.get_quote_amount(1, SwapAmountType::ExactOutput).unwrap();
    let sell_market = ready_market(1);
    let (_, down) = sell_market.get_quote_amount(1, SwapAmountType::ExactInput).unwrap();
    assert_eq!(up, 2);
    assert_eq!(down, 0);
}

#[test]
fn base_out_reproduces_bought_base() {
    let m = ready_market(0);
    let (base, quote) = m.get_quote_amount(ONE_INTERVAL, SwapAmountType::ExactOutput).unwrap();
    assert_eq!(m.get_base_amount_out(quote), Ok((base, quote)));
}

#[test]
fn base_in_reproduces_sold_base() {
    let m = ready_market(2 * ONE_INTERVAL);
    let (base, quote) = m.get_quote_amount(ONE_INTERVAL, SwapAmountType::ExactInput).unwrap();
    assert_eq!(m.get_base_amount_in(quote), Ok((base, quote)));
}

#[test]
fn base_round_trip_within_one_unit_mid_interval() {
    let m = ready_market(0);
    let (base, quote) = m.get_quote_amount(123_456_789, SwapAmountType::ExactOutput).unwrap();
    let (again, spent) = m.get_base_amount_out(quote).unwrap();
    assert!(again <= base + 1 && base <= again + 1);
    assert_eq!(spent, quote);

    let s = ready_market(1_500_000_000);
    let (base, quote) = s.get_quote_amount(987_654_321, SwapAmountType::ExactInput).unwrap();
    let (again, obtained) = s.get_base_amount_in(quote).unwrap();
    assert!(again <= base + 1 && base <= again + 1);
    assert_eq!(obtained, quote);
}

#[test]
fn base_out_partial_interval() {
    let m = ready_market(0);
    assert_eq!(m.get_base_amount_out(750_000_000), Ok((581_138_830, 750_000_000)));
}

#[test]
fn base_in_runs_out_of_curve() {
    let m = ready_market(ONE_INTERVAL);
    let (base, quote) = m.get_base_amount_in(u64::MAX / 2).unwrap();
    assert_eq!(base, ONE_INTERVAL);
    assert_eq!(quote, 1_350_000_000);
}

#[test]
fn distribute_fee_split() {
    let mut m = ready_market(0);
    m.fees.referral_enabled = false;
    assert_eq!(m.distribute_fee(1000), Ok((50, 30, 920, 0)));
    assert_eq!(m.fees.pending_creator_fees, 50);
    assert_eq!(m.fees.pending_staking_fees, 30);
}

#[test]
fn distribute_fee_with_referral() {
    let mut m = ready_market(0);
    m.fees.referral_fee_share = 1000;
    assert!(m.fees.referral_enabled);
    assert_eq!(m.distribute_fee(10_000), Ok((500, 300, 8200, 1000)));
}

#[test]
fn distribute_fee_overcommitted_fails() {
    let mut m = ready_market(0);
    m.fees.creator_fee_share = 9000;
    m.fees.staking_fee_share = 2000;
    let before = m;
    assert_eq!(m.distribute_fee(1000), Err(TokenMillError::MathError));
    assert_eq!(m, before);
}

#[test]
fn airdrop_ledger_grows() {
    let mut m = ready_market(0);
    assert_eq!(m.add_airdrop(5), Ok(()));
    assert_eq!(m.add_airdrop(7), Ok(()));
    assert_eq!(m.airdrop_ledger, 12);
    assert_eq!(m.base_reserve, SUPPLY);
    assert_eq!(m.add_airdrop(u64::MAX), Err(TokenMillError::MathError));
    assert_eq!(m.airdrop_ledger, 12);
}

#[test]
fn migration_stops_quotes() {
    let mut m = ready_market(ONE_INTERVAL);
    assert_eq!(m.migrate_to_raydium(), Ok(()));
    assert_eq!(m.base_reserve, 0);
    assert_eq!(m.width_scaled, 0);
    assert!(!m.fees.referral_enabled);
    assert_eq!(m.get_quote_amount(1, SwapAmountType::ExactOutput), Err(TokenMillError::MathError));
    assert_eq!(m.get_quote_amount(1, SwapAmountType::ExactInput), Err(TokenMillError::MathError));
    assert_eq!(m.get_base_amount_in(1), Err(TokenMillError::MathError));
    assert_eq!(m.get_base_amount_out(1), Err(TokenMillError::MathError));
}

#[test]
fn threshold_outside_band_changes_nothing() {
    let mut m = ready_market(SUPPLY * 9 / 10);
    let before = m;
    assert_eq!(m.check_threshold_and_migrate(59_999), Err(TokenMillError::NetSOLThreshold));
    assert_eq!(m.check_threshold_and_migrate(63_001), Err(TokenMillError::NetSOLThreshold));
    assert_eq!(m, before);
}

#[test]
fn threshold_migrates_when_due() {
    let mut m = ready_market(SUPPLY * 8 / 10);
    assert_eq!(m.check_threshold_and_migrate(60_000), Ok(()));
    assert_eq!(m.base_reserve, 0);
    assert_eq!(m.width_scaled, 0);
    assert_eq!(m.check_threshold_and_migrate(60_000), Err(TokenMillError::MathError));
}

#[test]
fn threshold_waits_below_supply_share() {
    let mut m = ready_market(SUPPLY / 2);
    let before = m;
    assert_eq!(m.check_threshold_and_migrate(63_000), Ok(()));
    assert_eq!(m, before);
}

#[test]
fn lock_and_disable_separately() {
    let mut m = ready_market(ONE_INTERVAL);
    assert_eq!(m.lock_liquidity(), Ok(()));
    assert_eq!(m.base_reserve, 0);
    assert_eq!(m.width_scaled, 1_000_000_000_000);
    assert_eq!(m.disable_bonding_curve(), Ok(()));
    assert_eq!(m.width_scaled, 0);
    assert_eq!(m.payout_creator(200), Ok(()));
}

#[test]
fn mul_div_rounding_and_overflow() {
    assert_eq!(mul_div(7, 3, 2, Rounding::Down), Some(10));
    assert_eq!(mul_div(7, 3, 2, Rounding::Up), Some(11));
    assert_eq!(mul_div(6, 3, 2, Rounding::Up), Some(9));
    assert_eq!(mul_div(u128::MAX, u128::MAX, u128::MAX, Rounding::Down), Some(u128::MAX));
    assert_eq!(mul_div(u128::MAX, u128::MAX - 1, u128::MAX, Rounding::Up), Some(u128::MAX - 1));
    assert_eq!(mul_div(u128::MAX, 2, 1, Rounding::Down), None);
    assert_eq!(mul_div(1, 1, 0, Rounding::Down), None);
    assert_eq!(mul_div(1 << 100, 1 << 100, 1 << 90, Rounding::Down), Some(1 << 110));
    assert_eq!(mul_div(u128::MAX, u128::MAX, 3, Rounding::Down), None);
}

#[test]
fn div_rounding_and_narrowing() {
    assert_eq!(div(10, 3, Rounding::Down), Some(3));
    assert_eq!(div(10, 3, Rounding::Up), Some(4));
    assert_eq!(div(9, 3, Rounding::Up), Some(3));
    assert_eq!(div(1, 0, Rounding::Down), None);
    assert_eq!(div(u64::MAX as u128 + 1, 1, Rounding::Down), None);
    assert_eq!(div(u64::MAX as u128 * 2 + 1, 2, Rounding::Up), None);
    assert_eq!(div(u64::MAX as u128 * 2, 2, Rounding::Up), Some(u64::MAX));
}

#[test]
fn pow10_limits() {
    assert_eq!(checked_pow10(0), Some(1));
    assert_eq!(checked_pow10(9), Some(1_000_000_000));
    assert_eq!(checked_pow10(38), Some(10u128.pow(38)));
    assert_eq!(checked_pow10(39), None);
}

#[test]
fn interval_solvers() {
    let w: u128 = 1_000_000_000_000;
    assert_eq!(get_delta_base_out(1_000_000, 2_000_000, w, 0, 2_000_000_000), (w, 1_500_000_000));
    let (x, q) = get_delta_base_out(1_000_000, 2_000_000, w, 0, 750_000_000);
    assert_eq!(q, 750_000_000);
    assert!(x > 581_138_830_000 && x < 581_138_831_000);
    let (y, q) = get_delta_base_in(1_800_000, 2_700_000, w, w, 1_000_000_000);
    assert_eq!(q, 1_000_000_000);
    assert!(y > 0 && y < w);
    assert_eq!(get_delta_base_in(1_800_000, 2_700_000, w, w, 3_000_000_000), (w, 2_250_000_000));
    assert_eq!(get_delta_base_in(1_800_000, 2_700_000, w, w, 0), (0, 0));
}
