use vstd::prelude::*;
use vstd::arithmetic::div_mod::{lemma_fundamental_div_mod, lemma_div_is_ordered};
use crate::constants::{MAX_PRICE, PRICES_LENGTH, SCALE};
use crate::math::{div_round, lemma_div_round_bounds, lemma_div_round_monotone, mul_div, Rounding};

verus! {

/// A curve of boundary prices that never decreases and stays within the
/// maximum price.
pub open spec fn curve_bounded(c: Seq<u64>) -> bool {
    &&& c.len() == PRICES_LENGTH
    &&& forall|i: int| 0 <= i < c.len() ==> c[i] <= MAX_PRICE
    &&& forall|i: int, j: int| 0 <= i <= j < c.len() ==> c[i] <= c[j]
}

/// Quote (normalized, scaled by `SCALE`) for `delta` normalized base units of
/// an interval whose prices run linearly from `p0` to `p1` over `width`,
/// starting `used` units into the interval: the trapezoid area under the price
/// line, rounded as asked.
pub open spec fn segment_quote(p0: int, p1: int, width: int, used: int, delta: int, rounding: Rounding) -> int {
    div_round(delta * ((p1 - p0) * (delta + 2 * used) + 2 * p0 * width), 2 * SCALE * width, rounding)
}

/// Walks `left` normalized base units up the curve from interval `k`, `used`
/// units into it. Gives the base that the curve could not absorb and the
/// total quote of the intervals crossed.
pub open spec fn quote_walk(c: Seq<u64>, width: int, k: int, used: int, left: int, rounding: Rounding) -> (int, int)
    decreases c.len() - k,
{
    if left <= 0 || k < 0 || k + 1 >= c.len() {
        (left, 0)
    } else {
        let d = if left < width - used { left } else { width - used };
        let q = segment_quote(c[k] as int, c[k + 1] as int, width, used, d, rounding);
        let rest = quote_walk(c, width, k + 1, 0, left - d, rounding);
        (rest.0, q + rest.1)
    }
}

/// Largest quote of one interval: a whole interval of the widest width at the
/// highest price.
pub open spec fn segment_quote_cap() -> int {
    18_446_744_073_709_551_616_000_000_000
}

/// A numerator at most `d * b` rounds, either way, to at most `b`.
pub proof fn lemma_div_round_le(n: int, d: int, b: int, rounding: Rounding)
    requires
        0 <= n <= d * b,
        d > 0,
    ensures
        div_round(n, d, rounding) <= b,
{
    lemma_div_round_bounds(n, d, rounding);
    lemma_fundamental_div_mod(n, d);
    assert((d * b) / d == b) by (nonlinear_arith)
        requires
            d > 0,
    ;
    lemma_div_is_ordered(n, d * b, d);
    if n / d == b {
        assert(d * (n / d) == d * b);
    }
}

/// The terms of one interval step fit their machine types.
pub proof fn lemma_segment_bounds(p0: int, p1: int, width: int, used: int, delta: int, rounding: Rounding)
    requires
        0 <= p0 <= p1 <= MAX_PRICE,
        0 < width <= u64::MAX,
        0 <= used,
        0 <= delta,
        used + delta <= width,
    ensures
        0 <= (p1 - p0) * (delta + 2 * used) <= 2 * width * MAX_PRICE,
        0 <= (p1 - p0) * (delta + 2 * used) + 2 * p0 * width <= 2 * width * MAX_PRICE,
        2 * width * MAX_PRICE < u128::MAX,
        0 <= segment_quote(p0, p1, width, used, delta, rounding) <= delta * 1_000_000_000,
        delta * 1_000_000_000 <= segment_quote_cap(),
{
    let x = (p1 - p0) * (delta + 2 * used) + 2 * p0 * width;
    assert(0 <= (p1 - p0) * (delta + 2 * used) <= (p1 - p0) * (2 * width)) by (nonlinear_arith)
        requires
            0 <= p0 <= p1,
            0 <= used,
            0 <= delta,
            used + delta <= width,
    ;
    assert(x <= 2 * width * p1) by (nonlinear_arith)
        requires
            x == (p1 - p0) * (delta + 2 * used) + 2 * p0 * width,
            (p1 - p0) * (delta + 2 * used) <= (p1 - p0) * (2 * width),
    ;
    assert(0 <= 2 * p0 * width <= 2 * width * p1 <= 2 * width * MAX_PRICE) by (nonlinear_arith)
        requires
            0 <= p0 <= p1 <= MAX_PRICE,
            0 < width,
    ;
    assert(2 * width * MAX_PRICE < u128::MAX) by (nonlinear_arith)
        requires
            0 < width <= u64::MAX,
    ;
    assert(0 <= delta * x <= (2 * SCALE * width) * (delta * 1_000_000_000)) by (nonlinear_arith)
        requires
            0 <= x <= 2 * width * MAX_PRICE,
            0 <= delta,
    ;
    assert(2 * SCALE * width > 0) by (nonlinear_arith)
        requires
            width > 0,
    ;
    lemma_div_round_le(delta * x, 2 * SCALE * width, delta * 1_000_000_000, rounding);
    lemma_div_round_bounds(delta * x, 2 * SCALE * width, rounding);
    assert(delta * 1_000_000_000 <= segment_quote_cap()) by (nonlinear_arith)
        requires
            delta <= width <= u64::MAX,
    ;
}

/// A walk whose base fits in the intervals left from its start absorbs all of it.
pub proof fn lemma_quote_walk_absorbs(c: Seq<u64>, width: int, k: int, used: int, left: int, rounding: Rounding)
    requires
        0 < width,
        0 <= used < width,
        0 <= left,
        0 <= k < c.len(),
        used + left <= (c.len() - 1 - k) * width,
    ensures
        quote_walk(c, width, k, used, left, rounding).0 == 0,
    decreases c.len() - k,
{
    if left <= 0 {
    } else if k + 1 >= c.len() {
        assert((c.len() - 1 - k) * width == 0) by (nonlinear_arith)
            requires
                c.len() - 1 - k == 0,
        ;
    } else {
        let d = if left < width - used { left } else { width - used };
        if d == left {
            assert(quote_walk(c, width, k + 1, 0, 0, rounding).0 == 0);
        } else {
            assert((c.len() - 1 - k) * width == width + (c.len() - 1 - (k + 1)) * width) by (nonlinear_arith);
            lemma_quote_walk_absorbs(c, width, k + 1, 0, left - d, rounding);
        }
    }
}

/// The walk's leftover never grows, and its quote is bounded by the number of
/// intervals it may cross.
pub proof fn lemma_quote_walk_bounds(c: Seq<u64>, width: int, k: int, used: int, left: int, rounding: Rounding)
    requires
        curve_bounded(c),
        0 < width <= u64::MAX,
        0 <= used < width,
        0 <= left,
        0 <= k < c.len(),
    ensures
        0 <= quote_walk(c, width, k, used, left, rounding).0 <= left,
        0 <= quote_walk(c, width, k, used, left, rounding).1 <= (c.len() - k) * segment_quote_cap(),
    decreases c.len() - k,
{
    if left <= 0 || k + 1 >= c.len() {
    } else {
        let d = if left < width - used { left } else { width - used };
        lemma_segment_bounds(c[k] as int, c[k + 1] as int, width, used, d, rounding);
        lemma_quote_walk_bounds(c, width, k + 1, 0, left - d, rounding);
        assert((c.len() - k) * segment_quote_cap() == segment_quote_cap() + (c.len() - (k + 1))
            * segment_quote_cap()) by (nonlinear_arith);
    }
}

/// `10^n`.
pub open spec fn pow10(n: nat) -> int
    decreases n,
{
    if n == 0 {
        1
    } else {
        10 * pow10((n - 1) as nat)
    }
}

/// `10^n` as a `u128`, or `None` when it does not fit.
pub fn checked_pow10(n: u8) -> (r: Option<u128>)
    ensures
        r is Some <==> pow10(n as nat) <= u128::MAX,
        r matches Some(v) ==> v == pow10(n as nat),
{
    let mut acc: u128 = 1;
    let mut i: u8 = 0;
    while i < n
        invariant
            i <= n,
            acc == pow10(i as nat),
            forall|j: nat| j <= i ==> pow10(j) <= u128::MAX,
        decreases n - i,
    {
        if acc > u128::MAX / 10 {
            proof {
                lemma_pow10_monotone((i + 1) as nat, n as nat);
            }
            return None;
        }
        acc = acc * 10;
        i = i + 1;
        proof {
            assert forall|j: nat| j <= i implies pow10(j) <= u128::MAX by {
                if j == i {
                    assert(pow10(j) == 10 * pow10((j - 1) as nat));
                }
            }
        }
    }
    Some(acc)
}

pub proof fn lemma_pow10_positive(n: nat)
    ensures
        pow10(n) >= 1,
{
    lemma_pow10_monotone(n, n);
}

proof fn lemma_pow10_monotone(a: nat, b: nat)
    requires
        a <= b,
    ensures
        1 <= pow10(a) <= pow10(b),
    decreases b,
{
    if b > a {
        lemma_pow10_monotone(a, (b - 1) as nat);
    } else if a > 0 {
        lemma_pow10_monotone((a - 1) as nat, (a - 1) as nat);
    }
}


/// Quote of `delta` units of an interval `used` units into it, computed.
pub fn segment_quote_exec(p0: u64, p1: u64, width: u128, used: u128, delta: u128, rounding: Rounding) -> (r: u128)
    requires
        p0 <= p1 <= MAX_PRICE,
        0 < width <= u64::MAX,
        used + delta <= width,
    ensures
        r == segment_quote(p0 as int, p1 as int, width as int, used as int, delta as int, rounding),
        r <= segment_quote_cap(),
{
    proof {
        lemma_segment_bounds(p0 as int, p1 as int, width as int, used as int, delta as int, rounding);
    }
    let slope_part = ((p1 - p0) as u128) * (delta + 2 * used);
    match mul_div(delta, slope_part + 2 * (p0 as u128) * width, 2 * SCALE * width, rounding) {
        Some(v) => v,
        // Unreachable: the quotient is bounded by `segment_quote_cap`.
        None => 0,
    }
}

proof fn lemma_zero_quote(p0: int, p1: int, width: int, used: int, rounding: Rounding)
    requires
        width > 0,
    ensures
        segment_quote(p0, p1, width, used, 0, rounding) == 0,
{
    let x = (p1 - p0) * (0 + 2 * used) + 2 * p0 * width;
    assert(0 * x == 0);
    assert(2 * SCALE * width > 0) by (nonlinear_arith)
        requires
            width > 0,
    ;
    vstd::arithmetic::div_mod::lemma_div_of0(2 * SCALE * width);
    vstd::arithmetic::div_mod::lemma_small_mod(0, (2 * SCALE * width) as nat);
}

/// Quote taken in to buy `x` units of an interval going up from `used`.
pub open spec fn cost_up(p0: int, p1: int, width: int, used: int, x: int) -> int {
    segment_quote(p0, p1, width, used, x, Rounding::Up)
}

/// Quote paid out for `x` units of an interval sold back down from `avail`.
pub open spec fn proceeds_down(p0: int, p1: int, width: int, avail: int, x: int) -> int {
    segment_quote(p0, p1, width, avail - x, x, Rounding::Down)
}

pub proof fn lemma_cost_up_monotone(p0: int, p1: int, width: int, used: int, x: int, y: int)
    requires
        0 <= p0 <= p1,
        0 < width,
        0 <= used,
        0 <= x <= y,
    ensures
        cost_up(p0, p1, width, used, x) <= cost_up(p0, p1, width, used, y),
{
    assert(x * ((p1 - p0) * (x + 2 * used) + 2 * p0 * width) <= y * ((p1 - p0) * (y + 2 * used) + 2
        * p0 * width)) by (nonlinear_arith)
        requires
            0 <= p0 <= p1,
            0 < width,
            0 <= used,
            0 <= x <= y,
    ;
    assert(0 <= x * ((p1 - p0) * (x + 2 * used) + 2 * p0 * width)) by (nonlinear_arith)
        requires
            0 <= p0 <= p1,
            0 < width,
            0 <= used,
            0 <= x,
    ;
    assert(2 * SCALE * width > 0) by (nonlinear_arith)
        requires
            width > 0,
    ;
    lemma_div_round_monotone(
        x * ((p1 - p0) * (x + 2 * used) + 2 * p0 * width),
        y * ((p1 - p0) * (y + 2 * used) + 2 * p0 * width),
        2 * SCALE * width,
        Rounding::Up,
    );
}

pub proof fn lemma_proceeds_down_monotone(p0: int, p1: int, width: int, avail: int, x: int, y: int)
    requires
        0 <= p0 <= p1,
        0 < width,
        0 <= x <= y <= avail,
    ensures
        proceeds_down(p0, p1, width, avail, x) <= proceeds_down(p0, p1, width, avail, y),
{
    let fx = x * ((p1 - p0) * (x + 2 * (avail - x)) + 2 * p0 * width);
    let fy = y * ((p1 - p0) * (y + 2 * (avail - y)) + 2 * p0 * width);
    assert(fy - fx == (y - x) * ((p1 - p0) * (2 * avail - x - y) + 2 * p0 * width)) by (nonlinear_arith)
        requires
            fx == x * ((p1 - p0) * (x + 2 * (avail - x)) + 2 * p0 * width),
            fy == y * ((p1 - p0) * (y + 2 * (avail - y)) + 2 * p0 * width),
    ;
    assert(0 <= (y - x) * ((p1 - p0) * (2 * avail - x - y) + 2 * p0 * width)) by (nonlinear_arith)
        requires
            0 <= p0 <= p1,
            0 < width,
            0 <= x <= y <= avail,
    ;
    assert(0 <= fx) by (nonlinear_arith)
        requires
            fx == x * ((p1 - p0) * (x + 2 * (avail - x)) + 2 * p0 * width),
            0 <= p0 <= p1,
            0 < width,
            0 <= x <= avail,
    ;
    assert(2 * SCALE * width > 0) by (nonlinear_arith)
        requires
            width > 0,
    ;
    lemma_div_round_monotone(fx, fy, 2 * SCALE * width, Rounding::Down);
}

/// Most units, at most `n`, whose cost going up from `used` fits in `quote`.
pub open spec fn max_affordable(p0: int, p1: int, width: int, used: int, quote: int, n: int) -> int
    decreases n,
{
    if n <= 0 || cost_up(p0, p1, width, used, n) <= quote {
        n
    } else {
        max_affordable(p0, p1, width, used, quote, n - 1)
    }
}

/// Fewest units, from `x` up to `avail`, whose proceeds reach `quote`.
pub open spec fn min_sufficient(p0: int, p1: int, width: int, avail: int, quote: int, x: int) -> int
    decreases avail - x,
{
    if x >= avail || proceeds_down(p0, p1, width, avail, x) >= quote {
        x
    } else {
        min_sufficient(p0, p1, width, avail, quote, x + 1)
    }
}

/// One interval of a buy that spends `quote`, going up from `used`: the whole
/// rest of the interval at its cost where that fits, else the most units that
/// fit, with all of `quote` spent.
pub open spec fn buy_step(p0: int, p1: int, width: int, used: int, quote: int) -> (int, int) {
    let avail = width - used;
    if cost_up(p0, p1, width, used, avail) <= quote {
        (avail, cost_up(p0, p1, width, used, avail))
    } else {
        (max_affordable(p0, p1, width, used, quote, avail), quote)
    }
}

/// One interval of a sale that must bring in `quote`, going down from `avail`:
/// all `avail` units at their proceeds where those fall short of `quote`, else
/// the fewest units whose proceeds reach it, with all of `quote` delivered.
pub open spec fn sell_step(p0: int, p1: int, width: int, avail: int, quote: int) -> (int, int) {
    if proceeds_down(p0, p1, width, avail, avail) < quote {
        (avail, proceeds_down(p0, p1, width, avail, avail))
    } else {
        (min_sufficient(p0, p1, width, avail, quote, 0), quote)
    }
}

proof fn lemma_max_affordable_is(p0: int, p1: int, width: int, used: int, quote: int, n: int, x: int)
    requires
        0 <= p0 <= p1,
        0 < width,
        0 <= used,
        0 <= x <= n,
        cost_up(p0, p1, width, used, x) <= quote,
        x < n ==> cost_up(p0, p1, width, used, x + 1) > quote,
    ensures
        max_affordable(p0, p1, width, used, quote, n) == x,
    decreases n,
{
    if n > x {
        lemma_cost_up_monotone(p0, p1, width, used, x + 1, n);
        lemma_max_affordable_is(p0, p1, width, used, quote, n - 1, x);
    }
}

proof fn lemma_min_sufficient_is(p0: int, p1: int, width: int, avail: int, quote: int, x: int, y: int)
    requires
        0 <= p0 <= p1,
        0 < width,
        0 <= x <= y <= avail,
        proceeds_down(p0, p1, width, avail, y) >= quote,
        y > 0 ==> proceeds_down(p0, p1, width, avail, y - 1) < quote,
    ensures
        min_sufficient(p0, p1, width, avail, quote, x) == y,
    decreases avail - x,
{
    if x < y {
        lemma_proceeds_down_monotone(p0, p1, width, avail, x, y - 1);
        lemma_min_sufficient_is(p0, p1, width, avail, quote, x + 1, y);
    }
}

/// Solves one interval of a buy that spends `quote` (see `buy_step`).
pub fn get_delta_base_out(p0: u64, p1: u64, width: u128, used: u128, quote: u128) -> (r: (u128, u128))
    requires
        p0 <= p1 <= MAX_PRICE,
        0 < width <= u64::MAX,
        used < width,
    ensures
        r.0 == buy_step(p0 as int, p1 as int, width as int, used as int, quote as int).0,
        r.1 == buy_step(p0 as int, p1 as int, width as int, used as int, quote as int).1,
        r.0 <= width - used,
        r.1 <= quote,
{
    let avail = width - used;
    let full = segment_quote_exec(p0, p1, width, used, avail, Rounding::Up);
    if full <= quote {
        return (avail, full);
    }
    let mut lo: u128 = 0;
    let mut hi: u128 = avail;
    proof {
        lemma_zero_quote(p0 as int, p1 as int, width as int, used as int, Rounding::Up);
    }
    while hi - lo > 1
        invariant
            lo < hi <= avail,
            avail == width - used,
            p0 <= p1 <= MAX_PRICE,
            0 < width <= u64::MAX,
            cost_up(p0 as int, p1 as int, width as int, used as int, lo as int) <= quote,
            cost_up(p0 as int, p1 as int, width as int, used as int, hi as int) > quote,
        decreases hi - lo,
    {
        let mid = lo + (hi - lo) / 2;
        let c = segment_quote_exec(p0, p1, width, used, mid, Rounding::Up);
        if c <= quote {
            lo = mid;
        } else {
            hi = mid;
        }
    }
    proof {
        lemma_max_affordable_is(p0 as int, p1 as int, width as int, used as int, quote as int, avail as int, lo as int);
    }
    (lo, quote)
}

/// Solves one interval of a sale that must bring in `quote` (see `sell_step`).
pub fn get_delta_base_in(p0: u64, p1: u64, width: u128, avail: u128, quote: u128) -> (r: (u128, u128))
    requires
        p0 <= p1 <= MAX_PRICE,
        0 < width <= u64::MAX,
        avail <= width,
    ensures
        r.0 == sell_step(p0 as int, p1 as int, width as int, avail as int, quote as int).0,
        r.1 == sell_step(p0 as int, p1 as int, width as int, avail as int, quote as int).1,
        r.0 <= avail,
        r.1 <= quote,
{
    let full = segment_quote_exec(p0, p1, width, 0, avail, Rounding::Down);
    if full < quote {
        return (avail, full);
    }
    proof {
        lemma_zero_quote(p0 as int, p1 as int, width as int, avail as int, Rounding::Down);
    }
    if quote == 0 {
        proof {
            lemma_min_sufficient_is(p0 as int, p1 as int, width as int, avail as int, quote as int, 0, 0);
        }
        return (0, quote);
    }
    let mut lo: u128 = 0;
    let mut hi: u128 = avail;
    while hi - lo > 1
        invariant
            lo < hi <= avail <= width,
            p0 <= p1 <= MAX_PRICE,
            0 < width <= u64::MAX,
            proceeds_down(p0 as int, p1 as int, width as int, avail as int, lo as int) < quote,
            proceeds_down(p0 as int, p1 as int, width as int, avail as int, hi as int) >= quote,
        decreases hi - lo,
    {
        let mid = lo + (hi - lo) / 2;
        let c = segment_quote_exec(p0, p1, width, avail - mid, mid, Rounding::Down);
        if c >= quote {
            hi = mid;
        } else {
            lo = mid;
        }
    }
    proof {
        lemma_min_sufficient_is(p0 as int, p1 as int, width as int, avail as int, quote as int, 0, hi as int);
    }
    (hi, quote)
}

/// Walks a buy that spends `left` normalized quote up the curve from interval
/// `k`, `used` units into it. Gives the quote left unspent and the base bought.
pub open spec fn buy_walk(c: Seq<u64>, width: int, k: int, used: int, left: int) -> (int, int)
    decreases c.len() - k,
{
    if left <= 0 || k < 0 || k + 1 >= c.len() {
        (left, 0)
    } else {
        let s = buy_step(c[k] as int, c[k + 1] as int, width, used, left);
        let rest = buy_walk(c, width, k + 1, 0, left - s.1);
        (rest.0, s.0 + rest.1)
    }
}

/// Walks a sale that must bring in `left` normalized quote down the curve from
/// boundary `k`, with `avail` units of the interval below it to sell. Gives the
/// quote still missing and the base sold.
pub open spec fn sell_walk(c: Seq<u64>, width: int, k: int, avail: int, left: int) -> (int, int)
    decreases k,
{
    if left <= 0 || k <= 0 || k >= c.len() {
        (left, 0)
    } else {
        let s = sell_step(c[k - 1] as int, c[k] as int, width, avail, left);
        let rest = sell_walk(c, width, k - 1, width, left - s.1);
        (rest.0, s.0 + rest.1)
    }
}

/// The same normalized base crossed on two curves, one bid curve at or below
/// the other ask curve, costs at least as much on the ask curve rounded up as
/// it brings in on the bid curve rounded down; the unabsorbed base is the same.
pub proof fn lemma_walk_bid_below_ask(bid: Seq<u64>, ask: Seq<u64>, width: int, k: int, used: int, left: int)
    requires
        curve_bounded(bid),
        curve_bounded(ask),
        forall|i: int| 0 <= i < bid.len() ==> bid[i] <= ask[i],
        0 < width <= u64::MAX,
        0 <= used < width,
        0 <= left,
        0 <= k,
    ensures
        quote_walk(bid, width, k, used, left, Rounding::Down).0 == quote_walk(ask, width, k, used, left, Rounding::Up).0,
        quote_walk(bid, width, k, used, left, Rounding::Down).1 <= quote_walk(ask, width, k, used, left, Rounding::Up).1,
    decreases bid.len() - k,
{
    if left <= 0 || k + 1 >= bid.len() {
    } else {
        let d = if left < width - used { left } else { width - used };
        lemma_segment_price_monotone(bid[k] as int, bid[k + 1] as int, ask[k] as int, ask[k + 1] as int, width, used, d);
        lemma_walk_bid_below_ask(bid, ask, width, k + 1, 0, left - d);
    }
}

proof fn lemma_segment_price_monotone(p0: int, p1: int, a0: int, a1: int, width: int, used: int, d: int)
    requires
        0 <= p0 <= p1,
        0 <= a0 <= a1,
        p0 <= a0,
        p1 <= a1,
        0 < width,
        0 <= used,
        0 <= d,
        used + d <= width,
    ensures
        segment_quote(p0, p1, width, used, d, Rounding::Down) <= segment_quote(a0, a1, width, used, d, Rounding::Up),
{
    let n1 = d * ((p1 - p0) * (d + 2 * used) + 2 * p0 * width);
    let n2 = d * ((a1 - a0) * (d + 2 * used) + 2 * a0 * width);
    assert(n1 == d * (p1 * (d + 2 * used) + p0 * (2 * width - d - 2 * used))) by (nonlinear_arith)
        requires
            n1 == d * ((p1 - p0) * (d + 2 * used) + 2 * p0 * width),
    ;
    assert(n2 == d * (a1 * (d + 2 * used) + a0 * (2 * width - d - 2 * used))) by (nonlinear_arith)
        requires
            n2 == d * ((a1 - a0) * (d + 2 * used) + 2 * a0 * width),
    ;
    assert(0 <= n1 <= n2) by (nonlinear_arith)
        requires
            n1 == d * (p1 * (d + 2 * used) + p0 * (2 * width - d - 2 * used)),
            n2 == d * (a1 * (d + 2 * used) + a0 * (2 * width - d - 2 * used)),
            0 <= p0 <= a0,
            0 <= p1 <= a1,
            0 <= d,
            0 <= used,
            used + d <= width,
    ;
    assert(2 * SCALE * width > 0) by (nonlinear_arith)
        requires
            width > 0,
    ;
    lemma_div_round_monotone(n1, n2, 2 * SCALE * width, Rounding::Down);
    lemma_div_round_bounds(n2, 2 * SCALE * width, Rounding::Up);
}

/// A walk that ends exactly on an interval boundary and one that starts there
/// together give what one walk over both parts gives: the boundary is counted
/// once, in neither part twice.
pub proof fn lemma_boundary_split(c: Seq<u64>, width: int, k: int, used: int, extra: int, rounding: Rounding)
    requires
        0 <= k,
        k + 1 < c.len(),
        0 <= used < width,
        0 <= extra,
    ensures
        quote_walk(c, width, k, used, width - used, rounding).0 == 0,
        quote_walk(c, width, k, used, (width - used) + extra, rounding).0
            == quote_walk(c, width, k + 1, 0, extra, rounding).0,
        quote_walk(c, width, k, used, (width - used) + extra, rounding).1
            == quote_walk(c, width, k, used, width - used, rounding).1 + quote_walk(c, width, k + 1, 0, extra, rounding).1,
{
    assert(quote_walk(c, width, k + 1, 0, 0, rounding) == (0int, 0int));
}

pub proof fn lemma_buy_walk_bounds(c: Seq<u64>, width: int, k: int, used: int, left: int)
    requires
        curve_bounded(c),
        0 < width <= u64::MAX,
        0 <= used < width,
        0 <= left,
        0 <= k < c.len(),
    ensures
        0 <= buy_walk(c, width, k, used, left).0 <= left,
        0 <= buy_walk(c, width, k, used, left).1 <= (c.len() - k) * width,
    decreases c.len() - k,
{
    if left <= 0 || k + 1 >= c.len() {
    } else {
        let s = buy_step(c[k] as int, c[k + 1] as int, width, used, left);
        lemma_zero_quote(c[k] as int, c[k + 1] as int, width, used, Rounding::Up);
        lemma_cost_up_monotone(c[k] as int, c[k + 1] as int, width, used, 0, width - used);
        if cost_up(c[k] as int, c[k + 1] as int, width, used, width - used) > left {
            lemma_max_affordable_range(c[k] as int, c[k + 1] as int, width, used, left, width - used);
        }
        lemma_buy_walk_bounds(c, width, k + 1, 0, left - s.1);
        assert((c.len() - k) * width == width + (c.len() - (k + 1)) * width) by (nonlinear_arith);
    }
}

proof fn lemma_max_affordable_range(p0: int, p1: int, width: int, used: int, quote: int, n: int)
    requires
        0 <= n,
    ensures
        0 <= max_affordable(p0, p1, width, used, quote, n) <= n,
    decreases n,
{
    if n > 0 {
        lemma_max_affordable_range(p0, p1, width, used, quote, n - 1);
    }
}

proof fn lemma_min_sufficient_range(p0: int, p1: int, width: int, avail: int, quote: int, x: int)
    requires
        0 <= x <= avail,
    ensures
        x <= min_sufficient(p0, p1, width, avail, quote, x) <= avail,
    decreases avail - x,
{
    if x < avail {
        lemma_min_sufficient_range(p0, p1, width, avail, quote, x + 1);
    }
}

pub proof fn lemma_sell_walk_bounds(c: Seq<u64>, width: int, k: int, avail: int, left: int)
    requires
        curve_bounded(c),
        0 < width <= u64::MAX,
        0 <= avail <= width,
        0 <= left,
        0 <= k < c.len(),
    ensures
        0 <= sell_walk(c, width, k, avail, left).0 <= left,
        0 <= sell_walk(c, width, k, avail, left).1 <= (k + 1) * width,
    decreases k,
{
    if left <= 0 || k <= 0 {
    } else {
        let s = sell_step(c[k - 1] as int, c[k] as int, width, avail, left);
        lemma_zero_quote(c[k - 1] as int, c[k] as int, width, avail, Rounding::Down);
        lemma_proceeds_down_monotone(c[k - 1] as int, c[k] as int, width, avail, 0, avail);
        lemma_min_sufficient_range(c[k - 1] as int, c[k] as int, width, avail, left, 0);
        lemma_sell_walk_bounds(c, width, k - 1, width, left - s.1);
        assert((k + 1) * width == width + k * width) by (nonlinear_arith);
    }
}

/// A curve whose prices strictly increase, as accepted curves do.
pub open spec fn curve_increasing(c: Seq<u64>) -> bool {
    forall|i: int| 0 < i < c.len() ==> c[i - 1] < #[trigger] c[i]
}

proof fn lemma_cost_up_positive(p0: int, p1: int, width: int, used: int, d: int)
    requires
        0 <= p0 < p1,
        0 < width,
        0 <= used,
        0 < d,
    ensures
        cost_up(p0, p1, width, used, d) >= 1,
{
    let n = d * ((p1 - p0) * (d + 2 * used) + 2 * p0 * width);
    assert(n > 0) by (nonlinear_arith)
        requires
            n == d * ((p1 - p0) * (d + 2 * used) + 2 * p0 * width),
            0 <= p0 < p1,
            0 < width,
            0 <= used,
            0 < d,
    ;
    assert(2 * SCALE * width > 0) by (nonlinear_arith)
        requires
            width > 0,
    ;
    lemma_div_round_bounds(n, 2 * SCALE * width, Rounding::Up);
    let r = div_round(n, 2 * SCALE * width, Rounding::Up);
    assert(r >= 1) by (nonlinear_arith)
        requires
            n <= r * (2 * SCALE * width),
            n > 0,
            r >= 0,
            2 * SCALE * width > 0,
    ;
}

proof fn lemma_max_affordable_at_least(p0: int, p1: int, width: int, used: int, quote: int, n: int, x: int)
    requires
        0 <= p0 <= p1,
        0 < width,
        0 <= used,
        0 <= x <= n,
        cost_up(p0, p1, width, used, x) <= quote,
    ensures
        max_affordable(p0, p1, width, used, quote, n) >= x,
    decreases n,
{
    if n > 0 && cost_up(p0, p1, width, used, n) > quote {
        lemma_max_affordable_at_least(p0, p1, width, used, quote, n - 1, x);
    }
}

/// Spending at least what a stretch of the ask curve costs buys at least that
/// stretch.
pub proof fn lemma_buy_walk_covers(c: Seq<u64>, width: int, k: int, used: int, base: int, quote: int)
    requires
        curve_bounded(c),
        curve_increasing(c),
        0 < width <= u64::MAX,
        0 <= used < width,
        0 <= base,
        0 <= k < c.len(),
        quote >= quote_walk(c, width, k, used, base, Rounding::Up).1,
    ensures
        buy_walk(c, width, k, used, quote).1 >= base - quote_walk(c, width, k, used, base, Rounding::Up).0,
    decreases c.len() - k,
{
    lemma_quote_walk_bounds(c, width, k, used, base, Rounding::Up);
    if base <= 0 || k + 1 >= c.len() {
        lemma_buy_walk_bounds(c, width, k, used, quote);
    } else {
        let p0 = c[k] as int;
        let p1 = c[k + 1] as int;
        let d = if base < width - used { base } else { width - used };
        let q = cost_up(p0, p1, width, used, d);
        lemma_quote_walk_bounds(c, width, k + 1, 0, base - d, Rounding::Up);
        lemma_cost_up_positive(p0, p1, width, used, d);
        let full = cost_up(p0, p1, width, used, width - used);
        let rest_q = quote_walk(c, width, k + 1, 0, base - d, Rounding::Up);
        assert(quote_walk(c, width, k, used, base, Rounding::Up) == (rest_q.0, q + rest_q.1));
        assert(quote >= 1);
        let st = buy_step(p0, p1, width, used, quote);
        assert(buy_walk(c, width, k, used, quote) == (buy_walk(c, width, k + 1, 0, quote - st.1).0, st.0
            + buy_walk(c, width, k + 1, 0, quote - st.1).1));
        if base - d == 0 {
            assert(rest_q == (0int, 0int));
        }
        if full <= quote {
            if d == width - used {
                lemma_buy_walk_covers(c, width, k + 1, 0, base - d, quote - full);
            } else {
                lemma_buy_walk_bounds(c, width, k + 1, 0, quote - full);
            }
        } else {
            if d == width - used {
                assert(false);
            }
            lemma_max_affordable_at_least(p0, p1, width, used, quote, width - used, d);
            assert(quote_walk(c, width, k + 1, 0, 0, Rounding::Up) == (0int, 0int));
        }
    }
}

/// Splits a walk at an interval boundary `b`: the part up to the boundary and
/// the part from it add up to the whole.
pub proof fn lemma_quote_walk_split(c: Seq<u64>, width: int, k: int, used: int, first: int, second: int, b: int, rounding: Rounding)
    requires
        0 < width,
        0 <= used < width,
        0 <= first,
        0 <= second,
        0 <= k,
        k <= b < c.len(),
        b * width == k * width + used + first,
    ensures
        quote_walk(c, width, k, used, first + second, rounding).0 == quote_walk(c, width, b, 0, second, rounding).0,
        quote_walk(c, width, k, used, first + second, rounding).1 == quote_walk(c, width, k, used, first, rounding).1
            + quote_walk(c, width, b, 0, second, rounding).1,
    decreases c.len() - k,
{
    if first == 0 {
        assert((b - k) * width == used) by (nonlinear_arith)
            requires
                b * width == k * width + used,
        ;
        assert(b - k == 0) by (nonlinear_arith)
            requires
                (b - k) * width == used,
                0 <= used < width,
                b >= k,
        ;
    } else {
        assert(b > k) by (nonlinear_arith)
            requires
                b * width == k * width + used + first,
                first > 0,
                used >= 0,
                width > 0,
        ;
        assert(first >= width - used) by (nonlinear_arith)
            requires
                b * width == k * width + used + first,
                b >= k + 1,
                width > 0,
        ;
        assert((k + 1) * width == k * width + width) by (nonlinear_arith);
        lemma_quote_walk_split(c, width, k + 1, 0, first - (width - used), second, b, rounding);
    }
}

proof fn lemma_min_sufficient_at_most(p0: int, p1: int, width: int, avail: int, quote: int, x: int, y: int)
    requires
        0 <= x <= y <= avail,
        proceeds_down(p0, p1, width, avail, y) >= quote,
    ensures
        min_sufficient(p0, p1, width, avail, quote, x) <= y,
    decreases avail - x,
{
    if x < avail && proceeds_down(p0, p1, width, avail, x) < quote {
        if x < y {
            lemma_min_sufficient_at_most(p0, p1, width, avail, quote, x + 1, y);
        }
    }
}

/// Asking a sale for no more quote than a stretch ending at the sale's start
/// brought in sells no more than that stretch.
pub proof fn lemma_sell_walk_within(c: Seq<u64>, width: int, kk: int, avail: int, k: int, used: int, len: int, quote: int)
    requires
        curve_bounded(c),
        0 < width <= u64::MAX,
        0 < avail <= width,
        1 <= kk < c.len(),
        0 <= k,
        0 <= used < width,
        0 <= len,
        k * width + used + len == (kk - 1) * width + avail,
        quote <= quote_walk(c, width, k, used, len, Rounding::Down).1,
    ensures
        sell_walk(c, width, kk, avail, quote).1 <= len,
    decreases kk,
{
    if quote <= 0 {
    } else {
        let p0 = c[kk - 1] as int;
        let p1 = c[kk] as int;
        let full = proceeds_down(p0, p1, width, avail, avail);
        let st = sell_step(p0, p1, width, avail, quote);
        assert(sell_walk(c, width, kk, avail, quote) == (sell_walk(c, width, kk - 1, width, quote - st.1).0, st.0
            + sell_walk(c, width, kk - 1, width, quote - st.1).1));
        assert(len > 0) by {
            if len == 0 {
                assert(quote_walk(c, width, k, used, len, Rounding::Down) == (0int, 0int));
            }
        }
        assert(k <= kk - 1) by (nonlinear_arith)
            requires
                k * width + used + len == (kk - 1) * width + avail,
                0 <= used,
                0 < len,
                avail <= width,
                width > 0,
        ;
        if k == kk - 1 {
            // The stretch lies within the top interval.
            assert(len == avail - used);
            assert(quote_walk(c, width, k, used, len, Rounding::Down).1 <= proceeds_down(p0, p1, width, avail, len)) by {
                if len > 0 {
                    assert(quote_walk(c, width, k + 1, 0, 0, Rounding::Down) == (0int, 0int));
                }
                lemma_zero_quote(p0, p1, width, used, Rounding::Down);
            }
            lemma_proceeds_down_monotone(p0, p1, width, avail, len, avail);
            lemma_min_sufficient_at_most(p0, p1, width, avail, quote, 0, len);
            assert(sell_walk(c, width, kk - 1, width, 0) == (0int, 0int));
        } else {
            let lower = len - avail;
            assert((kk - 1) * width - k * width == ((kk - 1) - k) * width) by (nonlinear_arith);
            assert(((kk - 1) - k) * width >= width) by (nonlinear_arith)
                requires
                    (kk - 1) - k >= 1,
                    width > 0,
            ;
            assert((kk - 2) * width + width == (kk - 1) * width) by (nonlinear_arith);
            lemma_quote_walk_split(c, width, k, used, lower, avail, kk - 1, Rounding::Down);
            assert(quote_walk(c, width, kk - 1, 0, avail, Rounding::Down).1 == full) by {
                assert(quote_walk(c, width, kk, 0, 0, Rounding::Down) == (0int, 0int));
            }
            if full < quote {
                if kk - 1 >= 1 {
                    lemma_sell_walk_within(c, width, kk - 1, width, k, used, lower, quote - full);
                } else {
                    assert(false);
                }
            } else {
                lemma_min_sufficient_range(p0, p1, width, avail, quote, 0);
                assert(sell_walk(c, width, kk - 1, width, 0) == (0int, 0int));
            }
        }
    }
}

} // verus!
