use vstd::prelude::*;
use vstd::arithmetic::power2::{pow2, lemma_pow2_pos, lemma_pow2_unfold, lemma_pow2_adds, lemma2_to64, lemma2_to64_rest};
use vstd::arithmetic::div_mod::{
    lemma_fundamental_div_mod, lemma_fundamental_div_mod_converse, lemma_div_denominator,
    lemma_div_is_ordered, lemma_div_pos_is_pos,
};
use vstd::bits::lemma_u128_shr_is_div;

verus! {

/// Direction in which a division result is rounded.
#[derive(Clone, Copy, Debug, PartialEq, Eq, Structural)]
pub enum Rounding {
    Up,
    Down,
}

/// `n / d` rounded as `rounding` asks: `Down` truncates, `Up` rounds any
/// nonzero remainder away from zero.
pub open spec fn div_round(n: int, d: int, rounding: Rounding) -> int {
    match rounding {
        Rounding::Down => n / d,
        Rounding::Up => if n % d == 0 { n / d } else { n / d + 1 },
    }
}

/// Rounding moves the quotient by at most one, never below zero, and in the
/// direction asked.
pub proof fn lemma_div_round_bounds(n: int, d: int, rounding: Rounding)
    requires
        n >= 0,
        d > 0,
    ensures
        n / d <= div_round(n, d, rounding) <= n / d + 1,
        div_round(n, d, rounding) >= 0,
        div_round(n, d, Rounding::Down) * d <= n,
        n <= div_round(n, d, Rounding::Up) * d,
        n < (div_round(n, d, Rounding::Down) + 1) * d,
{
    lemma_fundamental_div_mod(n, d);
    lemma_div_pos_is_pos(n, d);
    let q = n / d;
    assert((q + 1) * d == q * d + d) by (nonlinear_arith);
    assert(q * d == d * q) by (nonlinear_arith);
}

/// Rounding is monotone in the numerator.
pub proof fn lemma_div_round_monotone(n1: int, n2: int, d: int, rounding: Rounding)
    requires
        0 <= n1 <= n2,
        d > 0,
    ensures
        div_round(n1, d, rounding) <= div_round(n2, d, rounding),
{
    lemma_div_is_ordered(n1, n2, d);
    lemma_fundamental_div_mod(n1, d);
    lemma_fundamental_div_mod(n2, d);
    if n1 / d == n2 / d && n1 % d != 0 {
        assert(n2 % d != 0);
    }
}

/// `2^128`.
pub open spec fn u128_limit() -> int {
    u128::MAX as int + 1
}

proof fn lemma_pow2_128()
    ensures
        pow2(128) == u128_limit(),
        pow2(64) == 0x1_0000_0000_0000_0000,
{
    lemma2_to64();
    lemma2_to64_rest();
    lemma_pow2_adds(64, 64);
}

proof fn lemma_expand_product(m: int, x1: int, x0: int, y1: int, y0: int)
    ensures
        (m * x1 + x0) * (m * y1 + y0) == (x1 * y1) * m * m + (x0 * y1 + x1 * y0) * m + x0 * y0,
{
    broadcast use vstd::arithmetic::mul::group_mul_is_commutative_and_distributive;
    broadcast use vstd::arithmetic::mul::lemma_mul_is_associative;
    assert((m * x1 + x0) * (m * y1 + y0) == (m * x1) * (m * y1) + (m * x1) * y0 + x0 * (m * y1)
        + x0 * y0);
    assert((m * x1) * (m * y1) == (x1 * y1) * m * m);
    assert((m * x1) * y0 == (x1 * y0) * m);
    assert(x0 * (m * y1) == (x0 * y1) * m);
}

/// The full 256-bit product of two `u128`, as a high and a low half.
fn wide_mul(a: u128, b: u128) -> (r: (u128, u128))
    ensures
        r.0 * u128_limit() + r.1 == a * b,
{
    let m: u128 = 0x1_0000_0000_0000_0000;
    let a1 = a / m;
    let a0 = a % m;
    let b1 = b / m;
    let b0 = b % m;
    assert(a1 < m && b1 < m);
    assert(a0 * b0 < m * m && a0 * b1 < m * m && a1 * b0 < m * m && a1 * b1 < m * m)
        by (nonlinear_arith)
        requires
            a0 < m,
            b0 < m,
            a1 < m,
            b1 < m,
    ;
    let p00 = a0 * b0;
    let p01 = a0 * b1;
    let p10 = a1 * b0;
    let p11 = a1 * b1;
    let mid = p00 / m + p01 % m + p10 % m;
    let lo = p00 % m + (mid % m) * m;
    let ghost mi = m as int;
    let ghost (ai, bi, a0i, a1i, b0i, b1i) = (a as int, b as int, a0 as int, a1 as int, b0 as int, b1 as int);
    let ghost (q00, q01, q10, q11, midi, loi) = (p00 as int, p01 as int, p10 as int, p11 as int, mid as int, lo as int);
    let ghost total = q11 * mi * mi + q01 / mi * mi * mi + q10 / mi * mi * mi + midi / mi * mi * mi;
    proof {
        lemma_fundamental_div_mod(ai, mi);
        lemma_fundamental_div_mod(bi, mi);
        lemma_fundamental_div_mod(q00, mi);
        lemma_fundamental_div_mod(q01, mi);
        lemma_fundamental_div_mod(q10, mi);
        lemma_fundamental_div_mod(midi, mi);
        lemma_expand_product(mi, a1i, a0i, b1i, b0i);
        assert(ai * bi == q11 * mi * mi + (q01 + q10) * mi + q00);
        assert(ai * bi == total + loi) by (nonlinear_arith)
            requires
                ai * bi == q11 * mi * mi + (q01 + q10) * mi + q00,
                q00 == mi * (q00 / mi) + q00 % mi,
                q01 == mi * (q01 / mi) + q01 % mi,
                q10 == mi * (q10 / mi) + q10 % mi,
                midi == mi * (midi / mi) + midi % mi,
                midi == q00 / mi + q01 % mi + q10 % mi,
                loi == q00 % mi + (midi % mi) * mi,
                total == q11 * mi * mi + q01 / mi * mi * mi + q10 / mi * mi * mi + midi / mi * mi * mi,
        ;
        assert(ai * bi < mi * mi * (mi * mi)) by (nonlinear_arith)
            requires
                ai < mi * mi,
                bi < mi * mi,
                ai >= 0,
                bi >= 0,
        ;
        assert(total == (q11 + q01 / mi + q10 / mi + midi / mi) * (mi * mi)) by (nonlinear_arith)
            requires
                total == q11 * mi * mi + q01 / mi * mi * mi + q10 / mi * mi * mi + midi / mi * mi * mi,
        ;
        assert(q11 + q01 / mi + q10 / mi + midi / mi < mi * mi) by (nonlinear_arith)
            requires
                total == (q11 + q01 / mi + q10 / mi + midi / mi) * (mi * mi),
                total <= ai * bi,
                ai * bi < mi * mi * (mi * mi),
                mi > 0,
        ;
        lemma_pow2_128();
    }
    let hi = p11 + p01 / m + p10 / m + mid / m;
    proof {
        assert(hi * u128_limit() == total);
    }
    (hi, lo)
}

/// `a * b / c` rounded as asked, computed over a 256-bit intermediate.
/// `None` when `c` is zero or the result does not fit in a `u128`.
pub fn mul_div(a: u128, b: u128, c: u128, rounding: Rounding) -> (r: Option<u128>)
    ensures
        c == 0 ==> r is None,
        c > 0 ==> (r is Some <==> div_round(a * b, c as int, rounding) <= u128::MAX),
        r matches Some(v) ==> v == div_round(a * b, c as int, rounding),
{
    if c == 0 {
        return None;
    }
    let (hi, lo) = wide_mul(a, b);
    proof {
        lemma_pow2_128();
        lemma_div_round_bounds(a * b, c as int, rounding);
    }
    if hi >= c {
        proof {
            assert(a * b >= c * u128_limit()) by (nonlinear_arith)
                requires
                    a * b == hi * u128_limit() + lo,
                    hi >= c,
                    lo >= 0,
                    u128_limit() > 0,
            ;
            assert((c * u128_limit()) / (c as int) == u128_limit()) by (nonlinear_arith)
                requires c > 0;
            lemma_div_is_ordered(c * u128_limit(), a * b, c as int);
        }
        return None;
    }
    let mut q: u128 = 0;
    let mut rem: u128 = hi;
    let mut k: u32 = 128;
    proof {
        lemma_u128_shr_is_div(lo, 0);
        lemma2_to64();
        assert(lo as int / pow2(128) as int == 0);
    }
    while k > 0
        invariant
            k <= 128,
            rem < c,
            q < pow2((128 - k) as nat),
            q * c + rem == hi * pow2((128 - k) as nat) + lo as int / pow2(k as nat) as int,
            pow2(128) == u128_limit(),
            hi < c,
        decreases k,
    {
        let ghost kk = k;
        k = k - 1;
        let t: u128 = lo >> (k as u128);
        let bit: u128 = t % 2;
        proof {
            lemma_u128_shr_is_div(lo, k as u128);
            lemma_pow2_unfold(kk as nat);
            lemma_pow2_unfold((128 - k) as nat);
            lemma_pow2_pos(k as nat);
            lemma_div_denominator(lo as int, pow2(k as nat) as int, 2);
            lemma_fundamental_div_mod(t as int, 2);
            assert(pow2(k as nat) * 2 == pow2(kk as nat));
            assert(lo as int / pow2(kk as nat) as int == t / 2);
        }
        let ghost oq = q as int;
        let ghost orem = rem as int;
        proof {
            lemma_pow2_pos(k as nat);
            lemma_pow2_adds((128 - k) as nat, k as nat);
            assert(pow2((128 - k) as nat) <= pow2(128)) by (nonlinear_arith)
                requires
                    pow2(128) == pow2((128 - k) as nat) * pow2(k as nat),
                    pow2(k as nat) > 0,
            ;
        }
        if rem >= 0x8000_0000_0000_0000_0000_0000_0000_0000 {
            // 2 * rem + bit >= c here, so one subtraction brings it below c.
            rem = rem - (c - rem) + bit;
            q = 2 * q + 1;
        } else {
            let doubled = 2 * rem + bit;
            if doubled >= c {
                rem = doubled - c;
                q = 2 * q + 1;
            } else {
                rem = doubled;
                q = 2 * q;
            }
        }
        proof {
            assert(q * c + rem == 2 * (oq * c + orem) + bit) by (nonlinear_arith)
                requires
                    (q == 2 * oq + 1 && rem + c == 2 * orem + bit) || (q == 2 * oq && rem == 2
                        * orem + bit),
            ;
            assert(hi * pow2((128 - k) as nat) == 2 * (hi * pow2((128 - kk) as nat)))
                by (nonlinear_arith)
                requires
                    pow2((128 - k) as nat) == 2 * pow2((128 - kk) as nat),
            ;
        }
    }
    proof {
        lemma2_to64();
        lemma_fundamental_div_mod_converse(a * b, c as int, q as int, rem as int);
    }
    match rounding {
        Rounding::Down => Some(q),
        Rounding::Up => {
            if rem == 0 {
                Some(q)
            } else if q == u128::MAX {
                None
            } else {
                Some(q + 1)
            }
        },
    }
}

/// `numerator / denominator` rounded as asked, narrowed to `u64`.
/// `None` when the denominator is zero or the result does not fit.
pub fn div(numerator: u128, denominator: u128, rounding: Rounding) -> (r: Option<u64>)
    ensures
        denominator == 0 ==> r is None,
        denominator > 0 ==> (r is Some <==> div_round(
            numerator as int,
            denominator as int,
            rounding,
        ) <= u64::MAX),
        r matches Some(v) ==> v == div_round(numerator as int, denominator as int, rounding),
{
    if denominator == 0 {
        return None;
    }
    let q = numerator / denominator;
    proof {
        lemma_div_round_bounds(numerator as int, denominator as int, rounding);
    }
    if q > u64::MAX as u128 {
        return None;
    }
    let v = match rounding {
        Rounding::Down => q,
        Rounding::Up => if numerator % denominator == 0 { q } else { q + 1 },
    };
    if v > u64::MAX as u128 {
        None
    } else {
        Some(v as u64)
    }
}

} // verus!
