//! Fixed-point prices.
//!
//! A price is a whole number of ticks, a tick being one `SCALE`-th of a
//! unit. Its integral part is `ticks / SCALE` and its fractional numerator
//! is `ticks % SCALE`, so the fractional part is always below the scale and
//! two prices are equal exactly when both parts are.

use vstd::prelude::*;
use vstd::arithmetic::div_mod::{lemma_basic_div, lemma_div_is_ordered, lemma_fundamental_div_mod};
use crate::error::EngineError;

verus! {

/// Number of ticks in one unit of price.
pub const SCALE: u64 = 1000;

/// Ten to the power `e`.
pub open spec fn pow10(e: nat) -> nat
    decreases e,
{
    if e == 0 {
        1
    } else {
        10 * pow10((e - 1) as nat)
    }
}

/// The number of ticks in the decimal `mantissa / 10^decimals`, fractions of
/// a tick dropped, and capped at the largest count a price can hold.
pub open spec fn decimal_ticks(mantissa: int, decimals: nat) -> int {
    let exact = (mantissa * SCALE as int) / (pow10(decimals) as int);
    if exact > u64::MAX as int {
        u64::MAX as int
    } else {
        exact
    }
}

pub proof fn lemma_pow10_positive(e: nat)
    ensures
        pow10(e) > 0,
    decreases e,
{
    if e > 0 {
        lemma_pow10_positive((e - 1) as nat);
    }
}

pub proof fn lemma_pow10_monotonic(a: nat, b: nat)
    requires
        a <= b,
    ensures
        pow10(a) <= pow10(b),
    decreases b,
{
    if a < b {
        lemma_pow10_monotonic(a, (b - 1) as nat);
        lemma_pow10_positive((b - 1) as nat);
    }
}

/// An exact, non-negative price.
#[derive(Debug, Clone, Copy, Hash, PartialEq, Eq, Structural)]
pub struct Price {
    pub ticks: u64,
}

impl Price {
    /// Whole units of the price.
    pub open spec fn integral_part(self) -> nat {
        (self.ticks / SCALE) as nat
    }

    /// Numerator of the fractional part, over `SCALE`.
    pub open spec fn fractional_part(self) -> nat {
        (self.ticks % SCALE) as nat
    }

    /// Lexicographic order on (integral part, fractional part).
    pub open spec fn above(self, other: Price) -> bool {
        self.integral_part() > other.integral_part() || (self.integral_part()
            == other.integral_part() && self.fractional_part() > other.fractional_part())
    }

    /// Converts the decimal `mantissa / 10^decimals` to a price, dropping what
    /// is finer than a tick. A negative decimal is refused.
    pub fn new(mantissa: i64, decimals: u8) -> (result: Result<Price, EngineError>)
        ensures
            mantissa < 0 ==> result == Err::<Price, EngineError>(EngineError::InvalidPrice),
            mantissa >= 0 ==> result.is_ok() && result.unwrap().ticks == decimal_ticks(
                mantissa as int,
                decimals as nat,
            ),
    {
        if mantissa < 0 {
            return Err(EngineError::InvalidPrice);
        }
        let whole: u64 = mantissa as u64;
        let scaled: u128 = (whole as u128) * (SCALE as u128);
        let mut divisor: u128 = 1;
        let mut digits: u8 = 0;
        while digits < decimals && divisor <= scaled
            invariant
                digits <= decimals,
                divisor == pow10(digits as nat),
                scaled == mantissa * SCALE,
                scaled < 0x8000_0000_0000_0000 * 1000,
                digits > 0 ==> divisor <= scaled * 10,
            decreases decimals - digits,
        {
            divisor = divisor * 10;
            digits = digits + 1;
        }
        proof {
            lemma_pow10_positive(decimals as nat);
            lemma_pow10_monotonic(digits as nat, decimals as nat);
            if divisor > scaled {
                lemma_basic_div(scaled as int, pow10(decimals as nat) as int);
            }
        }
        let exact: u128 = if divisor > scaled {
            0
        } else {
            scaled / divisor
        };
        let ticks: u64 = if exact > u64::MAX as u128 {
            u64::MAX
        } else {
            exact as u64
        };
        Ok(Price { ticks })
    }

    /// Whole units of the price.
    pub fn integral(&self) -> (units: u64)
        ensures
            units == self.integral_part(),
    {
        self.ticks / SCALE
    }

    /// Numerator of the fractional part: the ticks beyond the whole units.
    pub fn fractional(&self) -> (numerator: u64)
        ensures
            numerator == self.fractional_part(),
            numerator < SCALE,
    {
        self.ticks % SCALE
    }

    /// Whether this price is strictly higher than `other`.
    pub fn gt(&self, other: &Price) -> (higher: bool)
        ensures
            higher == self.above(*other),
    {
        proof {
            lemma_ticks_order(*self, *other);
        }
        self.ticks > other.ticks
    }
}

/// Comparing tick counts is comparing (integral part, fractional part)
/// lexicographically.
pub proof fn lemma_ticks_order(a: Price, b: Price)
    ensures
        a.ticks > b.ticks <==> a.above(b),
{
    lemma_fundamental_div_mod(a.ticks as int, SCALE as int);
    lemma_fundamental_div_mod(b.ticks as int, SCALE as int);
    if a.ticks >= b.ticks {
        lemma_div_is_ordered(b.ticks as int, a.ticks as int, SCALE as int);
    } else {
        lemma_div_is_ordered(a.ticks as int, b.ticks as int, SCALE as int);
    }
}

/// A price is its integral part and its fractional numerator put together,
/// and the numerator stays below the scale.
pub proof fn lemma_price_parts(p: Price)
    ensures
        p.fractional_part() < SCALE,
        p.ticks == p.integral_part() * SCALE + p.fractional_part(),
{
    lemma_fundamental_div_mod(p.ticks as int, SCALE as int);
}

/// Two prices are equal exactly when their integral parts and their
/// fractional numerators are.
pub proof fn lemma_price_equality(a: Price, b: Price)
    ensures
        a == b <==> (a.integral_part() == b.integral_part() && a.fractional_part()
            == b.fractional_part()),
{
    lemma_price_parts(a);
    lemma_price_parts(b);
}

} // verus!
