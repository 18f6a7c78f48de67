//! Percentages and raw values, in exact integer arithmetic.
//!
//! A percentage is a signed count of millionths of a percent, so that
//! `25_500_000` stands for 25.5 %. A raw value is the device's own integer,
//! between 0 and the device's maximum. Converting a percentage to a raw
//! value rounds to the nearest integer, a tie away from zero, and then
//! clamps into the device's range; nothing is ever out of range, and no
//! request is an error.

use vstd::arithmetic::div_mod::lemma_fundamental_div_mod;
use vstd::prelude::*;

verus! {

/// One percent, in the unit of percentages.
pub const PERCENT: i64 = 1_000_000;

/// One hundred percent, in the unit of percentages.
pub const FULL: i64 = 100_000_000;

/// The integer nearest to `n / d`, a tie going to the one farther from zero.
pub open spec fn round_half_away(n: int, d: int) -> int
    recommends
        d > 0,
{
    if n >= 0 {
        (2 * n + d) / (2 * d)
    } else {
        -((2 * (-n) + d) / (2 * d))
    }
}

/// `raw` brought into the range from 0 to `max`.
pub open spec fn clamped(raw: int, max: int) -> int {
    if raw < 0 {
        0
    } else if raw > max {
        max
    } else {
        raw
    }
}

/// The raw value for a level of `steps / FULL` raw steps on a device whose
/// maximum is `max`: the nearest integer, clamped into range.
///
/// Levels are measured in this fine unit because both a percentage of the
/// maximum (`p * max` for the percentage `p`) and a raw value (`v * FULL`
/// for the raw value `v`) are whole numbers in it.
pub open spec fn settled(steps: int, max: int) -> int {
    clamped(round_half_away(steps, FULL as int), max)
}

/// The raw value that the percentage `target` selects on a device whose
/// maximum is `max`: `target / 100 * max`, rounded and clamped.
pub open spec fn raw_for(target: int, max: int) -> int {
    settled(target * max, max)
}

/// The percentage that a device at `value` out of `max` is at:
/// `value / max * 100` percent, rounded to the unit of percentages.
pub open spec fn percentage_of(value: int, max: int) -> int
    recommends
        max > 0,
{
    round_half_away(value * FULL, max)
}

/// The brightness of a device at `value` out of `max`, in whole percent:
/// `value / max * 100`, rounded.
pub open spec fn whole_percent(value: int, max: int) -> int
    recommends
        max > 0,
{
    round_half_away(value * 100, max)
}

/// Rounding moves a quotient by at most one half, and by one half only away
/// from zero: twice the distance between `n` and `round_half_away(n, d) * d`
/// is at most `d`, and the result has the sign of `n`.
pub proof fn lemma_round_half_away_is_nearest(n: int, d: int)
    requires
        d > 0,
    ensures
        -d <= 2 * (n - round_half_away(n, d) * d) <= d,
        n >= 0 ==> round_half_away(n, d) >= 0 && 2 * (n - round_half_away(n, d) * d) < d,
        n <= 0 ==> round_half_away(n, d) <= 0 && -d < 2 * (n - round_half_away(n, d) * d),
{
    let m = if n >= 0 {
        n
    } else {
        -n
    };
    let q = (2 * m + d) / (2 * d);
    lemma_fundamental_div_mod(2 * m + d, 2 * d);
    assert((2 * d) * q == 2 * (q * d)) by (nonlinear_arith);
    assert((-q) * d == -(q * d)) by (nonlinear_arith);
    assert(q >= 0) by (nonlinear_arith)
        requires
            (2 * d) * q + (2 * m + d) % (2 * d) == 2 * m + d,
            0 <= (2 * m + d) % (2 * d) < 2 * d,
            m >= 0,
            d > 0,
    ;
    assert(m == 0 ==> q == 0) by (nonlinear_arith)
        requires
            (2 * d) * q + (2 * m + d) % (2 * d) == 2 * m + d,
            0 <= (2 * m + d) % (2 * d) < 2 * d,
            q >= 0,
            d > 0,
    ;
}

/// A whole multiple of the divisor is its own rounding: `k * d / d` rounds
/// to `k`.
pub proof fn lemma_round_half_away_of_multiple(k: int, d: int)
    requires
        d > 0,
    ensures
        round_half_away(k * d, d) == k,
{
    let r = round_half_away(k * d, d);
    lemma_round_half_away_is_nearest(k * d, d);
    assert(k * d - r * d == (k - r) * d) by (nonlinear_arith);
    assert(k == r) by (nonlinear_arith)
        requires
            -d <= 2 * ((k - r) * d) <= d,
            d > 0,
    ;
}

/// What lies within half a divisor of a multiple is rounded to it: from
/// `k - 1/2` on and below `k + 1/2`, a quotient that is not negative rounds
/// to `k`.
pub proof fn lemma_round_half_away_near_multiple(n: int, k: int, d: int)
    requires
        d > 0,
        n >= 0,
        -d <= 2 * (n - k * d) < d,
    ensures
        round_half_away(n, d) == k,
{
    let q = (2 * n + d) / (2 * d);
    lemma_fundamental_div_mod(2 * n + d, 2 * d);
    assert((2 * d) * q == 2 * (q * d)) by (nonlinear_arith);
    assert(k * d - q * d == (k - q) * d) by (nonlinear_arith);
    assert(k == q) by (nonlinear_arith)
        requires
            -2 * d < 2 * ((k - q) * d) < 2 * d,
            d > 0,
    ;
}

/// Rounding keeps the order of the numerators.
pub proof fn lemma_round_half_away_is_monotonic(a: int, b: int, d: int)
    requires
        d > 0,
        a <= b,
    ensures
        round_half_away(a, d) <= round_half_away(b, d),
{
    let ra = round_half_away(a, d);
    let rb = round_half_away(b, d);
    lemma_round_half_away_is_nearest(a, d);
    lemma_round_half_away_is_nearest(b, d);
    if a >= 0 {
        vstd::arithmetic::div_mod::lemma_div_is_ordered(2 * a + d, 2 * b + d, 2 * d);
    } else if b < 0 {
        vstd::arithmetic::div_mod::lemma_div_is_ordered(2 * (-b) + d, 2 * (-a) + d, 2 * d);
    }
}

/// Clamping lands in the range, and a second clamping changes nothing.
pub proof fn lemma_clamped_in_range_and_idempotent(raw: int, max: int)
    requires
        0 <= max,
    ensures
        0 <= clamped(raw, max) <= max,
        clamped(clamped(raw, max), max) == clamped(raw, max),
{
}

/// A value in the range is left as it is.
pub proof fn lemma_clamped_keeps_in_range(raw: int, max: int)
    requires
        0 <= raw <= max,
    ensures
        clamped(raw, max) == raw,
{
}

/// Brings a requested raw value into the range of a device: a negative
/// request becomes 0, one above `max` becomes `max`.
pub fn clamp_raw(requested: i128, max: u64) -> (raw: u64)
    ensures
        raw == clamped(requested as int, max as int),
        raw <= max,
{
    if requested < 0 {
        0
    } else if requested > max as i128 {
        max
    } else {
        requested as u64
    }
}

/// The raw value for a level of `steps / FULL` raw steps, rounded and
/// clamped.
pub(crate) fn settle(steps: i128, max: u64) -> (raw: u64)
    requires
        steps <= 0x1_0000_0000_0000_0000_0000_0000,
    ensures
        raw == settled(steps as int, max as int),
        raw <= max,
{
    if steps <= 0 {
        proof {
            lemma_round_half_away_is_nearest(steps as int, FULL as int);
        }
        0
    } else {
        let doubled: u128 = 2 * (steps as u128) + 100_000_000;
        let nearest: u128 = doubled / 200_000_000;
        clamp_raw(nearest as i128, max)
    }
}

/// The raw value that the percentage `target` selects on a device whose
/// maximum is `max`.
///
/// A target of zero or less selects 0, and one of a hundred percent or more
/// selects `max`.
pub fn raw_for_percentage(target: i64, max: u64) -> (raw: u64)
    ensures
        raw == raw_for(target as int, max as int),
        raw <= max,
{
    if target <= 0 {
        proof {
            assert(target * max <= 0) by (nonlinear_arith)
                requires
                    target <= 0,
                    max >= 0,
            ;
            lemma_round_half_away_is_nearest(target * max, FULL as int);
        }
        0
    } else if target >= FULL {
        proof {
            assert(target * max >= max * FULL) by (nonlinear_arith)
                requires
                    target >= FULL,
                    max >= 0,
            ;
            lemma_round_half_away_of_multiple(max as int, FULL as int);
            lemma_round_half_away_is_monotonic(max * FULL, target * max, FULL as int);
        }
        max
    } else {
        assert(0 <= target * max <= 100_000_000 * 0xffff_ffff_ffff_ffff) by (nonlinear_arith)
            requires
                0 < target < 100_000_000,
                0 <= max <= 0xffff_ffff_ffff_ffff,
        ;
        settle(target as i128 * max as i128, max)
    }
}

/// The percentage that a device at `value` out of `max` is at.
pub(crate) fn percentage(value: u64, max: u64) -> (percentage: i64)
    requires
        1 <= max,
        value <= max,
    ensures
        percentage == percentage_of(value as int, max as int),
        0 <= percentage <= FULL,
{
    let doubled: u128 = 200_000_000 * (value as u128) + max as u128;
    let nearest: u128 = doubled / (2 * (max as u128));
    proof {
        lemma_percentage_is_in_range(value as int, max as int);
    }
    nearest as i64
}

/// The brightness of a device at `value` out of `max`, in whole percent.
pub(crate) fn whole_percentage(value: u64, max: u64) -> (percent: u8)
    requires
        1 <= max,
        value <= max,
    ensures
        percent == whole_percent(value as int, max as int),
        percent <= 100,
{
    let doubled: u128 = 200 * (value as u128) + max as u128;
    let nearest: u128 = doubled / (2 * (max as u128));
    proof {
        lemma_percentage_is_in_range(value as int, max as int);
    }
    nearest as u8
}

/// A device within its range is between zero and a hundred percent: at zero
/// when dark, and at a hundred when full.
pub proof fn lemma_percentage_is_in_range(value: int, max: int)
    requires
        1 <= max,
        0 <= value <= max,
    ensures
        0 <= percentage_of(value, max) <= FULL,
        percentage_of(0, max) == 0,
        percentage_of(max, max) == FULL,
        0 <= whole_percent(value, max) <= 100,
        whole_percent(0, max) == 0,
        whole_percent(max, max) == 100,
{
    lemma_round_half_away_of_multiple(0, max);
    lemma_round_half_away_of_multiple(100, max);
    lemma_round_half_away_of_multiple(FULL as int, max);
    lemma_round_half_away_is_monotonic(0, value * 100, max);
    lemma_round_half_away_is_monotonic(value * 100, 100 * max, max);
    lemma_round_half_away_is_monotonic(0, value * FULL, max);
    lemma_round_half_away_is_monotonic(value * FULL, FULL * max, max);
}

/// The percentage that a device is at selects the value that it is at
/// exactly where rounding the percentage to its unit has moved it by less
/// than half a raw step (or by half a step down).
pub proof fn lemma_percentage_selects_its_value_iff(value: int, max: int)
    requires
        1 <= max,
        0 <= value <= max,
    ensures
        raw_for(percentage_of(value, max), max) == value <==> -FULL <= 2 * (percentage_of(
            value,
            max,
        ) * max - value * FULL) < FULL,
{
    let read = percentage_of(value, max);
    lemma_percentage_is_in_range(value, max);
    assert(0 <= read * max <= max * FULL) by (nonlinear_arith)
        requires
            0 <= read <= FULL,
            max >= 0,
    ;
    lemma_round_half_away_is_nearest(read * max, FULL as int);
    lemma_round_half_away_of_multiple(max, FULL as int);
    lemma_round_half_away_is_monotonic(read * max, max * FULL, FULL as int);
    if -FULL <= 2 * (read * max - value * FULL) < FULL {
        lemma_round_half_away_near_multiple(read * max, value, FULL as int);
    }
}

/// The percentage that a device is at selects the value that it is at, on
/// every device with no more raw steps than a hundred percent has units.
pub proof fn lemma_percentage_selects_its_value(value: int, max: int)
    requires
        1 <= max <= FULL,
        0 <= value <= max,
    ensures
        raw_for(percentage_of(value, max), max) == value,
{
    let read = percentage_of(value, max);
    lemma_round_half_away_is_nearest(value * FULL, max);
    if max == FULL {
        lemma_round_half_away_of_multiple(value, max);
    }
    lemma_percentage_selects_its_value_iff(value, max);
}

} // verus!
