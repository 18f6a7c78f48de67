//! The controller of one backlight device.
//!
//! A [`Controller`] holds what is known of a device: the largest raw value
//! it accepts, and the raw value it was last seen at or set to. It is made
//! from the contents of the device's two files, changed by an
//! [`Operation`], and answers with the bytes to write to the device. Reading
//! the files and writing those bytes is the caller's part.

use crate::decimal::{decimal_text, format_u64, read_u64};
use crate::device::{
    checked_levels, open_outcome, selects, Contents, DeviceFiles, Levels, OpenError,
};
use crate::percent::{
    lemma_percentage_is_in_range, lemma_percentage_selects_its_value,
    lemma_percentage_selects_its_value_iff, lemma_round_half_away_is_monotonic,
    lemma_round_half_away_is_nearest, lemma_round_half_away_of_multiple, percentage,
    percentage_of, raw_for_percentage, round_half_away, settle, settled, whole_percent,
    whole_percentage, FULL,
};
use vstd::prelude::*;

verus! {

/// A change of brightness. Each amount is a percentage in millionths of a
/// percent, and may be negative or above a hundred percent.
#[derive(Clone, Copy, Debug, PartialEq, Eq, Structural)]
pub enum Operation {
    /// Raise the brightness by this amount: from 40 % by 10 % to 50 %.
    Up(i64),
    /// Lower the brightness by this amount: from 40 % by 10 % to 30 %.
    Down(i64),
    /// Set the brightness to this percentage.
    SetTo(i64),
}

/// A device that was opened: its maximum, fixed for good, and its raw
/// brightness as last read or set.
#[derive(Debug)]
pub struct Controller {
    max: u64,
    value: u64,
}

impl View for Controller {
    type V = Levels;

    closed spec fn view(&self) -> Levels {
        Levels { value: self.value as nat, max: self.max as nat }
    }
}

/// The level that `operation` aims at from the levels `now`, in units of
/// `1 / FULL` raw steps.
///
/// With the current percentage `now.value / now.max * 100`, raising by
/// `delta` aims at the percentage `current + delta`, lowering at
/// `current - delta`, and setting at the target itself. A percentage `p`
/// lies at `p / 100 * now.max` raw steps.
pub open spec fn aimed_steps(operation: Operation, now: Levels) -> int {
    match operation {
        Operation::Up(delta) => now.value * FULL + delta * now.max,
        Operation::Down(delta) => now.value * FULL - delta * now.max,
        Operation::SetTo(target) => target * now.max,
    }
}

/// The levels after `operation` was applied to the levels `now`: the
/// maximum stays, and the value is the level aimed at, rounded and clamped.
pub open spec fn applied(operation: Operation, now: Levels) -> Levels {
    Levels { value: settled(aimed_steps(operation, now), now.max as int) as nat, max: now.max }
}

/// Whatever is asked, the device stays within its range: the maximum is
/// kept and the new value lies between 0 and the maximum.
pub proof fn lemma_applied_stays_in_range(operation: Operation, now: Levels)
    requires
        now.valid(),
    ensures
        applied(operation, now).valid(),
        applied(operation, now).max == now.max,
{
}

/// A target of a hundred percent or more drives the device to its maximum,
/// where it reads as a hundred percent.
pub proof fn lemma_full_target_selects_maximum(target: i64, now: Levels)
    requires
        now.valid(),
        target >= FULL,
    ensures
        applied(Operation::SetTo(target), now).value == now.max,
        percentage_of(now.max as int, now.max as int) == FULL,
        whole_percent(now.max as int, now.max as int) == 100,
{
    let max = now.max as int;
    assert(target * max >= max * FULL) by (nonlinear_arith)
        requires
            target >= FULL,
            max >= 0,
    ;
    lemma_round_half_away_of_multiple(max, FULL as int);
    lemma_round_half_away_is_monotonic(max * FULL, target * max, FULL as int);
    lemma_percentage_is_in_range(max, max);
}

/// A target of zero percent or less makes the device dark, where it reads
/// as zero percent.
pub proof fn lemma_negative_target_selects_zero(target: i64, now: Levels)
    requires
        now.valid(),
        target <= 0,
    ensures
        applied(Operation::SetTo(target), now).value == 0,
        percentage_of(0, now.max as int) == 0,
        whole_percent(0, now.max as int) == 0,
{
    let max = now.max as int;
    assert(target * max <= 0) by (nonlinear_arith)
        requires
            target <= 0,
            max >= 0,
    ;
    lemma_round_half_away_is_nearest(target * max, FULL as int);
    lemma_percentage_is_in_range(0, max);
}

/// Setting a target between zero and a hundred percent lands within half a
/// raw step of it: the percentage of the new value differs from the target
/// by at most `50 / max` percentage points.
pub proof fn lemma_set_lands_within_half_a_step(target: i64, now: Levels)
    requires
        now.valid(),
        0 <= target <= FULL,
    ensures
        -FULL <= 2 * (target * now.max - applied(Operation::SetTo(target), now).value * FULL)
            <= FULL,
{
    let max = now.max as int;
    let nearest = round_half_away(target * max, FULL as int);
    lemma_round_half_away_is_nearest(target * max, FULL as int);
    assert(0 <= target * max <= max * FULL) by (nonlinear_arith)
        requires
            0 <= target <= FULL,
            max >= 0,
    ;
    lemma_round_half_away_of_multiple(max, FULL as int);
    lemma_round_half_away_is_monotonic(target * max, max * FULL, FULL as int);
}

/// Setting the percentage that the device is at changes nothing: where
/// `target` is exactly `now.value / now.max * 100` percent, the value stays.
pub proof fn lemma_current_percentage_is_a_fixed_point(target: i64, now: Levels)
    requires
        now.valid(),
        target * now.max == now.value * FULL,
    ensures
        applied(Operation::SetTo(target), now) == now,
{
    lemma_round_half_away_of_multiple(now.value as int, FULL as int);
}

/// The percentage that is read from a device at the levels `now`.
pub open spec fn read_percentage(now: Levels) -> i64
    recommends
        now.valid(),
{
    percentage_of(now.value as int, now.max as int) as i64
}

/// Rounding the percentage of `now` to the unit of percentages has moved it
/// by less than half a raw step, or by half a step down.
pub open spec fn read_within_half_a_step(now: Levels) -> bool {
    -FULL <= 2 * (read_percentage(now) * now.max - now.value * FULL) < FULL
}

/// Setting the percentage that is read from the device changes nothing,
/// exactly where what is read lies within half a raw step of where the
/// device is. That is so on every device with no more raw steps than a
/// hundred percent has units.
pub proof fn lemma_set_what_is_read_is_a_fixed_point(now: Levels)
    requires
        now.valid(),
    ensures
        read_percentage(now) == percentage_of(now.value as int, now.max as int),
        applied(Operation::SetTo(read_percentage(now)), now) == now <==> read_within_half_a_step(
            now,
        ),
        now.max <= FULL ==> read_within_half_a_step(now),
{
    lemma_percentage_is_in_range(now.value as int, now.max as int);
    lemma_percentage_selects_its_value_iff(now.value as int, now.max as int);
    if now.max <= FULL {
        lemma_percentage_selects_its_value(now.value as int, now.max as int);
    }
}

/// Setting a percentage, reading back the percentage that the device is
/// then at, and setting that, gives the same value as the first setting,
/// where what is read back lies within half a raw step of where the device
/// then is: so on every device with no more raw steps than a hundred
/// percent has units.
pub proof fn lemma_set_then_set_what_is_read(target: i64, now: Levels)
    requires
        now.valid(),
    ensures
        ({
            let after = applied(Operation::SetTo(target), now);
            &&& applied(Operation::SetTo(read_percentage(after)), after) == after
                <==> read_within_half_a_step(after)
            &&& now.max <= FULL ==> read_within_half_a_step(after)
        }),
{
    let after = applied(Operation::SetTo(target), now);
    lemma_applied_stays_in_range(Operation::SetTo(target), now);
    lemma_set_what_is_read_is_a_fixed_point(after);
}

/// Raising or lowering by nothing changes nothing.
pub proof fn lemma_moving_by_zero_is_a_fixed_point(now: Levels)
    requires
        now.valid(),
    ensures
        applied(Operation::Up(0), now) == now,
        applied(Operation::Down(0), now) == now,
{
    lemma_round_half_away_of_multiple(now.value as int, FULL as int);
}

/// Raising by an amount that is not negative never lowers the brightness,
/// and lowering by one never raises it.
pub proof fn lemma_up_never_lowers_and_down_never_raises(delta: i64, now: Levels)
    requires
        now.valid(),
        delta >= 0,
    ensures
        applied(Operation::Up(delta), now).value >= now.value,
        applied(Operation::Down(delta), now).value <= now.value,
{
    let value = now.value as int;
    let max = now.max as int;
    assert(delta * max >= 0) by (nonlinear_arith)
        requires
            delta >= 0,
            max >= 0,
    ;
    lemma_round_half_away_of_multiple(value, FULL as int);
    lemma_round_half_away_is_monotonic(value * FULL, value * FULL + delta * max, FULL as int);
    lemma_round_half_away_is_monotonic(value * FULL - delta * max, value * FULL, FULL as int);
}

/// Raising by an amount is lowering by its opposite.
pub proof fn lemma_up_is_down_of_opposite(delta: i64, now: Levels)
    requires
        delta > i64::MIN,
    ensures
        applied(Operation::Up(delta), now) == applied(Operation::Down((-delta) as i64), now),
{
    assert(delta * now.max == -((-delta) * now.max)) by (nonlinear_arith);
}

/// The raw value at `delta` percentage points from `value`, on a device
/// whose maximum is `max`.
fn moved(value: u64, max: u64, delta: i128) -> (raw: u64)
    requires
        value <= max,
    ensures
        raw == settled(value * FULL + delta * max, max as int),
        raw <= max,
{
    if delta >= 100_000_000 {
        proof {
            assert(value * FULL + delta * max >= max * FULL) by (nonlinear_arith)
                requires
                    delta >= FULL,
                    FULL > 0,
                    value >= 0,
                    max >= 0,
            ;
            lemma_round_half_away_of_multiple(max as int, FULL as int);
            lemma_round_half_away_is_monotonic(
                max * FULL,
                value * FULL + delta * max,
                FULL as int,
            );
        }
        max
    } else if delta <= -100_000_000 {
        proof {
            assert(value * FULL + delta * max <= 0) by (nonlinear_arith)
                requires
                    delta <= -FULL,
                    FULL > 0,
                    0 <= value <= max,
            ;
            lemma_round_half_away_is_nearest(value * FULL + delta * max, FULL as int);
        }
        0
    } else {
        assert(-100_000_000 * 0xffff_ffff_ffff_ffff <= delta * max <= 100_000_000
            * 0xffff_ffff_ffff_ffff) by (nonlinear_arith)
            requires
                -100_000_000 < delta < 100_000_000,
                0 <= max <= 0xffff_ffff_ffff_ffff,
        ;
        let steps: i128 = value as i128 * 100_000_000 + delta * (max as i128);
        settle(steps, max)
    }
}

impl Controller {
    #[verifier::type_invariant]
    spec fn in_range(self) -> bool {
        1 <= self.max && self.value <= self.max
    }

    /// A controller for a device that reports the raw brightness `value` and
    /// the maximum `max`.
    pub fn new(value: u64, max: u64) -> (made: Result<Controller, OpenError>)
        ensures
            made matches Ok(controller) ==> checked_levels(value, max) == Ok::<Levels, OpenError>(
                controller@,
            ) && controller@.valid(),
            made matches Err(error) ==> checked_levels(value, max) == Err::<Levels, OpenError>(
                error,
            ),
    {
        if max == 0 {
            Err(OpenError::InvalidMaxBrightness)
        } else if value > max {
            Err(OpenError::InvalidBrightnessValue)
        } else {
            Ok(Controller { max, value })
        }
    }

    /// Opens the device whose files read as `device`.
    pub fn open(device: &DeviceFiles) -> (opened: Result<Controller, OpenError>)
        ensures
            opened matches Ok(controller) ==> open_outcome(*device) == Ok::<Levels, OpenError>(
                controller@,
            ) && controller@.valid(),
            opened matches Err(error) ==> open_outcome(*device) == Err::<Levels, OpenError>(error),
    {
        let value: u64 = match &device.brightness {
            Contents::Unavailable => {
                return Err(OpenError::CannotOpenBrightnessFile);
            },
            Contents::Unreadable => {
                return Err(OpenError::InvalidBrightnessValue);
            },
            Contents::Bytes(bytes) => match read_u64(bytes.as_slice()) {
                Some(value) => value,
                None => {
                    return Err(OpenError::InvalidBrightnessValue);
                },
            },
        };
        let max: u64 = match &device.max_brightness {
            Contents::Bytes(bytes) => match read_u64(bytes.as_slice()) {
                Some(max) => max,
                None => {
                    return Err(OpenError::InvalidMaxBrightness);
                },
            },
            _ => {
                return Err(OpenError::InvalidMaxBrightness);
            },
        };
        Controller::new(value, max)
    }

    /// Opens the first of `devices` that opens, in the order given, and says
    /// which one it was. Devices that do not open are passed over; with none
    /// left the error is `NoWorkingController`.
    pub fn open_first(devices: &[DeviceFiles]) -> (found: Result<(usize, Controller), OpenError>)
        ensures
            found matches Ok((index, controller)) ==> selects(devices@, index as int)
                && open_outcome(devices@[index as int]) == Ok::<Levels, OpenError>(controller@)
                && controller@.valid(),
            found matches Err(error) ==> error == OpenError::NoWorkingController && forall|j: int|
                0 <= j < devices@.len() ==> open_outcome(#[trigger] devices@[j]) is Err,
    {
        let mut index: usize = 0;
        while index < devices.len()
            invariant
                index <= devices@.len(),
                forall|j: int| 0 <= j < index ==> open_outcome(#[trigger] devices@[j]) is Err,
            decreases devices@.len() - index,
        {
            match Controller::open(&devices[index]) {
                Ok(controller) => {
                    return Ok((index, controller));
                },
                Err(_) => {},
            }
            index = index + 1;
        }
        Err(OpenError::NoWorkingController)
    }

    /// The largest raw value that the device accepts.
    pub fn max(&self) -> (max: u64)
        ensures
            max == self@.max,
            self@.valid(),
    {
        proof {
            use_type_invariant(self);
        }
        self.max
    }

    /// The raw brightness as last read or set.
    pub fn value(&self) -> (value: u64)
        ensures
            value == self@.value,
            self@.valid(),
    {
        proof {
            use_type_invariant(self);
        }
        self.value
    }

    /// The brightness as a percentage, in millionths of a percent: the raw
    /// value over the maximum, rounded to the nearest millionth, a tie
    /// going up. It lies between 0 and a hundred percent.
    pub fn get_percentage(&self) -> (percentage: i64)
        ensures
            percentage == percentage_of(self@.value as int, self@.max as int),
            percentage == read_percentage(self@),
            0 <= percentage <= FULL,
    {
        proof {
            use_type_invariant(self);
        }
        percentage(self.value, self.max)
    }

    /// The brightness in whole percent, between 0 and 100: the raw value
    /// over the maximum, rounded to the nearest percent, a tie going up.
    pub fn whole_percentage(&self) -> (percent: u8)
        ensures
            percent == whole_percent(self@.value as int, self@.max as int),
            percent <= 100,
    {
        proof {
            use_type_invariant(self);
        }
        whole_percentage(self.value, self.max)
    }

    /// Sets the brightness to the percentage `target`, in millionths of a
    /// percent, and returns the text to write to the device.
    ///
    /// The raw value is `target / 100 * max`, rounded to the nearest integer
    /// and clamped into the device's range: no target is refused. The new
    /// value is kept whether or not the caller's write succeeds.
    pub fn set_percentage(&mut self, target: i64) -> (text: Vec<u8>)
        ensures
            final(self)@ == applied(Operation::SetTo(target), old(self)@),
            final(self)@.valid(),
            text@ == decimal_text(final(self)@.value),
    {
        proof {
            use_type_invariant(&*self);
        }
        let raw: u64 = raw_for_percentage(target, self.max);
        self.value = raw;
        format_u64(raw)
    }

    /// Applies `operation` to the current brightness and returns the text to
    /// write to the device.
    ///
    /// Raising and lowering start from the exact current percentage, not
    /// from a rounded one. The result is rounded to the nearest raw value
    /// and clamped into the device's range. The new value is kept whether or
    /// not the caller's write succeeds.
    pub fn apply(&mut self, operation: Operation) -> (text: Vec<u8>)
        ensures
            final(self)@ == applied(operation, old(self)@),
            final(self)@.valid(),
            text@ == decimal_text(final(self)@.value),
    {
        proof {
            use_type_invariant(&*self);
        }
        match operation {
            Operation::SetTo(target) => self.set_percentage(target),
            Operation::Up(delta) => {
                let raw: u64 = moved(self.value, self.max, delta as i128);
                self.value = raw;
                format_u64(raw)
            },
            Operation::Down(delta) => {
                assert(self.value * FULL - delta * self.max == self.value * FULL + (-delta)
                    * self.max) by (nonlinear_arith);
                let raw: u64 = moved(self.value, self.max, -(delta as i128));
                self.value = raw;
                format_u64(raw)
            },
        }
    }
}

} // verus!
