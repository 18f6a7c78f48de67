//! The files of a backlight device, and what opening it gives.
//!
//! A device is a directory with two files: `brightness`, which holds the raw
//! brightness and takes a new one, and `max_brightness`, which holds the
//! largest raw brightness that the device accepts. The caller reads both and
//! hands over what came of it; this module says what the device then opens
//! as, and which of several devices is taken.

use crate::decimal::number_in;
use vstd::prelude::*;

verus! {

/// What came of reading one file of a device.
#[derive(Debug)]
pub enum Contents {
    /// The file could not be opened.
    Unavailable,
    /// The file was opened, but reading it failed.
    Unreadable,
    /// The file was read to its end and held these bytes.
    Bytes(Vec<u8>),
}

/// The two files of a device directory, as they were read.
#[derive(Debug)]
pub struct DeviceFiles {
    /// The file `brightness`, opened for reading and writing.
    pub brightness: Contents,
    /// The file `max_brightness`, opened for reading.
    pub max_brightness: Contents,
}

/// Why no controller was opened.
#[derive(Clone, Copy, Debug, PartialEq, Eq, Structural)]
pub enum OpenError {
    /// The device's `brightness` file could not be opened.
    CannotOpenBrightnessFile,
    /// The device's `max_brightness` file could not be read, does not hold a
    /// number, or holds zero.
    InvalidMaxBrightness,
    /// The device's `brightness` file could not be read, does not hold a
    /// number, or holds one above the device's maximum.
    InvalidBrightnessValue,
    /// Not one of the devices on offer could be opened.
    NoWorkingController,
}

/// The two numbers of a device: its raw brightness and the largest raw
/// brightness it accepts.
pub struct Levels {
    /// The raw brightness.
    pub value: nat,
    /// The largest raw brightness.
    pub max: nat,
}

impl Levels {
    /// The maximum is positive and the value does not exceed it.
    pub open spec fn valid(self) -> bool {
        1 <= self.max && self.value <= self.max
    }
}

/// The levels that the numbers `value` and `max`, read from a device, stand
/// for. A maximum of zero is refused, since no percentage could be taken of
/// it, and so is a value above the maximum.
pub open spec fn checked_levels(value: u64, max: u64) -> Result<Levels, OpenError> {
    if max == 0 {
        Err(OpenError::InvalidMaxBrightness)
    } else if value > max {
        Err(OpenError::InvalidBrightnessValue)
    } else {
        Ok(Levels { value: value as nat, max: max as nat })
    }
}

/// What opening a device gives, by the contents of its files.
///
/// The `brightness` file is looked at first: it must have been opened, read
/// and hold a number. Then the `max_brightness` file must have been read and
/// hold a number. Last, the two numbers must fit each other.
pub open spec fn open_outcome(device: DeviceFiles) -> Result<Levels, OpenError> {
    match device.brightness {
        Contents::Unavailable => Err(OpenError::CannotOpenBrightnessFile),
        Contents::Unreadable => Err(OpenError::InvalidBrightnessValue),
        Contents::Bytes(brightness) => match number_in(brightness@) {
            None => Err(OpenError::InvalidBrightnessValue),
            Some(value) => match device.max_brightness {
                Contents::Bytes(max_brightness) => match number_in(max_brightness@) {
                    None => Err(OpenError::InvalidMaxBrightness),
                    Some(max) => checked_levels(value, max),
                },
                _ => Err(OpenError::InvalidMaxBrightness),
            },
        },
    }
}

/// The device at `index` is the first of `devices` that opens.
pub open spec fn selects(devices: Seq<DeviceFiles>, index: int) -> bool {
    &&& 0 <= index < devices.len()
    &&& open_outcome(devices[index]) is Ok
    &&& forall|j: int| 0 <= j < index ==> open_outcome(#[trigger] devices[j]) is Err
}

/// At most one device is the first that opens.
pub proof fn lemma_selection_is_unique(devices: Seq<DeviceFiles>, i: int, j: int)
    requires
        selects(devices, i),
        selects(devices, j),
    ensures
        i == j,
{
}

/// Where exactly one device opens, it is the one selected, wherever it
/// stands in the listing.
pub proof fn lemma_only_working_device_is_selected(devices: Seq<DeviceFiles>, working: int)
    requires
        0 <= working < devices.len(),
        open_outcome(devices[working]) is Ok,
        forall|j: int|
            0 <= j < devices.len() && j != working ==> open_outcome(#[trigger] devices[j]) is Err,
    ensures
        selects(devices, working),
        forall|i: int| selects(devices, i) ==> i == working,
{
}

/// Of two devices of which one opens and one does not, the one that opens
/// is selected in either order.
pub proof fn lemma_selection_ignores_order(working: DeviceFiles, broken: DeviceFiles)
    requires
        open_outcome(working) is Ok,
        open_outcome(broken) is Err,
    ensures
        selects(seq![working, broken], 0),
        selects(seq![broken, working], 1),
{
}

/// Where some device opens, one is selected: the first that opens, which
/// stands at that device's place or before it.
pub proof fn lemma_selection_exists(devices: Seq<DeviceFiles>, working: int) -> (index: int)
    requires
        0 <= working < devices.len(),
        open_outcome(devices[working]) is Ok,
    ensures
        selects(devices, index),
        index <= working,
    decreases working,
{
    if exists|j: int| 0 <= j < working && open_outcome(#[trigger] devices[j]) is Ok {
        let j = choose|j: int| 0 <= j < working && open_outcome(#[trigger] devices[j]) is Ok;
        lemma_selection_exists(devices, j)
    } else {
        working
    }
}

} // verus!
