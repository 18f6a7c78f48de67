use brightness_ctl::controller::{Controller, Operation};
use brightness_ctl::device::{Contents, DeviceFiles, OpenError};
use brightness_ctl::decimal::read_u64;
use brightness_ctl::percent::{FULL, PERCENT};

fn files(brightness: &[u8], max_brightness: &[u8]) -> DeviceFiles {
    DeviceFiles {
        brightness: Contents::Bytes(brightness.to_vec()),
        max_brightness: Contents::Bytes(max_brightness.to_vec()),
    }
}

fn fake0() -> DeviceFiles {
    files(b"128\n", b"255\n")
}

fn broken() -> DeviceFiles {
    DeviceFiles { brightness: Contents::Unavailable, max_brightness: Contents::Bytes(b"255\n".to_vec()) }
}

fn levels(controller: &Controller) -> (u64, u64) {
    (controller.value(), controller.max())
}

#[test]
fn open_reads_both_numbers() {
    let controller = Controller::open(&fake0()).unwrap();
    assert_eq!(controller.value(), 128);
    assert_eq!(controller.max(), 255);
}

#[test]
fn open_takes_files_without_a_line_feed() {
    let controller = Controller::open(&files(b"7", b"15")).unwrap();
    assert_eq!(levels(&controller), (7, 15));
}

#[test]
fn open_without_a_brightness_file_fails() {
    let device = DeviceFiles {
        brightness: Contents::Unavailable,
        max_brightness: Contents::Bytes(b"255\n".to_vec()),
    };
    assert_eq!(Controller::open(&device).unwrap_err(), OpenError::CannotOpenBrightnessFile);
}

#[test]
fn open_without_any_file_blames_the_brightness_file() {
    let device = DeviceFiles { brightness: Contents::Unavailable, max_brightness: Contents::Unavailable };
    assert_eq!(Controller::open(&device).unwrap_err(), OpenError::CannotOpenBrightnessFile);
}

#[test]
fn open_with_an_unreadable_brightness_file_fails() {
    let device = DeviceFiles {
        brightness: Contents::Unreadable,
        max_brightness: Contents::Bytes(b"255\n".to_vec()),
    };
    assert_eq!(Controller::open(&device).unwrap_err(), OpenError::InvalidBrightnessValue);
}

#[test]
fn open_with_a_brightness_that_is_no_number_fails() {
    for text in [&b""[..], b"\n", b"bright", b"-3", b"12.5", b"12\xff", b"18446744073709551616"] {
        assert_eq!(
            Controller::open(&files(text, b"255\n")).unwrap_err(),
            OpenError::InvalidBrightnessValue
        );
    }
}

#[test]
fn open_without_a_max_brightness_file_fails() {
    let device = DeviceFiles {
        brightness: Contents::Bytes(b"128\n".to_vec()),
        max_brightness: Contents::Unavailable,
    };
    assert_eq!(Controller::open(&device).unwrap_err(), OpenError::InvalidMaxBrightness);
}

#[test]
fn open_with_an_unreadable_max_brightness_file_fails() {
    let device = DeviceFiles {
        brightness: Contents::Bytes(b"128\n".to_vec()),
        max_brightness: Contents::Unreadable,
    };
    assert_eq!(Controller::open(&device).unwrap_err(), OpenError::InvalidMaxBrightness);
}

#[test]
fn open_with_a_max_brightness_that_is_no_number_fails() {
    for text in [&b""[..], b"max", b"0x7f", b"-1", b" ", b"255 0"] {
        assert_eq!(
            Controller::open(&files(b"128\n", text)).unwrap_err(),
            OpenError::InvalidMaxBrightness
        );
    }
}

#[test]
fn open_with_a_maximum_of_zero_fails() {
    assert_eq!(Controller::open(&files(b"0\n", b"0\n")).unwrap_err(), OpenError::InvalidMaxBrightness);
    assert_eq!(Controller::open(&files(b"5\n", b"0\n")).unwrap_err(), OpenError::InvalidMaxBrightness);
}

#[test]
fn open_with_a_brightness_above_the_maximum_fails() {
    assert_eq!(
        Controller::open(&files(b"256\n", b"255\n")).unwrap_err(),
        OpenError::InvalidBrightnessValue
    );
}

#[test]
fn open_blames_the_brightness_file_first() {
    assert_eq!(
        Controller::open(&files(b"dim", b"dimmer")).unwrap_err(),
        OpenError::InvalidBrightnessValue
    );
}

#[test]
fn open_at_the_ends_of_the_range() {
    assert_eq!(levels(&Controller::open(&files(b"0", b"1")).unwrap()), (0, 1));
    assert_eq!(levels(&Controller::open(&files(b"1", b"1")).unwrap()), (1, 1));
    assert_eq!(
        levels(&Controller::open(&files(b"18446744073709551615", b"18446744073709551615")).unwrap()),
        (u64::MAX, u64::MAX)
    );
}

#[test]
fn new_checks_the_numbers() {
    assert_eq!(levels(&Controller::new(128, 255).unwrap()), (128, 255));
    assert_eq!(Controller::new(0, 0).unwrap_err(), OpenError::InvalidMaxBrightness);
    assert_eq!(Controller::new(9, 0).unwrap_err(), OpenError::InvalidMaxBrightness);
    assert_eq!(Controller::new(9, 8).unwrap_err(), OpenError::InvalidBrightnessValue);
    assert_eq!(levels(&Controller::new(8, 8).unwrap()), (8, 8));
}

#[test]
fn open_first_of_nothing_fails() {
    assert_eq!(Controller::open_first(&[]).unwrap_err(), OpenError::NoWorkingController);
}

#[test]
fn open_first_of_broken_devices_fails() {
    let devices = [broken(), files(b"1", b"0"), files(b"", b"")];
    assert_eq!(Controller::open_first(&devices).unwrap_err(), OpenError::NoWorkingController);
}

#[test]
fn open_first_finds_the_working_device_in_either_order() {
    let (index, controller) = Controller::open_first(&[fake0(), broken()]).unwrap();
    assert_eq!(index, 0);
    assert_eq!(levels(&controller), (128, 255));
    let (index, controller) = Controller::open_first(&[broken(), fake0()]).unwrap();
    assert_eq!(index, 1);
    assert_eq!(levels(&controller), (128, 255));
}

#[test]
fn open_first_finds_the_only_working_device_wherever_it_stands() {
    for place in 0..5usize {
        let mut devices = Vec::new();
        for at in 0..5usize {
            devices.push(if at == place { fake0() } else { broken() });
        }
        let (index, controller) = Controller::open_first(&devices).unwrap();
        assert_eq!(index, place);
        assert_eq!(levels(&controller), (128, 255));
    }
}

#[test]
fn open_first_takes_the_first_of_several_working_devices() {
    let devices = [broken(), files(b"3", b"7"), files(b"128", b"255"), files(b"1", b"1")];
    let (index, controller) = Controller::open_first(&devices).unwrap();
    assert_eq!(index, 1);
    assert_eq!(levels(&controller), (3, 7));
}

#[test]
fn percentage_is_rounded_to_whole_percent() {
    assert_eq!(Controller::new(128, 255).unwrap().whole_percentage(), 50);
    assert_eq!(Controller::new(153, 255).unwrap().whole_percentage(), 60);
    assert_eq!(Controller::new(0, 255).unwrap().whole_percentage(), 0);
    assert_eq!(Controller::new(255, 255).unwrap().whole_percentage(), 100);
    assert_eq!(Controller::new(1, 255).unwrap().whole_percentage(), 0);
    assert_eq!(Controller::new(2, 255).unwrap().whole_percentage(), 1);
    assert_eq!(Controller::new(254, 255).unwrap().whole_percentage(), 100);
    assert_eq!(Controller::new(1, 3).unwrap().whole_percentage(), 33);
    assert_eq!(Controller::new(2, 3).unwrap().whole_percentage(), 67);
}

#[test]
fn percentage_ties_go_up() {
    assert_eq!(Controller::new(1, 200).unwrap().whole_percentage(), 1);
    assert_eq!(Controller::new(1, 8).unwrap().whole_percentage(), 13);
    assert_eq!(Controller::new(199, 200).unwrap().whole_percentage(), 100);
    assert_eq!(Controller::new(3, 8).unwrap().whole_percentage(), 38);
}

#[test]
fn percentage_is_read_in_millionths() {
    assert_eq!(Controller::new(128, 255).unwrap().get_percentage(), 50_196_078);
    assert_eq!(Controller::new(153, 255).unwrap().get_percentage(), 60 * PERCENT);
    assert_eq!(Controller::new(0, 255).unwrap().get_percentage(), 0);
    assert_eq!(Controller::new(255, 255).unwrap().get_percentage(), FULL);
    assert_eq!(Controller::new(1, 3).unwrap().get_percentage(), 33_333_333);
    assert_eq!(Controller::new(2, 3).unwrap().get_percentage(), 66_666_667);
    assert_eq!(Controller::new(1, 8).unwrap().get_percentage(), 12_500_000);
    assert_eq!(Controller::new(1, 200_000_000).unwrap().get_percentage(), 1);
    assert_eq!(Controller::new(1, 200_000_001).unwrap().get_percentage(), 0);
    assert_eq!(Controller::new(u64::MAX, u64::MAX).unwrap().get_percentage(), FULL);
    assert_eq!(Controller::new(u64::MAX - 1, u64::MAX).unwrap().get_percentage(), FULL);
    assert_eq!(Controller::new(u64::MAX / 2, u64::MAX).unwrap().get_percentage(), 50 * PERCENT);
}

#[test]
fn percentage_of_the_largest_device() {
    assert_eq!(Controller::new(u64::MAX, u64::MAX).unwrap().whole_percentage(), 100);
    assert_eq!(Controller::new(u64::MAX / 2, u64::MAX).unwrap().whole_percentage(), 50);
    assert_eq!(Controller::new(0, u64::MAX).unwrap().whole_percentage(), 0);
}

#[test]
fn set_percentage_above_a_hundred_gives_the_maximum() {
    let mut controller = Controller::new(128, 255).unwrap();
    let text = controller.set_percentage(150 * PERCENT);
    assert_eq!(controller.value(), 255);
    assert_eq!(controller.get_percentage(), 100 * PERCENT);
    assert_eq!(controller.whole_percentage(), 100);
    assert_eq!(text, b"255".to_vec());
}

#[test]
fn set_percentage_below_zero_gives_zero_on_any_device() {
    for max in [1u64, 2, 15, 100, 255, 937, 4095, 65535, 120000, u64::MAX] {
        let mut controller = Controller::new(max, max).unwrap();
        let text = controller.set_percentage(-10 * PERCENT);
        assert_eq!(controller.value(), 0);
        assert_eq!(controller.max(), max);
        assert_eq!(controller.get_percentage(), 0);
        assert_eq!(controller.whole_percentage(), 0);
        assert_eq!(text, b"0".to_vec());
    }
}

#[test]
fn set_percentage_writes_the_decimal_text_of_the_new_value() {
    let mut controller = Controller::new(0, 120000).unwrap();
    let text = controller.set_percentage(37_500_000);
    assert_eq!(controller.value(), 45000);
    assert_eq!(text, b"45000".to_vec());
    assert_eq!(read_u64(&text), Some(45000));
}

#[test]
fn set_percentage_then_setting_what_is_read_back_changes_nothing() {
    for max in [1u64, 2, 3, 7, 100, 200, 255, 937, 4095, 65535, 120000, 99_999_999, 100_000_000] {
        let mut target = -20 * PERCENT;
        while target <= 120 * PERCENT {
            let mut controller = Controller::new(0, max).unwrap();
            controller.set_percentage(target);
            let value = controller.value();
            let read_back = controller.get_percentage();
            let text = controller.set_percentage(read_back);
            assert_eq!(controller.value(), value);
            assert_eq!(controller.get_percentage(), read_back);
            assert_eq!(text, value.to_string().into_bytes());
            target += 1_300_000;
        }
    }
}

#[test]
fn every_value_of_a_device_is_told_by_its_percentage() {
    for max in [1u64, 2, 3, 100, 255, 1000, 4095] {
        for value in 0..=max {
            let mut controller = Controller::new(value, max).unwrap();
            let read_back = controller.get_percentage();
            controller.set_percentage(read_back);
            assert_eq!(controller.value(), value);
        }
    }
}

#[test]
fn a_device_with_more_steps_than_a_percentage_tells_is_not_told_by_it() {
    let mut controller = Controller::new(1, 200_000_000).unwrap();
    let read_back = controller.get_percentage();
    assert_eq!(read_back, 1);
    controller.set_percentage(read_back);
    assert_eq!(controller.value(), 2);
}

#[test]
fn set_percentage_reads_back_within_the_rounding_of_one_step() {
    for max in [1u64, 3, 7, 100, 255, 1000, 65535] {
        let mut target = 0;
        while target <= FULL {
            let mut controller = Controller::new(0, max).unwrap();
            controller.set_percentage(target);
            let read_back = controller.get_percentage();
            // half a step, and half a unit for the rounding of what is read
            let bound = i128::from(FULL) / 2 / i128::from(max) + 1;
            assert!((i128::from(read_back) - i128::from(target)).abs() <= bound);
            target += 1_562_500;
        }
    }
}

#[test]
fn set_percentage_lands_within_half_a_step() {
    for max in [1u64, 3, 7, 100, 255, 1000, 65535] {
        let mut target = 0;
        while target <= FULL {
            let mut controller = Controller::new(0, max).unwrap();
            controller.set_percentage(target);
            let aimed = i128::from(target) * i128::from(max);
            let reached = i128::from(controller.value()) * i128::from(FULL);
            assert!(2 * (aimed - reached).abs() <= i128::from(FULL));
            target += 1_562_500;
        }
    }
}

#[test]
fn moving_by_nothing_changes_nothing() {
    for max in [1u64, 3, 255, 1000, u64::MAX] {
        for value in [0, 1, max / 3, max / 2, max - 1, max] {
            let mut controller = Controller::new(value, max).unwrap();
            let text = controller.apply(Operation::Up(0));
            assert_eq!(levels(&controller), (value, max));
            assert_eq!(text, value.to_string().into_bytes());
            controller.apply(Operation::Down(0));
            assert_eq!(levels(&controller), (value, max));
        }
    }
}

#[test]
fn up_adds_to_the_exact_percentage() {
    // 128 of 255 and ten percent more is 153.5 steps
    let mut controller = Controller::new(128, 255).unwrap();
    let text = controller.apply(Operation::Up(10 * PERCENT));
    assert_eq!(controller.value(), 154);
    assert_eq!(text, b"154".to_vec());
    assert_eq!(controller.whole_percentage(), 60);
}

#[test]
fn down_takes_from_the_exact_percentage() {
    // 128 of 255 and ten percent less is 102.5 steps
    let mut controller = Controller::new(128, 255).unwrap();
    let text = controller.apply(Operation::Down(10 * PERCENT));
    assert_eq!(controller.value(), 103);
    assert_eq!(text, b"103".to_vec());
    assert_eq!(controller.whole_percentage(), 40);
}

#[test]
fn up_beyond_the_range_stops_at_the_maximum() {
    // 80 % and 50 % more
    let mut controller = Controller::new(204, 255).unwrap();
    let text = controller.apply(Operation::Up(50 * PERCENT));
    assert_eq!(controller.value(), 255);
    assert_eq!(controller.whole_percentage(), 100);
    assert_eq!(text, b"255".to_vec());
    let mut controller = Controller::new(0, 255).unwrap();
    controller.apply(Operation::Up(i64::MAX));
    assert_eq!(controller.value(), 255);
    let mut controller = Controller::new(0, 255).unwrap();
    controller.apply(Operation::Up(FULL));
    assert_eq!(controller.value(), 255);
}

#[test]
fn down_beyond_the_range_stops_at_zero() {
    let mut controller = Controller::new(51, 255).unwrap();
    let text = controller.apply(Operation::Down(50 * PERCENT));
    assert_eq!(controller.value(), 0);
    assert_eq!(controller.whole_percentage(), 0);
    assert_eq!(text, b"0".to_vec());
    let mut controller = Controller::new(255, 255).unwrap();
    controller.apply(Operation::Down(i64::MAX));
    assert_eq!(controller.value(), 0);
    let mut controller = Controller::new(255, 255).unwrap();
    controller.apply(Operation::Down(FULL));
    assert_eq!(controller.value(), 0);
}

#[test]
fn up_never_lowers_and_down_never_raises() {
    for max in [1u64, 3, 255, 1000, u64::MAX] {
        for value in [0, max / 3, max / 2, max] {
            for amount in [0, 1, 49_999, 50_000, PERCENT, 33_333_333, FULL, i64::MAX] {
                let mut controller = Controller::new(value, max).unwrap();
                controller.apply(Operation::Up(amount));
                assert!(controller.value() >= value);
                let mut controller = Controller::new(value, max).unwrap();
                controller.apply(Operation::Down(amount));
                assert!(controller.value() <= value);
            }
        }
    }
}

#[test]
fn up_is_down_of_the_opposite_amount() {
    for amount in [-FULL, -PERCENT, -1, 0, 1, 2_500_000, PERCENT, FULL, i64::MAX] {
        let mut one = Controller::new(128, 255).unwrap();
        let mut other = Controller::new(128, 255).unwrap();
        one.apply(Operation::Up(amount));
        other.apply(Operation::Down(-amount));
        assert_eq!(levels(&one), levels(&other));
    }
}

#[test]
fn negative_amounts_move_the_other_way() {
    let mut controller = Controller::new(128, 255).unwrap();
    controller.apply(Operation::Up(-10 * PERCENT));
    assert_eq!(controller.value(), 103);
    let mut controller = Controller::new(128, 255).unwrap();
    controller.apply(Operation::Down(-10 * PERCENT));
    assert_eq!(controller.value(), 154);
    let mut controller = Controller::new(128, 255).unwrap();
    controller.apply(Operation::Down(i64::MIN));
    assert_eq!(controller.value(), 255);
    let mut controller = Controller::new(128, 255).unwrap();
    controller.apply(Operation::Up(i64::MIN));
    assert_eq!(controller.value(), 0);
}

#[test]
fn small_amounts_move_by_single_steps() {
    let mut controller = Controller::new(500, 1000).unwrap();
    controller.apply(Operation::Up(100_000));
    assert_eq!(controller.value(), 501);
    controller.apply(Operation::Down(200_000));
    assert_eq!(controller.value(), 499);
    // less than half a step is no step
    controller.apply(Operation::Up(49_999));
    assert_eq!(controller.value(), 499);
    // half a step up is a step
    controller.apply(Operation::Up(50_000));
    assert_eq!(controller.value(), 500);
    // half a step down is rounded back up
    controller.apply(Operation::Down(50_000));
    assert_eq!(controller.value(), 500);
    controller.apply(Operation::Down(50_001));
    assert_eq!(controller.value(), 499);
}

#[test]
fn apply_set_to_is_set_percentage() {
    let mut target = -10 * PERCENT;
    while target <= 110 * PERCENT {
        let mut one = Controller::new(17, 255).unwrap();
        let mut other = Controller::new(17, 255).unwrap();
        let text = one.apply(Operation::SetTo(target));
        let same = other.set_percentage(target);
        assert_eq!(text, same);
        assert_eq!(levels(&one), levels(&other));
        target += 777_777;
    }
}

#[test]
fn every_operation_keeps_the_device_in_range() {
    let amounts = [i64::MIN, -FULL - 1, -FULL, -PERCENT, -1, 0, 1, PERCENT, 33_333_333, FULL, FULL + 1, i64::MAX];
    for max in [1u64, 2, 255, 1000, u64::MAX] {
        for value in [0, max / 2, max] {
            for amount in amounts {
                for operation in [Operation::Up(amount), Operation::Down(amount), Operation::SetTo(amount)] {
                    let mut controller = Controller::new(value, max).unwrap();
                    let text = controller.apply(operation);
                    assert_eq!(controller.max(), max);
                    assert!(controller.value() <= max);
                    assert!(controller.whole_percentage() <= 100);
                    assert!(controller.get_percentage() >= 0 && controller.get_percentage() <= FULL);
                    assert_eq!(text, controller.value().to_string().into_bytes());
                }
            }
        }
    }
}

#[test]
fn operations_on_the_largest_device_do_not_overflow() {
    let mut controller = Controller::new(u64::MAX, u64::MAX).unwrap();
    controller.apply(Operation::Down(50 * PERCENT));
    assert_eq!(controller.value(), 1 << 63);
    controller.apply(Operation::Up(FULL - 1));
    assert_eq!(controller.value(), u64::MAX);
    controller.apply(Operation::Down(FULL - 1));
    assert_eq!(controller.value(), 184467440737);
}

#[test]
fn device_at_128_of_255_reads_50_and_set_to_60_writes_153() {
    let (index, mut controller) = Controller::open_first(&[fake0()]).unwrap();
    assert_eq!(index, 0);
    assert_eq!(format!("{}\n", controller.whole_percentage()), "50\n");
    let text = controller.apply(Operation::SetTo(60 * PERCENT));
    assert_eq!(text, b"153".to_vec());
    assert_eq!(controller.value(), 153);
    assert_eq!(controller.whole_percentage(), 60);
}

#[test]
fn device_at_128_of_255_goes_up_by_ten_to_60() {
    let mut controller = Controller::open(&fake0()).unwrap();
    assert_eq!(controller.whole_percentage(), 50);
    controller.apply(Operation::Up(10 * PERCENT));
    assert_eq!(controller.whole_percentage(), 60);
}
