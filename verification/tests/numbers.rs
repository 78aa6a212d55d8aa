use allocate_core::battery::{
    charge_percent, get_battery_state, BatteryState, PowerSource, PowerSourceRecord,
};
use allocate_core::digits::append_scaled;
use allocate_core::double::{encode, percentage_of, Double};
use allocate_core::rounding::{multiple_of, nearest_ratio, quotient_of, HALF_24, HALF_53};
use allocate_core::text::{
    append_padded_left, append_padded_right, contains, decimal_text, same_text, signed_text,
};

fn double(x: f64) -> Double {
    Double { bits: x.to_bits() }
}

#[test]
fn comparisons_agree_with_doubles() {
    let values = [
        0.0,
        -0.0,
        1.0,
        -1.0,
        0.1,
        5.0,
        15.0,
        -15.0,
        f64::MIN_POSITIVE,
        5e-324,
        f64::MAX,
        f64::MIN,
        f64::INFINITY,
        f64::NEG_INFINITY,
        f64::NAN,
        -f64::NAN,
    ];
    for a in values {
        for b in values {
            assert_eq!(double(a).less_than(double(b)), a < b, "{} < {}", a, b);
            assert_eq!(double(a).at_least(double(b)), a >= b, "{} >= {}", a, b);
        }
    }
    assert_eq!(Double::zero(), double(0.0));
}

#[test]
fn one_decimal_agrees_with_formatting() {
    let values = [
        0.0, -0.0, 0.05, 0.15, 0.25, 0.35, 0.45, 2.5, 0.1, 99.95, 99.949, 102.34, 87.4, -3.25,
        -0.04, 1e15, 1e17, 123456789012345680.0, 1e22, 1e300, 5e-324, 0.049999999999999996,
    ];
    for x in values {
        assert_eq!(double(x).to_one_decimal(), format!("{:.1}", x), "{}", x);
    }
    assert_eq!(double(f64::NAN).to_one_decimal(), "NaN");
    assert_eq!(double(f64::INFINITY).to_one_decimal(), "inf");
    assert_eq!(double(f64::NEG_INFINITY).to_one_decimal(), "-inf");
    assert_eq!(double(f64::MAX).to_one_decimal(), format!("{:.1}", f64::MAX));
}

#[test]
fn percentages_agree_with_doubles() {
    assert_eq!(percentage_of(0, 7), double(0.0));
    assert_eq!(percentage_of(1, 4), double(25.0));
    let mut part: u64 = 3;
    for k in 1..1_000u64 {
        let whole = k.wrapping_mul(0x9e37_79b9_7f4a_7c15) | 1;
        let expected = (part as f64 / whole as f64) * 100.0;
        assert_eq!(percentage_of(part, whole).bits, expected.to_bits());
        part = part.wrapping_mul(6_364_136_223_846_793_005).wrapping_add(1);
    }
}

#[test]
fn larger_parts_give_no_smaller_percentages() {
    let whole = 999_983;
    let mut last = percentage_of(0, whole);
    for part in 1..2_000 {
        let next = percentage_of(part, whole);
        assert!(next.at_least(last));
        last = next;
    }
}

#[test]
fn nearest_ratios_agree_with_doubles() {
    let a = nearest_ratio(HALF_53, 1, 3);
    assert_eq!(encode(a).bits, (1.0f64 / 3.0).to_bits());
    let third = quotient_of(
        HALF_53,
        nearest_ratio(HALF_53, 10, 1),
        nearest_ratio(HALF_53, 3, 1),
    );
    assert_eq!(encode(third).bits, (10.0f64 / 3.0).to_bits());
    let hundred = multiple_of(HALF_53, third, 100);
    assert_eq!(encode(hundred).bits, (10.0f64 / 3.0 * 100.0).to_bits());
    let big = nearest_ratio(HALF_53, u64::MAX, 1);
    assert_eq!(encode(big).bits, (u64::MAX as f64).to_bits());
    // A tie goes to the even neighbour.
    let tie = nearest_ratio(HALF_24, 16_777_217, 1);
    assert_eq!(tie.significand, 8_388_608);
    assert_eq!(tie.exponent, 1);
}

#[test]
fn charges_agree_with_single_precision() {
    for maximum in [1, 3, 7, 100, 4_321, 5_088, 16_777_217, i32::MAX] {
        for current in [0, 1, 2, 3, 50, 99, 100, 2_544, 4_999, 5_088, 33_333_333] {
            let share = ((current as f32 / maximum as f32) * 100.0).round();
            let expected = if share > 100.0 { 100 } else { share as u8 };
            assert_eq!(charge_percent(current, maximum), expected, "{}/{}", current, maximum);
        }
    }
}

#[test]
fn charge_stays_between_zero_and_one_hundred() {
    assert_eq!(charge_percent(50, 0), 0);
    assert_eq!(charge_percent(50, -1), 0);
    assert_eq!(charge_percent(-50, 100), 0);
    assert_eq!(charge_percent(150, 100), 100);
    assert_eq!(charge_percent(i32::MAX, 1), 100);
    assert_eq!(charge_percent(5_088, 5_088), 100);
    assert_eq!(charge_percent(1, 200), 1);
    assert_eq!(charge_percent(1, 201), 0);
    assert_eq!(charge_percent(79, 100), 79);
}

fn record(kind: Option<&str>, state: Option<&str>) -> PowerSourceRecord {
    PowerSourceRecord {
        kind: kind.map(|s| s.to_string()),
        current_capacity: Some(80),
        max_capacity: Some(100),
        is_charging: Some(true),
        state: state.map(|s| s.to_string()),
    }
}

#[test]
fn first_internal_battery_is_reported() {
    let records = vec![
        record(None, Some("AC Power")),
        record(Some("UPS"), Some("AC Power")),
        record(Some("InternalBattery"), Some("AC Power")),
        record(Some("InternalBattery"), Some("Battery Power")),
    ];
    assert_eq!(
        get_battery_state(&records),
        Some(BatteryState { charge_percent: 80, is_charging: true, source: PowerSource::AcPower })
    );
    assert_eq!(get_battery_state(&records[..2]), None);
    assert_eq!(get_battery_state(&[]), None);
}

#[test]
fn power_sources_are_told_apart() {
    let source = |state: Option<&str>| {
        get_battery_state(&[record(Some("InternalBattery"), state)]).unwrap().source
    };
    assert_eq!(source(None), PowerSource::Unknown);
    assert_eq!(source(Some("AC Power")), PowerSource::AcPower);
    assert_eq!(source(Some("UPS Power")), PowerSource::Ups);
    assert_eq!(source(Some("Battery Power")), PowerSource::Battery);
}

#[test]
fn missing_battery_figures_have_defaults() {
    let bare = PowerSourceRecord {
        kind: Some("InternalBattery".to_string()),
        current_capacity: None,
        max_capacity: None,
        is_charging: None,
        state: None,
    };
    assert_eq!(
        get_battery_state(&[bare]),
        Some(BatteryState { charge_percent: 0, is_charging: false, source: PowerSource::Unknown })
    );
    let no_maximum = PowerSourceRecord {
        kind: Some("InternalBattery".to_string()),
        current_capacity: Some(42),
        max_capacity: None,
        is_charging: Some(false),
        state: Some("Battery Power".to_string()),
    };
    assert_eq!(get_battery_state(&[no_maximum]).unwrap().charge_percent, 42);
}

#[test]
fn decimals_are_written_without_leading_zeros() {
    assert_eq!(decimal_text(0), "0");
    assert_eq!(decimal_text(u64::MAX), "18446744073709551615");
    assert_eq!(signed_text(i32::MIN), "-2147483648");
    assert_eq!(signed_text(17), "17");
    let mut out = String::new();
    append_scaled(&mut out, 3, 100);
    assert_eq!(out, "3802951800684688204490109616128");
}

#[test]
fn padding_fills_up_to_the_width() {
    let mut out = String::new();
    append_padded_left(&mut out, "ab", 4);
    append_padded_right(&mut out, "cd", 4);
    append_padded_left(&mut out, "toolong", 3);
    append_padded_right(&mut out, "\u{E9}", 2);
    assert_eq!(out, "  abcd  toolong\u{E9} ");
}

#[test]
fn texts_are_compared_and_searched() {
    assert!(same_text("Dock", "Dock"));
    assert!(!same_text("Dock", "dock"));
    assert!(!same_text("Dock", "Docks"));
    assert!(contains("On AC Power now", "AC Power"));
    assert!(contains("anything", ""));
    assert!(!contains("UP", "UPS"));
}
