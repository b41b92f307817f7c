use power_supply::device::{PowerDevice, DeviceError};

fn battery(extra: &str) -> PowerDevice {
    let text = format!(
        "POWER_SUPPLY_NAME=BAT0\nPOWER_SUPPLY_TYPE=Battery\n{}",
        extra
    );
    PowerDevice::new(&text).unwrap()
}

#[test]
fn new_reads_name_and_type() {
    let d = battery("");
    assert_eq!(d.name, "BAT0");
    assert_eq!(d.dtype, "Battery");
}

#[test]
fn new_fails_without_name() {
    let r = PowerDevice::new("POWER_SUPPLY_TYPE=Battery\n");
    assert_eq!(r.err(), Some(DeviceError::MissingName));
}

#[test]
fn new_fails_without_type() {
    let r = PowerDevice::new("POWER_SUPPLY_NAME=BAT0\n");
    assert_eq!(r.err(), Some(DeviceError::MissingType));
}

#[test]
fn power_consumption_from_microwatts() {
    let mut d = battery("POWER_SUPPLY_STATUS=Full\nPOWER_SUPPLY_POWER_NOW=15000000\n");
    d.calc_data().unwrap();
    assert_eq!(
        d.data.get("POWER_SUPPLY_POWER_CONSUMPTION"),
        Some(String::from("15.00"))
    );
}

#[test]
fn power_consumption_defaults_to_zero() {
    let mut d = battery("POWER_SUPPLY_STATUS=Full\n");
    d.calc_data().unwrap();
    assert_eq!(
        d.data.get("POWER_SUPPLY_POWER_CONSUMPTION"),
        Some(String::from("0.00"))
    );
}

#[test]
fn health_from_energy_ratio() {
    let mut d = battery(
        "POWER_SUPPLY_STATUS=Full\nPOWER_SUPPLY_ENERGY_FULL=2500000\nPOWER_SUPPLY_ENERGY_FULL_DESIGN=5000000\n",
    );
    d.calc_data().unwrap();
    assert_eq!(
        d.data.get("POWER_SUPPLY_HEALTH_PERCENTAGE"),
        Some(String::from("50.00"))
    );
}

#[test]
fn health_division_by_zero_is_non_finite() {
    let mut d = battery("POWER_SUPPLY_STATUS=Full\nPOWER_SUPPLY_ENERGY_FULL=2500000\n");
    d.calc_data().unwrap();
    assert_eq!(
        d.data.get("POWER_SUPPLY_HEALTH_PERCENTAGE"),
        Some(String::from("inf"))
    );
    let mut d2 = battery("POWER_SUPPLY_STATUS=Full\n");
    d2.calc_data().unwrap();
    assert_eq!(
        d2.data.get("POWER_SUPPLY_HEALTH_PERCENTAGE"),
        Some(String::from("NaN"))
    );
}

#[test]
fn time_remaining_discharging() {
    let mut d = battery(
        "POWER_SUPPLY_STATUS=Discharging\nPOWER_SUPPLY_ENERGY_NOW=2000000\nPOWER_SUPPLY_POWER_NOW=1000000\n",
    );
    d.calc_data().unwrap();
    assert_eq!(
        d.data.get("POWER_SUPPLY_TIME_REMAINING_UNTIL_EMPTY"),
        Some(String::from("2.00"))
    );
    assert_eq!(d.data.get("POWER_SUPPLY_TIME_REMAINING_UNTIL_FULL"), None);
    assert_eq!(d.data.get("POWER_SUPPLY_TIME_REMAINING_UNTIL_N/A"), None);
}

#[test]
fn time_remaining_encodes_hours_and_minutes() {
    // 3_000_000 / 2_000_000 = 1.5 raw hours -> 1 hour 30 minutes
    let mut d = battery(
        "POWER_SUPPLY_STATUS=Discharging\nPOWER_SUPPLY_ENERGY_NOW=3000000\nPOWER_SUPPLY_POWER_NOW=2000000\n",
    );
    d.calc_data().unwrap();
    assert_eq!(
        d.data.get("POWER_SUPPLY_TIME_REMAINING_UNTIL_EMPTY"),
        Some(String::from("1.30"))
    );
}

#[test]
fn time_remaining_charging() {
    // (5_000_000 - 2_000_000) / 1_500_000 = 2 raw hours -> 2.00
    let mut d = battery(
        "POWER_SUPPLY_STATUS=Charging\nPOWER_SUPPLY_ENERGY_FULL=5000000\nPOWER_SUPPLY_ENERGY_NOW=2000000\nPOWER_SUPPLY_POWER_NOW=1500000\n",
    );
    d.calc_data().unwrap();
    assert_eq!(
        d.data.get("POWER_SUPPLY_TIME_REMAINING_UNTIL_FULL"),
        Some(String::from("2.00"))
    );
}

#[test]
fn time_remaining_charging_above_full_is_negative() {
    // energy above the full mark while charging: -3.0 raw hours
    let mut d = battery(
        "POWER_SUPPLY_STATUS=Charging\nPOWER_SUPPLY_ENERGY_FULL=1000000\nPOWER_SUPPLY_ENERGY_NOW=4000000\nPOWER_SUPPLY_POWER_NOW=1000000\n",
    );
    d.calc_data().unwrap();
    assert_eq!(
        d.data.get("POWER_SUPPLY_TIME_REMAINING_UNTIL_FULL"),
        Some(String::from("-3.00"))
    );
}

#[test]
fn time_remaining_division_by_zero() {
    let mut d = battery(
        "POWER_SUPPLY_STATUS=Discharging\nPOWER_SUPPLY_ENERGY_NOW=2000000\n",
    );
    d.calc_data().unwrap();
    assert_eq!(
        d.data.get("POWER_SUPPLY_TIME_REMAINING_UNTIL_EMPTY"),
        Some(String::from("NaN"))
    );
}

#[test]
fn time_remaining_status_full_is_na_zero() {
    let mut d = battery(
        "POWER_SUPPLY_STATUS=Full\nPOWER_SUPPLY_ENERGY_NOW=2000000\nPOWER_SUPPLY_POWER_NOW=1000000\n",
    );
    d.calc_data().unwrap();
    assert_eq!(
        d.data.get("POWER_SUPPLY_TIME_REMAINING_UNTIL_N/A"),
        Some(String::from("0.00"))
    );
    assert_eq!(d.data.get("POWER_SUPPLY_TIME_REMAINING_UNTIL_EMPTY"), None);
}

#[test]
fn time_remaining_status_unknown_is_na_zero() {
    let mut d = battery("POWER_SUPPLY_STATUS=Unknown\nPOWER_SUPPLY_POWER_NOW=1000000\n");
    d.calc_data().unwrap();
    assert_eq!(
        d.data.get("POWER_SUPPLY_TIME_REMAINING_UNTIL_N/A"),
        Some(String::from("0.00"))
    );
}

#[test]
fn battery_without_status_fails() {
    let mut d = battery("POWER_SUPPLY_POWER_NOW=1000000\n");
    assert_eq!(d.calc_data(), Err(DeviceError::MissingStatus));
}

#[test]
fn non_battery_passes_through_unchanged() {
    let text = "POWER_SUPPLY_NAME=AC\nPOWER_SUPPLY_TYPE=Mains\nPOWER_SUPPLY_ONLINE=1\n";
    let mut d = PowerDevice::new(text).unwrap();
    let before = d.data.len();
    d.calc_data().unwrap();
    assert_eq!(d.data.len(), before);
    assert_eq!(d.data.get("POWER_SUPPLY_HEALTH_PERCENTAGE"), None);
    assert_eq!(d.data.get("POWER_SUPPLY_POWER_CONSUMPTION"), None);
    assert_eq!(d.data.get("POWER_SUPPLY_TIME_REMAINING_UNTIL_N/A"), None);
}

#[test]
fn format_key_strips_prefix_and_lowers() {
    let d = battery("");
    assert_eq!(
        d.format_key(String::from("POWER_SUPPLY_ENERGY_FULL")),
        "energy full"
    );
    assert_eq!(d.format_key(String::from("DEVTYPE")), "devtype");
    assert_eq!(
        d.format_key(String::from("POWER_SUPPLY_TIME_REMAINING_UNTIL_N/A")),
        "time remaining until n/a"
    );
}

#[test]
fn max_key_size_uses_longest_key() {
    let d = battery("POWER_SUPPLY_VOLTAGE_MIN_DESIGN=7500000\n");
    // longest key has 31 characters; the 13-character prefix is dropped
    assert_eq!(d.max_key_size(), 18);
}
