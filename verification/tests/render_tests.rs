use power_supply::device::PowerDevice;

#[test]
fn report_lists_rows_in_key_order_with_alignment() {
    let text = "POWER_SUPPLY_NAME=BAT0\nPOWER_SUPPLY_TYPE=Battery\nPOWER_SUPPLY_STATUS=Discharging\nPOWER_SUPPLY_ENERGY_NOW=2000000\nPOWER_SUPPLY_POWER_NOW=1000000\n";
    let mut d = PowerDevice::new(text).unwrap();
    d.calc_data().unwrap();
    let out = d.render();
    // widest key is POWER_SUPPLY_TIME_REMAINING_UNTIL_EMPTY (39), so the
    // value column sits at 39 - 13 = 26 characters
    let expected = "Device: BAT0 Battery\n\thealth percentage          = NaN\n\tpower consumption          = 1.00\n\tstatus                     = Discharging\n\ttime remaining until empty = 2.00\n";
    assert_eq!(out, expected);
}

#[test]
fn report_hides_denylisted_keys() {
    let text = "POWER_SUPPLY_NAME=BAT0\nPOWER_SUPPLY_TYPE=Battery\nPOWER_SUPPLY_STATUS=Full\nPOWER_SUPPLY_ENERGY_NOW=2000000\nPOWER_SUPPLY_ENERGY_FULL=2500000\nPOWER_SUPPLY_ENERGY_FULL_DESIGN=5000000\nPOWER_SUPPLY_POWER_NOW=1000000\nPOWER_SUPPLY_VOLTAGE_NOW=12000000\nPOWER_SUPPLY_VOLTAGE_MIN_DESIGN=11000000\nPOWER_SUPPLY_PRESENT=1\nPOWER_SUPPLY_SERIAL_NUMBER=1234\nDEVTYPE=power_supply\n";
    let mut d = PowerDevice::new(text).unwrap();
    d.calc_data().unwrap();
    let out = d.render();
    assert!(out.contains("health percentage"));
    assert!(out.contains("power consumption"));
    assert!(out.contains("time remaining until n/a"));
    assert!(out.contains("status"));
    assert!(!out.contains("DEVTYPE"));
    assert!(!out.contains("devtype"));
    assert!(!out.contains("serial number"));
    assert!(!out.contains("voltage"));
    assert!(!out.contains("energy now"));
    assert!(!out.contains("energy full"));
    assert!(!out.contains("present"));
    // the raw readings never leak, even as values of other rows
    assert!(!out.contains("12000000"));
    assert!(!out.contains("1234"));
}

#[test]
fn report_for_non_battery_has_no_derived_rows() {
    let text = "POWER_SUPPLY_NAME=AC\nPOWER_SUPPLY_TYPE=Mains\nPOWER_SUPPLY_ONLINE=1\n";
    let mut d = PowerDevice::new(text).unwrap();
    d.calc_data().unwrap();
    let out = d.render();
    let expected = "Device: AC Mains\n\tonline = 1\n";
    assert_eq!(out, expected);
}

#[test]
fn report_header_names_device() {
    let d = PowerDevice::new("POWER_SUPPLY_NAME=BAT1\nPOWER_SUPPLY_TYPE=Battery\n").unwrap();
    let out = d.render();
    assert!(out.starts_with("Device: BAT1 Battery\n"));
}
