use std::time::Duration;

use lib::error::DeviceError;
use lib::simulators::ThermometerSimulatorConfig;

fn invalid_message(content: &str) -> String {
    match ThermometerSimulatorConfig::parse(content) {
        Err(DeviceError::InvalidConfig(message)) => message,
        other => panic!("expected an invalid config, got {other:?}"),
    }
}

#[test]
fn thermometer_config_is_read_from_key_value_file() {
    let config = ThermometerSimulatorConfig::parse(
        "
        # comments are ignored
        target_addr = 127.0.0.1:5000
        period_ms = 250
        ",
    )
    .unwrap();

    assert_eq!(config.target_addr, "127.0.0.1:5000");
    assert_eq!(config.period, Duration::from_millis(250));
}

#[test]
fn config_accepts_address_alias_and_crlf_lines() {
    let config =
        ThermometerSimulatorConfig::parse("address=10.0.0.1:9\r\nperiod_ms=+7\r\n").unwrap();
    assert_eq!(config.target_addr, "10.0.0.1:9");
    assert_eq!(config.period, Duration::from_millis(7));
}

#[test]
fn config_later_value_wins() {
    let config = ThermometerSimulatorConfig::parse(
        "target_addr = a:1\nperiod_ms = 5\ntarget_addr = b:2\nperiod_ms = 6\n",
    )
    .unwrap();
    assert_eq!(config.target_addr, "b:2");
    assert_eq!(config.period, Duration::from_millis(6));
}

#[test]
fn config_value_keeps_inner_equals_signs() {
    let config = ThermometerSimulatorConfig::parse("target_addr = a=b\nperiod_ms = 1").unwrap();
    assert_eq!(config.target_addr, "a=b");
}

#[test]
fn config_rejects_line_without_equals() {
    assert_eq!(
        invalid_message("# header\n\ntarget_addr\n"),
        "line 3 must have key=value format"
    );
}

#[test]
fn config_rejects_invalid_period() {
    assert_eq!(
        invalid_message("target_addr = x\nperiod_ms = 12a"),
        "line 2 has invalid period_ms"
    );
    assert_eq!(
        invalid_message("period_ms = -1"),
        "line 1 has invalid period_ms"
    );
    assert_eq!(
        invalid_message("period_ms = 18446744073709551616"),
        "line 1 has invalid period_ms"
    );
    assert_eq!(invalid_message("period_ms = +"), "line 1 has invalid period_ms");
}

#[test]
fn config_accepts_largest_period() {
    let config =
        ThermometerSimulatorConfig::parse("target_addr = x\nperiod_ms = 18446744073709551615")
            .unwrap();
    assert_eq!(config.period, Duration::from_millis(u64::MAX));
}

#[test]
fn config_rejects_unknown_key() {
    assert_eq!(
        invalid_message("\n\n\n\n\n\n\n\n\n target = x"),
        "line 10 has unknown key 'target'"
    );
}

#[test]
fn config_reports_missing_and_zero_values() {
    assert_eq!(invalid_message(""), "missing target_addr value");
    assert_eq!(invalid_message("period_ms = 3"), "missing target_addr value");
    assert_eq!(invalid_message("target_addr = x"), "missing period_ms value");
    assert_eq!(
        invalid_message("target_addr = x\nperiod_ms = 0"),
        "period_ms must be greater than zero"
    );
}

#[test]
fn config_stops_at_first_bad_line() {
    assert_eq!(
        invalid_message("bogus = 1\nperiod_ms = x"),
        "line 1 has unknown key 'bogus'"
    );
}

#[test]
fn config_clone_keeps_fields() {
    let config = ThermometerSimulatorConfig::parse("target_addr = t\nperiod_ms = 40").unwrap();
    let copy = config.clone();
    assert_eq!(copy, config);
    assert_eq!(copy.period, Duration::from_millis(40));
}

#[test]
fn inserted_comment_lines_only_renumber_messages() {
    let plain = "target_addr = a:1\nperiod_ms = 9";
    let padded = "# head\ntarget_addr = a:1\n\n   \n# note\nperiod_ms = 9\n#";
    assert_eq!(
        ThermometerSimulatorConfig::parse(plain).unwrap(),
        ThermometerSimulatorConfig::parse(padded).unwrap()
    );
    assert_eq!(invalid_message("period_ms = x"), "line 1 has invalid period_ms");
    assert_eq!(
        invalid_message("\n# c\nperiod_ms = x"),
        "line 3 has invalid period_ms"
    );
    assert_eq!(invalid_message("# only\n\nperiod_ms = 4"), "missing target_addr value");
}
