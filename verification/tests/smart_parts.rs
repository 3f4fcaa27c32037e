use rmon::smart::{parse_report, parse_scan, short_device_name, SmartInfo};

// a trimmed `smartctl -j -a /dev/disk0` report of an Apple NVMe drive
const DISK0: &str = r#"{
  "json_format_version": [1, 0],
  "smartctl": {"version": [7, 4], "exit_status": 0},
  "device": {"name": "/dev/disk0", "info_name": "IOService:/AppleARMPE/arm-io/AppleT600xIO/ans@8F400000/AppleASCWrapV4/iop-ans-nub/RTBuddy(ANS2)/RTBuddyService/AppleANS3NVMeController/NS_01@1", "type": "nvme", "protocol": "NVMe"},
  "model_name": "APPLE SSD AP1024R",
  "serial_number": "0ba0123456789abc",
  "firmware_version": "555",
  "smart_support": {"available": true, "enabled": true},
  "smart_status": {"passed": true, "nvme": {"value": 0}},
  "nvme_smart_health_information_log": {
    "critical_warning": 0,
    "temperature": 30,
    "available_spare": 100,
    "percentage_used": 4,
    "data_units_read": 123456789,
    "power_on_hours": 2145
  },
  "temperature": {"current": 30},
  "power_cycle_count": 300,
  "power_on_time": {"hours": 2145}
}"#;

#[test]
fn parses_real_disk0_fixture() {
    let info = parse_report(DISK0, "disk0").unwrap();
    assert_eq!(info.device, "disk0");
    assert_eq!(info.model.as_deref(), Some("APPLE SSD AP1024R"));
    assert_eq!(info.healthy, Some(true));
    assert_eq!(info.temp_c, Some(30));
    assert_eq!(info.wear_pct, Some(4));
    assert_eq!(info.power_on_hours, Some(2145));
}

#[test]
fn garbage_json_is_none() {
    assert_eq!(parse_report("not json", "d"), None);
}

#[test]
fn empty_object_is_none() {
    assert_eq!(parse_report("{}", "d"), None);
}

#[test]
fn partial_fields_survive() {
    let info = parse_report(r#"{"temperature":{"current":42}}"#, "d").unwrap();
    assert_eq!(info.device, "d");
    assert_eq!(info.temp_c, Some(42));
    assert_eq!(info.model, None);
    assert_eq!(info.healthy, None);
    assert_eq!(info.wear_pct, None);
    assert_eq!(info.power_on_hours, None);
}

#[test]
fn scan_parse() {
    assert_eq!(
        parse_scan(r#"{"devices":[{"name":"/dev/sda","type":"sat"}]}"#),
        vec![("/dev/sda".to_string(), "sat".to_string())]
    );
    assert_eq!(parse_scan("{}"), Vec::new());
}

#[test]
fn scan_skips_entries_missing_a_field() {
    assert_eq!(
        parse_scan(r#"{"devices":[{"name":"/dev/sda"},{"name":"/dev/sdb","type":"nvme"},{"type":"sat"}]}"#),
        vec![("/dev/sdb".to_string(), "nvme".to_string())]
    );
    assert_eq!(parse_scan("[1,2]"), Vec::new());
}

#[test]
fn failed_health_and_wrong_types_are_read_as_they_are() {
    let info = parse_report(r#"{"smart_status":{"passed":false},"temperature":{"current":"hot"}}"#, "sda").unwrap();
    assert_eq!(info.healthy, Some(false));
    assert_eq!(info.temp_c, None);
}

#[test]
fn device_names_keep_the_last_path_component() {
    assert_eq!(short_device_name("/dev/disk0"), "disk0");
    assert_eq!(short_device_name("IOService:/a/b/NS_01@1"), "NS_01@1");
    assert_eq!(short_device_name("sda"), "sda");
}

fn smart_disk0(healthy: Option<bool>) -> SmartInfo {
    SmartInfo {
        device: "disk0".into(),
        model: Some("APPLE SSD".into()),
        healthy,
        temp_c: Some(31),
        wear_pct: Some(4),
        power_on_hours: Some(2145),
    }
}

#[test]
fn smart_row_carries_model_temp_health_wear_and_hours() {
    let (head, health, tail) = smart_disk0(Some(true)).row_text();
    assert_eq!(head, "disk0 APPLE SSD 31\u{b0}C");
    assert_eq!(health, " ok");
    assert_eq!(tail, " wear 4% 2145h");
}

#[test]
fn unhealthy_drive_is_marked_fail() {
    let (_, health, _) = smart_disk0(Some(false)).row_text();
    assert_eq!(health, " FAIL");
}

#[test]
fn smart_row_leaves_out_what_is_unknown() {
    let info = SmartInfo {
        device: "sda".into(),
        model: None,
        healthy: None,
        temp_c: None,
        wear_pct: None,
        power_on_hours: Some(7),
    };
    let (head, health, tail) = info.row_text();
    assert_eq!(head, "sda");
    assert_eq!(health, "");
    assert_eq!(tail, " 7h");
}
