use rmon::collect::{core_label_index, cpu_chip, is_card_name, is_cpu_hwmon, temp_label_input, uevent_driver, HwmonChip};
use rmon::update::location_tag;

#[test]
fn cpu_hwmon_chips_are_recognised_by_name() {
    assert!(is_cpu_hwmon("coretemp\n"));
    assert!(is_cpu_hwmon("k10temp"));
    assert!(is_cpu_hwmon(" zenpower \n"));
    assert!(is_cpu_hwmon("cpu_thermal\n"));
    assert!(!is_cpu_hwmon("nvme\n"));
    assert!(!is_cpu_hwmon("coretemp2"));
}

#[test]
fn drm_cards_exclude_connectors() {
    assert!(is_card_name("card0"));
    assert!(is_card_name("card12"));
    assert!(!is_card_name("card"));
    assert!(!is_card_name("card0-eDP-1"));
    assert!(!is_card_name("renderD128"));
}

#[test]
fn temp_labels_name_their_input() {
    assert_eq!(temp_label_input("temp2_label").as_deref(), Some("2"));
    assert_eq!(temp_label_input("temp2_input"), None);
    assert_eq!(temp_label_input("fan1_label"), None);
}

#[test]
fn core_labels_give_the_core_index() {
    assert_eq!(core_label_index("Core 0\n"), Some(0));
    assert_eq!(core_label_index("Core 11"), Some(11));
    assert_eq!(core_label_index("Package id 0\n"), None);
    assert_eq!(core_label_index("Core x"), None);
    assert_eq!(core_label_index("Core 4294967296"), None);
}

#[test]
fn uevent_names_the_driver() {
    assert_eq!(uevent_driver("DRIVER=amdgpu\nPCI_CLASS=38000\n").as_deref(), Some("amdgpu"));
    assert_eq!(uevent_driver("PCI_CLASS=38000\nDRIVER= i915 \n").as_deref(), Some("i915"));
    assert_eq!(uevent_driver("PCI_CLASS=38000\n"), None);
}

#[test]
fn wget_headers_yield_the_last_location_tag() {
    let headers = "  HTTP/1.1 302 Found\n  Location: https://github.com/x/y/releases/tag/v1.0.0\n  HTTP/1.1 302 Found\n  location: https://github.com/x/y/releases/tag/v2.0.0\r\n  HTTP/1.1 200 OK\n";
    assert_eq!(location_tag(headers).as_deref(), Some("v2.0.0"));
    assert_eq!(location_tag("  HTTP/1.1 200 OK\n"), None);
    assert_eq!(location_tag("LOCATION: https://g.com/releases/tag/v3\n").as_deref(), Some("v3"));
}

fn chip(index: u64, name: &str, temp: Option<i64>, cores: Vec<(u32, Option<i64>)>) -> HwmonChip {
    HwmonChip { index, name: name.to_string(), temp_milli: temp, cores }
}

#[test]
fn hwmon_picks_coretemp() {
    // hwmon0 is an nvme chip; hwmon1 is coretemp reading 44000 millidegrees
    let chips = vec![chip(0, "nvme\n", None, vec![]), chip(1, "coretemp\n", Some(44000), vec![])];
    assert_eq!(cpu_chip(&chips), Some((44000, vec![])));
    // per-core labels appear in coretemp style; the package label is not a core
    let chips = vec![
        chip(0, "nvme\n", None, vec![]),
        chip(1, "coretemp\n", Some(44000), vec![(1, Some(43000)), (0, Some(41000))]),
    ];
    assert_eq!(cpu_chip(&chips), Some((44000, vec![41000, 43000])));
}

#[test]
fn hwmon_absent_is_none() {
    assert_eq!(cpu_chip(&vec![chip(0, "nvme\n", None, vec![])]), None);
    assert_eq!(cpu_chip(&Vec::new()), None);
}

#[test]
fn cpu_chip_prefers_the_lowest_index_and_sane_readings() {
    let chips = vec![
        chip(10, "coretemp", Some(50000), vec![]),
        chip(2, "k10temp", Some(60000), vec![(3, Some(61000)), (1, Some(200000)), (0, Some(59000)), (3, Some(62000))]),
        chip(1, "coretemp", Some(150000), vec![]),
        chip(5, "zenpower", None, vec![]),
    ];
    // hwmon1 reads 150 degrees (insane), hwmon5 has no reading: hwmon2 wins over hwmon10;
    // the insane core reading is dropped, ties keep their order
    assert_eq!(cpu_chip(&chips), Some((60000, vec![59000, 61000, 62000])));
    // equal indices: the earlier listed chip
    let tie = vec![chip(3, "coretemp", Some(1000), vec![]), chip(3, "k10temp", Some(2000), vec![])];
    assert_eq!(cpu_chip(&tie), Some((1000, vec![])));
}
