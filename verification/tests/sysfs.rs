use usbmon_collector::sysfs::{entry_is_at, entry_name, hostname, lookup_device_name, DeviceEntry};

fn entry(busnum: &str, devnum: &str, product: &str, vendor: &str, code: &str) -> DeviceEntry {
    let file = |s: &str| if s.is_empty() { None } else { Some(format!("{}\n", s)) };
    DeviceEntry {
        busnum: file(busnum),
        devnum: file(devnum),
        product: file(product),
        id_vendor: file(vendor),
        id_product: file(code),
    }
}

#[test]
fn the_product_text_is_preferred() {
    let entries = vec![
        entry("1", "2", "Hub", "1d6b", "0002"),
        entry("1", "3", "USB Audio Device", "0d8c", "0014"),
    ];
    assert_eq!(lookup_device_name(&entries, 1, 3), "USB Audio Device");
    assert_eq!(lookup_device_name(&entries, 1, 2), "Hub");
}

#[test]
fn the_codes_are_the_fallback() {
    let entries = vec![entry("1", "3", "", "0d8c", "0014"), entry("2", "4", "  ", "abcd", "")];
    assert_eq!(lookup_device_name(&entries, 1, 3), "0d8c:0014");
    assert_eq!(lookup_device_name(&entries, 2, 4), "abcd:");
}

#[test]
fn nameless_and_foreign_entries_are_passed_over() {
    let entries = vec![
        entry("", "", "interface", "", ""),
        entry("1", "3", "", "", "0014"),
        entry("1", "x", "broken", "", ""),
        entry("257", "3", "other bus", "", ""),
        entry("1", "3", "second", "", ""),
        entry("1", "3", "third", "", ""),
    ];
    assert_eq!(lookup_device_name(&entries, 1, 3), "second");
    assert_eq!(lookup_device_name(&entries, 257, 3), "other bus");
}

#[test]
fn an_unknown_device_has_the_empty_name() {
    assert_eq!(lookup_device_name(&vec![], 1, 3), "");
    assert_eq!(lookup_device_name(&vec![entry("1", "3", "x", "", "")], 1, 4), "");
    assert_eq!(lookup_device_name(&vec![entry("1", "3", "", "", "14")], 1, 3), "");
}

#[test]
fn addresses_out_of_range_match_nothing() {
    assert!(!entry_is_at(&entry("65536", "3", "", "", ""), 0, 3));
    assert!(!entry_is_at(&entry("1", "259", "", "", ""), 1, 3));
    assert!(entry_is_at(&entry("65535", "255", "", "", ""), 65535, 255));
}

#[test]
fn an_entry_without_texts_gives_no_name() {
    assert_eq!(entry_name(&entry("1", "3", "", "", "")), None);
    assert_eq!(entry_name(&entry("1", "3", " Mouse ", "", "")), Some("Mouse".to_string()));
}

#[test]
fn the_host_name_is_trimmed() {
    assert_eq!(hostname(&Some("raspberrypi\n".to_string())), "raspberrypi");
    assert_eq!(hostname(&Some("\n".to_string())), "");
    assert_eq!(hostname(&None), "unknown");
}
