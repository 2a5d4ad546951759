use usbmon_collector::ndjson::{activity, flush_at, flush_ndjson, heartbeat};
use usbmon_collector::stats::{DeviceRecord, DeviceStats, StatsMap};
use usbmon_collector::sysfs::DeviceEntry;
use usbmon_collector::urb::Urb;

fn record(bus: u16, device: u8, in_bytes: u64, out_bytes: u64) -> DeviceRecord {
    DeviceRecord { bus, device, stats: DeviceStats { in_bytes, out_bytes } }
}

fn named(bus: &str, device: &str, product: &str) -> DeviceEntry {
    DeviceEntry {
        busnum: Some(format!("{}\n", bus)),
        devnum: Some(format!("{}\n", device)),
        product: Some(format!("{}\n", product)),
        id_vendor: None,
        id_product: None,
    }
}

const TS: &str = "2025-06-01T12:00:00Z";

#[test]
fn the_document_of_an_active_device() {
    assert_eq!(
        activity(TS, "raspberrypi", &record(1, 3, 768_000, 0), 60, "USB Audio Device"),
        r#"{"@timestamp":"2025-06-01T12:00:00Z","host":{"name":"raspberrypi"},"usbtop":{"bus":1,"device":3,"device_name":"USB Audio Device","in_kbps":12.500,"out_kbps":0.000},"event":{"dataset":"usbtop.metrics","module":"usbtop"}}"#
    );
}

#[test]
fn the_heartbeat_document() {
    assert_eq!(
        heartbeat(TS, "raspberrypi"),
        r#"{"@timestamp":"2025-06-01T12:00:00Z","host":{"name":"raspberrypi"},"usbtop":{"no_activity":true},"event":{"dataset":"usbtop.metrics","module":"usbtop"}}"#
    );
}

#[test]
fn device_and_host_names_are_escaped() {
    let text = activity(TS, "a\"b\\", &record(65535, 255, 61_440, 122_880), 60, "5\" disk\n");
    assert!(text.contains(r#""host":{"name":"a\"b\\"},"usbtop""#));
    assert!(text.contains(r#""bus":65535,"device":255,"device_name":"5\" disk\n","in_kbps":1.000"#));
    assert!(heartbeat(TS, "a\"b").contains(r#""host":{"name":"a\"b"},"#));
}

#[test]
fn control_characters_in_names_are_coded() {
    let text = activity(TS, "a\u{0}b\u{1f}", &record(1, 3, 0, 0), 60, "\u{8}x\u{1b}[0m");
    assert!(text.contains(r#""host":{"name":"a\u0000b\u001f"},"#));
    assert!(text.contains(r#""device_name":"\u0008x\u001b[0m","#));
    assert!(text.chars().all(|c| c >= ' '));
}

#[test]
fn a_host_with_a_line_break_stays_on_its_line() {
    let out = flush_at(TS, "two\nlines\u{b}", &vec![], 60, &vec![]);
    assert_eq!(out.matches('\n').count(), 1);
    assert!(out.contains(r#""name":"two\nlines\u000b""#));
}

#[test]
fn an_idle_interval_writes_one_heartbeat() {
    let out = flush_at(TS, "pi", &vec![], 60, &vec![named("1", "3", "Mouse")]);
    assert_eq!(out, format!("{}\n", heartbeat(TS, "pi")));
}

#[test]
fn an_active_interval_writes_a_line_per_device() {
    let records = vec![record(1, 3, 768_000, 0), record(1, 4, 61, 445_440)];
    let entries = vec![named("1", "3", "Mouse"), named("2", "4", "Disk")];
    let out = flush_at(TS, "pi", &records, 60, &entries);
    let expected = format!(
        "{}\n{}\n",
        activity(TS, "pi", &records[0], 60, "Mouse"),
        activity(TS, "pi", &records[1], 60, "")
    );
    assert_eq!(out, expected);
    assert_eq!(out.lines().count(), 2);
    assert!(out.contains(r#""in_kbps":12.500,"out_kbps":0.000"#));
    assert!(out.contains(r#""in_kbps":0.001,"out_kbps":7.250"#));
    assert!(!out.contains("no_activity"));
}

#[test]
fn a_name_with_a_line_break_stays_on_its_line() {
    let records = vec![record(1, 3, 1, 1)];
    let out = flush_at(TS, "pi", &records, 60, &vec![named("1", "3", "two\nlines")]);
    assert_eq!(out.matches('\n').count(), 1);
    assert!(out.contains(r#""device_name":"two\nlines""#));
}

#[test]
fn a_flush_now_carries_the_current_time() {
    let before = usbmon_collector::calendar::now_iso8601();
    let out = flush_ndjson(&StatsMap::new(), 60, "pi", &vec![]);
    let after = usbmon_collector::calendar::now_iso8601();
    let ts = &out[15..35];
    assert!(before.as_str() <= ts && ts <= after.as_str());
    assert_eq!(out, flush_at(ts, "pi", &vec![], 60, &vec![]));
}

#[test]
fn a_flush_now_reports_every_device_once() {
    let mut stats = StatsMap::new();
    for device in 1..=5u8 {
        stats.record(&Urb { urb_type: b'C', bus: 2, device, len: 1024 * device as u64 });
        stats.record(&Urb { urb_type: b'S', bus: 2, device, len: 512 });
    }
    let out = flush_ndjson(&stats, 1, "pi", &vec![named("2", "4", "Disk")]);
    assert_eq!(out.lines().count(), 5);
    for device in 1..=5u8 {
        let name = if device == 4 { "Disk" } else { "" };
        let part = format!(
            r#""usbtop":{{"bus":2,"device":{},"device_name":"{}","in_kbps":{}.000,"out_kbps":0.500}}"#,
            device, name, device
        );
        assert_eq!(out.matches(part.as_str()).count(), 1);
    }
}

#[test]
fn an_interval_of_no_length_counts_as_one_second() {
    let text = activity(TS, "pi", &record(1, 3, 7, 0), 0, "x");
    assert_eq!(text, activity(TS, "pi", &record(1, 3, 7, 0), 1, "x"));
    assert!(text.contains(r#""in_kbps":0.007,"out_kbps":0.000"#));
}
