use usbmon_collector::capture::{capture_goes_on, capture_step, CaptureEvent, CaptureOutcome};
use usbmon_collector::stats::{DeviceRecord, DeviceStats, StatsMap};
use usbmon_collector::urb::{debug_line, decode, Urb, HEADER_LEN};

fn packet(urb_type: u8, device: u8, bus: u16) -> Vec<u8> {
    let mut bytes = vec![0xaau8; 64];
    bytes[8] = urb_type;
    bytes[11] = device;
    bytes[12] = (bus & 0xff) as u8;
    bytes[13] = (bus >> 8) as u8;
    bytes
}

fn sorted(stats: &StatsMap) -> Vec<(u16, u8, u64, u64)> {
    let mut list: Vec<(u16, u8, u64, u64)> = stats
        .records()
        .iter()
        .map(|r: &DeviceRecord| (r.bus, r.device, r.stats.in_bytes, r.stats.out_bytes))
        .collect();
    list.sort();
    list
}

fn feed(stats: &mut StatsMap, bytes: &[u8], wire_len: u32) -> CaptureOutcome {
    capture_step(stats, CaptureEvent::Packet { bytes, wire_len })
}

#[test]
fn the_header_is_decoded() {
    let urb = decode(&packet(b'S', 7, 0x0102), 1234);
    assert_eq!(urb, Some(Urb { urb_type: b'S', bus: 0x0102, device: 7, len: 1234 }));
    assert_eq!(decode(&packet(b'C', 255, 65535)[..HEADER_LEN], u32::MAX).map(|u| (u.bus, u.device, u.len)),
        Some((65535, 255, 4_294_967_295)));
}

#[test]
fn short_packets_are_not_decoded() {
    assert_eq!(decode(&packet(b'S', 7, 1)[..13], 1234), None);
    assert_eq!(decode(&[], 0), None);
}

#[test]
fn bytes_outside_the_read_fields_do_not_matter() {
    let mut other = packet(b'C', 3, 9);
    for i in [0, 7, 9, 10, 14, 63] {
        other[i] = 0;
    }
    assert_eq!(decode(&other, 10), decode(&packet(b'C', 3, 9), 10));
}

#[test]
fn completed_requests_count_as_inbound_and_all_others_as_outbound() {
    let mut stats = StatsMap::new();
    feed(&mut stats, &packet(b'C', 3, 1), 100);
    feed(&mut stats, &packet(b'S', 3, 1), 20);
    feed(&mut stats, &packet(b'E', 3, 1), 4);
    feed(&mut stats, &packet(0, 3, 1), 1);
    assert_eq!(sorted(&stats), vec![(1, 3, 100, 25)]);
    assert_eq!(stats.device_stats(1, 3), DeviceStats { in_bytes: 100, out_bytes: 25 });
}

#[test]
fn devices_are_counted_apart() {
    let mut stats = StatsMap::new();
    feed(&mut stats, &packet(b'C', 3, 1), 1);
    feed(&mut stats, &packet(b'C', 1, 3), 2);
    feed(&mut stats, &packet(b'C', 3, 257), 4);
    feed(&mut stats, &packet(b'C', 0, 0), 8);
    feed(&mut stats, &packet(b'C', 255, 65535), 16);
    assert_eq!(
        sorted(&stats),
        vec![(0, 0, 8, 0), (1, 3, 1, 0), (3, 1, 2, 0), (257, 3, 4, 0), (65535, 255, 16, 0)]
    );
    assert_eq!(stats.device_stats(9, 9), DeviceStats::default());
}

#[test]
fn a_packet_of_length_zero_still_makes_an_entry() {
    let mut stats = StatsMap::new();
    feed(&mut stats, &packet(b'S', 3, 1), 0);
    assert_eq!(sorted(&stats), vec![(1, 3, 0, 0)]);
}

#[test]
fn events_without_a_packet_count_nothing() {
    let mut stats = StatsMap::new();
    assert_eq!(capture_step(&mut stats, CaptureEvent::TimeoutExpired), CaptureOutcome::Nothing);
    assert_eq!(capture_step(&mut stats, CaptureEvent::Failed), CaptureOutcome::Stop);
    assert_eq!(feed(&mut stats, &packet(b'C', 3, 1)[..13], 64), CaptureOutcome::Nothing);
    assert!(stats.records().is_empty());
    let urb = Urb { urb_type: b'C', bus: 1, device: 3, len: 64 };
    assert_eq!(feed(&mut stats, &packet(b'C', 3, 1), 64), CaptureOutcome::Counted(urb));
}

#[test]
fn a_full_counter_refuses_the_packet() {
    let mut stats = StatsMap::new();
    let full = Urb { urb_type: b'C', bus: 1, device: 3, len: u64::MAX - 5 };
    assert!(stats.room_for(&full));
    stats.record(&full);
    let more = Urb { urb_type: b'C', bus: 1, device: 3, len: 6 };
    assert!(!stats.room_for(&more));
    assert_eq!(feed(&mut stats, &packet(b'C', 3, 1), 6), CaptureOutcome::Overflow(more));
    assert_eq!(sorted(&stats), vec![(1, 3, u64::MAX - 5, 0)]);
    assert!(matches!(feed(&mut stats, &packet(b'C', 3, 1), 5), CaptureOutcome::Counted(_)));
    assert!(matches!(feed(&mut stats, &packet(b'S', 3, 1), 6), CaptureOutcome::Counted(_)));
    assert_eq!(sorted(&stats), vec![(1, 3, u64::MAX, 6)]);
}

#[test]
fn the_order_of_packets_does_not_matter() {
    let packets = [(b'C', 3, 1, 10), (b'S', 3, 1, 20), (b'C', 4, 1, 30), (b'C', 3, 1, 40)];
    let mut forwards = StatsMap::new();
    let mut backwards = StatsMap::new();
    for (t, d, b, len) in packets.iter() {
        feed(&mut forwards, &packet(*t, *d, *b), *len);
    }
    for (t, d, b, len) in packets.iter().rev() {
        feed(&mut backwards, &packet(*t, *d, *b), *len);
    }
    assert_eq!(sorted(&forwards), sorted(&backwards));
    assert_eq!(sorted(&forwards), vec![(1, 3, 50, 20), (1, 4, 30, 0)]);
}

#[test]
fn a_snapshot_takes_the_counters_out() {
    let mut stats = StatsMap::new();
    feed(&mut stats, &packet(b'C', 3, 1), 10);
    let first = stats.snapshot();
    assert!(stats.records().is_empty());
    feed(&mut stats, &packet(b'C', 3, 1), 5);
    let second = stats.snapshot();
    assert_eq!(sorted(&first), vec![(1, 3, 10, 0)]);
    assert_eq!(sorted(&second), vec![(1, 3, 5, 0)]);
    assert!(stats.snapshot().records().is_empty());
}

#[test]
fn packets_are_logged() {
    let urb = Urb { urb_type: b'C', bus: 1, device: 3, len: 128 };
    assert_eq!(debug_line("usbmon1", urb), "[DEBUG] usbmon1 type=C bus=1 dev=3 len=128");
    let urb = Urb { urb_type: 0xe9, bus: 65535, device: 0, len: 0 };
    assert_eq!(debug_line("usbmon0", urb), "[DEBUG] usbmon0 type=\u{e9} bus=65535 dev=0 len=0");
}

#[test]
fn a_capture_goes_on_until_it_breaks_or_a_stop_is_asked_for() {
    let urb = Urb { urb_type: b'C', bus: 1, device: 3, len: 64 };
    assert!(capture_goes_on(false, CaptureOutcome::Counted(urb)));
    assert!(capture_goes_on(false, CaptureOutcome::Nothing));
    assert!(!capture_goes_on(false, CaptureOutcome::Overflow(urb)));
    assert!(!capture_goes_on(false, CaptureOutcome::Stop));
    for last in [
        CaptureOutcome::Counted(urb),
        CaptureOutcome::Nothing,
        CaptureOutcome::Overflow(urb),
        CaptureOutcome::Stop,
    ] {
        assert!(!capture_goes_on(true, last));
    }
}

#[test]
fn a_run_of_events_adds_to_what_was_there() {
    let whole = packet(b'C', 3, 1);
    let other = packet(b'S', 4, 1);
    let events = [
        (Some(&whole[..]), 10),
        (None, 0),
        (Some(&whole[..13]), 1000),
        (Some(&other[..]), 7),
        (Some(&whole[..HEADER_LEN]), 5),
    ];
    let run = |order: &[usize]| {
        let mut stats = StatsMap::new();
        stats.record(&Urb { urb_type: b'C', bus: 1, device: 3, len: 100 });
        stats.record(&Urb { urb_type: b'S', bus: 9, device: 9, len: 1 });
        for i in order {
            match events[*i] {
                (Some(bytes), wire_len) => feed(&mut stats, bytes, wire_len),
                (None, _) => capture_step(&mut stats, CaptureEvent::TimeoutExpired),
            };
        }
        sorted(&stats)
    };
    let expected = vec![(1, 3, 115, 0), (1, 4, 0, 7), (9, 9, 0, 1)];
    assert_eq!(run(&[0, 1, 2, 3, 4]), expected);
    assert_eq!(run(&[4, 3, 2, 1, 0]), expected);
    assert_eq!(run(&[3, 0, 4]), expected);
}
