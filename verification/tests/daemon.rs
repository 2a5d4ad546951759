use usbmon_collector::daemon::{next_phase, usbmon_devices, Phase};

#[test]
fn only_usbmon_interfaces_are_kept_in_order() {
    let names: Vec<String> =
        ["eth0", "usbmon1", "lo", "usbmon0", "any", "usbmon", "xusbmon2"].iter().map(|s| s.to_string()).collect();
    assert_eq!(usbmon_devices(&names), vec!["usbmon1", "usbmon0", "usbmon"]);
    assert!(usbmon_devices(&vec!["eth0".to_string()]).is_empty());
}

#[test]
fn an_interval_waits_and_then_flushes() {
    assert_eq!(next_phase(Phase::Starting, false, false), Phase::Waiting);
    assert_eq!(next_phase(Phase::Waiting, false, false), Phase::Waiting);
    assert_eq!(next_phase(Phase::Waiting, false, true), Phase::Flushing);
    assert_eq!(next_phase(Phase::Flushing, false, true), Phase::Starting);
    assert_eq!(next_phase(Phase::Flushing, true, false), Phase::Starting);
}

#[test]
fn a_stop_flushes_the_interval_under_way_and_ends() {
    let mut phase = Phase::Waiting;
    let mut seen = vec![];
    for _ in 0..4 {
        phase = next_phase(phase, true, false);
        seen.push(phase);
    }
    assert_eq!(seen, vec![Phase::Flushing, Phase::Starting, Phase::Stopped, Phase::Stopped]);
}

#[test]
fn a_stop_before_the_first_interval_writes_nothing() {
    assert_eq!(next_phase(Phase::Starting, true, false), Phase::Stopped);
}
