use usbmon_collector::rate::{kbps, push_rate};

fn double_precision(bytes: u64, secs: u64) -> String {
    format!("{:.3}", bytes as f64 / (secs as f64 * 1_024.0))
}

#[test]
fn rates_have_three_decimals() {
    assert_eq!(kbps(768_000, 60), "12.500");
    assert_eq!(kbps(0, 60), "0.000");
    assert_eq!(kbps(1024, 1), "1.000");
    assert_eq!(kbps(1, 1), "0.001");
    assert_eq!(kbps(1, 60), "0.000");
    assert_eq!(kbps(1_000_000_007, 60), "16276.042");
}

#[test]
fn ties_go_to_the_even_digit() {
    assert_eq!(kbps(64, 1), "0.062");
    assert_eq!(kbps(192, 1), "0.188");
}

#[test]
fn decimal_ties_follow_the_double() {
    assert_eq!(kbps(64, 125), "0.001");
    assert_eq!(kbps(576, 125), "0.004");
}

#[test]
fn rates_over_an_interval_of_no_length_are_those_over_a_second() {
    assert_eq!(kbps(0, 0), "0.000");
    assert_eq!(kbps(5, 0), "0.005");
    assert_eq!(kbps(1024, 0), "1.000");
    assert_eq!(kbps(u64::MAX, 0), kbps(u64::MAX, 1));
}

#[test]
fn extreme_rates_match_double_precision() {
    let edges = [
        1, 2, 3, 1023, 1024, 1025, 9_007_199_254_740_991, 9_007_199_254_740_992, 9_007_199_254_740_993,
        9_007_199_254_740_995, 18_014_398_509_481_983, 18_014_398_509_481_986, 18_014_398_509_481_990,
        u64::MAX / 3, u64::MAX - 1024, u64::MAX - 1023, u64::MAX - 1, u64::MAX,
    ];
    for bytes in edges {
        for secs in edges {
            assert_eq!(kbps(bytes, secs), double_precision(bytes, secs), "{} / {}", bytes, secs);
        }
    }
}

#[test]
fn small_rates_match_double_precision() {
    for secs in 1..=130u64 {
        for bytes in 0..1500u64 {
            assert_eq!(kbps(bytes, secs), double_precision(bytes, secs), "{} / {}", bytes, secs);
        }
    }
}

#[test]
fn scattered_rates_match_double_precision() {
    let mut state: u64 = 0x9e37_79b9_7f4a_7c15;
    let mut next = || {
        state ^= state << 13;
        state ^= state >> 7;
        state ^= state << 17;
        state
    };
    for _ in 0..100_000 {
        let bytes = next() >> (next() % 64);
        let secs = (next() >> (next() % 64)).max(1);
        assert_eq!(kbps(bytes, secs), double_precision(bytes, secs), "{} / {}", bytes, secs);
    }
}

#[test]
fn a_rate_is_appended() {
    let mut out = String::from("in=");
    push_rate(&mut out, 2048, 1);
    assert_eq!(out, "in=2.000");
}

#[test]
fn rates_with_few_decimals_are_exact() {
    for thousandths in 0..2000u64 {
        // 1024 * 125 seconds make a thousandth 128 bytes.
        let bytes = thousandths * 128;
        assert_eq!(kbps(bytes, 125), format!("{}.{:03}", thousandths / 1000, thousandths % 1000));
    }
}
