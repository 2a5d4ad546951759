use usbmon_collector::config::{is_debug_level, Config, Environment};

fn environment() -> Environment {
    Environment {
        usbmon_output_file: None,
        usbtop_output_file: None,
        usbmon_interval_sec: None,
        usbmon_log_level: None,
        usbtop_log_level: None,
    }
}

fn set(value: &str) -> Option<String> {
    Some(value.to_string())
}

#[test]
fn defaults_where_nothing_is_set() {
    let config = Config::from_env(environment());
    assert_eq!(config.output_file, "/var/log/usbtop-metrics/usbtop.ndjson");
    assert_eq!(config.interval_secs, 60);
    assert!(!config.verbose);
}

#[test]
fn the_current_name_goes_before_the_legacy_one() {
    let mut env = environment();
    env.usbtop_output_file = set("/tmp/old");
    assert_eq!(Config::from_env(env).output_file, "/tmp/old");
    let mut env = environment();
    env.usbmon_output_file = set("/tmp/new");
    env.usbtop_output_file = set("/tmp/old");
    assert_eq!(Config::from_env(env).output_file, "/tmp/new");
    let mut env = environment();
    env.usbmon_output_file = set("");
    env.usbtop_output_file = set("/tmp/old");
    assert_eq!(Config::from_env(env).output_file, "");
}

#[test]
fn intervals_that_are_no_numbers_give_the_default() {
    for (text, secs) in [
        ("5", 5),
        ("+5", 5),
        ("0", 0),
        ("18446744073709551615", u64::MAX),
        ("18446744073709551616", 60),
        ("-5", 60),
        ("5s", 60),
        (" 5", 60),
        ("5\n", 60),
        ("", 60),
        ("1.5", 60),
    ] {
        let mut env = environment();
        env.usbmon_interval_sec = set(text);
        assert_eq!(Config::from_env(env).interval_secs, secs, "{:?}", text);
    }
}

#[test]
fn debug_in_any_case_is_verbose() {
    for (level, verbose) in [
        ("DEBUG", true),
        ("debug", true),
        ("Debug", true),
        ("INFO", false),
        ("debug ", false),
        ("", false),
        ("d\u{e9}bug", false),
    ] {
        let mut env = environment();
        env.usbmon_log_level = set(level);
        assert_eq!(Config::from_env(env).verbose, verbose, "{:?}", level);
        let mut env = environment();
        env.usbtop_log_level = set(level);
        assert_eq!(Config::from_env(env).verbose, verbose, "{:?}", level);
    }
}

#[test]
fn the_current_log_level_goes_before_the_legacy_one() {
    let mut env = environment();
    env.usbmon_log_level = set("info");
    env.usbtop_log_level = set("debug");
    assert!(!Config::from_env(env).verbose);
}

#[test]
fn only_the_upper_case_word_is_the_debug_level() {
    assert!(is_debug_level(&"DEBUG".to_string()));
    assert!(!is_debug_level(&"debug".to_string()));
}
