//! Configuration from environment variables.

use vstd::prelude::*;
use vstd::utf8::is_ascii_chars;

use crate::text::{parse_unsigned, unsigned};

verus! {

/// What `str::to_uppercase` returns for a text.
pub uninterp spec fn uppercase(s: Seq<char>) -> Seq<char>;

/// The upper case form of an ASCII character.
pub open spec fn ascii_uppercase(c: char) -> char {
    if 'a' <= c <= 'z' {
        ((c as int) - 32) as char
    } else {
        c
    }
}

/// `str::to_uppercase` depends on the text alone. On a text of ASCII characters
/// it maps `a` to `z` to their capitals and keeps the other characters; what it
/// does to other letters is Unicode's upper case mapping, which is named and not
/// described.
pub assume_specification[ str::to_uppercase ](s: &str) -> (upper: String)
    ensures
        upper@ == uppercase(s@),
        is_ascii_chars(s@) ==> upper@ == s@.map_values(|c: char| ascii_uppercase(c)),
;

/// The environment variables that configure the collector, each `None` where it
/// is not set or is not text.
#[derive(Debug)]
pub struct Environment {
    pub usbmon_output_file: Option<String>,
    pub usbtop_output_file: Option<String>,
    pub usbmon_interval_sec: Option<String>,
    pub usbmon_log_level: Option<String>,
    pub usbtop_log_level: Option<String>,
}

/// The configuration of the collector.
#[derive(Debug)]
pub struct Config {
    /// Where the documents are appended.
    pub output_file: String,
    /// Seconds between two reports.
    pub interval_secs: u64,
    /// Whether each packet is logged.
    pub verbose: bool,
}

/// The value of a variable, or that of its older name where it is not set.
pub open spec fn either_name(current: Option<String>, legacy: Option<String>) -> Option<Seq<char>> {
    match (current, legacy) {
        (Some(value), _) => Some(value@),
        (None, Some(value)) => Some(value@),
        (None, None) => None,
    }
}

/// The newer name of a variable decides where it is set, even to the empty text;
/// the older one counts only where the newer is not set.
pub proof fn lemma_newer_name_decides(current: Option<String>, legacy: Option<String>)
    ensures
        current matches Some(value) ==> either_name(current, legacy) == Some(value@),
        current is None ==> (legacy matches Some(value) ==> either_name(current, legacy) == Some(
            value@,
        )),
        current is None && legacy is None ==> either_name(current, legacy) is None,
{
}

/// Putting capitals for the letters `a` to `z` makes `DEBUG` of exactly the spellings
/// of `debug` in capital and small letters.
pub proof fn lemma_debug_in_any_case(level: Seq<char>)
    ensures
        level.map_values(|c: char| ascii_uppercase(c)) == "DEBUG"@ <==> {
            &&& level.len() == 5
            &&& (level[0] == 'D' || level[0] == 'd')
            &&& (level[1] == 'E' || level[1] == 'e')
            &&& (level[2] == 'B' || level[2] == 'b')
            &&& (level[3] == 'U' || level[3] == 'u')
            &&& (level[4] == 'G' || level[4] == 'g')
        },
{
    let upper = level.map_values(|c: char| ascii_uppercase(c));
    let word = "DEBUG"@;
    reveal_strlit("DEBUG");
    assert(word.len() == 5 && word[0] == 'D' && word[1] == 'E' && word[2] == 'B' && word[3] == 'U'
        && word[4] == 'G');
    assert(upper.len() == level.len());
    if level.len() == 5 {
        lemma_uppercase_letter(level[0], 'D', 'd');
        lemma_uppercase_letter(level[1], 'E', 'e');
        lemma_uppercase_letter(level[2], 'B', 'b');
        lemma_uppercase_letter(level[3], 'U', 'u');
        lemma_uppercase_letter(level[4], 'G', 'g');
        assert(upper[0] == ascii_uppercase(level[0]) && upper[1] == ascii_uppercase(level[1])
            && upper[2] == ascii_uppercase(level[2]) && upper[3] == ascii_uppercase(level[3])
            && upper[4] == ascii_uppercase(level[4]));
        if upper[0] == 'D' && upper[1] == 'E' && upper[2] == 'B' && upper[3] == 'U' && upper[4]
            == 'G' {
            assert(upper =~= word);
        }
    }
}

proof fn lemma_uppercase_letter(c: char, capital: char, small: char)
    requires
        'A' <= capital <= 'Z',
        small as int == capital as int + 32,
    ensures
        ascii_uppercase(c) == capital <==> c == capital || c == small,
{
    if 'a' <= c <= 'z' {
        assert((((c as int) - 32) as char) as int == c as int - 32);
    }
}

fn pick(current: Option<String>, legacy: Option<String>) -> (value: Option<String>)
    ensures
        value is Some <==> either_name(current, legacy) is Some,
        value matches Some(v) ==> either_name(current, legacy) == Some(v@),
{
    match current {
        Some(value) => Some(value),
        None => legacy,
    }
}

/// Whether an upper-cased log level asks for the logging of each packet.
pub fn is_debug_level(upper: &String) -> (b: bool)
    ensures
        b == (upper@ == "DEBUG"@),
{
    *upper == "DEBUG".to_string()
}

impl Config {
    /// The configuration that the environment asks for. The `USBTOP_` names count
    /// where the `USBMON_` ones are not set, and what is missing or unusable has
    /// its default.
    pub fn from_env(env: Environment) -> (config: Config)
        ensures
            config.output_file@ == match either_name(env.usbmon_output_file, env.usbtop_output_file) {
                Some(path) => path,
                None => "/var/log/usbtop-metrics/usbtop.ndjson"@,
            },
            config.interval_secs == match env.usbmon_interval_sec {
                Some(text) => match unsigned(text@, u64::MAX as nat) {
                    Some(secs) => secs,
                    None => 60,
                },
                None => 60,
            },
            config.verbose == match either_name(env.usbmon_log_level, env.usbtop_log_level) {
                Some(level) => uppercase(level) == "DEBUG"@,
                None => false,
            },
            match either_name(env.usbmon_log_level, env.usbtop_log_level) {
                Some(level) => is_ascii_chars(level) ==> config.verbose == (level.map_values(
                    |c: char| ascii_uppercase(c),
                ) == "DEBUG"@),
                None => true,
            },
    {
        let output_file = match pick(env.usbmon_output_file, env.usbtop_output_file) {
            Some(path) => path,
            None => "/var/log/usbtop-metrics/usbtop.ndjson".to_string(),
        };
        let interval_secs: u64 = match env.usbmon_interval_sec {
            Some(text) => match parse_unsigned(text.as_str(), u64::MAX) {
                Some(secs) => secs,
                None => 60,
            },
            None => 60,
        };
        let verbose = match pick(env.usbmon_log_level, env.usbtop_log_level) {
            Some(level) => is_debug_level(&level.as_str().to_uppercase()),
            None => false,
        };
        Config { output_file, interval_secs, verbose }
    }
}

} // verus!
