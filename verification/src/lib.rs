//! The logic of a USB bandwidth collector.
//!
//! Packets captured from the Linux kernel's usbmon interfaces are decoded
//! ([`urb`]) and counted per device ([`stats`], [`capture`]). At the end of each
//! reporting interval ([`daemon`]) the counters become transfer rates ([`rate`]),
//! are joined with device names ([`sysfs`]) and written as one JSON document per
//! line ([`ndjson`], [`json`], [`documents`]), each with a timestamp
//! ([`calendar`]).

pub mod calendar;
pub mod capture;
pub mod config;
pub mod daemon;
pub mod documents;
pub mod json;
pub mod ndjson;
pub mod rate;
pub mod stats;
pub mod sysfs;
pub mod text;
pub mod urb;
