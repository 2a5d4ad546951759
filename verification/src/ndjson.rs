//! The documents that the collector writes, one JSON object per line.

use vstd::prelude::*;

use crate::calendar::{clock_shows, now_iso8601, timestamp_text};
use crate::json::{json_string, string_text};
use crate::rate::{push_rate, rate_text};
use crate::stats::{DeviceRecord, StatsMap};
use crate::sysfs::{device_name, lookup_device_name, DeviceEntry};
use crate::text::{decimal, push_decimal};

verus! {

/// The start of every document, up to its `usbtop` member.
pub open spec fn opening_text(ts: Seq<char>, host: Seq<char>) -> Seq<char> {
    "{\"@timestamp\":\""@ + ts + "\",\"host\":{\"name\":\""@ + string_text(host)
        + "\"},\"usbtop\":{"@
}

/// The end of every document, from behind its `usbtop` member on.
pub open spec fn closing_text() -> Seq<char> {
    "},\"event\":{\"dataset\":\"usbtop.metrics\",\"module\":\"usbtop\"}}"@
}

/// The document that is written when no device was active.
pub open spec fn heartbeat_text(ts: Seq<char>, host: Seq<char>) -> Seq<char> {
    opening_text(ts, host) + "\"no_activity\":true"@ + closing_text()
}

/// The document that is written for a device that was active in an interval of
/// `secs` seconds.
pub open spec fn activity_text(
    ts: Seq<char>,
    host: Seq<char>,
    record: DeviceRecord,
    secs: nat,
    name: Seq<char>,
) -> Seq<char> {
    opening_text(ts, host) + "\"bus\":"@ + decimal(record.bus as nat) + ",\"device\":"@ + decimal(
        record.device as nat,
    ) + ",\"device_name\":\""@ + string_text(name) + "\",\"in_kbps\":"@ + rate_text(
        record.stats.in_bytes as nat,
        secs,
    ) + ",\"out_kbps\":"@ + rate_text(record.stats.out_bytes as nat, secs) + closing_text()
}

/// The lines for these devices, one each.
pub open spec fn activity_lines(
    ts: Seq<char>,
    host: Seq<char>,
    records: Seq<DeviceRecord>,
    secs: nat,
    entries: Seq<DeviceEntry>,
) -> Seq<char>
    decreases records.len(),
{
    if records.len() == 0 {
        Seq::empty()
    } else {
        let record = records[0];
        let name = device_name(entries, record.bus, record.device);
        activity_text(ts, host, record, secs, name) + seq!['\n'] + activity_lines(
            ts,
            host,
            records.drop_first(),
            secs,
            entries,
        )
    }
}

/// What is written at the end of a reporting interval: a line for each active
/// device, or a heartbeat if there was none.
pub open spec fn flush_text(
    ts: Seq<char>,
    host: Seq<char>,
    records: Seq<DeviceRecord>,
    secs: nat,
    entries: Seq<DeviceEntry>,
) -> Seq<char> {
    if records.len() == 0 {
        heartbeat_text(ts, host) + seq!['\n']
    } else {
        activity_lines(ts, host, records, secs, entries)
    }
}

fn push_opening(out: &mut String, ts: &str, host: &str)
    ensures
        final(out)@ == old(out)@ + opening_text(ts@, host@),
{
    out.append("{\"@timestamp\":\"");
    out.append(ts);
    out.append("\",\"host\":{\"name\":\"");
    out.append(json_string(host).as_str());
    out.append("\"},\"usbtop\":{");
    assert(out@ =~= old(out)@ + opening_text(ts@, host@));
}

fn push_closing(out: &mut String)
    ensures
        final(out)@ == old(out)@ + closing_text(),
{
    out.append("},\"event\":{\"dataset\":\"usbtop.metrics\",\"module\":\"usbtop\"}}");
}

/// The document that tells that the collector is alive and no device was active.
pub fn heartbeat(ts: &str, host: &str) -> (document: String)
    ensures
        document@ == heartbeat_text(ts@, host@),
{
    let mut document: String = String::new();
    push_opening(&mut document, ts, host);
    document.append("\"no_activity\":true");
    push_closing(&mut document);
    assert(document@ =~= heartbeat_text(ts@, host@));
    document
}

/// The document for a device that was active.
pub fn activity(
    ts: &str,
    host: &str,
    record: &DeviceRecord,
    interval_secs: u64,
    name: &str,
) -> (document: String)
    ensures
        document@ == activity_text(ts@, host@, *record, interval_secs as nat, name@),
{
    let mut document: String = String::new();
    push_opening(&mut document, ts, host);
    document.append("\"bus\":");
    push_decimal(&mut document, record.bus as u64);
    document.append(",\"device\":");
    push_decimal(&mut document, record.device as u64);
    document.append(",\"device_name\":\"");
    document.append(json_string(name).as_str());
    document.append("\",\"in_kbps\":");
    push_rate(&mut document, record.stats.in_bytes, interval_secs);
    document.append(",\"out_kbps\":");
    push_rate(&mut document, record.stats.out_bytes, interval_secs);
    push_closing(&mut document);
    assert(document@ =~= activity_text(ts@, host@, *record, interval_secs as nat, name@));
    document
}

/// What is written at the end of a reporting interval that ended at `ts`.
pub fn flush_at(
    ts: &str,
    host: &str,
    records: &Vec<DeviceRecord>,
    interval_secs: u64,
    entries: &Vec<DeviceEntry>,
) -> (out: String)
    ensures
        out@ == flush_text(ts@, host@, records@, interval_secs as nat, entries@),
{
    let mut out: String = String::new();
    if records.len() == 0 {
        // Heartbeat: the collector is alive.
        out.append(heartbeat(ts, host).as_str());
        out.push('\n');
        assert(out@ =~= flush_text(ts@, host@, records@, interval_secs as nat, entries@));
        return out;
    }
    let ghost whole = activity_lines(ts@, host@, records@, interval_secs as nat, entries@);
    let mut i: usize = 0;
    assert(records@.skip(0) =~= records@);
    assert(out@ + whole =~= whole);
    while i < records.len()
        invariant
            0 <= i <= records@.len(),
            out@ + activity_lines(ts@, host@, records@.skip(i as int), interval_secs as nat, entries@) == whole,
        decreases records@.len() - i,
    {
        let record = &records[i];
        let ghost before = out@;
        let name = lookup_device_name(entries, record.bus, record.device);
        out.append(activity(ts, host, record, interval_secs, name.as_str()).as_str());
        out.push('\n');
        proof {
            let ahead = records@.skip(i as int);
            assert(ahead[0] == *record);
            assert(ahead.drop_first() =~= records@.skip(i + 1));
            assert(out@ + activity_lines(ts@, host@, ahead.drop_first(), interval_secs as nat, entries@) =~= before
                + activity_lines(ts@, host@, ahead, interval_secs as nat, entries@));
        }
        i = i + 1;
    }
    assert(out@ =~= whole);
    out
}

/// What is written at the end of a reporting interval that ends now, from the
/// counters of that interval. Every document carries the timestamp of the one
/// reading of the clock that is taken here.
pub fn flush_ndjson(
    stats: &StatsMap,
    interval_secs: u64,
    host: &str,
    entries: &Vec<DeviceEntry>,
) -> (out: String)
    requires
        stats.wf(),
    ensures
        exists|reading: Option<u64>, secs: u64, records: Seq<DeviceRecord>|
            #![trigger clock_shows(reading), timestamp_text(secs as nat), stats.is_listed_by(records)]
            {
                &&& clock_shows(reading)
                &&& secs == match reading {
                    Some(shown) => shown,
                    None => 0,
                }
                &&& stats.is_listed_by(records)
                &&& out@ == flush_text(
                    timestamp_text(secs as nat),
                    host@,
                    records,
                    interval_secs as nat,
                    entries@,
                )
            },
{
    let ts = now_iso8601();
    let records = stats.records();
    flush_at(ts.as_str(), host, &records, interval_secs, entries)
}

// ---------------------------------------------------------------------------
// What the lines say
// ---------------------------------------------------------------------------

/// The form of the document of a device: its timestamp, the host, and under `usbtop`
/// the bus, the device, the name of the device and the two rates, from the bytes
/// that it sent and the bytes that it was sent.
pub proof fn lemma_activity_form(
    ts: Seq<char>,
    host: Seq<char>,
    record: DeviceRecord,
    secs: nat,
    name: Seq<char>,
)
    ensures
        activity_text(ts, host, record, secs, name) == "{\"@timestamp\":\""@ + ts
            + "\",\"host\":{\"name\":\""@ + string_text(host) + "\"},\"usbtop\":{"@ + "\"bus\":"@
            + decimal(record.bus as nat) + ",\"device\":"@ + decimal(record.device as nat)
            + ",\"device_name\":\""@ + string_text(name) + "\",\"in_kbps\":"@ + rate_text(
            record.stats.in_bytes as nat,
            secs,
        ) + ",\"out_kbps\":"@ + rate_text(record.stats.out_bytes as nat, secs)
            + "},\"event\":{\"dataset\":\"usbtop.metrics\",\"module\":\"usbtop\"}}"@,
{
}

/// The form of the heartbeat document: its timestamp and the host.
pub proof fn lemma_heartbeat_form(ts: Seq<char>, host: Seq<char>)
    ensures
        heartbeat_text(ts, host) == "{\"@timestamp\":\""@ + ts + "\",\"host\":{\"name\":\""@
            + string_text(host) + "\"},\"usbtop\":{"@ + "\"no_activity\":true"@
            + "},\"event\":{\"dataset\":\"usbtop.metrics\",\"module\":\"usbtop\"}}"@,
{
}

/// An interval in which no device was active writes the heartbeat alone.
pub proof fn lemma_idle_interval_writes_heartbeat(
    ts: Seq<char>,
    host: Seq<char>,
    secs: nat,
    entries: Seq<DeviceEntry>,
)
    ensures
        flush_text(ts, host, Seq::empty(), secs, entries) == heartbeat_text(ts, host).push('\n'),
{
    assert(heartbeat_text(ts, host).push('\n') =~= heartbeat_text(ts, host) + seq!['\n']);
}

/// A device that alone was active has its document on a line, with its name as
/// sysfs gives it.
pub proof fn lemma_one_device_writes_its_line(
    ts: Seq<char>,
    host: Seq<char>,
    record: DeviceRecord,
    secs: nat,
    entries: Seq<DeviceEntry>,
)
    ensures
        flush_text(ts, host, seq![record], secs, entries) == activity_text(
            ts,
            host,
            record,
            secs,
            device_name(entries, record.bus, record.device),
        ).push('\n'),
{
    let line = activity_text(
        ts,
        host,
        record,
        secs,
        device_name(entries, record.bus, record.device),
    );
    assert(seq![record].drop_first() =~= Seq::<DeviceRecord>::empty());
    reveal_with_fuel(activity_lines, 2);
    assert(line.push('\n') =~= line + seq!['\n'] + Seq::<char>::empty());
}

/// Each active device has its line, whichever others were active: the lines of some
/// devices and of some more are written one after the other, with the same
/// timestamp.
pub proof fn lemma_lines_of_devices_add_up(
    ts: Seq<char>,
    host: Seq<char>,
    a: Seq<DeviceRecord>,
    b: Seq<DeviceRecord>,
    secs: nat,
    entries: Seq<DeviceEntry>,
)
    requires
        a.len() > 0,
        b.len() > 0,
    ensures
        flush_text(ts, host, a + b, secs, entries) == flush_text(ts, host, a, secs, entries)
            + flush_text(ts, host, b, secs, entries),
{
    lemma_lines_concat(ts, host, a, b, secs, entries);
}

proof fn lemma_lines_concat(
    ts: Seq<char>,
    host: Seq<char>,
    a: Seq<DeviceRecord>,
    b: Seq<DeviceRecord>,
    secs: nat,
    entries: Seq<DeviceEntry>,
)
    ensures
        activity_lines(ts, host, a + b, secs, entries) == activity_lines(ts, host, a, secs, entries)
            + activity_lines(ts, host, b, secs, entries),
    decreases a.len(),
{
    if a.len() == 0 {
        assert(a + b =~= b);
        assert(activity_lines(ts, host, a, secs, entries) =~= Seq::empty());
        assert(Seq::empty() + activity_lines(ts, host, b, secs, entries) =~= activity_lines(
            ts,
            host,
            b,
            secs,
            entries,
        ));
    } else {
        lemma_lines_concat(ts, host, a.drop_first(), b, secs, entries);
        assert((a + b).drop_first() =~= a.drop_first() + b);
        lemma_line_and_more(
            activity_text(
                ts,
                host,
                a[0],
                secs,
                device_name(entries, a[0].bus, a[0].device),
            ),
            activity_lines(ts, host, a.drop_first(), secs, entries),
            activity_lines(ts, host, b, secs, entries),
        );
    }
}

proof fn lemma_line_and_more(line: Seq<char>, x: Seq<char>, y: Seq<char>)
    ensures
        line + seq!['\n'] + (x + y) == (line + seq!['\n'] + x) + y,
{
    assert(line + seq!['\n'] + (x + y) =~= (line + seq!['\n'] + x) + y);
}

} // verus!
