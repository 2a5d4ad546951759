//! What a JSON reader makes of the lines that the collector writes.

use vstd::prelude::*;

use crate::calendar::{lemma_timestamp_characters, timestamp_text};
use crate::json::{
    are_writable, is_integer, is_number, is_plain, is_printable, is_writable, lemma_escaped_plain,
    lemma_number_characters, lemma_string_text_has_no_control, lemma_string_text_printable,
    lemma_value_reads_back, quoted, read_value, string_text, written, written_members, Json, Member,
};
use crate::ndjson::{
    activity_lines, activity_text, closing_text, flush_text, heartbeat_text, opening_text,
};
use crate::rate::{rate_text, rate_thousandths, rated_secs};
use crate::stats::DeviceRecord;
use crate::sysfs::{device_name, DeviceEntry};
use crate::text::{decimal, lemma_decimal_digits, lemma_padded, padded};

verus! {

/// A document with these members under `usbtop`.
pub open spec fn document(ts: Seq<char>, host: Seq<char>, usbtop: Seq<Member>) -> Json {
    Json::Object(
        seq![
            Member { key: "@timestamp"@, value: Json::Text(ts) },
            Member {
                key: "host"@,
                value: Json::Object(seq![Member { key: "name"@, value: Json::Text(host) }]),
            },
            Member { key: "usbtop"@, value: Json::Object(usbtop) },
            Member {
                key: "event"@,
                value: Json::Object(
                    seq![
                        Member { key: "dataset"@, value: Json::Text("usbtop.metrics"@) },
                        Member { key: "module"@, value: Json::Text("usbtop"@) },
                    ],
                ),
            },
        ],
    )
}

/// The heartbeat document.
pub open spec fn heartbeat_document(ts: Seq<char>, host: Seq<char>) -> Json {
    document(ts, host, seq![Member { key: "no_activity"@, value: Json::Flag(true) }])
}

/// The document of a device that was active.
pub open spec fn activity_document(
    ts: Seq<char>,
    host: Seq<char>,
    record: DeviceRecord,
    secs: nat,
    name: Seq<char>,
) -> Json {
    document(
        ts,
        host,
        seq![
            Member { key: "bus"@, value: Json::Number(decimal(record.bus as nat)) },
            Member { key: "device"@, value: Json::Number(decimal(record.device as nat)) },
            Member { key: "device_name"@, value: Json::Text(name) },
            Member { key: "in_kbps"@, value: Json::Number(rate_text(record.stats.in_bytes as nat, secs)) },
            Member { key: "out_kbps"@, value: Json::Number(rate_text(record.stats.out_bytes as nat, secs)) },
        ],
    )
}

proof fn lemma_members_1(a: Member)
    ensures
        written_members(seq![a]) == quoted(a.key) + seq![':'] + written(a.value),
        are_writable(seq![a]) <==> is_writable(a.value),
{
    assert(seq![a].drop_first() =~= Seq::<Member>::empty());
    reveal_with_fuel(are_writable, 2);
}

proof fn lemma_members_more(a: Member, others: Seq<Member>)
    requires
        others.len() > 0,
    ensures
        written_members(seq![a] + others) == quoted(a.key) + seq![':'] + written(a.value) + seq![',']
            + written_members(others),
        are_writable(seq![a] + others) <==> is_writable(a.value) && are_writable(others),
{
    assert((seq![a] + others).drop_first() =~= others);
}

/// None of the fixed keys and values needs escaping.
proof fn lemma_keys_are_plain()
    ensures
        is_plain("@timestamp"@),
        is_plain("host"@),
        is_plain("name"@),
        is_plain("usbtop"@),
        is_plain("event"@),
        is_plain("dataset"@),
        is_plain("usbtop.metrics"@),
        is_plain("module"@),
        is_plain("no_activity"@),
        is_plain("bus"@),
        is_plain("device"@),
        is_plain("device_name"@),
        is_plain("in_kbps"@),
        is_plain("out_kbps"@),
{
    reveal_strlit("@timestamp");
    reveal_strlit("host");
    reveal_strlit("name");
    reveal_strlit("usbtop");
    reveal_strlit("event");
    reveal_strlit("dataset");
    reveal_strlit("usbtop.metrics");
    reveal_strlit("module");
    reveal_strlit("no_activity");
    reveal_strlit("bus");
    reveal_strlit("device");
    reveal_strlit("device_name");
    reveal_strlit("in_kbps");
    reveal_strlit("out_kbps");
}

proof fn lemma_opening_pieces()
    ensures
        "{\"@timestamp\":\""@ == seq!['{', '"'] + "@timestamp"@ + seq!['"', ':', '"'],
        "\",\"host\":{\"name\":\""@ == seq!['"', ',', '"'] + "host"@ + seq!['"', ':', '{', '"']
            + "name"@ + seq!['"', ':', '"'],
        "\"},\"usbtop\":{"@ == seq!['"', '}', ',', '"'] + "usbtop"@ + seq!['"', ':', '{'],
{
    assert("{\"@timestamp\":\""@ =~= seq!['{', '"'] + "@timestamp"@ + seq!['"', ':', '"']) by {
        reveal_strlit("{\"@timestamp\":\"");
        reveal_strlit("@timestamp");
    }
    assert("\",\"host\":{\"name\":\""@ =~= seq!['"', ',', '"'] + "host"@ + seq!['"', ':', '{', '"']
        + "name"@ + seq!['"', ':', '"']) by {
        reveal_strlit("\",\"host\":{\"name\":\"");
        reveal_strlit("host");
        reveal_strlit("name");
    }
    assert("\"},\"usbtop\":{"@ =~= seq!['"', '}', ',', '"'] + "usbtop"@ + seq!['"', ':', '{']) by {
        reveal_strlit("\"},\"usbtop\":{");
        reveal_strlit("usbtop");
    }
}

proof fn lemma_closing_pieces()
    ensures
        closing_text() == seq!['}', ',', '"'] + "event"@ + seq!['"', ':', '{', '"'] + "dataset"@ + seq![
            '"',
            ':',
            '"',
        ] + "usbtop.metrics"@ + seq!['"', ',', '"'] + "module"@ + seq!['"', ':', '"'] + "usbtop"@
            + seq!['"', '}', '}'],
{
    reveal_strlit("},\"event\":{\"dataset\":\"usbtop.metrics\",\"module\":\"usbtop\"}}");
    reveal_strlit("event");
    reveal_strlit("dataset");
    reveal_strlit("usbtop.metrics");
    reveal_strlit("module");
    reveal_strlit("usbtop");
}

/// A text that needs no escaping is quoted as it is.
proof fn lemma_quoted_plain(s: Seq<char>)
    requires
        is_plain(s),
    ensures
        quoted(s) == seq!['"'] + s + seq!['"'],
{
    assert(is_printable(s));
    lemma_string_text_printable(s);
    lemma_escaped_plain(s);
}

/// Regrouping the pieces of the start of a document.
proof fn lemma_opening_regrouped(
    at: Seq<char>,
    ts: Seq<char>,
    on: Seq<char>,
    name: Seq<char>,
    host: Seq<char>,
    what: Seq<char>,
)
    ensures
        (seq!['{', '"'] + at + seq!['"', ':', '"']) + ts + (seq!['"', ',', '"'] + on + seq![
            '"',
            ':',
            '{',
            '"',
        ] + name + seq!['"', ':', '"']) + host + (seq!['"', '}', ',', '"'] + what + seq![
            '"',
            ':',
            '{',
        ]) == seq!['{'] + (seq!['"'] + at + seq!['"']) + seq![':'] + (seq!['"'] + ts + seq!['"'])
            + seq![','] + (seq!['"'] + on + seq!['"']) + seq![':'] + (seq!['{'] + ((seq!['"'] + name
            + seq!['"']) + seq![':'] + (seq!['"'] + host + seq!['"'])) + seq!['}']) + seq![','] + (
        seq!['"'] + what + seq!['"']) + seq![':'] + seq!['{'],
{
}

/// Regrouping the pieces of the end of a document.
proof fn lemma_closing_regrouped(
    event: Seq<char>,
    dataset: Seq<char>,
    metrics: Seq<char>,
    module: Seq<char>,
    usbtop: Seq<char>,
)
    ensures
        seq!['}', ',', '"'] + event + seq!['"', ':', '{', '"'] + dataset + seq!['"', ':', '"']
            + metrics + seq!['"', ',', '"'] + module + seq!['"', ':', '"'] + usbtop + seq![
            '"',
            '}',
            '}',
        ] == seq!['}'] + seq![','] + (seq!['"'] + event + seq!['"']) + seq![':'] + (seq!['{'] + ((
        seq!['"'] + dataset + seq!['"']) + seq![':'] + (seq!['"'] + metrics + seq!['"']) + seq![',']
            + ((seq!['"'] + module + seq!['"']) + seq![':'] + (seq!['"'] + usbtop + seq!['"'])))
            + seq!['}']) + seq!['}'],
{
}

proof fn lemma_opening_written(ts: Seq<char>, host: Seq<char>)
    requires
        is_plain(ts),
    ensures
        opening_text(ts, host) == seq!['{'] + quoted("@timestamp"@) + seq![':'] + quoted(ts) + seq![
            ',',
        ] + quoted("host"@) + seq![':'] + (seq!['{'] + (quoted("name"@) + seq![':'] + quoted(host))
            + seq!['}']) + seq![','] + quoted("usbtop"@) + seq![':'] + seq!['{'],
{
    lemma_keys_are_plain();
    lemma_quoted_plain("@timestamp"@);
    lemma_quoted_plain("host"@);
    lemma_quoted_plain("name"@);
    lemma_quoted_plain("usbtop"@);
    lemma_quoted_plain(ts);
    lemma_opening_pieces();
    lemma_opening_regrouped("@timestamp"@, ts, "host"@, "name"@, string_text(host), "usbtop"@);
}

proof fn lemma_closing_written()
    ensures
        closing_text() == seq!['}'] + seq![','] + quoted("event"@) + seq![':'] + (seq!['{'] + (quoted(
            "dataset"@,
        ) + seq![':'] + quoted("usbtop.metrics"@) + seq![','] + (quoted("module"@) + seq![':']
            + quoted("usbtop"@))) + seq!['}']) + seq!['}'],
{
    lemma_keys_are_plain();
    lemma_quoted_plain("usbtop"@);
    lemma_quoted_plain("event"@);
    lemma_quoted_plain("dataset"@);
    lemma_quoted_plain("usbtop.metrics"@);
    lemma_quoted_plain("module"@);
    lemma_closing_pieces();
    lemma_closing_regrouped("event"@, "dataset"@, "usbtop.metrics"@, "module"@, "usbtop"@);
}

/// Regrouping the pieces of a document.
proof fn lemma_document_pieces(
    at: Seq<char>,
    ts: Seq<char>,
    on: Seq<char>,
    host: Seq<char>,
    what: Seq<char>,
    usbtop: Seq<char>,
    tail: Seq<char>,
    event: Seq<char>,
)
    ensures
        seq!['{'] + (at + seq![':'] + ts + seq![','] + (on + seq![':'] + host + seq![','] + (what
            + seq![':'] + (seq!['{'] + usbtop + seq!['}']) + seq![','] + (tail + seq![':'] + event))))
            + seq!['}'] == (seq!['{'] + at + seq![':'] + ts + seq![','] + on + seq![':'] + host
            + seq![','] + what + seq![':'] + seq!['{']) + usbtop + (seq!['}'] + seq![','] + tail
            + seq![':'] + event + seq!['}']),
{
}

proof fn lemma_document_written(ts: Seq<char>, host: Seq<char>, usbtop: Seq<Member>)
    requires
        is_plain(ts),
    ensures
        written(document(ts, host, usbtop)) == opening_text(ts, host) + written_members(usbtop)
            + closing_text(),
        is_writable(document(ts, host, usbtop)) <==> are_writable(usbtop),
{
    let name = Member { key: "name"@, value: Json::Text(host) };
    let dataset = Member { key: "dataset"@, value: Json::Text("usbtop.metrics"@) };
    let module = Member { key: "module"@, value: Json::Text("usbtop"@) };
    let at = Member { key: "@timestamp"@, value: Json::Text(ts) };
    let on = Member { key: "host"@, value: Json::Object(seq![name]) };
    let what = Member { key: "usbtop"@, value: Json::Object(usbtop) };
    let event = Member { key: "event"@, value: Json::Object(seq![dataset, module]) };
    assert(seq![dataset, module] =~= seq![dataset] + seq![module]);
    assert(seq![what, event] =~= seq![what] + seq![event]);
    assert(seq![on, what, event] =~= seq![on] + seq![what, event]);
    assert(seq![at, on, what, event] =~= seq![at] + seq![on, what, event]);
    lemma_members_1(name);
    lemma_members_1(module);
    lemma_members_more(dataset, seq![module]);
    lemma_members_1(event);
    lemma_members_more(what, seq![event]);
    lemma_members_more(on, seq![what, event]);
    lemma_members_more(at, seq![on, what, event]);
    lemma_keys_are_plain();
    lemma_quoted_plain("@timestamp"@);
    lemma_quoted_plain("host"@);
    lemma_quoted_plain("name"@);
    lemma_quoted_plain("usbtop"@);
    lemma_quoted_plain("event"@);
    lemma_quoted_plain("dataset"@);
    lemma_quoted_plain("usbtop.metrics"@);
    lemma_quoted_plain("module"@);
    lemma_quoted_plain(ts);
    assert(document(ts, host, usbtop) == Json::Object(seq![at, on, what, event]));
    lemma_opening_written(ts, host);
    lemma_closing_written();
    lemma_document_pieces(
        quoted("@timestamp"@),
        written(at.value),
        quoted("host"@),
        written(on.value),
        quoted("usbtop"@),
        written_members(usbtop),
        quoted("event"@),
        written(event.value),
    );
}

proof fn lemma_heartbeat_written(ts: Seq<char>, host: Seq<char>)
    requires
        is_plain(ts),
    ensures
        heartbeat_text(ts, host) == written(heartbeat_document(ts, host)),
        is_writable(heartbeat_document(ts, host)),
{
    let member = Member { key: "no_activity"@, value: Json::Flag(true) };
    lemma_document_written(ts, host, seq![member]);
    lemma_keys_are_plain();
    lemma_quoted_plain("no_activity"@);
    lemma_members_1(member);
    assert("\"no_activity\":true"@ =~= quoted("no_activity"@) + seq![':'] + seq!['t', 'r', 'u', 'e'])
        by {
        reveal_strlit("\"no_activity\":true");
        reveal_strlit("no_activity");
    }
}

proof fn lemma_activity_pieces()
    ensures
        "\"bus\":"@ == quoted("bus"@) + seq![':'],
        ",\"device\":"@ == seq![','] + quoted("device"@) + seq![':'],
        ",\"device_name\":\""@ == seq![','] + quoted("device_name"@) + seq![':', '"'],
        "\",\"in_kbps\":"@ == seq!['"', ','] + quoted("in_kbps"@) + seq![':'],
        ",\"out_kbps\":"@ == seq![','] + quoted("out_kbps"@) + seq![':'],
{
    lemma_keys_are_plain();
    lemma_quoted_plain("bus"@);
    lemma_quoted_plain("device"@);
    lemma_quoted_plain("device_name"@);
    lemma_quoted_plain("in_kbps"@);
    lemma_quoted_plain("out_kbps"@);
    assert("\"bus\":"@ =~= quoted("bus"@) + seq![':']) by {
        reveal_strlit("\"bus\":");
        reveal_strlit("bus");
    }
    assert(",\"device\":"@ =~= seq![','] + quoted("device"@) + seq![':']) by {
        reveal_strlit(",\"device\":");
        reveal_strlit("device");
    }
    assert(",\"device_name\":\""@ =~= seq![','] + quoted("device_name"@) + seq![':', '"']) by {
        reveal_strlit(",\"device_name\":\"");
        reveal_strlit("device_name");
    }
    assert("\",\"in_kbps\":"@ =~= seq!['"', ','] + quoted("in_kbps"@) + seq![':']) by {
        reveal_strlit("\",\"in_kbps\":");
        reveal_strlit("in_kbps");
    }
    assert(",\"out_kbps\":"@ =~= seq![','] + quoted("out_kbps"@) + seq![':']) by {
        reveal_strlit(",\"out_kbps\":");
        reveal_strlit("out_kbps");
    }
}

/// Regrouping the pieces of the members of an active device.
proof fn lemma_activity_regrouped(
    start: Seq<char>,
    bus: Seq<char>,
    b: Seq<char>,
    device: Seq<char>,
    d: Seq<char>,
    name: Seq<char>,
    n: Seq<char>,
    input: Seq<char>,
    i: Seq<char>,
    output: Seq<char>,
    o: Seq<char>,
    end: Seq<char>,
)
    ensures
        start + (bus + seq![':']) + b + (seq![','] + device + seq![':']) + d + (seq![','] + name
            + seq![':', '"']) + n + (seq!['"', ','] + input + seq![':']) + i + (seq![','] + output
            + seq![':']) + o + end == start + (bus + seq![':'] + b + seq![','] + (device + seq![':']
            + d + seq![','] + (name + seq![':'] + (seq!['"'] + n + seq!['"']) + seq![','] + (input
            + seq![':'] + i + seq![','] + (output + seq![':'] + o))))) + end,
{
}

proof fn lemma_decimal_is_number(n: nat)
    ensures
        is_number(decimal(n)),
{
    lemma_decimal_digits(n);
    assert(is_integer(decimal(n)));
}

/// A rate is a JSON number, whatever the length of the interval.
pub proof fn lemma_rate_is_number(bytes: nat, secs: nat)
    ensures
        is_number(rate_text(bytes, secs)),
{
    let n = rate_thousandths(bytes, rated_secs(secs));
    let text = rate_text(bytes, secs);
    let whole = decimal(n / 1000);
    let p = whole.len() as int;
    lemma_decimal_is_number(n / 1000);
    lemma_decimal_digits(n / 1000);
    lemma_padded(n % 1000, 3);
    assert(text[p] == '.');
    assert(text.take(p) =~= whole);
    assert(text.skip(p + 1) =~= padded(n % 1000, 3));
    assert(is_integer(text.take(p)));
}

proof fn lemma_rate_has_no_line_feed(bytes: nat, secs: nat)
    ensures
        !rate_text(bytes, secs).contains('\n'),
{
    lemma_rate_is_number(bytes, secs);
    lemma_number_characters(rate_text(bytes, secs));
}

proof fn lemma_activity_written(
    ts: Seq<char>,
    host: Seq<char>,
    record: DeviceRecord,
    secs: nat,
    name: Seq<char>,
)
    requires
        is_plain(ts),
    ensures
        activity_text(ts, host, record, secs, name) == written(activity_document(ts, host, record, secs, name)),
        is_writable(activity_document(ts, host, record, secs, name)),
{
    let b = decimal(record.bus as nat);
    let d = decimal(record.device as nat);
    let bus = Member { key: "bus"@, value: Json::Number(b) };
    let device = Member { key: "device"@, value: Json::Number(d) };
    let named = Member { key: "device_name"@, value: Json::Text(name) };
    let input = Member { key: "in_kbps"@, value: Json::Number(rate_text(record.stats.in_bytes as nat, secs)) };
    let output = Member { key: "out_kbps"@, value: Json::Number(rate_text(record.stats.out_bytes as nat, secs)) };
    assert(seq![input, output] =~= seq![input] + seq![output]);
    assert(seq![named, input, output] =~= seq![named] + seq![input, output]);
    assert(seq![device, named, input, output] =~= seq![device] + seq![named, input, output]);
    assert(seq![bus, device, named, input, output] =~= seq![bus] + seq![
        device,
        named,
        input,
        output,
    ]);
    lemma_members_1(output);
    lemma_members_more(input, seq![output]);
    lemma_members_more(named, seq![input, output]);
    lemma_members_more(device, seq![named, input, output]);
    lemma_members_more(bus, seq![device, named, input, output]);
    lemma_document_written(ts, host, seq![bus, device, named, input, output]);
    lemma_keys_are_plain();
    lemma_quoted_plain("bus"@);
    lemma_quoted_plain("device"@);
    lemma_quoted_plain("device_name"@);
    lemma_quoted_plain("in_kbps"@);
    lemma_quoted_plain("out_kbps"@);
    lemma_decimal_is_number(record.bus as nat);
    lemma_decimal_is_number(record.device as nat);
    lemma_rate_is_number(record.stats.in_bytes as nat, secs);
    lemma_rate_is_number(record.stats.out_bytes as nat, secs);
    lemma_activity_pieces();
    lemma_activity_regrouped(
        opening_text(ts, host),
        quoted("bus"@),
        b,
        quoted("device"@),
        d,
        quoted("device_name"@),
        string_text(name),
        quoted("in_kbps"@),
        rate_text(record.stats.in_bytes as nat, secs),
        quoted("out_kbps"@),
        rate_text(record.stats.out_bytes as nat, secs),
        closing_text(),
    );
}

/// Reads a text of JSON values, each with a line feed behind it.
pub open spec fn read_ndjson(s: Seq<char>) -> Option<Seq<Json>>
    decreases s.len(),
{
    if s.len() == 0 {
        Some(Seq::empty())
    } else {
        match read_value(s) {
            Some((value, rest)) => {
                if 0 < rest.len() < s.len() && rest[0] == '\n' {
                    match read_ndjson(rest.skip(1)) {
                        Some(values) => Some(seq![value] + values),
                        None => None,
                    }
                } else {
                    None
                }
            },
            None => None,
        }
    }
}

/// The documents for these devices, one each.
pub open spec fn activity_documents(
    ts: Seq<char>,
    host: Seq<char>,
    records: Seq<DeviceRecord>,
    secs: nat,
    entries: Seq<DeviceEntry>,
) -> Seq<Json> {
    Seq::new(
        records.len(),
        |i: int|
            activity_document(
                ts,
                host,
                records[i],
                secs,
                device_name(entries, records[i].bus, records[i].device),
            ),
    )
}

/// The documents of a reporting interval: one for each active device, or a
/// heartbeat if there was none.
pub open spec fn flush_documents(
    ts: Seq<char>,
    host: Seq<char>,
    records: Seq<DeviceRecord>,
    secs: nat,
    entries: Seq<DeviceEntry>,
) -> Seq<Json> {
    if records.len() == 0 {
        seq![heartbeat_document(ts, host)]
    } else {
        activity_documents(ts, host, records, secs, entries)
    }
}

/// How a list of JSON values is written, each on a line of its own.
pub open spec fn written_lines(values: Seq<Json>) -> Seq<char>
    decreases values.len(),
{
    if values.len() == 0 {
        Seq::empty()
    } else {
        written(values[0]) + seq!['\n'] + written_lines(values.drop_first())
    }
}

/// A reader that finds an object on the first line goes on with the lines behind
/// it.
proof fn lemma_line_reads_back(value: Json, more: Seq<char>)
    requires
        is_writable(value),
        value is Object,
    ensures
        read_ndjson(written(value) + seq!['\n'] + more) == match read_ndjson(more) {
            Some(values) => Some(seq![value] + values),
            None => None,
        },
{
    let line = written(value);
    let rest = seq!['\n'] + more;
    lemma_value_reads_back(value, rest);
    assert(line + seq!['\n'] + more =~= line + rest);
    assert(rest.skip(1) =~= more);
    assert(line.len() > 0);
}

/// A reader gets back the objects that were written line by line.
pub proof fn lemma_lines_read_back(values: Seq<Json>)
    requires
        forall|i: int| 0 <= i < values.len() ==> (#[trigger] values[i]) is Object,
        forall|i: int| 0 <= i < values.len() ==> is_writable(#[trigger] values[i]),
    ensures
        read_ndjson(written_lines(values)) == Some(values),
    decreases values.len(),
{
    if values.len() == 0 {
        assert(values =~= Seq::empty());
    } else {
        let others = values.drop_first();
        assert forall|i: int| 0 <= i < others.len() implies (#[trigger] others[i]) is Object
            && is_writable(others[i]) by {
            assert(others[i] == values[i + 1]);
        }
        lemma_lines_read_back(others);
        assert(values[0] is Object && is_writable(values[0]));
        lemma_line_reads_back(values[0], written_lines(others));
        assert(values =~= seq![values[0]] + others);
    }
}

proof fn lemma_activity_lines_written(
    ts: Seq<char>,
    host: Seq<char>,
    records: Seq<DeviceRecord>,
    secs: nat,
    entries: Seq<DeviceEntry>,
)
    requires
        is_plain(ts),
    ensures
        activity_lines(ts, host, records, secs, entries) == written_lines(
            activity_documents(ts, host, records, secs, entries),
        ),
    decreases records.len(),
{
    if records.len() > 0 {
        let others = records.drop_first();
        let documents = activity_documents(ts, host, records, secs, entries);
        lemma_activity_lines_written(ts, host, others, secs, entries);
        assert(documents.drop_first() =~= activity_documents(ts, host, others, secs, entries));
        let name = device_name(entries, records[0].bus, records[0].device);
        lemma_activity_written(ts, host, records[0], secs, name);
    }
}

proof fn lemma_activity_documents_writable(
    ts: Seq<char>,
    host: Seq<char>,
    records: Seq<DeviceRecord>,
    secs: nat,
    entries: Seq<DeviceEntry>,
)
    requires
        is_plain(ts),
    ensures
        ({
            let documents = activity_documents(ts, host, records, secs, entries);
            &&& forall|i: int| 0 <= i < documents.len() ==> (#[trigger] documents[i]) is Object
            &&& forall|i: int| 0 <= i < documents.len() ==> is_writable(#[trigger] documents[i])
        }),
{
    let documents = activity_documents(ts, host, records, secs, entries);
    assert forall|i: int| 0 <= i < documents.len() implies is_writable(#[trigger] documents[i]) by {
        let name = device_name(entries, records[i].bus, records[i].device);
        lemma_activity_written(ts, host, records[i], secs, name);
    }
}

/// A timestamp needs no escaping.
pub proof fn lemma_timestamp_is_plain(secs: nat)
    ensures
        is_plain(timestamp_text(secs)),
{
    lemma_timestamp_characters(secs);
}

/// A JSON reader that goes through what an interval writes gets the documents of
/// the interval, in order: one for each active device, or the heartbeat.
pub proof fn lemma_flush_reads_back(
    at: nat,
    host: Seq<char>,
    records: Seq<DeviceRecord>,
    secs: nat,
    entries: Seq<DeviceEntry>,
)
    ensures
        read_ndjson(flush_text(timestamp_text(at), host, records, secs, entries)) == Some(
            flush_documents(timestamp_text(at), host, records, secs, entries),
        ),
{
    let ts = timestamp_text(at);
    lemma_timestamp_is_plain(at);
    if records.len() == 0 {
        let document = heartbeat_document(ts, host);
        lemma_heartbeat_written(ts, host);
        lemma_lines_read_back(seq![document]);
        assert(seq![document].drop_first() =~= Seq::<Json>::empty());
        reveal_with_fuel(written_lines, 2);
        assert(written_lines(seq![document]) =~= written(document) + seq!['\n']);
    } else {
        lemma_activity_lines_written(ts, host, records, secs, entries);
        lemma_activity_documents_writable(ts, host, records, secs, entries);
        lemma_lines_read_back(activity_documents(ts, host, records, secs, entries));
    }
}

proof fn lemma_object_read_alone(text: Seq<char>, value: Json)
    requires
        is_writable(value),
        value is Object,
        text == written(value),
    ensures
        read_value(text) == Some((value, Seq::<char>::empty())),
{
    lemma_value_reads_back(value, Seq::empty());
    assert(text + Seq::<char>::empty() =~= text);
}

/// What a JSON reader finds in the document of a device: the moment, the host, and
/// under `usbtop` the bus, the device, its name and the rates of the bytes that it
/// sent and that it was sent.
pub proof fn lemma_reader_finds_activity(
    at: nat,
    host: Seq<char>,
    record: DeviceRecord,
    secs: nat,
    name: Seq<char>,
)
    ensures
        read_value(activity_text(timestamp_text(at), host, record, secs, name)) matches Some(
            (Json::Object(members), rest),
        ) && {
            &&& rest.len() == 0
            &&& members.len() == 4
            &&& members[0].key == "@timestamp"@
            &&& members[0].value == Json::Text(timestamp_text(at))
            &&& members[1].key == "host"@
            &&& members[1].value matches Json::Object(of_host) && of_host.len() == 1 && of_host[0].key
                == "name"@ && of_host[0].value == Json::Text(host)
            &&& members[2].key == "usbtop"@
            &&& members[2].value matches Json::Object(found) && found.len() == 5 && found[0].key
                == "bus"@ && found[0].value == Json::Number(decimal(record.bus as nat))
                && found[1].key == "device"@ && found[1].value == Json::Number(
                decimal(record.device as nat),
            ) && found[2].key == "device_name"@ && found[2].value == Json::Text(name)
                && found[3].key == "in_kbps"@ && found[3].value == Json::Number(
                rate_text(record.stats.in_bytes as nat, secs),
            ) && found[4].key == "out_kbps"@ && found[4].value == Json::Number(
                rate_text(record.stats.out_bytes as nat, secs),
            )
            &&& members[3].key == "event"@
            &&& members[3].value matches Json::Object(event) && event.len() == 2 && event[0].key
                == "dataset"@ && event[0].value == Json::Text("usbtop.metrics"@) && event[1].key
                == "module"@ && event[1].value == Json::Text("usbtop"@)
        },
{
    let ts = timestamp_text(at);
    let text = activity_text(ts, host, record, secs, name);
    let value = activity_document(ts, host, record, secs, name);
    assert(read_value(text) == Some((value, Seq::<char>::empty()))) by {
        lemma_timestamp_is_plain(at);
        lemma_activity_written(ts, host, record, secs, name);
        lemma_object_read_alone(text, value);
    }
}

/// What a JSON reader finds in the heartbeat document: the moment, the host, and
/// under `usbtop` that no device was active.
pub proof fn lemma_reader_finds_heartbeat(at: nat, host: Seq<char>)
    ensures
        read_value(heartbeat_text(timestamp_text(at), host)) matches Some(
            (Json::Object(members), rest),
        ) && {
            &&& rest.len() == 0
            &&& members.len() == 4
            &&& members[0].key == "@timestamp"@
            &&& members[0].value == Json::Text(timestamp_text(at))
            &&& members[1].key == "host"@
            &&& members[1].value matches Json::Object(of_host) && of_host.len() == 1 && of_host[0].key
                == "name"@ && of_host[0].value == Json::Text(host)
            &&& members[2].key == "usbtop"@
            &&& members[2].value matches Json::Object(found) && found.len() == 1 && found[0].key
                == "no_activity"@ && found[0].value == Json::Flag(true)
            &&& members[3].key == "event"@
            &&& members[3].value matches Json::Object(event) && event.len() == 2 && event[0].key
                == "dataset"@ && event[0].value == Json::Text("usbtop.metrics"@) && event[1].key
                == "module"@ && event[1].value == Json::Text("usbtop"@)
        },
{
    let ts = timestamp_text(at);
    let text = heartbeat_text(ts, host);
    let value = heartbeat_document(ts, host);
    assert(read_value(text) == Some((value, Seq::<char>::empty()))) by {
        lemma_timestamp_is_plain(at);
        lemma_heartbeat_written(ts, host);
        lemma_object_read_alone(text, value);
    }
}

/// How many line feeds `s` holds.
pub open spec fn line_feeds(s: Seq<char>) -> nat
    decreases s.len(),
{
    if s.len() == 0 {
        0
    } else {
        line_feeds(s.drop_last()) + if s.last() == '\n' {
            1nat
        } else {
            0
        }
    }
}

proof fn lemma_line_feeds_concat(a: Seq<char>, b: Seq<char>)
    ensures
        line_feeds(a + b) == line_feeds(a) + line_feeds(b),
    decreases b.len(),
{
    if b.len() == 0 {
        assert(a + b =~= a);
    } else {
        lemma_line_feeds_concat(a, b.drop_last());
        assert((a + b).drop_last() =~= a + b.drop_last());
    }
}

proof fn lemma_no_line_feeds(s: Seq<char>)
    requires
        !s.contains('\n'),
    ensures
        line_feeds(s) == 0,
    decreases s.len(),
{
    if s.len() > 0 {
        assert(s.contains(s.last()));
        assert(!s.drop_last().contains('\n')) by {
            if s.drop_last().contains('\n') {
                let i = choose|i: int| 0 <= i < s.drop_last().len() && s.drop_last()[i] == '\n';
                assert(s[i] == '\n');
            }
        }
        lemma_no_line_feeds(s.drop_last());
    }
}

proof fn lemma_literals_have_no_line_feed()
    ensures
        !"{\"@timestamp\":\""@.contains('\n'),
        !"\",\"host\":{\"name\":\""@.contains('\n'),
        !"\"},\"usbtop\":{"@.contains('\n'),
        !closing_text().contains('\n'),
        !"\"no_activity\":true"@.contains('\n'),
        !"\"bus\":"@.contains('\n'),
        !",\"device\":"@.contains('\n'),
        !",\"device_name\":\""@.contains('\n'),
        !"\",\"in_kbps\":"@.contains('\n'),
        !",\"out_kbps\":"@.contains('\n'),
{
    reveal_strlit("{\"@timestamp\":\"");
    reveal_strlit("\",\"host\":{\"name\":\"");
    reveal_strlit("\"},\"usbtop\":{");
    reveal_strlit("},\"event\":{\"dataset\":\"usbtop.metrics\",\"module\":\"usbtop\"}}");
    reveal_strlit("\"no_activity\":true");
    reveal_strlit("\"bus\":");
    reveal_strlit(",\"device\":");
    reveal_strlit(",\"device_name\":\"");
    reveal_strlit("\",\"in_kbps\":");
    reveal_strlit(",\"out_kbps\":");
}

proof fn lemma_still_no_line_feed(a: Seq<char>, b: Seq<char>)
    requires
        !a.contains('\n'),
        !b.contains('\n'),
    ensures
        !(a + b).contains('\n'),
{
    if (a + b).contains('\n') {
        let i = choose|i: int| 0 <= i < (a + b).len() && (a + b)[i] == '\n';
        if i < a.len() {
            assert(a[i] == '\n');
        } else {
            assert(b[i - a.len()] == '\n');
        }
    }
}

proof fn lemma_opening_has_no_line_feed(ts: Seq<char>, host: Seq<char>)
    requires
        !ts.contains('\n'),
    ensures
        !opening_text(ts, host).contains('\n'),
{
    lemma_literals_have_no_line_feed();
    let a = "{\"@timestamp\":\""@ + ts;
    let b = a + "\",\"host\":{\"name\":\""@;
    lemma_still_no_line_feed("{\"@timestamp\":\""@, ts);
    lemma_still_no_line_feed(a, "\",\"host\":{\"name\":\""@);
    lemma_string_text_has_no_control(host);
    lemma_still_no_line_feed(b, string_text(host));
    lemma_still_no_line_feed(b + string_text(host), "\"},\"usbtop\":{"@);
}

/// A heartbeat document is on one line, whatever the name of the host.
pub proof fn lemma_heartbeat_on_one_line(ts: Seq<char>, host: Seq<char>)
    requires
        !ts.contains('\n'),
    ensures
        !heartbeat_text(ts, host).contains('\n'),
{
    lemma_literals_have_no_line_feed();
    lemma_opening_has_no_line_feed(ts, host);
    lemma_still_no_line_feed(opening_text(ts, host), "\"no_activity\":true"@);
    lemma_still_no_line_feed(opening_text(ts, host) + "\"no_activity\":true"@, closing_text());
}

/// The document of an active device is on one line, whatever the names of the
/// device and the host.
pub proof fn lemma_activity_on_one_line(
    ts: Seq<char>,
    host: Seq<char>,
    record: DeviceRecord,
    secs: nat,
    name: Seq<char>,
)
    requires
        !ts.contains('\n'),
    ensures
        !activity_text(ts, host, record, secs, name).contains('\n'),
{
    lemma_literals_have_no_line_feed();
    lemma_opening_has_no_line_feed(ts, host);
    lemma_decimal_digits(record.bus as nat);
    lemma_decimal_digits(record.device as nat);
    lemma_string_text_has_no_control(name);
    lemma_rate_has_no_line_feed(record.stats.in_bytes as nat, secs);
    lemma_rate_has_no_line_feed(record.stats.out_bytes as nat, secs);
    let a = opening_text(ts, host) + "\"bus\":"@;
    let b = a + decimal(record.bus as nat);
    let c = b + ",\"device\":"@;
    let d = c + decimal(record.device as nat);
    let e = d + ",\"device_name\":\""@;
    let f = e + string_text(name);
    let g = f + "\",\"in_kbps\":"@;
    let received = rate_text(record.stats.in_bytes as nat, secs);
    let sent = rate_text(record.stats.out_bytes as nat, secs);
    let h = g + received;
    let i = h + ",\"out_kbps\":"@;
    let j = i + sent;
    lemma_still_no_line_feed(opening_text(ts, host), "\"bus\":"@);
    lemma_still_no_line_feed(a, decimal(record.bus as nat));
    lemma_still_no_line_feed(b, ",\"device\":"@);
    lemma_still_no_line_feed(c, decimal(record.device as nat));
    lemma_still_no_line_feed(d, ",\"device_name\":\""@);
    lemma_still_no_line_feed(e, string_text(name));
    lemma_still_no_line_feed(f, "\",\"in_kbps\":"@);
    lemma_still_no_line_feed(g, received);
    lemma_still_no_line_feed(h, ",\"out_kbps\":"@);
    lemma_still_no_line_feed(i, sent);
    lemma_still_no_line_feed(j, closing_text());
}

proof fn lemma_activity_line_count(
    ts: Seq<char>,
    host: Seq<char>,
    records: Seq<DeviceRecord>,
    secs: nat,
    entries: Seq<DeviceEntry>,
)
    requires
        !ts.contains('\n'),
    ensures
        line_feeds(activity_lines(ts, host, records, secs, entries)) == records.len(),
        records.len() > 0 ==> activity_lines(ts, host, records, secs, entries).last() == '\n',
    decreases records.len(),
{
    if records.len() > 0 {
        let others = records.drop_first();
        lemma_activity_line_count(ts, host, others, secs, entries);
        let name = device_name(entries, records[0].bus, records[0].device);
        let first = activity_text(ts, host, records[0], secs, name);
        lemma_activity_on_one_line(ts, host, records[0], secs, name);
        lemma_no_line_feeds(first);
        lemma_line_feeds_concat(first, seq!['\n']);
        lemma_line_feeds_concat(
            first + seq!['\n'],
            activity_lines(ts, host, others, secs, entries),
        );
        lemma_one_line_feed();
    }
}

proof fn lemma_one_line_feed()
    ensures
        line_feeds(seq!['\n']) == 1,
{
    reveal_with_fuel(line_feeds, 2);
    assert(seq!['\n'].drop_last() =~= Seq::<char>::empty());
}

/// What an interval writes is whole lines: one for each active device, or one if
/// there was none.
pub proof fn lemma_one_line_per_document(
    at: nat,
    host: Seq<char>,
    records: Seq<DeviceRecord>,
    secs: nat,
    entries: Seq<DeviceEntry>,
)
    ensures
        ({
            let out = flush_text(timestamp_text(at), host, records, secs, entries);
            &&& out.len() > 0
            &&& out.last() == '\n'
            &&& line_feeds(out) == if records.len() == 0 {
                1
            } else {
                records.len()
            }
        }),
{
    let ts = timestamp_text(at);
    lemma_timestamp_characters(at);
    if records.len() == 0 {
        lemma_heartbeat_on_one_line(ts, host);
        lemma_no_line_feeds(heartbeat_text(ts, host));
        lemma_line_feeds_concat(heartbeat_text(ts, host), seq!['\n']);
        lemma_one_line_feed();
    } else {
        lemma_activity_line_count(ts, host, records, secs, entries);
    }
}

} // verus!
