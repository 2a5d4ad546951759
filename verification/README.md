# usbmon-collector

Captures live USB bandwidth metrics from the Linux kernel's `usbmon` subsystem and
appends them as NDJSON, one document per active device and reporting interval, for
Elastic Agent to pick up. An interval without activity leaves a heartbeat document.

The logic is a Verus library: the functions in `src/` have contracts that Verus
proves. Three things of the standard library are taken on trust: `String::push`,
`str::to_uppercase` and the reading of the system clock. `app/` is the daemon around
it: environment variables, signals, threads, libpcap, sysfs and the output file.

| Module      | What it holds                                                        |
|-------------|----------------------------------------------------------------------|
| `text`      | trimming, decimal numbers                                            |
| `calendar`  | calendar dates, ISO-8601 timestamps                                  |
| `config`    | configuration from environment variables                             |
| `urb`       | the header of a captured packet                                      |
| `stats`     | byte counters per device                                             |
| `capture`   | one turn of the capture loop, and whether it goes on                 |
| `daemon`    | choice of interfaces, order of the reporting loop                    |
| `sysfs`     | device names, host name                                              |
| `rate`      | transfer rates, to the digit as double-precision arithmetic has them |
| `json`      | JSON strings, and a model of a JSON reader                           |
| `ndjson`    | the documents of an interval                                         |
| `documents` | what a JSON reader makes of those documents                          |

## Configuration

| Variable              | Default                                 | Description                                        |
|-----------------------|-----------------------------------------|----------------------------------------------------|
| `USBMON_OUTPUT_FILE`  | `/var/log/usbtop-metrics/usbtop.ndjson` | Output path; `USBTOP_OUTPUT_FILE` is accepted too  |
| `USBMON_INTERVAL_SEC` | `60`                                    | Seconds between reports                            |
| `USBMON_LOG_LEVEL`    | `INFO`                                  | `DEBUG` logs each packet; `USBTOP_LOG_LEVEL` too   |

## What is proved, in short

- The date arithmetic agrees with the Gregorian calendar on every day from 1970 on.
- Up to the year 9999 timestamps sort as texts in the order of time.
- Counters are sums of packet lengths: neither the order in which threads record
  packets nor the cut between two intervals changes what is reported in total.
- A JSON reader that goes through the output gets back the documents, whatever the
  names of the host and the devices and however long the interval. Rates over an
  interval of no length are those over one second.
- A stop request flushes the interval under way and ends the loop.
