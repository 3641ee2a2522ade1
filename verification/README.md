# lpudp

`lpudp` is a small service for the UDP stream of a Raspberry Shake. It checks packets, keeps a
bounded ring buffer for each channel, runs an STA/LTA alert detector, and sends snapshots and
alert events to a browser. Its logic is a library whose contracts Verus proves.

## Layout

- `src/` is the library.
  - `packet`, `text` and `number` read a datagram, and `packet_laws` shows that what is written out
    is read back.
  - `buffer`, `channels` and `display` keep the samples and thin them out for display;
    `timing` states what holds of their times.
  - `alert` is the detector, and `alert_laws` states what holds of it whatever it is fed.
  - `runtime` ties these together: what a datagram changes, and what is told of the service.
  - `settings`, `access` and `update` are the settings, their rules, and who may change them.
  - `session`, `demo` and `clock` are the decisions of a live session, the schedule of the demo
    source, and the wall clock.
  - `double`, `arithmetic`, `rounding` and `bignat` are binary64 numbers as bit patterns: every
    operation returns the number nearest to the exact result, ties to even.
- `tests/` runs the library, among others against the floating point of the machine.
- `app/` is the service itself: sockets, files, the web server and the demo signal.

## Numbers

A binary64 number is a whole multiple of 2^-1074, and contracts speak of that multiple. The
detector therefore has an exact contract: while its windows span fewer than 2^22 samples its
running sums do not drift.

## What is trusted

The contracts of `str::from_utf8`, `str::to_ascii_uppercase`, `HeaderMap::get`,
`HeaderValue::to_str`, `SystemTime::duration_since` and `Duration::as_millis` are believed, each as
its doc comment says. Of the time that the system clock shows nothing is claimed.
