# xrk

A parser for **AiM Sports XRK** binary telemetry files, written in Verus and
proved correct against a specification of the file format.

The parser gives exactly what is in the file: channel names as stored,
raw 16-bit ADC samples, lap times and session metadata. Times are kept as
integer logger ticks; converting them to seconds (and everything else that
needs floating point) is done by the application layer.

## Layout

- `src/parser.rs`: the format. Specifications of tags, lap records, channel
  definitions and measurement blocks, and the verified functions that read
  them: `first_last_timestamps`, `lap_records`, `parse_laps`,
  `parse_channel_defs`, `populate_samples`, `parse_info`, `parse`.
- `src/types.rs`: `XrkFile`, `SessionInfo`, `Lap`, `Channel`, `Sample`, with
  lookups (`channel`, `channel_by_id`, `best_lap`, …) and `Lap::time_str`.
- `src/text.rs`: ASCII bytes to `String`, decimal formatting.
- `src/laws.rs`: properties of every parsed session (laps sorted and
  plausible, channel IDs distinct, samples in time order, no sample lost).
- `src/error.rs`: `XrkError`.
- `app/`: ordinary Rust around the library: seconds and statistics,
  calibration configs (serde/JSON), Polars DataFrames, PyO3 bindings, file I/O.
- `tests/`: tests on hand-built XRK buffers.
