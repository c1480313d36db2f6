# kaas_lib

The logic of a Kafka client, verified with Verus: what is sent, what is made of
the answers, and what is done next.

- `src/produce/` buffers records into batches, numbers them, encodes them, and
  decides what to send, what to send again and what to tell each caller.
- `src/read/` takes fetched batches apart, tolerates damage one batch at a time,
  merges partitions into one scan, and walks backwards for the newest records.
- `src/livetest/` judges what a live cluster answers and writes reports that two
  clusters can be compared by.
- `src/testkit.rs` decides how an integration test is bounded.
- `src/compression.rs`, `src/error.rs`, `src/keyed.rs`, `src/text.rs` and
  `src/wire.rs` hold what these share.

The library does no input or output. It hands out requests and decisions as
plain values and takes answers back the same way; `app/` sends, waits and
prints. The codecs and the record batch format are those of the crates in
`Cargo.toml`; each call to one stands in a small function whose comment says
what is taken on trust.

Properties that span several functions are stated and proved as functions of
their own, mostly in the files named `*_laws.rs`.
