//! Whole scans over logs held in memory, written batch by batch through the
//! producer's encoder and served the way a broker serves them.

use std::collections::HashMap;

use kaas_lib::compression::Compression;
use kaas_lib::produce::encode::encode_batch;
use kaas_lib::produce::record::ProducerRecord;
use kaas_lib::read::batch::peek_header;
use kaas_lib::read::fetch::{FetchTarget, FetchedPartition};
use kaas_lib::read::filter::RecordFilter;
use kaas_lib::read::scan::{plan, PartitionFacts, ScanEvent, ScanSpec, StartPosition};
use kaas_lib::read::scan_state::{scan, ScanState, Turn};

const BATCH: usize = 25;

struct Broker {
    logs: Vec<Vec<u8>>,
    ends: Vec<i64>,
    stamps: Vec<Vec<i64>>,
    fetches: usize,
}

impl Broker {
    fn new(partitions: usize) -> Broker {
        Broker {
            logs: vec![Vec::new(); partitions],
            ends: vec![0; partitions],
            stamps: vec![Vec::new(); partitions],
            fetches: 0,
        }
    }

    /// Appends one batch to one partition.
    fn append(&mut self, partition: usize, values: &[String], now: i64, codec: Compression) {
        let records: Vec<ProducerRecord> = values
            .iter()
            .map(|value| ProducerRecord::new("t").with_value(value.clone().into_bytes()))
            .collect();
        let mut batch = encode_batch(&records, codec, now, None).expect("encodes");
        batch[..8].copy_from_slice(&self.ends[partition].to_be_bytes());
        self.logs[partition].extend_from_slice(&batch);
        self.ends[partition] += i64::try_from(values.len()).unwrap();
        self.stamps[partition].extend(values.iter().map(|_| now));
    }

    /// Numbers from `first` on, one batch per partition in turn.
    fn produce(&mut self, first: usize, count: usize, now: i64, codec: Compression) {
        let numbers: Vec<String> = (first..first + count).map(|n| n.to_string()).collect();
        for (nth, values) in numbers.chunks(BATCH).enumerate() {
            let partition = nth % self.logs.len();
            self.append(partition, values, now, codec);
        }
    }

    /// From the batch that holds the offset on, cut at the limit wherever that
    /// falls, but never inside the first batch.
    fn fetch(&mut self, target: &FetchTarget) -> FetchedPartition {
        self.fetches += 1;
        let partition = usize::try_from(target.partition).unwrap();
        let log = &self.logs[partition];
        let mut at = 0;
        let mut first = 0;
        while at < log.len() {
            let header = peek_header(&log[at..]).expect("an intact header");
            if header.last_offset >= target.offset {
                first = header.total_len;
                break;
            }
            at += header.total_len;
        }
        let most = usize::try_from(target.max_bytes).unwrap().max(first);
        let end = log.len().min(at + most);
        FetchedPartition {
            partition: target.partition,
            records: log[at..end].to_vec(),
            high_watermark: self.ends[partition],
            last_stable_offset: self.ends[partition],
            log_start_offset: 0,
            aborted: Vec::new(),
        }
    }

    fn start(&self, spec: ScanSpec) -> ScanState {
        let facts: Vec<PartitionFacts> = self
            .ends
            .iter()
            .enumerate()
            .map(|(partition, end)| PartitionFacts {
                partition: i32::try_from(partition).unwrap(),
                leader: 1,
                earliest: 0,
                latest: *end,
                at_timestamp: match spec.from {
                    StartPosition::Timestamp(timestamp) => self.stamps[partition]
                        .iter()
                        .position(|stamp| *stamp >= timestamp)
                        .map(|at| i64::try_from(at).unwrap()),
                    _ => None,
                },
            })
            .collect();
        let planned = plan(&spec, &facts);
        scan(spec, planned)
    }

    /// The next event, or none if the scan is over or a fetch came to nothing.
    fn next(&mut self, state: &mut ScanState) -> Option<ScanEvent> {
        match state.next_event() {
            Turn::Event(event) => Some(event),
            Turn::Over => None,
            Turn::Fetch(groups) => {
                for (_, targets) in &groups {
                    let fetched = targets.iter().map(|target| self.fetch(target)).collect();
                    state.absorb(fetched).expect("no scan-level failure");
                }
                state.resume()
            }
        }
    }

    fn run(&mut self, spec: ScanSpec) -> Vec<ScanEvent> {
        let mut state = self.start(spec);
        let mut events = Vec::new();
        while !state.done || !state.pending.is_empty() {
            events.extend(self.next(&mut state));
        }
        events
    }
}

fn offsets(events: &[ScanEvent]) -> Vec<i64> {
    events
        .iter()
        .filter_map(|event| match event {
            ScanEvent::Record(record) => Some(record.offset),
            _ => None,
        })
        .collect()
}

fn malformed(events: &[ScanEvent]) -> usize {
    events.iter().filter(|event| matches!(event, ScanEvent::Malformed { .. })).count()
}

#[test]
fn ten_thousand_records_across_six_partitions_with_mixed_codecs() {
    let mut broker = Broker::new(6);
    let mut produced = 0;
    for codec in [
        Compression::Uncompressed,
        Compression::Gzip,
        Compression::Snappy,
        Compression::Lz4,
        Compression::Zstd,
    ] {
        broker.produce(produced + 1, 2000, 1_000, codec);
        produced += 2000;
    }
    let events = broker.run(ScanSpec::new("t").from(StartPosition::Earliest));

    let mut count = 0;
    let mut per_partition: HashMap<i32, Vec<i64>> = HashMap::new();
    let mut saw_progress = false;
    let mut done = None;
    for event in events {
        match event {
            ScanEvent::Record(record) => {
                count += 1;
                per_partition.entry(record.partition).or_default().push(record.offset);
            }
            ScanEvent::Malformed { offset, reason, .. } => {
                panic!("unexpected malformed batch at {offset}: {reason:?}")
            }
            ScanEvent::Progress(progress) => {
                saw_progress = true;
                assert!(progress.fraction().is_some(), "{progress:?}");
            }
            ScanEvent::Done(progress) => done = Some(progress),
            _ => {}
        }
    }
    assert_eq!(count, 10_000, "exact count across all five codecs");
    assert!(saw_progress, "a 10k-record scan must report progress");
    let done = done.expect("the scan ends with Done");
    assert_eq!(done.records_emitted, 10_000);
    assert_eq!(done.partitions_active, 0);
    assert_eq!(per_partition.len(), 6, "records landed in every partition");
    for (partition, offsets) in &per_partition {
        assert!(
            offsets.windows(2).all(|pair| pair[0] < pair[1]),
            "partition {partition} came out of log order or repeated an offset"
        );
    }
}

#[test]
fn a_corrupt_batch_yields_malformed_and_the_scan_continues() {
    let mut broker = Broker::new(1);
    for round in 0..12 {
        broker.produce(round * 25 + 1, 25, 1_000, Compression::Uncompressed);
    }
    // Damage in the records of a batch in the middle.
    let mut at = 0;
    for _ in 0..6 {
        at += peek_header(&broker.logs[0][at..]).unwrap().total_len;
    }
    for byte in &mut broker.logs[0][at + 70..at + 134] {
        *byte ^= 0xa5;
    }
    let events = broker.run(ScanSpec::new("t"));
    assert_eq!(malformed(&events), 1, "the damage was not reported");
    assert_eq!(offsets(&events).len(), 275, "only the damaged batch is lost");
    assert!(matches!(events.last(), Some(ScanEvent::Done(_))));
}

#[test]
fn truncating_a_fetch_mid_batch_produces_no_malformed_events() {
    let mut broker = Broker::new(1);
    broker.produce(1, 2000, 1_000, Compression::Uncompressed);
    let mut spec = ScanSpec::new("t");
    spec.partition_max_bytes = 512;
    spec.fetch_max_bytes = 512;
    let events = broker.run(spec);
    assert_eq!(malformed(&events), 0, "truncation reported as corruption");
    assert_eq!(offsets(&events).len(), 2000, "a tight byte budget must not lose records");
}

#[test]
fn a_limited_scan_stops_early_and_a_filter_narrows_it() {
    let mut broker = Broker::new(1);
    broker.produce(1, 1000, 1_000, Compression::Uncompressed);
    let events = broker.run(ScanSpec::new("t").limit(10));
    assert_eq!(offsets(&events).len(), 10);

    let spec = ScanSpec::new("t").filter(RecordFilter::ValueContains(b"999".to_vec()));
    let matched = offsets(&broker.run(spec)).len();
    assert!((1..100).contains(&matched), "{matched} records matched 999");
}

#[test]
fn a_scan_from_a_timestamp_skips_what_came_before() {
    let mut broker = Broker::new(1);
    broker.produce(1, 500, 1_000, Compression::Uncompressed);
    broker.produce(501, 500, 3_000, Compression::Uncompressed);
    let events = broker.run(ScanSpec::new("t").from(StartPosition::Timestamp(2_000)));
    assert_eq!(offsets(&events).len(), 500, "the timestamp cut the scan in half");
}

#[test]
fn a_scan_from_an_offset_never_emits_records_before_it() {
    let mut broker = Broker::new(1);
    broker.produce(1, 5000, 1_000, Compression::Uncompressed);
    for start in [37, 991, 1_234, 2_500] {
        let spec = ScanSpec::new("t")
            .partitions(vec![0])
            .from(StartPosition::Offset(start))
            .limit(20);
        let seen = offsets(&broker.run(spec));
        assert!(seen.iter().all(|offset| *offset >= start));
        assert_eq!(
            seen.first(),
            Some(&start),
            "the first record must be the one asked for, not the next batch"
        );
    }
}

#[test]
fn a_following_scan_waits_at_the_log_end_and_sees_what_arrives_next() {
    let mut broker = Broker::new(3);
    broker.produce(1, 100, 1_000, Compression::Uncompressed);
    let spec = ScanSpec::new("t").from(StartPosition::Latest).following();
    let mut state = broker.start(spec);
    let mut events = Vec::new();
    for _ in 0..50 {
        events.extend(broker.next(&mut state));
    }
    assert!(!state.done, "a following scan must not end on an idle topic");
    assert!(offsets(&events).is_empty());

    broker.produce(101, 20, 2_000, Compression::Uncompressed);
    for _ in 0..50 {
        events.extend(broker.next(&mut state));
    }
    assert!(!state.done, "a following scan ended by itself");
    assert_eq!(offsets(&events).len(), 20);
}

#[test]
fn following_does_not_stall_behind_an_idle_partition() {
    let mut broker = Broker::new(6);
    let values: Vec<String> = (1..=60).map(|n| n.to_string()).collect();
    broker.append(0, &values, 1_000, Compression::Uncompressed);
    let spec = ScanSpec::new("t").from(StartPosition::Earliest).following();
    let mut state = broker.start(spec);
    let mut seen = 0;
    while seen < 60 {
        if let Some(ScanEvent::Record(_)) = broker.next(&mut state) {
            seen += 1;
        }
    }
    assert_eq!(
        broker.fetches, 6,
        "one round over the partitions, and none per record"
    );
}
