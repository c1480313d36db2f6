//! Scanning forward.

use std::collections::VecDeque;

use bytes::{Bytes, BytesMut};
use kaas_lib::error::{Error, ErrorCode, ErrorKind};
use kaas_lib::read::batch::Visibility;
use kaas_lib::read::fetch::{
    fetch, fetch_request, fetch_topic, group_by_leader, FetchAnswer, FetchTarget,
    FetchedPartition,
};
use kaas_lib::read::filter::{contains, passes, RecordFilter, RecordPredicate};
use kaas_lib::read::offsets::{
    bounds, list_one, list_one_once, list_request, next_leader, ListVerdict, Listed, EARLIEST,
};
use kaas_lib::read::record::{DecodeError, Record, RecordOutcome};
use kaas_lib::read::scan::{
    partitions_to_scan, plan, reorder_window, resolve_offset_start, should_fetch, PartitionCursor,
    PartitionFacts, ScanEvent, ScanProgress, ScanSpec, StartPosition, StartSubstitution,
    TopicState,
};
use kaas_lib::read::scan_state::{scan, ScanState, Turn};
use kaas_lib::wire::{TimestampType, TopicRef};
use kafka_protocol::records::{
    Compression as WireCompression, Record as WireRecord, RecordBatchEncoder, RecordEncodeOptions,
    TimestampType as WireTimestampType,
};

fn record(offset: i64, key: &str, value: Option<&str>) -> Record {
    Record {
        topic: "orders".to_owned(),
        partition: 0,
        offset,
        timestamp: offset,
        timestamp_type: TimestampType::Creation,
        key: Some(key.as_bytes().to_vec()),
        value: value.map(|v| v.as_bytes().to_vec()),
        headers: vec![("trace".to_owned(), None)],
        producer_id: None,
        transactional: false,
        leader_epoch: None,
    }
}

fn record_tombstone() -> Record {
    record(1, "order-1", None)
}

#[test]
fn filters_look_inside_keys_values_and_headers() {
    let record = record(0, "order-42", Some("hello world"));
    assert!(RecordFilter::KeyContains(b"42".to_vec()).matches(&record));
    assert!(!RecordFilter::KeyContains(b"99".to_vec()).matches(&record));
    assert!(RecordFilter::ValueContains(b"world".to_vec()).matches(&record));
    assert!(RecordFilter::HasHeader("trace".to_owned()).matches(&record));
    assert!(!RecordFilter::HasHeader("span".to_owned()).matches(&record));
    assert!(!RecordFilter::TombstonesOnly.matches(&record));
    assert!(RecordFilter::TombstonesOnly.matches(&record_tombstone()));
}

#[test]
fn an_empty_needle_matches_anything_with_that_field() {
    let record = record(0, "k", Some("v"));
    assert!(RecordFilter::KeyContains(Vec::new()).matches(&record));
    // ... but a tombstone has no value to search.
    assert!(!RecordFilter::ValueContains(Vec::new()).matches(&record_tombstone()));
}

struct EvenOffsets;

impl RecordPredicate for EvenOffsets {
    fn accepts(&self, record: &Record) -> bool {
        record.offset % 2 == 0
    }
}

#[test]
fn a_custom_filter_sees_the_whole_record() {
    let filter = RecordFilter::Custom(Box::new(EvenOffsets));
    assert!(filter.matches(&record(0, "k", Some("v"))));
    assert!(!filter.matches(&record(1, "k", Some("v"))));
    // And it renders without leaking a closure address into a log line.
    assert_eq!(filter.describe(), "Custom(..)");
}

#[test]
fn progress_is_a_fraction_only_once_the_total_is_known() {
    let mut progress = ScanProgress {
        records_emitted: 0,
        records_scanned: 0,
        malformed_batches: 0,
        offsets_consumed: 0,
        offsets_total: 0,
        partitions_active: 1,
        partitions_planned: 1,
        reorder_window: 0,
    };
    let fraction = |progress: &ScanProgress| {
        progress.fraction().map(|(consumed, total)| f64::from(consumed) / f64::from(total))
    };
    assert_eq!(fraction(&progress), None);

    progress.offsets_total = 100;
    progress.offsets_consumed = 25;
    assert_eq!(fraction(&progress), Some(0.25));

    // Compaction means consumed can exceed the estimate; a progress bar past
    // 100% is worse than one that stops there.
    progress.offsets_consumed = 500;
    assert_eq!(fraction(&progress), Some(1.0));
}

fn cursor(next_offset: i64, end_offset: i64) -> PartitionCursor {
    PartitionCursor {
        partition: 0,
        leader: 1,
        next_offset,
        end_offset,
        start_offset: 0,
        substituted: None,
        buffered: VecDeque::new(),
        finished: false,
    }
}

#[test]
fn a_malformed_batch_sorts_first_so_it_stays_where_it_happened() {
    let mut cursor = cursor(0, 10);
    assert_eq!(cursor.head_timestamp(), None);

    cursor.buffered.push_back(RecordOutcome::Malformed {
        offset: 5,
        last_offset: None,
        raw: Vec::new(),
        reason: DecodeError::new("bad".to_owned()),
    });
    assert_eq!(cursor.head_timestamp(), Some(i64::MIN));
}

#[test]
fn a_cursor_at_its_end_offset_is_exhausted() {
    assert!(cursor(10, 10).exhausted());
    assert!(!cursor(9, 10).exhausted());
    assert!(cursor(10, 10).drained());
}

#[test]
fn a_scan_browses_unless_it_is_told_to_follow() {
    assert!(!ScanSpec::new("orders").follow);
    assert!(ScanSpec::new("orders").following().follow);
}

#[test]
fn a_browse_only_ever_fetches_for_a_partition_that_is_behind() {
    assert!(should_fetch(true, false, true));
    assert!(should_fetch(true, false, false));
    assert!(!should_fetch(false, false, true));
    assert!(!should_fetch(false, false, false));
}

#[test]
fn a_tail_polls_the_log_end_only_when_it_has_nothing_left_to_emit() {
    assert!(should_fetch(false, true, true), "a tail must poll when idle");
    assert!(
        !should_fetch(false, true, false),
        "a tail with records in hand must emit them first"
    );
}

#[test]
fn a_single_partition_merge_has_no_order_to_degrade() {
    assert_eq!(reorder_window(10_000, 1), 0);
    assert_eq!(reorder_window(10_000, 0), 0);
}

#[test]
fn the_reorder_window_is_the_budget_spread_over_the_merge() {
    assert_eq!(reorder_window(10_000, 16), 625);
    assert_eq!(reorder_window(10_000, 2), 5_000);
}

#[test]
fn an_in_range_offset_start_is_honoured_and_says_nothing() {
    assert_eq!(resolve_offset_start(500, 100, 1_000), (500, None));
    // The bounds themselves are in range.
    assert_eq!(resolve_offset_start(100, 100, 1_000), (100, None));
    assert_eq!(resolve_offset_start(1_000, 100, 1_000), (1_000, None));
}

#[test]
fn an_expired_offset_start_names_the_substitution() {
    let (start, substituted) = resolve_offset_start(43, 12_000, 16_733);
    assert_eq!(start, 12_000);
    assert_eq!(
        substituted,
        Some(StartSubstitution::OffsetBelowLogStart { requested: 43, log_start: 12_000 })
    );
}

#[test]
fn an_unreached_offset_start_names_the_substitution() {
    let (start, substituted) = resolve_offset_start(900_001, 0, 200);
    assert_eq!(start, 200);
    assert_eq!(
        substituted,
        Some(StartSubstitution::OffsetBeyondLogEnd { requested: 900_001, log_end: 200 })
    );
}

#[test]
fn the_default_spec_bounds_its_own_memory() {
    let spec = ScanSpec::new("orders");
    assert!(spec.max_buffered_records > 0);
    assert!(spec.max_decompressed_bytes > 0);
    assert_eq!(spec.visibility, Visibility::All);
    assert!(spec.partitions.is_none());
}

/// A broker's partitions: the batches of each, every record with its timestamp.
struct Log {
    partitions: Vec<Vec<Vec<u8>>>,
    ends: Vec<i64>,
}

fn batch(first: i64, timestamps: &[i64]) -> Vec<u8> {
    let records: Vec<WireRecord> = timestamps
        .iter()
        .enumerate()
        .map(|(i, timestamp)| {
            let offset = first + i64::try_from(i).unwrap();
            WireRecord {
                transactional: false,
                control: false,
                partition_leader_epoch: -1,
                producer_id: -1,
                producer_epoch: -1,
                timestamp_type: WireTimestampType::Creation,
                offset,
                sequence: i32::try_from(offset).unwrap(),
                timestamp: *timestamp,
                key: None,
                value: Some(Bytes::from(format!("v{timestamp}"))),
                headers: Default::default(),
            }
        })
        .collect();
    let mut buf = BytesMut::new();
    RecordBatchEncoder::encode(
        &mut buf,
        records.iter(),
        &RecordEncodeOptions { version: 2, compression: WireCompression::None },
    )
    .expect("encodes");
    buf.to_vec()
}

impl Log {
    fn new(partitions: &[&[&[i64]]]) -> Log {
        let mut log = Log { partitions: Vec::new(), ends: Vec::new() };
        for partition in partitions {
            log.partitions.push(Vec::new());
            log.ends.push(0);
            for timestamps in *partition {
                log.append(log.partitions.len() - 1, timestamps);
            }
        }
        log
    }

    fn append(&mut self, partition: usize, timestamps: &[i64]) {
        let encoded = batch(self.ends[partition], timestamps);
        self.partitions[partition].push(encoded);
        self.ends[partition] += i64::try_from(timestamps.len()).unwrap();
    }

    fn facts(&self) -> Vec<PartitionFacts> {
        self.ends
            .iter()
            .enumerate()
            .map(|(partition, end)| PartitionFacts {
                partition: i32::try_from(partition).unwrap(),
                leader: 1,
                earliest: 0,
                latest: *end,
                at_timestamp: None,
            })
            .collect()
    }

    /// The batch that holds the offset, whole, and nothing more.
    fn fetch(&self, target: &FetchTarget) -> FetchedPartition {
        let partition = usize::try_from(target.partition).unwrap();
        let held = self.partitions[partition].iter().find(|encoded| {
            let header = kaas_lib::read::batch::peek_header(encoded).unwrap();
            header.last_offset >= target.offset
        });
        FetchedPartition {
            partition: target.partition,
            records: held.cloned().unwrap_or_default(),
            high_watermark: self.ends[partition],
            last_stable_offset: self.ends[partition],
            log_start_offset: 0,
            aborted: Vec::new(),
        }
    }

    fn start(&self, spec: ScanSpec) -> ScanState {
        let planned = plan(&spec, &self.facts());
        scan(spec, planned)
    }

    /// One turn: at most one event, or that there are no more.
    fn turn(&self, state: &mut ScanState) -> Result<Option<ScanEvent>, ()> {
        match state.next_event() {
            Turn::Event(event) => Ok(Some(event)),
            Turn::Over => Err(()),
            Turn::Fetch(groups) => {
                for (_, targets) in &groups {
                    let fetched = targets.iter().map(|target| self.fetch(target)).collect();
                    state.absorb(fetched).unwrap();
                }
                Ok(state.resume())
            }
        }
    }

    fn run(&self, spec: ScanSpec) -> Vec<ScanEvent> {
        let mut state = self.start(spec);
        let mut events = Vec::new();
        for _ in 0..10_000 {
            match self.turn(&mut state) {
                Ok(Some(event)) => events.push(event),
                Ok(None) => {}
                Err(()) => return events,
            }
        }
        panic!("the scan did not end");
    }
}

fn emitted(events: &[ScanEvent]) -> Vec<(i32, i64, i64)> {
    events
        .iter()
        .filter_map(|event| match event {
            ScanEvent::Record(record) => Some((record.partition, record.offset, record.timestamp)),
            _ => None,
        })
        .collect()
}

/// Records come out by timestamp across partitions, exactly in offset order
/// within one; starts come first and the end last.
#[test]
fn a_browse_merges_partitions_and_ends() {
    let log = Log::new(&[&[&[10, 30], &[50]], &[&[20, 40]]]);
    let events = log.run(ScanSpec::new("orders"));
    assert!(matches!(
        events[0],
        ScanEvent::PartitionStarted { partition: 0, start_offset: 0, substituted: None }
    ));
    assert!(matches!(events[1], ScanEvent::PartitionStarted { partition: 1, .. }));
    assert_eq!(
        emitted(&events),
        vec![(0, 0, 10), (1, 0, 20), (0, 1, 30), (1, 1, 40), (0, 2, 50)]
    );
    match events.last() {
        Some(ScanEvent::Done(progress)) => {
            assert_eq!(progress.records_emitted, 5);
            assert_eq!(progress.records_scanned, 5);
            assert_eq!(progress.partitions_active, 0);
            assert_eq!(progress.offsets_total, 5);
            assert_eq!(progress.reorder_window, 0);
        }
        other => panic!("{other:?}"),
    }
    let completed = events
        .iter()
        .filter(|event| matches!(event, ScanEvent::PartitionComplete { .. }))
        .count();
    assert_eq!(completed, 2);
}

#[test]
fn a_limited_filtered_scan_stops_early() {
    let log = Log::new(&[&[&[10, 11, 12, 13, 14, 15]]]);
    let spec = ScanSpec::new("orders")
        .limit(2)
        .filter(RecordFilter::Custom(Box::new(EvenOffsets)));
    let events = log.run(spec);
    assert_eq!(emitted(&events), vec![(0, 0, 10), (0, 2, 12)]);
    assert!(matches!(events.last(), Some(ScanEvent::Done(_))));
}

/// A fetch returns the whole batch that holds the offset; what comes before the
/// offset is not emitted.
#[test]
fn a_scan_from_an_offset_emits_nothing_before_it() {
    let log = Log::new(&[&[&[10, 11, 12, 13]]]);
    let events = log.run(ScanSpec::new("orders").from(StartPosition::Offset(2)));
    assert_eq!(emitted(&events), vec![(0, 2, 12), (0, 3, 13)]);
}

#[test]
fn a_corrupt_batch_is_an_event_and_the_scan_goes_on() {
    let mut log = Log::new(&[&[&[10], &[11], &[12]]]);
    let last = log.partitions[0][1].len() - 1;
    log.partitions[0][1][last] ^= 0xff;
    let events = log.run(ScanSpec::new("orders"));
    assert_eq!(emitted(&events), vec![(0, 0, 10), (0, 2, 12)]);
    let bad: Vec<i64> = events
        .iter()
        .filter_map(|event| match event {
            ScanEvent::Malformed { offset, .. } => Some(*offset),
            _ => None,
        })
        .collect();
    assert_eq!(bad, vec![1]);
}

#[test]
fn a_following_scan_sees_what_arrives_next() {
    let mut log = Log::new(&[&[&[10]], &[]]);
    let mut state = log.start(ScanSpec::new("orders").following());
    let mut events = Vec::new();
    for _ in 0..20 {
        if let Ok(Some(event)) = log.turn(&mut state) {
            events.push(event);
        }
    }
    assert_eq!(emitted(&events), vec![(0, 0, 10)]);
    assert!(!state.done);

    log.append(1, &[99]);
    for _ in 0..20 {
        if let Ok(Some(event)) = log.turn(&mut state) {
            events.push(event);
        }
    }
    assert_eq!(emitted(&events), vec![(0, 0, 10), (1, 0, 99)]);
}

/// Past its buffer a merge goes on, and says how far order may be off.
#[test]
fn a_full_buffer_degrades_the_order_and_says_so() {
    let log = Log::new(&[&[&[10, 20, 30, 40]], &[&[11, 21, 31, 41]]]);
    let mut spec = ScanSpec::new("orders");
    spec.max_buffered_records = 2;
    let events = log.run(spec);
    assert_eq!(emitted(&events).len(), 8);
    match events.last() {
        Some(ScanEvent::Done(progress)) => assert_eq!(progress.records_emitted, 8),
        other => panic!("{other:?}"),
    }
    let by_partition = |partition: i32| -> Vec<i64> {
        emitted(&events)
            .iter()
            .filter(|event| event.0 == partition)
            .map(|event| event.1)
            .collect()
    };
    assert_eq!(by_partition(0), vec![0, 1, 2, 3]);
    assert_eq!(by_partition(1), vec![0, 1, 2, 3]);
}

/// However much the answers bring, no more is held than the ceiling allows, and
/// what had no room comes later.
#[test]
fn no_more_is_held_than_the_ceiling_allows() {
    let log = Log::new(&[
        &[&[10, 20, 30], &[40, 50]],
        &[&[11, 21, 31, 41]],
        &[&[12], &[22, 32, 42, 52, 62]],
    ]);
    for ceiling in 1..20 {
        let mut spec = ScanSpec::new("orders");
        spec.max_buffered_records = ceiling;
        let mut state = log.start(spec);
        let mut events = Vec::new();
        while let Ok(event) = log.turn(&mut state) {
            events.extend(event);
            let held: usize = state.cursors.iter().map(|cursor| cursor.buffered.len()).sum();
            assert!(held <= ceiling, "{held} of {ceiling}");
        }
        let all = emitted(&events);
        for (partition, count) in [(0, 5), (1, 4), (2, 6)] {
            let offsets: Vec<i64> =
                all.iter().filter(|event| event.0 == partition).map(|event| event.1).collect();
            assert_eq!(offsets, (0..count).collect::<Vec<i64>>(), "ceiling {ceiling}");
        }
        // With room for each of them, they come out in the order of their
        // timestamps.
        if ceiling >= 3 {
            let timestamps: Vec<i64> = all.iter().map(|event| event.2).collect();
            let mut sorted = timestamps.clone();
            sorted.sort();
            assert_eq!(timestamps, sorted, "ceiling {ceiling}");
        }
    }
}

/// The share of a partition is even, so that none starves another.
#[test]
fn an_answer_is_kept_up_to_its_partitions_share() {
    let log = Log::new(&[&[&[10, 20, 30, 40, 50]], &[&[11, 21, 31, 41]]]);
    let mut spec = ScanSpec::new("orders");
    spec.max_buffered_records = 6;
    let mut state = log.start(spec);
    while state.pending.len() > 0 {
        assert!(matches!(state.next_event(), Turn::Event(_)));
    }
    let groups = match state.next_event() {
        Turn::Fetch(groups) => groups,
        other => panic!("{other:?}"),
    };
    let fetched = groups[0].1.iter().map(|target| log.fetch(target)).collect();
    assert!(state.absorb(fetched).unwrap());
    let held: Vec<usize> = state.cursors.iter().map(|cursor| cursor.buffered.len()).collect();
    assert_eq!(held, vec![3, 3]);
    let next: Vec<i64> = state.cursors.iter().map(|cursor| cursor.next_offset).collect();
    assert_eq!(next, vec![3, 3]);
    assert_eq!(state.buffered_total, 6);
}

/// A log whose start was moved past the scan is no reason to drop what still
/// came from before it.
#[test]
fn a_record_from_before_a_moved_log_start_is_kept() {
    let log = Log::new(&[&[&[10, 11, 12], &[13, 14, 15, 16, 17]]]);
    let mut state = log.start(ScanSpec::new("orders").following());
    let mut events = Vec::new();
    while emitted(&events).len() < 3 {
        events.extend(log.turn(&mut state).unwrap());
    }
    assert_eq!(state.cursors[0].next_offset, 3);
    let groups = match state.next_event() {
        Turn::Fetch(groups) => groups,
        other => panic!("{other:?}"),
    };
    let mut fetched = log.fetch(&groups[0].1[0]);
    fetched.log_start_offset = 7;
    state.absorb(vec![fetched]).unwrap();
    let offsets: Vec<i64> = state.cursors[0]
        .buffered
        .iter()
        .filter_map(|outcome| outcome.record())
        .map(|record| record.offset)
        .collect();
    assert_eq!(offsets, vec![3, 4, 5, 6, 7]);
    assert_eq!(state.cursors[0].next_offset, 8);
}

/// A browse is planned against the log's end as it stood when it started.
#[test]
fn a_browse_ends_where_the_log_ended_when_it_started() {
    let mut log = Log::new(&[&[&[10, 11]], &[&[20]]]);
    let mut state = log.start(ScanSpec::new("orders"));
    log.append(0, &[12, 13]);
    log.append(1, &[21]);
    let mut events = Vec::new();
    for _ in 0..100 {
        match log.turn(&mut state) {
            Ok(event) => events.extend(event),
            Err(()) => break,
        }
    }
    assert_eq!(emitted(&events), vec![(0, 0, 10), (0, 1, 11), (1, 0, 20)]);
    assert!(state.done);

    // Also where the end falls into the middle of a batch.
    let log = Log::new(&[&[&[10, 11, 12, 13]]]);
    let spec = ScanSpec::new("orders");
    let facts = PartitionFacts {
        partition: 0,
        leader: 1,
        earliest: 0,
        latest: 3,
        at_timestamp: None,
    };
    let planned = plan(&spec, &vec![facts]);
    let mut state = scan(spec, planned);
    let mut events = Vec::new();
    for _ in 0..100 {
        match log.turn(&mut state) {
            Ok(event) => events.extend(event),
            Err(()) => break,
        }
    }
    assert_eq!(emitted(&events), vec![(0, 0, 10), (0, 1, 11), (0, 2, 12)]);
    match events.last() {
        Some(ScanEvent::Done(progress)) => {
            assert_eq!(progress.offsets_total, 3);
            assert_eq!(progress.offsets_consumed, 3);
        }
        other => panic!("{other:?}"),
    }
}

/// A batch whose last records were compacted away still ends where it did.
#[test]
fn a_compacted_batch_is_read_once() {
    let mut log = Log::new(&[&[&[10, 11]]]);
    let shrunk = &mut log.partitions[0][0];
    shrunk[23..27].copy_from_slice(&4i32.to_be_bytes());
    let crc = crc32c::crc32c(&shrunk[21..]);
    shrunk[17..21].copy_from_slice(&crc.to_be_bytes());
    log.ends[0] = 5;
    log.append(0, &[15, 16]);
    let events = log.run(ScanSpec::new("orders"));
    assert_eq!(emitted(&events), vec![(0, 0, 10), (0, 1, 11), (0, 5, 15), (0, 6, 16)]);

    // Starting inside what was compacted away brings the batch back, and none
    // of its records.
    let events = log.run(ScanSpec::new("orders").from(StartPosition::Offset(3)));
    assert_eq!(emitted(&events), vec![(0, 5, 15), (0, 6, 16)]);
}

/// An answer that reaches back below the offset asked for brings nothing twice.
#[test]
fn a_record_that_comes_again_is_not_emitted_again() {
    let log = Log::new(&[&[&[10, 11], &[12]]]);
    let mut state = log.start(ScanSpec::new("orders"));
    let mut events = Vec::new();
    for _ in 0..100 {
        match state.next_event() {
            Turn::Event(event) => events.push(event),
            Turn::Over => break,
            Turn::Fetch(_) => {
                // The first batch, and then that and the second.
                for records in [log.partitions[0][0].clone(), log.partitions[0].concat()] {
                    let fetched = FetchedPartition {
                        partition: 0,
                        records,
                        high_watermark: 3,
                        last_stable_offset: 3,
                        log_start_offset: 0,
                        aborted: Vec::new(),
                    };
                    state.absorb(vec![fetched]).unwrap();
                }
                events.extend(state.resume());
            }
        }
    }
    assert_eq!(emitted(&events), vec![(0, 0, 10), (0, 1, 11), (0, 2, 12)]);
}

#[test]
fn a_failed_scan_has_no_more_events() {
    let log = Log::new(&[&[&[10]]]);
    let mut state = log.start(ScanSpec::new("orders"));
    assert!(matches!(log.turn(&mut state), Ok(Some(_))));
    state.fail();
    assert!(matches!(log.turn(&mut state), Err(())));
}

#[test]
fn a_plan_starts_where_it_was_asked_to() {
    let facts = |at_timestamp| {
        vec![PartitionFacts { partition: 3, leader: 2, earliest: 5, latest: 9, at_timestamp }]
    };
    let start = |from, at| plan(&ScanSpec::new("orders").from(from), &facts(at)).remove(0);
    assert_eq!(start(StartPosition::Earliest, None).start_offset, 5);
    let latest = start(StartPosition::Latest, None);
    assert_eq!(latest.start_offset, 9);
    assert!(latest.finished);
    assert_eq!(start(StartPosition::Timestamp(100), Some(7)).start_offset, 7);
    let unresolved = start(StartPosition::Timestamp(100), None);
    assert_eq!(unresolved.start_offset, 9);
    assert_eq!(
        unresolved.substituted,
        Some(StartSubstitution::TimestampUnresolved { requested: 100, log_end: 9 })
    );
}

#[test]
fn a_scan_covers_what_was_asked_for_or_everything() {
    let topic = || Some(TopicState { error: None, partitions: vec![0, 1, 2] });
    let all = ScanSpec::new("orders");
    assert_eq!(partitions_to_scan(&all, topic()).unwrap(), vec![0, 1, 2]);
    let some = ScanSpec::new("orders").partitions(vec![2]);
    assert_eq!(partitions_to_scan(&some, topic()).unwrap(), vec![2]);
    assert_eq!(
        partitions_to_scan(&all, None).unwrap_err().code(),
        Some(ErrorCode::UnknownTopicOrPartition)
    );
    let refused = TopicState {
        error: Some(ErrorCode::TopicAuthorizationFailed),
        partitions: Vec::new(),
    };
    assert_eq!(
        partitions_to_scan(&all, Some(refused)).unwrap_err().code(),
        Some(ErrorCode::TopicAuthorizationFailed)
    );
}

#[test]
fn a_filter_says_what_it_looks_at() {
    assert_eq!(RecordFilter::KeyContains(vec![1, 2]).describe(), "KeyContains(2 bytes)");
    assert_eq!(RecordFilter::ValueContains(Vec::new()).describe(), "ValueContains(0 bytes)");
    assert_eq!(RecordFilter::HasHeader("trace".to_owned()).describe(), "HasHeader(trace)");
    assert_eq!(RecordFilter::TombstonesOnly.describe(), "TombstonesOnly");
    assert!(passes(&None, &record_tombstone()));
    assert!(contains(b"abcabd", b"abd"));
    assert!(!contains(b"abcabd", b"abe"));
    assert!(!contains(b"", b"a"));
}

fn target(partition: i32) -> FetchTarget {
    FetchTarget { partition, offset: 7, max_bytes: 100 }
}

#[test]
fn a_fetch_names_its_topic_until_it_identifies_it() {
    let request = fetch_request("orders", 5, 12, &[target(1)], 500, 900, Visibility::All)
        .unwrap()
        .unwrap();
    assert!(matches!(&request.topic, TopicRef::Name(name) if name == "orders"));
    assert_eq!(request.replica_id, -1);
    assert_eq!(request.min_bytes, 1);
    assert_eq!(request.max_wait_ms, 500);
    assert_eq!(request.max_bytes, 900);
    assert_eq!(request.isolation_level, 0);
    assert_eq!(request.session_epoch, -1);
    assert_eq!(request.partitions, vec![target(1)]);

    let committed =
        fetch_request("orders", 5, 13, &[target(1)], 500, 900, Visibility::CommittedOnly)
            .unwrap()
            .unwrap();
    assert!(matches!(committed.topic, TopicRef::Id(5)));
    assert_eq!(committed.isolation_level, 1);

    assert!(fetch_request("orders", 5, 13, &[], 500, 900, Visibility::All).unwrap().is_none());
    assert!(fetch_topic("orders", 0, 13).is_err());
}

fn fetch_answer(partition: i32, error_code: i16) -> FetchAnswer {
    FetchAnswer {
        partition,
        error_code,
        records: None,
        high_watermark: 9,
        last_stable_offset: 8,
        log_start_offset: 1,
        aborted: None,
    }
}

#[test]
fn a_fetch_answer_fails_as_a_whole() {
    let read = fetch("orders", 0, vec![fetch_answer(0, 0), fetch_answer(1, 0)]).unwrap();
    assert_eq!(read.len(), 2);
    assert!(read[0].records.is_empty());
    assert_eq!(read[1].high_watermark, 9);
    assert_eq!(read[1].last_stable_offset, 8);

    let refused = fetch("orders", 0, vec![fetch_answer(0, 0), fetch_answer(4, 6)]).unwrap_err();
    match refused.kind {
        ErrorKind::Broker { code, context } => {
            assert_eq!(code, ErrorCode::NotLeaderOrFollower);
            assert_eq!(context.as_deref(), Some("orders-4"));
        }
        other => panic!("{other:?}"),
    }
    assert_eq!(fetch("orders", 29, Vec::new()).unwrap_err().code(), ErrorCode::from_code(29));
}

#[test]
fn fetches_are_grouped_by_leader() {
    let groups = group_by_leader(&vec![(2, target(0)), (1, target(1)), (2, target(2))]);
    assert_eq!(
        groups,
        vec![(2, vec![target(0), target(2)]), (1, vec![target(1)])]
    );
}

#[test]
fn an_offset_is_listed_refused_or_absent() {
    let request = list_request("orders", 3, EARLIEST);
    assert_eq!(request.timestamp, -2);
    assert_eq!(request.replica_id, -1);
    let listed = |error_code, offset| vec![Listed { partition: 3, error_code, offset }];
    assert_eq!(list_one_once("orders", 3, &listed(0, 40)).unwrap(), Some(40));
    assert_eq!(list_one_once("orders", 3, &listed(0, -1)).unwrap(), None);
    assert_eq!(list_one_once("orders", 4, &listed(0, 40)).unwrap(), None);
    let error = list_one_once("orders", 3, &listed(6, 0)).unwrap_err();
    assert_eq!(error.code(), Some(ErrorCode::NotLeaderOrFollower));

    assert!(matches!(list_one(Ok(Some(3))), ListVerdict::Settled(Some(3))));
    assert!(matches!(list_one(Err(error)), ListVerdict::Reask { refresh: true, .. }));
    let denied = Error::from_code(ErrorCode::TopicAuthorizationFailed, None);
    assert!(matches!(list_one(Err(denied)), ListVerdict::Failed(_)));
    assert_eq!(next_leader(1, Some(2)), 2);
    assert_eq!(next_leader(1, None), 1);
    assert_eq!(bounds(Some(3), Some(9)), (3, 9));
    assert_eq!(bounds(Some(3), Some(1)), (3, 3));
    assert_eq!(bounds(None, None), (0, 0));
}
