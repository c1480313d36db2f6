//! Reading the tail of a topic.

use bytes::{Bytes, BytesMut};
use kaas_lib::error::ErrorCode;
use kaas_lib::read::backward::{
    anchor_probe, clamp_bound, divided, partitions_to_walk, resolve_anchor, timestamp_probe,
    PartitionTail, TailAnchor, TailSpec, Walk,
};
use kaas_lib::read::batch::{peek_header, AbortedTransaction, Visibility};
use kaas_lib::read::fetch::FetchedPartition;
use kaas_lib::read::filter::RecordFilter;
use kaas_lib::read::record::Record;
use kaas_lib::read::scan::PartitionFacts;
use kaas_lib::read::tail::{tail, TailStep, WindowRead};
use kaas_lib::wire::TimestampType;
use kafka_protocol::records::{
    Compression as WireCompression, Record as WireRecord, RecordBatchEncoder, RecordEncodeOptions,
    TimestampType as WireTimestampType,
};

#[test]
fn the_step_defaults_to_twice_the_per_partition_limit() {
    let spec = TailSpec::new("orders", 500);
    // 500 across 6 partitions is 84 each, doubled for headroom.
    assert_eq!(spec.first_step(6), 168);
    // And never absurdly small, which would cost a round trip per record.
    assert_eq!(TailSpec::new("orders", 1).first_step(1), 64);
}

#[test]
fn the_default_anchor_is_the_log_end() {
    assert_eq!(TailSpec::new("orders", 500).anchor, TailAnchor::LogEnd);
    assert_eq!(TailAnchor::default(), TailAnchor::LogEnd);
}

#[test]
fn an_offset_anchor_is_an_inclusive_upper_bound() {
    // `Offset(16733)` yields 16733 and the records before it, so the exclusive
    // bound handed to the walk is one past it.
    assert_eq!(clamp_bound(16_733 + 1, 0, 100_000), 16_734);
    assert_eq!(resolve_anchor(TailAnchor::Offset(16_733), 0, 100_000, None), 16_734);
}

#[test]
fn an_anchor_above_the_log_end_yields_the_partitions_own_tail() {
    assert_eq!(clamp_bound(901, 100, 500), 500);
}

#[test]
fn an_anchor_below_the_log_start_yields_nothing() {
    let log_start = 12_000i64;
    let bound = clamp_bound(43, log_start, 16_733);
    assert_eq!(bound, log_start);
    assert!(!(bound > log_start), "the walk must not run");
}

#[test]
fn an_empty_partition_clamps_to_itself() {
    assert_eq!(clamp_bound(5, 7, 7), 7);
    assert_eq!(clamp_bound(9, 7, 7), 7);
}

#[test]
fn a_timestamp_anchor_asks_about_the_millisecond_after() {
    // The broker answers "first offset at or after", and the anchor is
    // inclusive, so a record written exactly at the instant must be inside the
    // window rather than one short of it.
    assert_eq!(timestamp_probe(1_754_040_945_671), 1_754_040_945_672);
}

#[test]
fn a_timestamp_probe_never_reaches_the_wire_negative() {
    // -1 is the latest offset and -2 the earliest on this request.
    assert_eq!(timestamp_probe(-1), 0);
    assert_eq!(timestamp_probe(-5_000), 0);
    assert_eq!(timestamp_probe(i64::MAX), i64::MAX);
}

#[test]
fn an_explicit_step_wins() {
    let mut spec = TailSpec::new("orders", 500);
    spec.initial_step = 4096;
    assert_eq!(spec.first_step(6), 4096);
}

fn record_at(offset: i64) -> Record {
    Record {
        topic: "orders".to_owned(),
        partition: 0,
        offset,
        timestamp: offset,
        timestamp_type: TimestampType::Creation,
        key: None,
        value: None,
        headers: Vec::new(),
        producer_id: None,
        transactional: false,
        leader_epoch: None,
    }
}

fn walk_at(window_end: i64, log_start: i64, trimmed: bool) -> Walk {
    Walk {
        partition: 0,
        leader: 1,
        log_start,
        log_end: 100,
        window_end,
        step: 64,
        collected: Vec::new(),
        malformed: 0,
        fetches: 0,
        target: 0,
        trimmed,
    }
}

/// A partition whose offsets run 0..100_000 but holds only 500 live records:
/// each window of `step` offsets yields roughly `step / 200` records. A fixed
/// step would need 200 times as many round trips as a growing one.
#[test]
fn the_step_grows_when_a_window_under_delivers() {
    let max_step = 100_000i64;
    let limit = 500usize;
    let mut walk = Walk {
        log_end: 100_000,
        step: 1_000,
        target: limit,
        ..walk_at(100_000, 0, false)
    };
    let mut windows = 0;

    while let Some((start, end)) = walk.run_until() {
        assert!(windows < 100);
        // One live record per 200 offsets.
        let yielded = (end - start) / 200;
        let records = (0..yielded).map(|i| record_at(start + i * 200)).collect();
        walk.take_window(start, records, 0, 1, max_step);
        windows += 1;
    }

    let collected = walk.collected.len();
    assert!(collected >= limit, "collected {collected} in {windows} windows");
    assert!(windows < 20, "took {windows} windows; a fixed step would take ~100");
    assert!(walk.step <= max_step);
    assert_eq!(walk.fetches, windows);
}

#[test]
fn the_walk_terminates_at_the_log_start() {
    // A partition that has been fully compacted away: the walk must stop rather
    // than stepping below the log start for ever.
    let log_start = 90_000i64;
    let mut walk = Walk {
        log_end: 100_000,
        step: 1_000,
        target: 1,
        ..walk_at(100_000, log_start, false)
    };
    let mut iterations = 0;
    while let Some((start, _)) = walk.run_until() {
        assert!(iterations < 1_000);
        // A largest step of 1000 keeps the step where it is.
        walk.take_window(start, Vec::new(), 0, 1, 1_000);
        iterations += 1;
    }
    assert_eq!(walk.window_end, log_start);
    assert_eq!(iterations, 10);
}

#[test]
fn a_window_never_steps_past_the_log_start() {
    let walk = Walk { step: 1_000, target: 1, ..walk_at(60, 50, false) };
    assert_eq!(walk.run_until(), Some((50, 60)));
}

/// A topic on a broker that holds so many records per partition, at offsets
/// counting from zero.
struct Topic {
    capacities: Vec<usize>,
}

impl Topic {
    fn facts(&self) -> Vec<PartitionFacts> {
        self.capacities
            .iter()
            .enumerate()
            .map(|(partition, capacity)| PartitionFacts {
                partition: i32::try_from(partition).unwrap(),
                leader: 1,
                earliest: 0,
                latest: i64::try_from(*capacity).unwrap(),
                at_timestamp: None,
            })
            .collect()
    }

    /// At most a hundred records from an offset on.
    fn fetch(&self, partition: i32, from: i64) -> FetchedPartition {
        let end = i64::try_from(self.capacities[usize::try_from(partition).unwrap()]).unwrap();
        let records: Vec<WireRecord> =
            (from..end.min(from + 100)).map(|offset| wire_record(offset)).collect();
        FetchedPartition {
            partition,
            records: encode(&records),
            high_watermark: end,
            last_stable_offset: end,
            log_start_offset: 0,
            aborted: Vec::new(),
        }
    }

    fn tail(&self, spec: TailSpec) -> Vec<PartitionTail> {
        let mut state = tail(spec, &self.facts());
        for _ in 0..100_000 {
            match state.step() {
                TailStep::Fetch { leader, target } => {
                    assert_eq!(leader, 1);
                    let fetched = self.fetch(target.partition, target.offset);
                    state.absorb(vec![fetched]);
                }
                TailStep::Again => {}
                TailStep::Done => return state.finish(),
            }
        }
        panic!("the tail did not end");
    }
}

fn wire_record(offset: i64) -> WireRecord {
    WireRecord {
        transactional: false,
        control: false,
        partition_leader_epoch: -1,
        producer_id: -1,
        producer_epoch: -1,
        timestamp_type: WireTimestampType::Creation,
        offset,
        sequence: i32::try_from(offset).unwrap(),
        timestamp: offset,
        key: None,
        value: Some(Bytes::from(format!("v{offset}"))),
        headers: Default::default(),
    }
}

fn encode(records: &[WireRecord]) -> Vec<u8> {
    if records.is_empty() {
        return Vec::new();
    }
    let mut buf = BytesMut::new();
    RecordBatchEncoder::encode(
        &mut buf,
        records.iter(),
        &RecordEncodeOptions { version: 2, compression: WireCompression::None },
    )
    .expect("encodes");
    buf.to_vec()
}

/// How many records each partition's tail holds, once it is seen to be the
/// newest of them.
fn allocate(capacities: &[usize], limit: usize) -> Vec<usize> {
    let topic = Topic { capacities: capacities.to_vec() };
    let tails = topic.tail(TailSpec::new("orders", limit));
    let mut granted = vec![0usize; capacities.len()];
    for tail in tails {
        let partition = usize::try_from(tail.partition).unwrap();
        granted[partition] = tail.records.len();
        let first = capacities[partition] - tail.records.len();
        let expected: Vec<i64> =
            (first..capacities[partition]).map(|offset| i64::try_from(offset).unwrap()).collect();
        let got: Vec<i64> = tail.records.iter().map(|record| record.offset).collect();
        assert_eq!(got, expected, "partition {partition}");
    }
    granted
}

/// Three partitions of which two hold nothing: dividing by what holds records
/// returns all 500.
#[test]
fn the_limit_is_not_spent_on_partitions_that_hold_nothing() {
    assert_eq!(allocate(&[0, 0, 89_478], 500), [0, 0, 500]);
}

#[test]
fn a_partition_that_runs_dry_hands_its_share_to_the_rest() {
    // The dry partition yields its 3, and the other two split the rest.
    let granted = allocate(&[3, 100_000, 100_000], 500);
    assert_eq!(granted[0], 3);
    assert_eq!(granted.iter().sum::<usize>(), 500);
    assert!(granted[1] >= 167 && granted[2] >= 167, "{granted:?}");
}

#[test]
fn a_topic_that_holds_less_than_the_limit_returns_everything_it_has() {
    assert_eq!(allocate(&[10, 0, 20], 500), [10, 0, 20]);
}

#[test]
fn an_even_topic_still_splits_evenly() {
    // The total is the limit itself; rounding shorts only the last partition in
    // the round.
    let granted = allocate(&[10_000; 16], 500);
    assert_eq!(granted.iter().sum::<usize>(), 500);
    assert!(granted.iter().filter(|&&g| g == 32).count() >= 15, "{granted:?}");
}

/// A chunk that over-delivers keeps its records, but they must not count
/// towards the topic-wide limit, and the trim must drop the oldest of them.
#[test]
fn overshoot_is_kept_whole_but_counts_and_returns_only_the_target() {
    let mut walk = walk_at(50, 10, false);
    walk.target = 2;
    for offset in [7, 8, 9] {
        walk.collected.push(record_at(offset));
    }
    assert_eq!(walk.kept(), 2, "overshoot must not spend another's share");
    assert!(walk.can_yield_more(), "the spare record is capacity for a later round");

    walk.trim_to_target();
    assert_eq!(
        walk.collected.iter().map(|record| record.offset).collect::<Vec<_>>(),
        vec![8, 9],
        "the oldest record is the one dropped"
    );
    assert!(walk.trimmed);
    assert!(!walk.finish().reached_log_start, "a trimmed walk never claims the bottom");
}

#[test]
fn a_walk_that_hit_the_log_start_says_so() {
    assert!(walk_at(10, 10, false).finish().reached_log_start);
    assert!(!walk_at(50, 10, false).finish().reached_log_start);
}

#[test]
fn a_trimmed_walk_never_claims_to_be_the_bottom() {
    assert!(!walk_at(10, 10, true).finish().reached_log_start);
}

#[test]
fn the_bounds_ride_along_on_the_result() {
    let tail = walk_at(10, 10, false).finish();
    assert_eq!((tail.log_start, tail.log_end), (10, 100));
}

#[test]
fn an_anchored_tail_ends_at_its_anchor() {
    let topic = Topic { capacities: vec![1_000] };
    let tails = topic.tail(TailSpec::new("orders", 3).ending_at(TailAnchor::Offset(600)));
    let offsets: Vec<i64> = tails[0].records.iter().map(|record| record.offset).collect();
    assert_eq!(offsets, vec![598, 599, 600]);
    assert!(!tails[0].reached_log_start);
}

#[test]
fn a_filtered_tail_goes_on_until_it_has_enough() {
    let topic = Topic { capacities: vec![3_000] };
    let spec = TailSpec::new("orders", 2).filter(RecordFilter::ValueContains(b"v100".to_vec()));
    let tails = topic.tail(spec);
    let offsets: Vec<i64> = tails[0].records.iter().map(|record| record.offset).collect();
    assert_eq!(offsets, vec![1_008, 1_009]);
}

/// One partition, as the batches it holds.
struct Batches {
    held: Vec<Vec<u8>>,
    end: i64,
}

impl Batches {
    /// The batch that holds the offset, whole, and nothing more.
    fn fetch(&self, from: i64) -> FetchedPartition {
        let held = self.held.iter().find(|batch| peek_header(batch).unwrap().last_offset >= from);
        FetchedPartition {
            partition: 0,
            records: held.cloned().unwrap_or_default(),
            high_watermark: self.end,
            last_stable_offset: self.end,
            log_start_offset: 0,
            aborted: vec![AbortedTransaction { producer_id: 9, first_offset: 20 }],
        }
    }

    fn tail(&self, spec: TailSpec) -> PartitionTail {
        let facts = vec![PartitionFacts {
            partition: 0,
            leader: 1,
            earliest: 0,
            latest: self.end,
            at_timestamp: None,
        }];
        let mut state = tail(spec, &facts);
        for _ in 0..10_000 {
            match state.step() {
                TailStep::Fetch { target, .. } => state.absorb(vec![self.fetch(target.offset)]),
                TailStep::Again => {}
                TailStep::Done => return state.finish().remove(0),
            }
        }
        panic!("the tail did not end");
    }
}

/// A batch of some records that once reached to `last`.
fn shrunk(offsets: std::ops::Range<i64>, last: i64) -> Vec<u8> {
    let records: Vec<WireRecord> = offsets.map(wire_record).collect();
    let mut batch = encode(&records);
    let delta = i32::try_from(last - records[0].offset).unwrap();
    batch[23..27].copy_from_slice(&delta.to_be_bytes());
    seal(&mut batch);
    batch
}

fn seal(batch: &mut [u8]) {
    let crc = crc32c::crc32c(&batch[21..]);
    batch[17..21].copy_from_slice(&crc.to_be_bytes());
}

/// Ten offsets each: compacted to six, a marker, an aborted transaction, whole,
/// and compacted to one.
fn compacted() -> Batches {
    let mut marker = shrunk(10..11, 19);
    marker[22] |= 0x20;
    seal(&mut marker);
    let aborted: Vec<WireRecord> = (20..30)
        .map(|offset| WireRecord { transactional: true, producer_id: 9, ..wire_record(offset) })
        .collect();
    Batches {
        held: vec![
            shrunk(0..6, 9),
            marker,
            encode(&aborted),
            shrunk(30..40, 39),
            shrunk(40..41, 49),
        ],
        end: 50,
    }
}

fn stepping(limit: usize, step: i64) -> TailSpec {
    let mut spec = TailSpec::new("orders", limit);
    spec.initial_step = step;
    spec.visibility = Visibility::CommittedOnly;
    spec
}

/// Whatever the windows, a compacted topic's records come once each, in order,
/// and none is missing.
#[test]
fn a_compacted_tail_is_complete_and_holds_nothing_twice() {
    let topic = compacted();
    let all: Vec<i64> = (0..6).chain(30..41).collect();
    for step in 1..60 {
        let tail = topic.tail(stepping(100, step));
        let offsets: Vec<i64> = tail.records.iter().map(|record| record.offset).collect();
        assert_eq!(offsets, all, "step {step}");
        assert!(tail.reached_log_start, "step {step}");
        assert_eq!(tail.malformed, 0, "step {step}");

        for limit in 1..all.len() {
            let tail = topic.tail(stepping(limit, step));
            let offsets: Vec<i64> = tail.records.iter().map(|record| record.offset).collect();
            assert_eq!(offsets, all[all.len() - limit..], "step {step}, limit {limit}");
            assert!(!tail.reached_log_start, "step {step}, limit {limit}");
        }
    }
}

/// A batch that ends past its last record is not read a second time, and a
/// fetch that shows nothing is not the end of a window.
#[test]
fn a_window_goes_on_past_what_cannot_be_shown() {
    let topic = compacted();
    let spec = stepping(100, 64);
    let mut window = WindowRead::new(4, 50);
    let mut asked = Vec::new();
    while window.unread() {
        asked.push(window.offset);
        let fetched = topic.fetch(window.offset);
        window.absorb(&spec, 0, vec![fetched]);
    }
    assert_eq!(asked, vec![4, 10, 20, 30, 40]);
    assert!(!window.over);
    let offsets: Vec<i64> = window.records.iter().map(|record| record.offset).collect();
    assert_eq!(offsets, (4..6).chain(30..41).collect::<Vec<i64>>());
}

/// A partition whose answers do not advance is not read for ever.
#[test]
fn a_window_that_does_not_advance_is_over() {
    let mut window = WindowRead::new(10, 20);
    let fetched = FetchedPartition {
        partition: 0,
        records: encode(&[wire_record(3)]),
        high_watermark: 20,
        last_stable_offset: 20,
        log_start_offset: 0,
        aborted: Vec::new(),
    };
    window.absorb(&TailSpec::new("orders", 5), 0, vec![fetched]);
    assert!(window.over);
    assert!(window.records.is_empty());
    assert_eq!((window.offset, window.fetches), (10, 1));
}

#[test]
fn a_window_without_an_answer_is_over() {
    let mut window = WindowRead::new(10, 20);
    assert!(window.unread());
    window.absorb(&TailSpec::new("orders", 5), 0, Vec::new());
    assert!(!window.unread());
    assert_eq!(window.fetches, 1);
    assert!(window.records.is_empty());
}

#[test]
fn a_timestamp_anchor_resolves_to_what_the_broker_said() {
    assert_eq!(anchor_probe(TailAnchor::LogEnd), None);
    assert_eq!(anchor_probe(TailAnchor::Offset(4)), None);
    assert_eq!(anchor_probe(TailAnchor::Timestamp(9)), Some(10));
    assert_eq!(resolve_anchor(TailAnchor::Timestamp(9), 0, 100, Some(40)), 40);
    assert_eq!(resolve_anchor(TailAnchor::Timestamp(9), 0, 100, None), 100);
    assert_eq!(resolve_anchor(TailAnchor::LogEnd, 0, 100, None), 100);
}

#[test]
fn a_tail_walks_what_was_asked_for_or_everything() {
    let all = TailSpec::new("orders", 5);
    assert_eq!(partitions_to_walk(&all, Some(vec![0, 1])).unwrap(), vec![0, 1]);
    let unknown = partitions_to_walk(&all, None).unwrap_err();
    assert_eq!(unknown.code(), Some(ErrorCode::UnknownTopicOrPartition));
    let some = TailSpec::new("orders", 5).partitions(vec![7]);
    assert_eq!(partitions_to_walk(&some, Some(vec![0, 1])).unwrap(), vec![7]);
}

#[test]
fn a_share_is_rounded_up() {
    assert_eq!(divided(500, 3), 167);
    assert_eq!(divided(500, 500), 1);
    assert_eq!(divided(0, 3), 0);
}
