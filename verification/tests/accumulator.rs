//! Buffering, closing and dispatching batches.

use kaas_lib::error::{Error, ErrorCode, ErrorKind};
use kaas_lib::keyed::PartitionMap;
use kaas_lib::produce::accumulator::{
    accounted_size, earliest_wake, now_millis, permits_for, producer_gone, Accumulator, Actor,
    Batch, Command, Completed, PartitionState, Queued, HEADER_OVERHEAD, IDENTITY_RETRY_MS,
    RECORD_OVERHEAD,
};
use kaas_lib::produce::config::{Compression, ProducerConfig};
use kaas_lib::produce::dispatch::{Ack, Resolved};
use kaas_lib::produce::idempotence::ProducerIdentity;
use kaas_lib::produce::record::ProducerRecord;
use kaas_lib::produce::send::{encode_group, send_group};
use kaas_lib::produce::transactions::{CoordinatorStep, PartitionResult, Transactions};

fn record(value_len: usize) -> ProducerRecord {
    ProducerRecord::new("t").with_value(vec![b'x'; value_len])
}

fn queued(value_len: usize, ticket: u64) -> Queued {
    Queued { record: record(value_len), ticket }
}

fn no_leaders() -> PartitionMap<i32> {
    PartitionMap::new()
}

#[test]
fn accounting_charges_payload_plus_framing() {
    let empty = accounted_size(&ProducerRecord::new("t"));
    assert_eq!(empty, RECORD_OVERHEAD);

    let with_value = accounted_size(&record(100));
    assert_eq!(with_value, RECORD_OVERHEAD + 100);

    let with_header = accounted_size(&ProducerRecord::new("t").with_header("k", b"vv".to_vec()));
    assert_eq!(with_header, RECORD_OVERHEAD + 1 + 2 + HEADER_OVERHEAD);
}

/// A tombstone's null value is not charged as if it were data, and a null
/// header value is charged only for its name.
#[test]
fn a_null_value_costs_nothing_to_buffer() {
    let tombstone = accounted_size(&ProducerRecord::new("t").with_key(b"k".to_vec()));
    assert_eq!(tombstone, RECORD_OVERHEAD + 1);

    let null_header = accounted_size(&ProducerRecord::new("t").with_null_header("h"));
    assert_eq!(null_header, RECORD_OVERHEAD + 1 + HEADER_OVERHEAD);
}

/// The permit count must not wrap: a record accounted above `u32::MAX` would
/// otherwise take a tiny number of permits and defeat the bound.
#[test]
fn permits_saturate_rather_than_wrapping() {
    assert_eq!(permits_for(0), 0);
    assert_eq!(permits_for(4096), 4096);
    assert_eq!(permits_for(usize::MAX), u32::MAX);
}

#[test]
fn a_batch_closes_when_it_reaches_the_target_size() {
    let mut state = PartitionState::new();
    let mut batch = Batch::new(0);
    batch.bytes = 900;
    state.open = Some(batch);
    assert!(state.pending.is_empty());
    assert!(!state.idle(), "an open batch is outstanding work");
}

/// Closed batches, no open batch, no caller commands coming: work blocked on a
/// missing identity must produce a wake-up on its own.
#[test]
fn work_blocked_on_a_missing_identity_still_wakes_the_actor() {
    let now = 1_000;
    assert_eq!(
        earliest_wake(None, true, now),
        Some(now + IDENTITY_RETRY_MS),
        "no open batch and no incoming command: this deadline is the only \
         thing that ever polls the actor again"
    );
    assert_eq!(
        earliest_wake(None, false, now),
        None,
        "with nothing blocked there is genuinely nothing to wait for"
    );
}

/// The retry deadline must not push out a nearer linger, and a nearer retry
/// must not wait out a distant linger.
#[test]
fn the_nearest_deadline_wins() {
    let now = 1_000;
    let soon = now + 1;
    assert_eq!(earliest_wake(Some(soon), true, now), Some(soon));

    let late = now + 60_000;
    assert_eq!(earliest_wake(Some(late), true, now), Some(now + IDENTITY_RETRY_MS));
}

#[test]
fn a_partition_with_nothing_outstanding_is_idle() {
    let state = PartitionState::new();
    assert!(state.idle());

    let busy = PartitionState { in_flight: true, ..PartitionState::new() };
    assert!(!busy.idle(), "a request on the wire is outstanding work");
}

#[test]
fn a_record_past_the_limit_is_refused_before_it_is_buffered() {
    let accumulator = Accumulator::spawn(&ProducerConfig::new().max_request_size(200));
    assert_eq!(accumulator.record_limit, 200);
    assert_eq!(accumulator.append("t", &record(168)).unwrap(), 200);
    let error = accumulator.append("t", &record(169)).unwrap_err();
    assert_eq!(error.code(), Some(ErrorCode::MessageTooLarge));
    match error.kind {
        ErrorKind::Broker { context: Some(text), .. } => {
            assert_eq!(text, "t: the record is 201 bytes, over the 200 byte limit");
        }
        other => panic!("{other:?}"),
    }
    // The buffer bounds a record too.
    let small = Accumulator::spawn(&ProducerConfig::new().buffer_memory(64));
    assert_eq!(small.record_limit, 64);
}

#[test]
fn the_clock_reads_zero_where_it_cannot_be_read() {
    assert_eq!(now_millis(Some(1_700_000_000_000)), 1_700_000_000_000);
    assert_eq!(now_millis(None), 0);
    assert_eq!(now_millis(Some(u128::MAX)), 0);
}

#[test]
fn a_producer_that_is_gone_is_a_closed_connection() {
    let error = producer_gone();
    assert!(matches!(error.kind, ErrorKind::ConnectionClosed { ref peer } if peer == "the producer"));
    assert_eq!(error.code(), None);
}

/// Records come out in the order they went in, a batch at a time, and no
/// partition has two batches on the wire.
#[test]
fn batches_go_out_in_order_one_per_partition() {
    let mut actor = Actor::new(ProducerConfig::new().idempotent(false).linger(5));
    for ticket in 0..3 {
        actor.append("t".to_owned(), 0, queued(9_000, ticket), 0);
    }
    assert!(actor.has_work(), "9000 bytes twice pass the batch size");
    assert!(!actor.is_idle());

    let groups = actor.dispatch_ready(None, &no_leaders());
    assert_eq!(groups.len(), 1);
    assert_eq!(groups[0].0, None);
    assert_eq!(groups[0].1.len(), 1);
    assert_eq!(groups[0].1[0].records.len(), 1);
    assert_eq!(groups[0].1[0].records[0].ticket, 0);
    assert!(groups[0].1[0].identity.is_none());

    // The partition is on the wire: nothing more goes.
    assert!(actor.dispatch_ready(None, &no_leaders()).is_empty());

    actor.settle(Completed {
        partitions: vec![("t".to_owned(), 0)],
        released: Vec::new(),
        reset_identity: false,
    });
    let next = actor.dispatch_ready(None, &no_leaders());
    assert_eq!(next[0].1[0].records[0].ticket, 1);
}

#[test]
fn an_open_batch_lingers_and_then_closes() {
    let mut actor = Actor::new(ProducerConfig::new().idempotent(false).linger(5));
    actor.append("t".to_owned(), 0, queued(10, 0), 100);
    assert_eq!(actor.next_deadline(100), Some(105));
    actor.close_expired(104);
    assert!(!actor.has_work());
    actor.close_expired(105);
    assert!(actor.has_work());
    assert_eq!(actor.next_deadline(105), None);
}

#[test]
fn partitions_of_one_leader_travel_together() {
    let mut actor = Actor::new(ProducerConfig::new().idempotent(false));
    let mut leaders = PartitionMap::new();
    for (partition, leader) in [(0, 1), (1, 2), (2, 1)] {
        actor.append("t".to_owned(), partition, queued(1, partition as u64), 0);
        leaders.insert("t".to_owned(), partition, leader);
    }
    actor.close_all();
    let groups = actor.dispatch_ready(None, &leaders);
    let shape: Vec<(Option<i32>, Vec<i32>)> = groups
        .iter()
        .map(|(leader, ready)| (*leader, ready.iter().map(|ready| ready.partition).collect()))
        .collect();
    assert_eq!(shape, vec![(Some(1), vec![0, 2]), (Some(2), vec![1])]);
}

/// Numbers are taken when a batch goes, given back when it did not land, and
/// start over when the broker forgets the producer.
#[test]
fn sequences_follow_the_wire() {
    let mut actor = Actor::new(ProducerConfig::new());
    actor.append("t".to_owned(), 0, queued(1, 0), 0);
    actor.append("t".to_owned(), 0, queued(1, 1), 0);
    actor.close_all();

    assert!(actor.ensure_identity(None), "an id has to be claimed first");
    assert!(actor.dispatch_ready(None, &no_leaders()).is_empty());
    assert_eq!(actor.next_deadline(10), Some(10 + IDENTITY_RETRY_MS));
    actor.claimed(ProducerIdentity { producer_id: 7, producer_epoch: 1 });
    assert!(!actor.ensure_identity(None));

    let first = actor.dispatch_ready(None, &no_leaders());
    let identity = first[0].1[0].identity.unwrap();
    assert_eq!((identity.producer_id, identity.producer_epoch), (7, 1));
    assert_eq!(identity.base_sequence, 0);
    assert!(!identity.transactional);

    actor.append("t".to_owned(), 0, queued(1, 2), 0);
    actor.close_all();
    actor.settle(Completed {
        partitions: vec![("t".to_owned(), 0)],
        released: Vec::new(),
        reset_identity: false,
    });
    let second = actor.dispatch_ready(None, &no_leaders());
    assert_eq!(second[0].1[0].identity.unwrap().base_sequence, 2);

    // It did not land: its number is used again.
    actor.append("t".to_owned(), 0, queued(1, 3), 0);
    actor.close_all();
    actor.settle(Completed {
        partitions: vec![("t".to_owned(), 0)],
        released: vec![("t".to_owned(), 0, 2)],
        reset_identity: false,
    });
    let third = actor.dispatch_ready(None, &no_leaders());
    assert_eq!(third[0].1[0].identity.unwrap().base_sequence, 2);

    actor.append("t".to_owned(), 0, queued(1, 4), 0);
    actor.close_all();
    actor.settle(Completed {
        partitions: vec![("t".to_owned(), 0)],
        released: Vec::new(),
        reset_identity: true,
    });
    assert!(actor.ensure_identity(None), "the old id is gone");
    actor.claimed(ProducerIdentity { producer_id: 8, producer_epoch: 0 });
    let fourth = actor.dispatch_ready(None, &no_leaders());
    assert_eq!(fourth[0].1[0].identity.unwrap().base_sequence, 0);
}

#[test]
fn a_flush_is_done_when_nothing_is_outstanding() {
    let mut actor = Actor::new(ProducerConfig::new().idempotent(false));
    actor.handle(
        Command::Append { topic: "t".to_owned(), partition: 0, queued: queued(1, 0) },
        0,
    );
    actor.handle(Command::Flush { ticket: 99 }, 0);
    assert!(actor.has_work(), "a flush closes what is open");
    assert!(actor.settle_flushes().is_empty());

    actor.dispatch_ready(None, &no_leaders());
    assert!(actor.settle_flushes().is_empty(), "the batch is still on the wire");
    actor.settle(Completed {
        partitions: vec![("t".to_owned(), 0)],
        released: Vec::new(),
        reset_identity: false,
    });
    actor.forget_idle();
    assert!(actor.is_idle());
    assert_eq!(actor.settle_flushes(), vec![99]);
    assert!(actor.settle_flushes().is_empty());
}

/// Inside a transaction nothing goes to a partition the coordinator has not
/// been told about, and what cannot be enrolled fails.
#[test]
fn nothing_goes_unenrolled() {
    let mut transactions = Transactions::new("tx".to_owned());
    transactions.initialised(7, 0);
    transactions.begin().unwrap();

    let mut actor = Actor::new(ProducerConfig::new().transactional_id("tx".to_owned()));
    actor.append("t".to_owned(), 0, queued(1, 0), 0);
    actor.append("t".to_owned(), 1, queued(1, 1), 0);
    actor.close_all();
    assert!(!actor.ensure_identity(Some(&transactions)));
    let left = actor.ensure_enrolled(&transactions);
    assert_eq!(left, vec![("t".to_owned(), 0), ("t".to_owned(), 1)]);
    assert!(actor.dispatch_ready(Some(&transactions), &no_leaders()).is_empty());

    let one = vec![("t".to_owned(), 0)];
    let answer = vec![PartitionResult { topic: "t".to_owned(), partition: 0, error_code: 0 }];
    assert!(matches!(
        transactions.enrolment_answered(&one, &answer, 1),
        CoordinatorStep::Done
    ));
    let groups = actor.dispatch_ready(Some(&transactions), &no_leaders());
    assert_eq!(groups[0].1.len(), 1);
    assert_eq!(groups[0].1[0].partition, 0);
    assert!(groups[0].1[0].identity.unwrap().transactional);

    let error = Error::from_code(ErrorCode::TopicAuthorizationFailed, None);
    let failed = actor.fail_unenrolled(&vec![("t".to_owned(), 1)], &error);
    assert_eq!(failed.len(), 1);
    assert_eq!(failed[0].ticket, 1);
    assert_eq!(
        failed[0].outcome.as_ref().unwrap_err().code(),
        Some(ErrorCode::TopicAuthorizationFailed)
    );
    assert!(!actor.has_work());
}

/// Every caller of a group hears exactly once: an offset, a failure, or that
/// nobody answered.
#[test]
fn every_caller_is_answered_once() {
    let mut actor = Actor::new(ProducerConfig::new());
    actor.claimed(ProducerIdentity { producer_id: 7, producer_epoch: 0 });
    for (partition, ticket) in [(0, 10), (0, 11), (1, 12), (2, 13)] {
        actor.append("t".to_owned(), partition, queued(1, ticket), 0);
    }
    actor.close_all();
    let group = actor.dispatch_ready(None, &no_leaders()).remove(0).1;
    let prepared = encode_group(group, Compression::Uncompressed, 5_000);
    assert_eq!(prepared.outbound.len(), 3);
    assert!(prepared.resolutions.is_empty());

    let finished = send_group(
        prepared,
        vec![
            Resolved {
                topic: "t".to_owned(),
                partition: 0,
                outcome: Ok(Ack { base_offset: 40, log_append_time_ms: None }),
            },
            Resolved {
                topic: "t".to_owned(),
                partition: 1,
                outcome: Err(Error::from_code(ErrorCode::UnknownProducerId, None)),
            },
        ],
    );
    let mut answers: Vec<(u64, Option<i64>)> = finished
        .resolutions
        .iter()
        .map(|resolution| {
            let offset = resolution.outcome.as_ref().ok().map(|metadata| metadata.offset);
            (resolution.ticket, offset)
        })
        .collect();
    answers.sort();
    assert_eq!(answers, vec![(10, Some(40)), (11, Some(41)), (12, None), (13, None)]);
    assert!(finished.completed.reset_identity, "the broker forgot the producer");
    assert_eq!(finished.completed.partitions.len(), 3);
    assert!(finished.completed.released.contains(&("t".to_owned(), 1, 0)));
}

/// A batch that cannot be encoded fails its callers and gives its numbers
/// back; the rest of the group goes.
#[test]
fn an_unencodable_batch_fails_alone() {
    let mut actor = Actor::new(ProducerConfig::new());
    actor.claimed(ProducerIdentity { producer_id: 7, producer_epoch: 0 });
    for (ticket, timestamp) in [(0, i64::MIN), (1, i64::MAX)] {
        let queued = Queued { record: record(1).with_timestamp(timestamp), ticket };
        actor.append("t".to_owned(), 0, queued, 0);
    }
    actor.append("t".to_owned(), 1, queued(1, 2), 0);
    actor.close_all();
    let group = actor.dispatch_ready(None, &no_leaders()).remove(0).1;
    let prepared = encode_group(group, Compression::Uncompressed, 0);
    assert_eq!(prepared.outbound.len(), 1);
    assert_eq!(prepared.outbound[0].partition, 1);
    let failed: Vec<u64> = prepared.resolutions.iter().map(|failed| failed.ticket).collect();
    assert_eq!(failed, vec![0, 1]);
    assert_eq!(prepared.completed.released, vec![("t".to_owned(), 0, 0)]);
}
