//! Sending batches, and reading what the broker made of them.

use kaas_lib::error::{Error, ErrorCode, ErrorKind};
use kaas_lib::produce::config::{Acks, ProducerConfig, RetryPolicy};
use kaas_lib::produce::dispatch::{
    build_request, dispatch, read_response, round, send_to, Answer, Attempt, Outbound, Reached,
    Routed,
};
use kaas_lib::wire::TopicRef;

fn outbound(topic: &str, partition: i32) -> Outbound {
    Outbound { topic: topic.to_owned(), partition, encoded: b"batch".to_vec() }
}

fn answer(partition: i32, error_code: i16, base_offset: i64) -> Answer {
    Answer {
        topic: None,
        partition,
        error_code,
        error_message: None,
        base_offset,
        log_append_time_ms: -1,
    }
}

fn timeout() -> Error {
    Error { kind: ErrorKind::Timeout, retriable: true, needs_metadata_refresh: false }
}

/// The rule that costs data if it breaks: an ambiguous failure is never handed
/// back for retry, at any retry setting.
#[test]
fn an_ambiguous_failure_is_never_retriable() {
    let policy = RetryPolicy::default();
    let timeout = timeout();
    assert!(
        timeout.retriable,
        "a timeout is retriable as a read, which is exactly why produce \
         must not route through that check"
    );
    assert!(
        !Attempt::Ambiguous(timeout.duplicate()).retriable(1, &policy, false),
        "without a producer id, re-sending an unknown outcome duplicates"
    );
    assert!(
        Attempt::Ambiguous(timeout).retriable(1, &policy, true),
        "with one, the broker deduplicates the re-send"
    );
}

#[test]
fn a_rejection_a_refresh_would_fix_is_retriable() {
    let policy = RetryPolicy::default();
    for code in [
        ErrorCode::NotLeaderOrFollower,
        ErrorCode::LeaderNotAvailable,
        ErrorCode::UnknownTopicOrPartition,
    ] {
        let error = Error::from_code(code, None);
        assert!(error.needs_metadata_refresh, "{code:?} must refresh");
        assert!(Attempt::Rejected(error).retriable(1, &policy, false), "{code:?}");
    }
}

#[test]
fn a_rejection_no_retry_can_fix_is_not() {
    let policy = RetryPolicy::default();
    for code in [
        ErrorCode::RecordListTooLarge,
        ErrorCode::InvalidTopicException,
        ErrorCode::TopicAuthorizationFailed,
    ] {
        let error = Error::from_code(code, None);
        assert!(!Attempt::Rejected(error).retriable(1, &policy, true), "{code:?}");
    }
}

/// One partition's error code must not touch the partitions that travelled with
/// it in the same request.
#[test]
fn one_partitions_rejection_leaves_its_group_mates_acknowledged() {
    let answers = vec![
        answer(0, 0, 100),
        answer(1, ErrorCode::MessageTooLarge.code(), 0),
        answer(2, 0, 200),
    ];
    let results = read_response(
        &answers,
        vec![outbound("t", 0), outbound("t", 1), outbound("t", 2)],
    );

    assert_eq!(results.len(), 3);
    let by_partition = |partition: i32| {
        results.iter().find(|result| result.partition == partition).map(|result| &result.outcome)
    };
    assert!(matches!(by_partition(0), Some(Ok(ack)) if ack.base_offset == 100));
    assert!(matches!(by_partition(1), Some(Err(Attempt::Rejected(_)))));
    assert!(matches!(by_partition(2), Some(Ok(ack)) if ack.base_offset == 200));
}

/// A `CreateTime` topic answers -1, and that is not a timestamp.
#[test]
fn an_unreported_append_time_is_none_not_a_pre_epoch_instant() {
    let results = read_response(&vec![answer(0, 0, 0)], vec![outbound("t", 0)]);
    match &results[0].outcome {
        Ok(ack) => assert_eq!(ack.log_append_time_ms, None),
        Err(other) => panic!("expected an ack, got {other:?}"),
    }
    let reported = Answer { log_append_time_ms: 1_700, ..answer(0, 0, 0) };
    let results = read_response(&vec![reported], vec![outbound("t", 0)]);
    assert_eq!(results[0].outcome.as_ref().unwrap().log_append_time_ms, Some(1_700));
}

/// A partition missing from the response is ambiguous, not a rejection: the
/// request reached the broker, so we cannot claim nothing was written.
#[test]
fn a_partition_the_broker_ignored_is_ambiguous() {
    let results = read_response(&Vec::new(), vec![outbound("t", 7)]);
    assert!(matches!(results[0].outcome, Err(Attempt::Ambiguous(_))));
    assert!(
        results[0].outbound.is_some(),
        "an ambiguous batch must still be available to an idempotent retry"
    );
}

#[test]
fn an_answer_for_another_topic_is_not_ours() {
    let other = Answer { topic: Some("other".to_owned()), ..answer(0, 0, 5) };
    let ours = Answer { topic: Some("t".to_owned()), ..answer(0, 0, 9) };
    let results = read_response(&vec![other, ours], vec![outbound("t", 0)]);
    assert_eq!(results[0].outcome.as_ref().unwrap().base_offset, 9);
}

#[test]
fn batches_are_sorted_by_leader_and_the_leaderless_are_rejected() {
    let routes = round(vec![
        Routed { outbound: outbound("t", 0), leader: Ok(2) },
        Routed {
            outbound: outbound("t", 1),
            leader: Err(Error::from_code(ErrorCode::LeaderNotAvailable, None)),
        },
        Routed { outbound: outbound("t", 2), leader: Ok(1) },
        Routed { outbound: outbound("t", 3), leader: Ok(2) },
    ]);
    let shape: Vec<(i32, Vec<i32>)> = routes
        .groups
        .iter()
        .map(|(leader, group)| (*leader, group.iter().map(|batch| batch.partition).collect()))
        .collect();
    assert_eq!(shape, vec![(2, vec![0, 3]), (1, vec![2])]);
    assert_eq!(routes.unrouted.len(), 1);
    assert!(matches!(routes.unrouted[0].outcome, Err(Attempt::Rejected(_))));
}

#[test]
fn a_failure_on_the_wire_is_ambiguous_and_one_before_it_a_rejection() {
    let before = send_to(vec![outbound("t", 0)], &timeout(), Reached::Nothing);
    assert!(matches!(before[0].outcome, Err(Attempt::Rejected(_))));
    let after = send_to(vec![outbound("t", 0)], &timeout(), Reached::Wire);
    assert!(matches!(after[0].outcome, Err(Attempt::Ambiguous(_))));
    assert_eq!(after[0].outbound.as_ref().unwrap().encoded, b"batch".to_vec());
}

#[test]
fn a_request_names_topics_until_it_identifies_them() {
    let group = vec![outbound("a", 0), outbound("b", 0), outbound("a", 1)];
    let config = ProducerConfig::new().acks(Acks::Leader);
    let named = build_request(&group, 12, &Vec::new(), &config).unwrap();
    assert_eq!(named.acks, 1);
    assert_eq!(named.timeout_ms, 30_000);
    assert_eq!(named.topics.len(), 2);
    assert!(matches!(&named.topics[0].topic, TopicRef::Name(name) if name == "a"));
    let indexes: Vec<i32> = named.topics[0].partitions.iter().map(|batch| batch.0).collect();
    assert_eq!(indexes, vec![0, 1]);

    let ids = vec![("a".to_owned(), 11), ("b".to_owned(), 12)];
    let identified = build_request(&group, 13, &ids, &config).unwrap();
    assert!(matches!(identified.topics[1].topic, TopicRef::Id(12)));
    assert!(build_request(&group, 13, &Vec::new(), &config).is_err());
}

#[test]
fn every_batch_ends_or_goes_again() {
    let answers = vec![
        answer(0, 0, 100),
        answer(1, ErrorCode::NotLeaderOrFollower.code(), 0),
        answer(2, ErrorCode::MessageTooLarge.code(), 0),
    ];
    let group =
        || vec![outbound("t", 0), outbound("t", 1), outbound("t", 2), outbound("t", 3)];
    let policy = RetryPolicy { max_attempts: 2 };

    let first = dispatch(read_response(&answers, group()), 1, &policy, false);
    let done: Vec<i32> = first.resolved.iter().map(|resolved| resolved.partition).collect();
    assert_eq!(done, vec![0, 2, 3], "nobody answered for 3, and it may be in the log");
    assert_eq!(first.retry.len(), 1);
    assert_eq!(first.retry[0].partition, 1);
    assert!(first.refresh);

    let last = dispatch(read_response(&answers, group()), 2, &policy, false);
    assert_eq!(last.resolved.len(), 4);
    assert!(last.retry.is_empty());

    // A timeout on the wire may go again under idempotence only.
    let lost = || send_to(vec![outbound("t", 3)], &timeout(), Reached::Wire);
    assert!(dispatch(lost(), 1, &policy, false).retry.is_empty());
    assert_eq!(dispatch(lost(), 1, &policy, true).retry[0].partition, 3);
}

#[test]
fn a_batch_knows_its_partition() {
    assert_eq!(outbound("t", 4).key(), ("t".to_owned(), 4));
}

#[test]
fn codes_read_off_the_wire_are_written_back() {
    assert_eq!(ErrorCode::from_code(0), None);
    for number in (i16::MIN..0).chain(1..=i16::MAX) {
        assert_eq!(ErrorCode::from_code(number).unwrap().code(), number);
    }
}
