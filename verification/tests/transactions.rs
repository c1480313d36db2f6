//! Transactional state.

use kaas_lib::error::{Error, ErrorCode, ErrorKind};
use kaas_lib::produce::transactions::{
    coordinator_not_ready, ConsumerGroupMetadata, CoordinatorStep, OffsetsHop, PartitionResult,
    Transactions, COORDINATOR_ATTEMPTS,
};

fn txn() -> Transactions {
    Transactions::new("t-1".to_owned())
}

fn claimed() -> Transactions {
    let mut txn = txn();
    txn.initialised(7, 0);
    txn
}

fn text(error: &Error) -> &str {
    match &error.kind {
        ErrorKind::InvalidRequest(text) => text,
        other => panic!("{other:?}"),
    }
}

fn accepted(topic: &str, partition: i32) -> PartitionResult {
    PartitionResult { topic: topic.to_owned(), partition, error_code: 0 }
}

fn refused(topic: &str, partition: i32, code: ErrorCode) -> PartitionResult {
    PartitionResult { topic: topic.to_owned(), partition, error_code: code.code() }
}

fn failed(step: CoordinatorStep) -> Error {
    match step {
        CoordinatorStep::Fail(error) => error,
        other => panic!("{other:?}"),
    }
}

fn context(error: &Error) -> &str {
    match &error.kind {
        ErrorKind::Broker { context: Some(text), .. } => text,
        other => panic!("{other:?}"),
    }
}

/// Enrols one partition of an open transaction.
fn enrol(txn: &mut Transactions, topic: &str, partition: i32) {
    let partitions = vec![(topic.to_owned(), partition)];
    let step = txn.enrolment_answered(&partitions, &vec![accepted(topic, partition)], 1);
    assert!(matches!(step, CoordinatorStep::Done));
}

#[test]
fn begin_needs_an_id_first() {
    let mut txn = txn();
    let error = txn.begin().expect_err("no id claimed yet");
    assert!(text(&error).contains("init_transactions"));
}

#[test]
fn a_transaction_cannot_be_opened_twice() {
    let mut txn = claimed();
    txn.begin().expect("opens");
    let error = txn.begin().expect_err("already open");
    assert!(text(&error).contains("already open"));
}

/// A fenced producer must not become un-fenced by anything short of being
/// thrown away, because the epoch it holds is permanently stale.
#[test]
fn fencing_is_terminal_for_every_later_operation() {
    let mut txn = claimed();
    txn.begin().expect("opens");

    txn.note(&Error::from_code(ErrorCode::ProducerFenced, None));

    let error = txn.begin().expect_err("fenced");
    assert_eq!(error.code(), Some(ErrorCode::ProducerFenced));
    assert!(!txn.is_open(), "fencing closes the open transaction");
    assert!(txn.check_live().is_err());
    assert!(txn.init().is_err());
    assert!(txn.end(true).is_err());
}

/// Somebody else bumped our epoch: the same situation under a different code.
#[test]
fn a_bumped_epoch_fences_too() {
    let mut txn = txn();
    txn.note(&Error::from_code(ErrorCode::InvalidProducerEpoch, None));
    assert_eq!(txn.begin().expect_err("fenced").code(), Some(ErrorCode::ProducerFenced));
}

#[test]
fn enrolment_is_remembered_so_a_partition_is_added_once() {
    let mut txn = claimed();
    txn.begin().expect("opens");

    let partitions = vec![("a".to_owned(), 0), ("a".to_owned(), 1)];
    assert_eq!(txn.unenrolled(&partitions).len(), 2);

    enrol(&mut txn, "a", 0);
    assert_eq!(txn.unenrolled(&partitions), vec![("a".to_owned(), 1)]);
}

/// Outside a transaction nothing is enrolled.
#[test]
fn nothing_is_enrolled_while_no_transaction_is_open() {
    let txn = txn();
    assert!(txn.unenrolled(&vec![("a".to_owned(), 0)]).is_empty());
}

#[test]
fn beginning_clears_the_previous_transactions_enrolment() {
    let mut txn = claimed();
    txn.begin().expect("opens");
    enrol(&mut txn, "a", 0);
    txn.ended(-1, -1);

    txn.begin().expect("reopens");
    assert_eq!(
        txn.unenrolled(&vec![("a".to_owned(), 0)]).len(),
        1,
        "a new transaction must re-add every partition it touches"
    );
}

#[test]
fn a_busy_coordinator_is_asked_again_and_not_for_ever() {
    let mut txn = claimed();
    assert!(matches!(txn.call_coordinator(0, 1), CoordinatorStep::Done));
    assert!(matches!(
        txn.call_coordinator(ErrorCode::NotCoordinator.code(), 1),
        CoordinatorStep::AskAgain { invalidate: true }
    ));
    assert!(matches!(
        txn.call_coordinator(ErrorCode::ConcurrentTransactions.code(), 1),
        CoordinatorStep::AskAgain { invalidate: false }
    ));
    assert!(matches!(
        txn.call_coordinator(ErrorCode::NotCoordinator.code(), COORDINATOR_ATTEMPTS),
        CoordinatorStep::Fail(error) if error.code() == Some(ErrorCode::NotCoordinator)
    ));
    assert!(txn.check_live().is_ok());
    assert!(matches!(
        txn.call_coordinator(ErrorCode::ProducerFenced.code(), 1),
        CoordinatorStep::Fail(_)
    ));
    assert!(txn.check_live().is_err());
    assert!(coordinator_not_ready(ErrorCode::CoordinatorLoadInProgress));
    assert!(!coordinator_not_ready(ErrorCode::ProducerFenced));
}

#[test]
fn an_enrolment_is_asked_for_by_topic() {
    let txn = claimed();
    assert!(txn.enrol(&Vec::new()).unwrap().is_none());
    let partitions = vec![("a".to_owned(), 0), ("b".to_owned(), 3), ("a".to_owned(), 1)];
    let request = txn.enrol(&partitions).unwrap().unwrap();
    assert_eq!(request.transactional_id, "t-1");
    assert_eq!(request.identity.producer_id, 7);
    assert_eq!(
        request.topics,
        vec![("a".to_owned(), vec![0, 1]), ("b".to_owned(), vec![3])]
    );
    assert_eq!(
        text(&Transactions::new("t-2".to_owned()).enrol(&partitions).unwrap_err()),
        "no transactional producer id has been claimed"
    );
}

#[test]
fn one_refused_partition_enrols_none() {
    let mut txn = claimed();
    txn.begin().unwrap();
    let partitions = vec![("a".to_owned(), 0), ("a".to_owned(), 1)];
    let results = vec![accepted("a", 0), refused("a", 1, ErrorCode::TopicAuthorizationFailed)];
    let error = failed(txn.enrolment_answered(&partitions, &results, 1));
    assert_eq!(error.code(), Some(ErrorCode::TopicAuthorizationFailed));
    assert_eq!(context(&error), "a-1: could not be added to the transaction");
    assert_eq!(txn.unenrolled(&partitions).len(), 2);
}

/// A partition that is not ready is asked about again, and named once that is
/// given up.
#[test]
fn an_enrolment_is_asked_for_again_and_not_for_ever() {
    let mut txn = claimed();
    txn.begin().unwrap();
    let partitions = vec![("a".to_owned(), 0)];
    let busy = vec![refused("a", 0, ErrorCode::ConcurrentTransactions)];
    assert!(matches!(
        txn.enrolment_answered(&partitions, &busy, 1),
        CoordinatorStep::AskAgain { invalidate: false }
    ));
    let moved = vec![refused("a", 0, ErrorCode::NotCoordinator)];
    assert!(matches!(
        txn.enrolment_answered(&partitions, &moved, 1),
        CoordinatorStep::AskAgain { invalidate: true }
    ));
    assert_eq!(txn.unenrolled(&partitions).len(), 1);
    let error = failed(txn.enrolment_answered(&partitions, &busy, COORDINATOR_ATTEMPTS));
    assert_eq!(error.code(), Some(ErrorCode::ConcurrentTransactions));
    assert_eq!(context(&error), "a-0: could not be added to the transaction");
    assert!(txn.check_live().is_ok());
}

fn group() -> ConsumerGroupMetadata {
    ConsumerGroupMetadata {
        group_id: "g".to_owned(),
        generation: 4,
        member_id: "m".to_owned(),
        instance_id: None,
    }
}

#[test]
fn offsets_travel_inside_an_open_transaction_only() {
    let mut txn = claimed();
    let offsets = vec![("a".to_owned(), (0, 10)), ("a".to_owned(), (2, 30))];
    assert_eq!(
        text(&txn.send_offsets(&group(), &offsets).unwrap_err()),
        "no transaction is open; offsets can only be sent inside one"
    );
    txn.begin().unwrap();
    let mut request = txn.send_offsets(&group(), &offsets).unwrap();
    assert_eq!(request.next, OffsetsHop::EnrolGroup);
    assert_eq!(request.group_id, "g");
    assert_eq!(request.generation, 4);
    assert_eq!(request.member_id, "m");
    assert_eq!(request.topics, vec![("a".to_owned(), vec![(0, 10), (2, 30)])]);

    // The group's coordinator comes up only once the transaction's agreed.
    let step = txn.group_answered(&mut request, ErrorCode::NotCoordinator.code(), 1);
    assert!(matches!(step, CoordinatorStep::AskAgain { invalidate: true }));
    assert_eq!(request.next, OffsetsHop::EnrolGroup);
    assert!(matches!(txn.group_answered(&mut request, 0, 2), CoordinatorStep::Done));
    assert_eq!(request.next, OffsetsHop::StoreOffsets);
    assert_eq!(request.topics, vec![("a".to_owned(), vec![(0, 10), (2, 30)])]);

    assert!(matches!(
        txn.offsets_answered(&vec![accepted("a", 0)], 1),
        CoordinatorStep::Done
    ));
    let results = vec![accepted("a", 0), refused("a", 2, ErrorCode::ProducerFenced)];
    let error = failed(txn.offsets_answered(&results, 1));
    assert_eq!(error.code(), Some(ErrorCode::ProducerFenced));
    assert_eq!(
        context(&error),
        "a-2: offset could not be committed in the transaction; abort it rather than \
         committing a partial one"
    );
    assert!(txn.check_live().is_err(), "a fencing answer fences");
}

#[test]
fn a_refused_group_is_not_asked_to_store_offsets() {
    let mut txn = claimed();
    txn.begin().unwrap();
    let offsets = vec![("a".to_owned(), (0, 10))];
    let mut request = txn.send_offsets(&group(), &offsets).unwrap();
    let code = ErrorCode::InvalidProducerEpoch.code();
    let error = failed(txn.group_answered(&mut request, code, 1));
    assert_eq!(error.code(), Some(ErrorCode::InvalidProducerEpoch));
    assert_eq!(request.next, OffsetsHop::EnrolGroup);
    assert!(txn.check_live().is_err());
}

#[test]
fn ending_keeps_a_valid_identity_and_takes_a_new_one() {
    let mut txn = claimed();
    assert_eq!(text(&txn.end(true).unwrap_err()), "no transaction is open");
    txn.begin().unwrap();
    let request = txn.end(false).unwrap();
    assert!(!request.commit);
    txn.ended(-1, -1);
    assert!(!txn.is_open());
    assert_eq!(txn.identity().unwrap().producer_id, 7);
    txn.begin().unwrap();
    txn.ended(7, 1);
    assert_eq!(txn.identity().unwrap().producer_epoch, 1);
}

/// Such an answer has no code of its own.
#[test]
fn the_first_failure_decides_a_per_partition_answer() {
    let mut txn = claimed();
    txn.begin().unwrap();
    assert!(matches!(txn.offsets_answered(&Vec::new(), 1), CoordinatorStep::Done));
    let results = vec![
        accepted("a", 0),
        refused("a", 1, ErrorCode::ConcurrentTransactions),
        refused("a", 2, ErrorCode::TopicAuthorizationFailed),
    ];
    assert!(matches!(
        txn.offsets_answered(&results, 1),
        CoordinatorStep::AskAgain { invalidate: false }
    ));
    let error = failed(txn.offsets_answered(&results, COORDINATOR_ATTEMPTS));
    assert_eq!(error.code(), Some(ErrorCode::ConcurrentTransactions));
    assert!(context(&error).starts_with("a-1: "));
}

#[test]
fn an_init_asks_for_its_own_id() {
    let request = txn().init().unwrap();
    assert_eq!(request.transactional_id, "t-1");
    assert_eq!(request.transaction_timeout_ms, 60_000);
    assert_eq!(txn().identity(), None);
}
