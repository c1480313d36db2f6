//! Sequence numbers and producer ids.

use kaas_lib::error::{ErrorCode, ErrorKind};
use kaas_lib::produce::idempotence::{
    claimed_identity, invalidates_producer_state, InitProducerIdAnswer, Sequences,
};

fn key() -> (String, i32) {
    ("t".to_owned(), 0)
}

#[test]
fn sequences_start_at_zero_and_advance_by_the_record_count() {
    let mut sequences = Sequences::default();
    assert_eq!(sequences.reserve(key(), 10), 0);
    assert_eq!(sequences.reserve(key(), 5), 10);
    assert_eq!(sequences.reserve(key(), 1), 15);
}

#[test]
fn partitions_number_independently() {
    let mut sequences = Sequences::default();
    assert_eq!(sequences.reserve(("t".to_owned(), 0), 4), 0);
    assert_eq!(sequences.reserve(("t".to_owned(), 1), 4), 0);
    assert_eq!(sequences.reserve(("t".to_owned(), 0), 4), 4);
}

/// The assertion that protects every later batch: a released reservation is
/// handed to the next batch, so the broker sees no gap.
#[test]
fn a_released_reservation_is_reused_rather_than_burned() {
    let mut sequences = Sequences::default();
    let base = sequences.reserve(key(), 100);
    assert_eq!(base, 0);
    sequences.release(key(), base);
    assert_eq!(
        sequences.reserve(key(), 100),
        0,
        "a failed batch's numbers must be reused, or every later batch is \
         rejected as out of order"
    );
}

#[test]
fn a_reset_restarts_every_partition() {
    let mut sequences = Sequences::default();
    sequences.reserve(("t".to_owned(), 0), 7);
    sequences.reserve(("t".to_owned(), 1), 7);
    sequences.reset();
    assert_eq!(sequences.reserve(("t".to_owned(), 0), 1), 0);
    assert_eq!(sequences.reserve(("t".to_owned(), 1), 1), 0);
}

#[test]
fn sequences_wrap_rather_than_saturating() {
    let mut sequences = Sequences::default();
    sequences.release(key(), i32::MAX - 1);
    assert_eq!(sequences.reserve(key(), 4), i32::MAX - 1);
    // Wrapped, which is what the protocol defines; saturating would stall every
    // later batch on a duplicate sequence.
    assert_eq!(sequences.reserve(key(), 1), i32::MIN + 2);
}

#[test]
fn the_three_recoverable_producer_state_errors_are_recognised() {
    for code in [
        ErrorCode::UnknownProducerId,
        ErrorCode::OutOfOrderSequenceNumber,
        ErrorCode::InvalidProducerEpoch,
    ] {
        assert!(
            invalidates_producer_state(code),
            "{code:?} means the broker lost our producer state and must \
             re-init rather than fail"
        );
    }
    assert!(!invalidates_producer_state(ErrorCode::NotLeaderOrFollower));
    assert!(!invalidates_producer_state(ErrorCode::MessageTooLarge));
}

#[test]
fn a_claim_is_answered_with_an_identity_or_an_error() {
    let claimed = claimed_identity(InitProducerIdAnswer {
        error_code: 0,
        producer_id: 9,
        producer_epoch: 2,
    })
    .unwrap();
    assert_eq!((claimed.producer_id, claimed.producer_epoch), (9, 2));
    let refused = claimed_identity(InitProducerIdAnswer {
        error_code: 15,
        producer_id: -1,
        producer_epoch: -1,
    })
    .unwrap_err();
    assert_eq!(refused.code(), Some(ErrorCode::CoordinatorNotAvailable));
    assert!(matches!(refused.kind, ErrorKind::Broker { .. }));
}
