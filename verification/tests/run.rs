//! The producer's loop, one turn at a time.

use kaas_lib::keyed::PartitionMap;
use kaas_lib::produce::accumulator::{Command, Completed, Queued};
use kaas_lib::produce::config::ProducerConfig;
use kaas_lib::produce::record::ProducerRecord;
use kaas_lib::produce::run::{Run, Wake};

fn unhurried() -> ProducerConfig {
    ProducerConfig::new().idempotent(false).linger(50)
}

fn append(ticket: u64, partition: i32) -> Wake {
    let record = ProducerRecord::new("t").with_value(format!("v{ticket}").into_bytes());
    Wake::Command(Command::Append {
        topic: "t".to_owned(),
        partition,
        queued: Queued { record, ticket },
    })
}

fn answered(partition: i32) -> Wake {
    Wake::Completed(Completed {
        partitions: vec![("t".to_owned(), partition)],
        released: Vec::new(),
        reset_identity: false,
    })
}

fn tickets(records: &[Queued]) -> Vec<u64> {
    records.iter().map(|queued| queued.ticket).collect()
}

#[test]
fn records_wait_out_their_linger_and_go_in_order() {
    let leaders = PartitionMap::new();
    let mut run = Run::new(unhurried());
    for ticket in 0..3 {
        run.wake(append(ticket, 0), 10 + ticket);
        let end = run.run(None, &leaders);
        assert!(end.groups.is_empty(), "the batch is still open");
        assert!(!end.over);
    }
    assert_eq!(run.actor.next_deadline(12), Some(60));

    run.wake(Wake::Deadline, 59);
    assert!(run.run(None, &leaders).groups.is_empty(), "one millisecond early");

    run.wake(Wake::Deadline, 60);
    let end = run.run(None, &leaders);
    assert_eq!(end.groups.len(), 1);
    assert_eq!(end.groups[0].0, None);
    assert_eq!(tickets(&end.groups[0].1[0].records), vec![0, 1, 2]);
}

#[test]
fn partitions_with_one_leader_travel_together() {
    let mut leaders = PartitionMap::new();
    leaders.insert("t".to_owned(), 0, 7);
    leaders.insert("t".to_owned(), 1, 8);
    leaders.insert("t".to_owned(), 2, 7);
    let mut run = Run::new(unhurried());
    for partition in 0..3 {
        run.wake(append(partition as u64, partition), 0);
    }
    run.wake(Wake::Command(Command::Flush { ticket: 9 }), 0);
    let end = run.run(None, &leaders);
    let shape: Vec<(Option<i32>, Vec<i32>)> = end
        .groups
        .iter()
        .map(|(leader, group)| (*leader, group.iter().map(|ready| ready.partition).collect()))
        .collect();
    assert_eq!(shape, vec![(Some(7), vec![0, 2]), (Some(8), vec![1])]);
    assert!(end.flushed.is_empty(), "the batches are on the wire, not answered");

    run.wake(answered(0), 1);
    run.wake(answered(1), 1);
    assert!(run.run(None, &leaders).flushed.is_empty());
    run.wake(answered(2), 2);
    assert_eq!(run.run(None, &leaders).flushed, vec![9]);
}

#[test]
fn a_second_batch_waits_for_the_first_to_be_answered() {
    let leaders = PartitionMap::new();
    let mut run = Run::new(unhurried());
    run.wake(append(1, 0), 0);
    run.wake(Wake::Deadline, 50);
    assert_eq!(run.run(None, &leaders).groups.len(), 1);

    run.wake(append(2, 0), 51);
    run.wake(Wake::Deadline, 101);
    assert!(run.run(None, &leaders).groups.is_empty());

    run.wake(answered(0), 102);
    let end = run.run(None, &leaders);
    assert_eq!(tickets(&end.groups[0].1[0].records), vec![2]);
}

#[test]
fn a_dropped_producer_still_sends_what_it_accepted() {
    let leaders = PartitionMap::new();
    let mut run = Run::new(unhurried());
    run.wake(append(4, 0), 0);
    assert!(run.listens());

    run.wake(Wake::Gone, 1);
    assert!(!run.listens());
    let end = run.run(None, &leaders);
    assert_eq!(tickets(&end.groups[0].1[0].records), vec![4]);
    assert!(!end.over, "a batch is still on the wire");

    run.wake(answered(0), 2);
    assert!(run.run(None, &leaders).over);
}

#[test]
fn a_loop_with_callers_left_is_never_over() {
    let leaders = PartitionMap::new();
    let mut run = Run::new(unhurried());
    assert!(!run.run(None, &leaders).over);
    run.wake(Wake::Gone, 0);
    assert!(run.run(None, &leaders).over);
}

#[test]
fn without_a_producer_id_nothing_goes() {
    let leaders = PartitionMap::new();
    let mut run = Run::new(unhurried().idempotent(true));
    run.wake(append(1, 0), 0);
    run.wake(Wake::Deadline, 50);
    assert!(run.actor.ensure_identity(None), "an id has to be claimed");
    assert!(run.run(None, &leaders).groups.is_empty());
}
