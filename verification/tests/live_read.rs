//! Judging what reading a cluster came to.

use std::collections::HashMap;

use kaas_lib::livetest::read::{
    pick_topics, tail_one, Options, ReadRun, ScanTally, TailStats, TopicListing,
};
use kaas_lib::read::backward::PartitionTail;
use kaas_lib::read::record::{DecodeError, Record};
use kaas_lib::read::scan::{ScanEvent, ScanProgress};
use kaas_lib::wire::TimestampType;

fn args(words: &[&str]) -> Vec<String> {
    words.iter().map(|word| word.to_string()).collect()
}

#[test]
fn options_are_parsed_or_named() {
    let none = Options::parse(&[]).unwrap();
    assert!(none.topics.is_empty());
    assert_eq!((none.expect, none.limit, none.max_topics), (None, 20_000, 5));
    let all = Options::parse(&args(&[
        "--topic", "a", "--topic", "b", "--expect", "3", "--limit", "+7", "--max-topics", "2",
    ]))
    .unwrap();
    assert_eq!(all.topics, args(&["a", "b"]));
    assert_eq!((all.expect, all.limit, all.max_topics), (Some(3), 7, 2));
    let refused = |words: &[&str]| Options::parse(&args(words)).err().unwrap();
    assert_eq!(refused(&["--topic"]), "--topic needs a value");
    assert_eq!(refused(&["--limit", "many"]), "--limit needs a number");
    assert_eq!(refused(&["--limit", "99999999999999999999999"]), "--limit needs a number");
    assert_eq!(refused(&["--expect"]), "--expect needs a number");
    assert_eq!(refused(&["--max-topics", "-1"]), "--max-topics needs a number");
    assert_eq!(refused(&["--nope"]), "unknown option \"--nope\"");
    assert_eq!(
        refused(&["--expect", "3"]),
        "--expect only means something with an explicit --topic"
    );
}

#[test]
fn the_first_readable_topics_are_picked() {
    let topic = |name: &str, internal, failed, partitions| TopicListing {
        name: name.to_owned(),
        internal,
        failed,
        partitions,
    };
    let topics = vec![
        topic("c", false, false, 1),
        topic("a", false, false, 2),
        topic("__hidden", false, false, 1),
        topic("broken", false, true, 1),
        topic("empty", false, false, 0),
        topic("internal", true, false, 1),
        topic("b", false, false, 1),
    ];
    assert_eq!(pick_topics(&topics, 2), args(&["a", "b"]));
    assert_eq!(pick_topics(&topics, 9), args(&["a", "b", "c"]));
}

fn record(partition: i32, offset: i64, value: Option<&[u8]>) -> Record {
    Record {
        topic: "t".to_owned(),
        partition,
        offset,
        timestamp: 0,
        timestamp_type: TimestampType::Creation,
        key: None,
        value: value.map(<[u8]>::to_vec),
        headers: Vec::new(),
        producer_id: None,
        transactional: false,
        leader_epoch: None,
    }
}

fn progress(records_emitted: u64) -> ScanProgress {
    ScanProgress {
        records_emitted,
        records_scanned: records_emitted,
        malformed_batches: 0,
        offsets_consumed: 0,
        offsets_total: 0,
        partitions_active: 0,
        partitions_planned: 1,
        reorder_window: 0,
    }
}

#[test]
fn a_scan_is_tallied() {
    let mut tally = ScanTally::new();
    let mut headed = record(1, 4, None);
    headed.headers.push(("h".to_owned(), None));
    headed.transactional = true;
    let events = vec![
        ScanEvent::PartitionStarted { partition: 0, start_offset: 0, substituted: None },
        ScanEvent::Record(record(0, 0, Some(b"v"))),
        ScanEvent::Record(headed),
        ScanEvent::Record(record(0, 1, Some(b"v"))),
        ScanEvent::Malformed {
            topic: "t".to_owned(),
            partition: 0,
            offset: 2,
            last_offset: None,
            raw: Vec::new(),
            reason: DecodeError::new("bad".to_owned()),
        },
        ScanEvent::Progress(progress(3)),
        ScanEvent::Done(progress(3)),
    ];
    for event in &events {
        tally.scan_one(event, 3);
    }
    let stats = tally.finish();
    assert_eq!(stats.records, 3);
    assert_eq!(stats.malformed, 1);
    assert_eq!(stats.tombstones, 1);
    assert_eq!(stats.with_headers, 1);
    assert_eq!(stats.transactional, 1);
    assert_eq!(stats.partitions_seen, 2);
    assert!(stats.ordered && stats.hit_limit && stats.saw_progress);

    let mut backwards = ScanTally::new();
    backwards.scan_one(&ScanEvent::Record(record(0, 5, None)), 9);
    backwards.scan_one(&ScanEvent::Record(record(0, 5, None)), 9);
    assert!(!backwards.finish().ordered);
}

fn tail(partition: i32, offsets: &[i64]) -> PartitionTail {
    PartitionTail {
        partition,
        records: offsets.iter().map(|offset| record(partition, *offset, None)).collect(),
        malformed: 0,
        fetches: 2,
        log_start: 0,
        log_end: 10,
        reached_log_start: false,
    }
}

#[test]
fn a_tail_must_end_at_the_top() {
    let latest = HashMap::from([(0, Some(10)), (1, None)]);
    let good = tail_one(&vec![tail(0, &[8, 9]), tail(1, &[3])], &latest);
    assert_eq!((good.records, good.fetches), (3, 4));
    assert!(good.ordered && good.at_end);
    assert!(!tail_one(&vec![tail(0, &[7, 8])], &latest).at_end);
    assert!(!tail_one(&vec![tail(0, &[9, 9])], &latest).ordered);
    assert!(tail_one(&vec![tail(0, &[])], &latest).at_end);
}

#[test]
fn a_read_run_reports_and_judges() {
    let (mut run, any) = ReadRun::begin("prod", &args(&["a", "b"]));
    assert!(any);
    assert_eq!(run.report.render_notes(), "# target: prod\n# reading: a, b\n");

    let mut stats = ScanTally::new().finish();
    stats.records = 4;
    assert_eq!(run.scanned("a", &stats, Some(4)), Ok(()));
    assert_eq!(
        run.scanned("b", &stats, Some(5)),
        Err("b: expected 5 records, scanned 4".to_owned())
    );
    stats.ordered = false;
    assert_eq!(
        run.scanned("b", &stats, None),
        Err("b: records came out of log order within a partition".to_owned())
    );
    let tail = TailStats { records: 2, fetches: 1, ordered: true, at_end: true };
    assert_eq!(run.tailed("a", &Ok(tail)), Ok(()));
    let unordered = TailStats { ordered: false, ..tail };
    assert_eq!(
        run.tailed("a", &Ok(unordered)),
        Err("a: the tail came back out of order".to_owned())
    );
    assert_eq!(
        run.tailed("b", &Err("it\nbroke".to_owned())),
        Err("b: tail failed: it\nbroke".to_owned())
    );
    let report = run.read();
    assert_eq!(report.get("read.topic.a.records"), Some("4"));
    assert_eq!(report.get("read.topic.b.ordered"), Some("false"));
    assert_eq!(report.get("read.topic.b.tail.error"), Some("it\\nbroke"));
    assert_eq!(report.get("read.total_records"), Some("12"));

    let (nothing, any) = ReadRun::begin("prod", &Vec::new());
    assert!(!any);
    assert!(nothing.report.render_notes().contains("no readable topics on this cluster"));
}
