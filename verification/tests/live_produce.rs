//! Judging what writing to a cluster came to.

use kaas_lib::compression::Compression;
use kaas_lib::livetest::exactly_once::{
    after_abort, cycle_read, exactly_once, exactly_once_as_member, find_offset,
    member_after_abort, member_read, member_reads_on, offsets_settled, reads_on, seek_start,
    MemberState, PartitionOffset,
};
use kaas_lib::livetest::produce::{
    await_records, await_topic, check, find, first_landed, leader_map, opening_records, produce,
    produce_version, read_back, read_partition_with, routed, routed_key, take_back, Awaited,
    Options, PartitionLeader, PARTITIONS,
};
use kaas_lib::livetest::report::Report;
use kaas_lib::livetest::suite::{
    after_leave, batching, classic_group, consume, drained, group, in_order, members_settled,
    ours, steady, transactions, BatchingRun, Commit, Drain, BATCHED,
};
use kaas_lib::livetest::traffic::{broker_ids, traffic, BrokerIds, ConnectionStats, Traffic};
use kaas_lib::produce::partition::partition_for_key;
use kaas_lib::produce::record::RecordMetadata;
use kaas_lib::read::batch::Visibility;
use kaas_lib::read::record::{DecodeError, Record};
use kaas_lib::read::scan::{ScanEvent, StartPosition};
use kaas_lib::testkit::{integration_test, Expansion};
use kaas_lib::wire::TimestampType;

fn record(key: Option<&[u8]>, value: Option<&[u8]>) -> Record {
    Record {
        topic: "t".to_owned(),
        partition: 3,
        offset: 0,
        timestamp: 1_765_000_000_000,
        timestamp_type: TimestampType::Creation,
        key: key.map(<[u8]>::to_vec),
        value: value.map(<[u8]>::to_vec),
        headers: Vec::new(),
        producer_id: None,
        transactional: false,
        leader_epoch: None,
    }
}

#[test]
fn a_topic_is_given_or_created() {
    let given = Options::parse(&["--topic".to_owned(), "mine".to_owned()]).unwrap();
    let (report, topic, create) = produce("prod", &given, "scratch".to_owned());
    assert_eq!(topic, "mine");
    assert!(!create);
    assert!(report.render_notes().contains("target: prod"));
    let (_, topic, create) = produce("prod", &Options::default(), "scratch".to_owned());
    assert_eq!(topic, "scratch");
    assert!(create);
    assert_eq!(
        Options::parse(&["--nope".to_owned()]).err().unwrap(),
        "unknown produce option \"--nope\""
    );
    assert!(Options::parse(&["--topic".to_owned()]).is_err());
}

#[test]
fn leaders_are_reported() {
    let mut report = Report::new();
    leader_map(
        &mut report,
        &vec![
            PartitionLeader { partition: 0, leader: Some(2), replicas: vec![2, 1] },
            PartitionLeader { partition: 1, leader: None, replicas: Vec::new() },
        ],
    );
    produce_version(&mut report, 11);
    assert_eq!(
        report.render(),
        "produce.by_topic_id = false\nproduce.leader.p0 = 2\nproduce.leader.p1 = -\n\
         produce.partitions = 2\nproduce.replicas.p0 = 2/1\nproduce.replicas.p1 = \n\
         produce.version = 11\n"
    );
    produce_version(&mut report, 13);
    assert_eq!(report.get("produce.by_topic_id"), Some("true"));
}

/// The opening records, as a broker would hand them back.
fn read_records() -> Vec<Record> {
    opening_records("t")
        .into_iter()
        .map(|outgoing| Record {
            headers: outgoing.record.headers,
            timestamp: outgoing.record.timestamp.unwrap_or(0),
            ..record(outgoing.record.key.as_deref(), outgoing.record.value.as_deref())
        })
        .collect()
}

#[test]
fn the_opening_records_cover_every_codec() {
    let records = opening_records("t");
    assert_eq!(records.len(), 7);
    assert_eq!(records[0].record.key, Some(b"customer-7".to_vec()));
    assert_eq!(records[0].record.timestamp, Some(1_765_000_000_000));
    assert_eq!(records[1].record.value, None);
    assert_eq!(records[2].record.value, Some(Vec::new()));
    let codecs: Vec<Compression> = records[3..].iter().map(|sent| sent.compression).collect();
    assert_eq!(
        codecs,
        vec![Compression::Gzip, Compression::Snappy, Compression::Lz4, Compression::Zstd]
    );
    assert_eq!(records[3].record.value, Some(b"payload-Gzip".to_vec()));
    assert!(records.iter().all(|sent| sent.record.partition == Some(3)));
}

#[test]
fn what_reads_back_is_judged() {
    let mut report = Report::new();
    assert_eq!(read_back(&mut report, &read_records()), Ok(()));
    assert_eq!(report.get("produce.codecs_read_back"), Some("4"));
    assert_eq!(report.get("produce.fields_survived"), Some("true"));

    let judge = |records: Vec<Record>| read_back(&mut Report::new(), &records).unwrap_err();
    assert_eq!(judge(Vec::new()), "no record with key customer-7");
    let mut changed = read_records();
    changed[0].value = Some(b"other".to_vec());
    assert_eq!(judge(changed), "value did not survive the round trip");
    let mut late = read_records();
    late[0].timestamp += 1;
    assert_eq!(judge(late), "timestamp did not survive the round trip");
    let mut bare = read_records();
    bare[0].headers.pop();
    assert_eq!(judge(bare), "headers did not survive the round trip");
    let mut filled = read_records();
    filled[1].value = Some(Vec::new());
    assert_eq!(judge(filled), "tombstone stayed null did not survive the round trip");
    let mut emptied = read_records();
    emptied[2].value = None;
    assert_eq!(judge(emptied), "empty value stayed empty did not survive the round trip");
    let mut short = read_records();
    short.pop();
    assert_eq!(judge(short), "expected all 4 compressed codecs to read back, got 3");
}

#[test]
fn records_are_found_by_key() {
    let records = vec![record(Some(b"a"), None), record(Some(b"b"), Some(b"v"))];
    assert_eq!(find(&records, b"b").unwrap().value, Some(b"v".to_vec()));
    assert_eq!(find(&records, b"\xffz").unwrap_err(), "no record with key \u{fffd}z");
    assert_eq!(check("it", true), Ok(()));
    assert_eq!(check("it", false), Err("it did not survive the round trip".to_owned()));
}

#[test]
fn records_land_where_they_belong() {
    let landed = |partition| RecordMetadata {
        topic: "t".to_owned(),
        partition,
        offset: 8,
        timestamp: None,
    };
    let mut report = Report::new();
    assert_eq!(first_landed(&mut report, &landed(3), 12), Ok(()));
    assert_eq!(report.get("produce.one.offset"), Some("8"));
    assert_eq!(report.get("produce.one.broker_timestamp"), Some("-"));
    assert_eq!(
        first_landed(&mut report, &landed(1), 12),
        Err("explicit partition ignored: asked for 3, landed in 1".to_owned())
    );
    assert_eq!(routed_key(47), "key-47");
    let ours = partition_for_key(b"key-47", PARTITIONS);
    assert_eq!(routed("key-47", ours), Ok(()));
    let elsewhere = (ours + 1) % PARTITIONS;
    assert_eq!(
        routed("key-47", elsewhere),
        Err(format!("key key-47: partitioner chose {ours}, record landed in {elsewhere}"))
    );
}

#[test]
fn waits_end() {
    assert!(matches!(await_records("t", 1, 5, 5, true), Awaited::Ready));
    assert!(matches!(await_records("t", 1, 5, 4, false), Awaited::Again));
    assert!(matches!(
        await_records("t", 1, 5, 4, true),
        Awaited::Failed(text) if text == "expected 5 records in t-1, saw 4"
    ));
    assert!(matches!(await_topic("t", true, true), Awaited::Ready));
    assert!(matches!(await_topic("t", false, false), Awaited::Again));
    assert!(matches!(
        await_topic("t", false, true),
        Awaited::Failed(text) if text == "t never became describable"
    ));
}

#[test]
fn a_read_back_takes_records_and_refuses_damage() {
    let spec = read_partition_with("t", 4, Visibility::CommittedOnly);
    assert_eq!(spec.partitions, Some(vec![4]));
    assert_eq!(spec.from, StartPosition::Earliest);
    assert_eq!(spec.visibility, Visibility::CommittedOnly);
    let mut records = Vec::new();
    assert_eq!(take_back(&mut records, ScanEvent::Record(record(None, None))), Ok(()));
    assert_eq!(
        take_back(&mut records, ScanEvent::PartitionComplete { partition: 4, last_offset: 1 }),
        Ok(())
    );
    let damage = ScanEvent::Malformed {
        topic: "t".to_owned(),
        partition: 4,
        offset: 9,
        last_offset: None,
        raw: Vec::new(),
        reason: DecodeError::new("crc".to_owned()),
    };
    assert_eq!(
        take_back(&mut records, damage),
        Err("we wrote offset 9 and could not read it back: crc".to_owned())
    );
    assert_eq!(records.len(), 1);
}

fn stats(n: u64) -> Option<ConnectionStats> {
    Some(ConnectionStats {
        bytes_sent: n * 10,
        bytes_received: n * 100,
        requests_sent: n,
        responses_received: n,
    })
}

#[test]
fn traffic_is_summed_over_what_was_sampled() {
    let total = traffic(&vec![stats(2), None, stats(3)]);
    assert_eq!(
        total,
        Traffic {
            bytes_sent: 50,
            bytes_received: 500,
            requests_sent: 5,
            responses_received: 5,
            sampled: 2,
        }
    );
    let full = ConnectionStats { requests_sent: u64::MAX, ..stats(1).unwrap() };
    assert_eq!(traffic(&vec![Some(full), stats(1)]).requests_sent, u64::MAX);
    assert!(matches!(broker_ids(0, vec![3]), BrokerIds::Known(ids) if ids == vec![3]));
    assert!(matches!(broker_ids(8, Vec::new()), BrokerIds::Again));
    assert!(matches!(
        broker_ids(9, Vec::new()),
        BrokerIds::Failed(text) if text == "the cluster reported no brokers after ten refreshes"
    ));
}

#[test]
fn a_request_count_must_be_measured_and_small() {
    let run = |delivered, before, after| BatchingRun {
        delivered,
        mark: traffic(&before),
        after: traffic(&after),
        elapsed_ms: 40,
    };
    let judge = |run: BatchingRun| batching(&mut Report::new(), &run);
    let mut report = Report::new();
    let good = run(BATCHED, vec![stats(1)], vec![stats(41)]);
    assert_eq!(batching(&mut report, &good), Ok(()));
    assert_eq!(report.get("batching.records_per_request"), Some("500"));
    assert_eq!(report.get("batching.bytes_sent"), Some("400"));
    assert_eq!(
        judge(run(19_999, vec![stats(1)], vec![stats(41)])),
        Err("enqueued 20000 records, 19999 were delivered".to_owned())
    );
    assert_eq!(
        judge(run(BATCHED, vec![stats(1), stats(1)], vec![stats(41)])),
        Err("request counting is unreliable: sampled 2 brokers before and 1 after".to_owned())
    );
    assert_eq!(
        judge(run(BATCHED, vec![stats(5)], vec![stats(5)])),
        Err(
            "request counting is broken: 20000 records were delivered and acknowledged across \
             1 broker connections, which cannot have taken zero requests"
                .to_owned()
        )
    );
    assert_eq!(
        judge(run(BATCHED, vec![stats(0)], vec![stats(500)])),
        Err("batching did not happen: 500 requests for 20000 records".to_owned())
    );
}

#[test]
fn a_log_is_in_the_order_of_its_numbers() {
    let value = |n: usize| record(None, Some(format!("m-{n}").as_bytes()));
    let mut records: Vec<Record> = (0..BATCHED).map(value).collect();
    records.insert(0, record(None, Some(b"m-warmup")));
    records.push(record(None, Some(b"other-3")));
    let mut report = Report::new();
    assert_eq!(in_order(&mut report, &records, "m"), Ok(()));
    assert_eq!(report.get("batching.read_back"), Some("20000"));
    records.swap(1, 2);
    assert_eq!(
        in_order(&mut Report::new(), &records, "m"),
        Err("the log's order does not match the order records were enqueued in".to_owned())
    );
    records.remove(1);
    assert_eq!(
        in_order(&mut Report::new(), &records, "m"),
        Err("wrote 20000 records and read back 19999".to_owned())
    );
}

#[test]
fn two_readers_disagree_about_an_aborted_transaction() {
    let values = |kind: &str, n: usize| -> Vec<Record> {
        (0..n).map(|i| record(None, Some(format!("m-{kind}-{i}").as_bytes()))).collect()
    };
    let everything = [values("committed", 50), values("aborted", 50)].concat();
    assert_eq!(ours(&everything, "m", "aborted"), 50);
    let judge = |committed: Vec<Record>| {
        transactions(&mut Report::new(), &everything, &committed, "m")
    };
    assert_eq!(judge(values("committed", 50)), Ok(()));
    assert_eq!(
        judge(values("committed", 49)),
        Err("Visibility::CommittedOnly lost committed records: 49".to_owned())
    );
    assert_eq!(
        judge([values("committed", 50), values("aborted", 1)].concat()),
        Err("an aborted transaction leaked into the committed view: 1 records".to_owned())
    );
    assert_eq!(
        transactions(&mut Report::new(), &values("committed", 50), &Vec::new(), "m"),
        Err("Visibility::All must show both transactions: 50 committed, 0 aborted".to_owned())
    );
}

#[test]
fn a_drain_ends_when_nothing_comes() {
    let mut drain = Drain { total: 0, idle: 0 };
    for count in [3, 0, 0, 4, 0, 0, 0, 0, 0] {
        assert!(drain.goes_on(false));
        drain = drain.polled(count);
    }
    assert!(!drain.goes_on(false));
    assert_eq!(drain.total, 7);
    assert!(!Drain { total: 0, idle: 0 }.goes_on(true));
    assert_eq!(drained(&mut Report::new(), 6, &drain, 10), Ok(()));
    assert!(drained(&mut Report::new(), 6, &Drain { total: 0, idle: 5 }, 10).is_err());
    assert_eq!(steady(&mut Report::new(), 10, 1_999), Ok(()));
    assert!(steady(&mut Report::new(), 10, 2_000).is_err());
    assert!(steady(&mut Report::new(), 0, 0).is_err());
}

#[test]
fn a_commit_reads_back() {
    let commit = |partition, error: Option<&str>| Commit {
        topic: "t".to_owned(),
        partition,
        error: error.map(str::to_owned),
    };
    assert_eq!(consume(&mut Report::new(), &vec![commit(0, None)], 1), Ok(()));
    assert_eq!(
        consume(&mut Report::new(), &vec![commit(0, None), commit(1, Some("no"))], 1),
        Err("t-1 did not commit: no".to_owned())
    );
    assert_eq!(
        consume(&mut Report::new(), &vec![commit(0, None)], 0),
        Err("a commit that reads back as nothing committed is not a commit".to_owned())
    );
}

fn keys(partitions: &[i32]) -> Vec<(String, i32)> {
    partitions.iter().map(|partition| ("t".to_owned(), *partition)).collect()
}

#[test]
fn two_members_cover_every_partition_once() {
    assert!(members_settled(2, 4));
    assert!(!members_settled(6, 0));
    assert!(!members_settled(3, 4));
    let mut report = Report::new();
    assert_eq!(
        group(&mut report, 5, &keys(&[5, 3, 1]), &keys(&[0, 2, 4]), true, true),
        Ok(())
    );
    assert_eq!(report.get("group.covers_every_partition"), Some("true"));
    let overlapping =
        group(&mut Report::new(), 5, &keys(&[2, 1, 0]), &keys(&[5, 2, 1]), true, true)
            .unwrap_err();
    assert!(overlapping.ends_with(": [(\"t\", 1), (\"t\", 2)]"), "{overlapping}");
    let gap = group(&mut Report::new(), 5, &keys(&[0]), &keys(&[1]), true, true).unwrap_err();
    assert!(gap.starts_with("the group covers 2 of 6 partitions"), "{gap}");

    assert_eq!(after_leave(&mut Report::new(), 6), Ok(()));
    assert!(after_leave(&mut Report::new(), 5).is_err());

    let mut report = Report::new();
    assert_eq!(
        classic_group(&mut report, 5, &keys(&[0, 1, 2]), &keys(&[3, 4, 5]), true),
        Ok(())
    );
    assert_eq!(report.get("classic.union"), Some("6"));
    assert_eq!(
        classic_group(&mut Report::new(), 5, &keys(&[0, 1]), &keys(&[1, 2]), true),
        Err("two classic members own the same partitions".to_owned())
    );
    assert_eq!(
        classic_group(&mut Report::new(), 5, &keys(&[0]), &keys(&[1]), true),
        Err("the classic group covers 2 of 6 partitions".to_owned())
    );
}

fn offset(partition: i32, offset: i64) -> PartitionOffset {
    PartitionOffset { topic: "t".to_owned(), partition, offset }
}

#[test]
fn offsets_move_with_the_transaction() {
    assert_eq!(seek_start(Some(100)), 75);
    assert_eq!(seek_start(None), -25);
    assert_eq!(seek_start(Some(i64::MIN)), i64::MIN);
    assert!(reads_on(24, false) && !reads_on(25, false) && !reads_on(0, true));
    assert!(offsets_settled(1, 1, false) && offsets_settled(0, 1, true));
    assert!(!offsets_settled(0, 1, false));

    assert_eq!(cycle_read(&mut Report::new(), 25), Ok(()));
    assert_eq!(
        cycle_read(&mut Report::new(), 24),
        Err("the cycle only read 24 of 25 seeded records".to_owned())
    );
    assert_eq!(after_abort(&mut Report::new(), &Vec::new(), "t"), Ok(()));
    assert_eq!(
        after_abort(&mut Report::new(), &vec![offset(2, 7)], "t"),
        Err(
            "an aborted transaction moved the group's offset to Some(7), so the offsets were \
             never inside it"
                .to_owned()
        )
    );
    let mut report = Report::new();
    let positions = vec![offset(0, 1), offset(2, 90)];
    assert_eq!(exactly_once(&mut report, &positions, &vec![offset(2, 90)], "t"), Ok(()));
    assert_eq!(report.get("eos.committed_offset"), Some("90"));
    assert_eq!(
        exactly_once(&mut Report::new(), &positions, &vec![offset(2, 89)], "t"),
        Err(
            "a committed transaction stored Some(89), not the consumed position Some(90)"
                .to_owned()
        )
    );
    assert_eq!(
        exactly_once(&mut Report::new(), &Vec::new(), &Vec::new(), "t"),
        Err("a committed transaction stored None, not the consumed position None".to_owned())
    );
    assert_eq!(find_offset(&positions, "t", 2), Some(90));
    assert_eq!(find_offset(&positions, "u", 2), None);
}

#[test]
fn a_members_offsets_move_with_the_transaction() {
    assert!(member_reads_on(0, 5, false) && member_reads_on(2, 0, false));
    assert!(!member_reads_on(2, 5, false) && !member_reads_on(0, 0, true));
    let member = MemberState { generation: 3, id_issued: true, is_member: true };
    assert_eq!(member_read(&mut Report::new(), 5, &member), Ok(()));
    assert_eq!(
        member_read(&mut Report::new(), 0, &member),
        Err("the member never read anything to commit".to_owned())
    );
    assert_eq!(member_after_abort(&mut Report::new(), 0), Ok(()));
    assert_eq!(
        member_after_abort(&mut Report::new(), 1),
        Err("an aborted transaction moved a group member's offsets".to_owned())
    );
    let positions = vec![offset(0, 1), offset(2, 90), offset(3, 4)];
    let stored = vec![offset(3, 4), offset(0, 1), offset(2, 90)];
    assert_eq!(exactly_once_as_member(&mut Report::new(), &positions, &stored), Ok(()));
    let wrong = vec![offset(0, 2), offset(3, 4)];
    assert_eq!(
        exactly_once_as_member(&mut Report::new(), &positions, &wrong),
        Err(
            "a member's transactional commit stored the wrong offsets: \
             [\"t-0 wanted 1, stored Some(2)\", \"t-2 wanted 90, stored None\"]"
                .to_owned()
        )
    );
}

#[test]
fn an_integration_test_is_async_and_bounded() {
    assert_eq!(integration_test(false, true), Expansion::Bounded(120));
    assert_eq!(integration_test(true, true), Expansion::TakesNoArguments);
    assert_eq!(
        integration_test(true, false).refusal(),
        Some(
            "#[testkit::integration_test] takes no arguments; the two-minute deadline is not \
             configurable"
        )
    );
    assert_eq!(
        integration_test(false, false).refusal(),
        Some("#[testkit::integration_test] requires an async fn")
    );
    assert_eq!(integration_test(false, true).refusal(), None);
}
