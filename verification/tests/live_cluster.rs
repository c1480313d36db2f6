//! What a cluster's answers are reported as.

use kaas_lib::livetest::assignment::{arrange, list_keys, overlap};
use kaas_lib::livetest::inventory::{groups, security, transactions, GroupKind, GroupListing};
use kaas_lib::livetest::principal::{
    listener_facts, principal, requested, Authentication, Listener, PrincipalFacts,
};
use kaas_lib::livetest::probe::{
    api_versions, cluster_shape, probe, topics, topics_to_describe, ApiEntry, ApiSupport,
    BrokerConfig, BrokerState, ClusterDescription, ConfigEntry, DescribedTopic, PartitionState,
    TopicState, TypedVersion, VersionRange,
};
use kaas_lib::livetest::report::Report;
use kaas_lib::livetest::smoke::{
    changed, cleanup, created, described, grown, offsets, per_item, record_settle,
    replication_factor, retained, settle, smoke, CreatedTopic, Deletion, DescribedPartition,
    OffsetsAnswer, SettleStep, Settled,
};
use kaas_lib::text::{
    capitals, decimal, hexadecimal, join, joined, letters, parse_number, signed, small_letters,
    sort_texts, space, spelled, split, standing, starts_with, trim, Standing,
};

fn some(text: &str) -> Option<String> {
    Some(text.to_owned())
}

fn texts(words: &[&str]) -> Vec<String> {
    words.iter().map(|word| word.to_string()).collect()
}

#[test]
fn a_probe_names_its_target() {
    let report = probe("prod", &texts(&["a:1", "b:2"]));
    assert_eq!(report.render_notes(), "# target: prod\n# bootstrap: a:1,b:2\n");
    assert_eq!(report.len(), 0);
    let report = smoke("prod", "scratch");
    assert_eq!(report.render_notes(), "# target: prod\n# scratch topic: scratch\n");
}

#[test]
fn the_version_table_lines_up_by_number() {
    let mut report = Report::new();
    let entry = |code, name: &str, ours| ApiEntry {
        code,
        name: name.to_owned(),
        broker: VersionRange { min: 0, max: 12 },
        ours,
        negotiated: None,
        broker_ahead: code == 3,
    };
    api_versions(
        &mut report,
        &vec![
            entry(3, "Metadata", Some(VersionRange { min: 1, max: 9 })),
            entry(-7, "Odd", None),
            entry(100, "Far", None),
        ],
        &ApiSupport {
            describe_topic_partitions: true,
            consumer_group_describe: false,
            share_group_describe: false,
            describe_cluster: true,
        },
        &vec![TypedVersion { name: "Fetch".to_owned(), version: Some(17) }],
    );
    assert_eq!(report.get("api.count"), Some("3"));
    assert_eq!(report.get("api.003.Metadata.broker"), Some("0..12"));
    assert_eq!(report.get("api.003.Metadata.ours"), Some("1..9"));
    assert_eq!(report.get("api.003.Metadata.negotiated"), Some("-"));
    assert!(report.contains("api.-07.Odd.broker"));
    assert!(report.contains("api.100.Far.broker"));
    assert_eq!(report.get("api.broker_ahead_count"), Some("1"));
    assert_eq!(report.get("api.unnameable_count"), Some("2"));
    assert_eq!(report.get("api.supports.describe_cluster"), Some("true"));
    assert_eq!(report.get("api.typed.Fetch"), Some("17"));
}

#[test]
fn a_clusters_shape_is_counted() {
    let mut report = Report::new();
    let description = ClusterDescription {
        cluster_id: "id".to_owned(),
        controller: None,
        brokers: vec![
            BrokerState { fenced: true, racked: false },
            BrokerState { fenced: false, racked: true },
        ],
    };
    let topics = vec![
        TopicState {
            internal: true,
            has_id: true,
            partitions: vec![PartitionState { led: false, under_replicated: true }],
        },
        TopicState {
            internal: false,
            has_id: true,
            partitions: vec![PartitionState { led: true, under_replicated: true }],
        },
    ];
    let entries = vec![
        ConfigEntry {
            name: "num.partitions".to_owned(),
            value: some("6\n"),
            explicit: true,
            sensitive: false,
        },
        ConfigEntry {
            name: "ssl.key".to_owned(),
            value: None,
            explicit: false,
            sensitive: true,
        },
    ];
    cluster_shape(&mut report, &Ok(description), 2, &topics, &BrokerConfig::Entries(entries));
    assert_eq!(report.get("cluster.id.present"), Some("true"));
    assert_eq!(report.get("cluster.controller.present"), Some("-"));
    assert_eq!(report.get("cluster.brokers.fenced"), Some("1"));
    assert_eq!(report.get("metadata.topics.internal"), Some("1"));
    assert_eq!(report.get("metadata.partitions"), Some("2"));
    assert_eq!(report.get("metadata.partitions.leaderless"), Some("1"));
    assert_eq!(report.get("metadata.partitions.under_replicated"), Some("2"));
    assert_eq!(report.get("broker_config.count"), Some("2"));
    assert_eq!(report.get("broker_config.num.partitions"), Some("6\\n"));
    assert_eq!(report.get("broker_config.compression.type"), Some("-"));

    let mut failed = Report::new();
    cluster_shape(&mut failed, &Err("no".to_owned()), 0, &Vec::new(), &BrokerConfig::Missing);
    assert_eq!(failed.get("cluster.describe.error"), Some("no"));
    assert_eq!(failed.get("broker_config.error"), Some("no result returned"));
}

#[test]
fn topics_that_disagree_are_counted() {
    let names: Vec<String> = (0..60).map(|i| format!("t{i}")).collect();
    assert_eq!(topics_to_describe(&names), names[..50].to_vec());
    assert_eq!(topics_to_describe(&texts(&["a"])), texts(&["a"]));
    let mut report = Report::new();
    topics(
        &mut report,
        &Ok(vec![
            DescribedTopic { partitions: Some(3), known: Some(3) },
            DescribedTopic { partitions: Some(3), known: Some(4) },
            DescribedTopic { partitions: None, known: Some(4) },
        ]),
        &Ok(some("UNKNOWN_TOPIC_OR_PARTITION")),
        &Ok(vec![Some(vec![false, true]), None]),
    );
    assert_eq!(report.get("describe_topics.ok"), Some("2"));
    assert_eq!(report.get("describe_topics.err"), Some("1"));
    assert_eq!(report.get("describe_topics.disagrees_with_metadata"), Some("1"));
    assert_eq!(report.get("unknown_topic.code"), Some("UNKNOWN_TOPIC_OR_PARTITION"));
    assert_eq!(report.get("log_dirs.count"), Some("2"));
    assert_eq!(report.get("log_dirs.reports_total_bytes"), Some("true"));
}

#[test]
fn groups_are_counted_by_kind() {
    let mut report = Report::new();
    let listing = |group_type: &str, describable| GroupListing {
        group_type: group_type.to_owned(),
        describable,
    };
    groups(
        &mut report,
        &Ok(vec![
            listing("Classic", true),
            listing("", true),
            listing("CLASSIC", false),
        ]),
        &Ok(vec![
            GroupKind::Classic,
            GroupKind::Unrecognized,
            GroupKind::Failed { group_id: "g".to_owned(), error: "why".to_owned() },
            GroupKind::Failed { group_id: "h".to_owned(), error: "what".to_owned() },
        ]),
    );
    assert_eq!(report.get("groups.type.classic"), Some("2"));
    assert_eq!(report.get("groups.type.unreported"), Some("1"));
    assert_eq!(report.get("groups.undescribable"), Some("1"));
    assert_eq!(report.get("groups.described.failed"), Some("2"));
    assert_eq!(report.get("groups.described.first_failure"), Some("g: why"));
    let mut failed = Report::new();
    groups(&mut failed, &Err("no".to_owned()), &Ok(Vec::new()));
    assert_eq!(failed.render(), "groups.error = no\n");
}

#[test]
fn what_a_cluster_lacks_is_a_fact_too() {
    let mut report = Report::new();
    security(
        &mut report,
        &Err(some("SECURITY_DISABLED")),
        &Ok(vec![Some(2), None, Some(1)]),
        &Ok(4),
        &Err(None),
    );
    assert_eq!(report.get("acls.supported"), Some("false"));
    assert_eq!(report.get("acls.error_code"), Some("SECURITY_DISABLED"));
    assert_eq!(report.get("scram.users"), Some("2"));
    assert_eq!(report.get("scram.credentials"), Some("3"));
    assert_eq!(report.get("quotas.entries"), Some("4"));
    assert_eq!(report.get("reassignments.error_code"), Some("-"));
    transactions(&mut report, &Ok(texts(&["Ongoing", "Empty", "Ongoing"])));
    assert_eq!(report.get("transactions.count"), Some("3"));
    assert_eq!(report.get("transactions.state.Ongoing"), Some("2"));
    let mut none = Report::new();
    transactions(&mut none, &Err(None));
    assert_eq!(none.get("transactions.supported"), Some("false"));
}

#[test]
fn a_principal_is_described_source_by_source() {
    assert_eq!(requested(&Vec::new()), texts(&["User:ANONYMOUS"]));
    assert_eq!(requested(&texts(&["User:a"])), texts(&["User:a"]));
    let mut report = Report::new();
    listener_facts(
        &mut report,
        &Authentication {
            node_id: 1,
            listeners: vec![Listener {
                name: "SASL_SSL".to_owned(),
                protocol: "SASL_SSL".to_owned(),
                sasl_mechanisms: texts(&["PLAIN", "SCRAM-SHA-512"]),
                client_auth: "none".to_owned(),
                inter_broker: true,
                controller: false,
            }],
            client_listeners: 1,
            mapping_rules: None,
            maps_to_subjects: true,
            client_mechanisms: texts(&["PLAIN"]),
        },
    );
    assert_eq!(
        report.get("auth.listener.sasl_ssl.sasl_mechanisms"),
        Some("PLAIN,SCRAM-SHA-512")
    );
    assert_eq!(report.get("auth.principal_mapping_rules"), Some("-"));
    principal(
        &mut report,
        0,
        &PrincipalFacts {
            name: "User:a".to_owned(),
            is_distinguished_name: false,
            scram: Ok((1, texts(&["SCRAM-SHA-512"]))),
            tokens: Err("not\nhere".to_owned()),
            acls: Ok(2),
            quotas: Ok(0),
            has_stored_credentials: true,
            is_unrecorded: false,
            verdict: "scram".to_owned(),
            basis: "credentials".to_owned(),
            conclusive: true,
        },
    );
    assert_eq!(report.get("principal.0.scram.mechanisms"), Some("SCRAM-SHA-512"));
    assert_eq!(report.get("principal.0.tokens.error"), Some("not\\nhere"));
    assert_eq!(report.get("principal.0.acls.count"), Some("2"));
    assert_eq!(report.get("principal.0.verdict.conclusive"), Some("true"));
}

#[test]
fn a_change_settles_or_does_not() {
    assert_eq!(
        [0, 1, 2, 3, 9].map(replication_factor),
        [1, 1, 2, 3, 3]
    );
    assert!(matches!(
        settle("it", 2, true, 99_000, "99s"),
        SettleStep::Settled(Settled { reads: 3, elapsed_ms: 99_000 })
    ));
    assert!(matches!(settle("it", 2, false, 29_999, "30s"), SettleStep::Again { reads: 3 }));
    assert!(matches!(
        settle("it", 2, false, 30_000, "30s"),
        SettleStep::Failed(text) if text == "it did not settle after 3 reads over 30s"
    ));
    let mut report = Report::new();
    record_settle(&mut report, "smoke.create", &Settled { reads: 3, elapsed_ms: 7 });
    assert_eq!(
        report.render(),
        "smoke.create.reads_to_settle = 3\nsmoke.create.settle_ms = 7\n"
    );
}

#[test]
fn a_smoke_run_is_judged_step_by_step() {
    let mut report = Report::new();
    let topic = CreatedTopic { partitions: 3, replication_factor: 2 };
    assert_eq!(created(&mut report, "t", 2, &Some(Ok(topic))), Ok(()));
    assert_eq!(report.get("smoke.created.replication"), Some("2"));
    assert_eq!(
        created(&mut report, "t", 2, &Some(Err("no".to_owned()))),
        Err("creating t: no".to_owned())
    );
    assert_eq!(
        created(&mut report, "t", 2, &None),
        Err("create_topics returned no result for t".to_owned())
    );

    let led = |leader| DescribedPartition { leader, replicas: vec![1, 2] };
    described(&mut report, &vec![led(Some(1)), led(Some(3))], true);
    assert_eq!(report.get("smoke.described.leaders_resolved"), Some("true"));
    assert_eq!(report.get("smoke.described.leader_in_replicas"), Some("false"));
    assert!(!grown(&vec![led(Some(1))]));
    assert!(grown(&(0..6).map(|_| led(Some(1))).collect()));
    assert!(!grown(&(0..6).map(|_| led(None)).collect()));

    assert_eq!(
        changed(&mut report, "smoke.grew", "growing", "create_partitions", "t", &Some(Ok(()))),
        Ok(())
    );
    assert_eq!(
        changed(&mut report, "k", "growing", "create_partitions", "t", &Some(Err("no".to_owned()))),
        Err("growing t: no".to_owned())
    );
    assert_eq!(
        changed(&mut report, "k", "growing", "create_partitions", "t", &None),
        Err("create_partitions returned no result".to_owned())
    );
    retained(&mut report, some("3600000"), true, true);
    assert_eq!(report.get("smoke.retention.value"), Some("3600000"));

    let answer = |spec: &str, answered, error: Option<&str>| OffsetsAnswer {
        spec: spec.to_owned(),
        answered,
        error: error.map(str::to_owned),
    };
    assert_eq!(offsets(&mut report, &vec![answer("earliest", 6, None)]), Ok(()));
    assert_eq!(
        offsets(
            &mut report,
            &vec![answer("earliest", 6, None), answer("latest", 5, Some("one failed"))]
        ),
        Err("only 1 of 2 reachable ListOffsets sentinels answered for all partitions".to_owned())
    );
    assert_eq!(report.get("smoke.offsets.latest.error"), Some("one failed"));
    assert_eq!(per_item(&mut report, 1, 1, "seen"), Ok(()));
    assert_eq!(
        per_item(&mut report, 2, 0, "seen"),
        Err("expected exactly one ok and one err, got seen".to_owned())
    );

    let mut clean = Report::new();
    let deletion = |error: Option<&str>| Deletion {
        name: "t".to_owned(),
        error: error.map(str::to_owned),
    };
    cleanup(&mut clean, &Ok(vec![deletion(None), deletion(Some("busy"))]));
    assert_eq!(clean.render(), "cleanup.deleted = false\n");
    assert_eq!(clean.render_notes(), "# cleanup failed for t: busy\n");
    let mut gone = Report::new();
    cleanup(&mut gone, &Err("down".to_owned()));
    assert_eq!(gone.render_notes(), "# cleanup failed: down\n");
}

#[test]
fn assignments_are_arranged_and_held_against_each_other() {
    let keys = |names: &[(&str, i32)]| -> Vec<(String, i32)> {
        names.iter().map(|(topic, partition)| (topic.to_string(), *partition)).collect()
    };
    let a = arrange(&keys(&[("b", 0), ("a", 2), ("a", 1), ("b", 0)]));
    assert_eq!(a, keys(&[("a", 1), ("a", 2), ("b", 0)]));
    let b = arrange(&keys(&[("a", 2), ("c", 9)]));
    assert_eq!(overlap(&a, &b), keys(&[("a", 2)]));
    assert_eq!(list_keys(&a), "[(\"a\", 1), (\"a\", 2), (\"b\", 0)]");
    assert_eq!(list_keys(&Vec::new()), "[]");
}

#[test]
fn texts_are_taken_apart_and_put_together() {
    assert_eq!(decimal(0), "0");
    assert_eq!(decimal(1_000_020), "1000020");
    assert_eq!(signed(-45), "-45");
    assert_eq!(hexadecimal(0xdead_beef), "deadbeef");
    assert_eq!(joined("a", "b"), "ab");
    assert_eq!(letters("aä\u{1f600}").len(), 3);
    assert_eq!(spelled(&['x', 'ä', '\u{1f600}']), "xä\u{1f600}");
    assert_eq!(spelled(&trim(&letters("\u{2003} a b\t\u{a0}"))), "a b");
    for code in 0..0x11_0000u32 {
        if let Some(letter) = char::from_u32(code) {
            assert_eq!(space(letter), letter.is_whitespace(), "{code:x}");
        }
    }
    let pieces: Vec<String> =
        split(&letters("a,,b,"), ',').iter().map(|piece| spelled(piece)).collect();
    assert_eq!(pieces, texts(&["a", "", "b", ""]));
    assert!(starts_with(&letters("abc"), &letters("ab")));
    assert!(!starts_with(&letters("ab"), &letters("abc")));
    assert_eq!(capitals("sasl-ß 256ä"), "SASL-ß 256ä".to_owned());
    assert_eq!(small_letters("SASL-Ä"), "sasl-Ä");
    assert_eq!(join(&texts(&["a", "b"]), ", "), "a, b");
    assert_eq!(join(&Vec::new(), ", "), "");
    let number = |text: &str| parse_number(&letters(text));
    for text in ["0", "007", "+3", "18446744073709551615", "18446744073709551616", "", "+", "-1",
        " 1", "1x", "٣"]
    {
        assert_eq!(number(text), text.parse::<usize>().ok(), "{text}");
    }
    assert_eq!(
        sort_texts(texts(&["b", "a", "ä", "B", "", "ab"])),
        texts(&["", "B", "a", "ab", "b", "ä"])
    );
    assert!(matches!(standing("a", "b"), Standing::Before));
    assert!(matches!(standing("b", "b"), Standing::Same));
    assert!(matches!(standing("ba", "b"), Standing::After));
}
