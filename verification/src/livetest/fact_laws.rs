//! What holds of the facts that are reported.

use vstd::prelude::*;

use crate::compression::Compression;
use crate::keyed::PartitionKey;
use crate::livetest::assignment::common;
use crate::livetest::inventory::{
    described_facts, first_failed, kind_name, listing_facts, scram_facts, supported_facts,
    total_credentials, GroupKind, GroupListing,
};
use crate::livetest::principal::{
    all_listener_facts, authentication_facts, listener_key, one_listener_facts, password_facts,
    principal_facts, principal_key, source_facts, Authentication, Listener, PrincipalFacts,
};
use crate::livetest::probe::{
    all_dirs, all_entry_facts, all_partitions, api_key, broker_config_facts, config_facts,
    config_names, config_value, describe_facts, description_facts, disagrees,
    entry_facts, log_dir_facts, range_text, shape_facts, snapshot_facts, three_digits,
    typed_facts, unknown_facts, version_facts, ApiEntry, ApiSupport, BrokerConfig, BrokerState, ClusterDescription, ConfigEntry, DescribedTopic, LogDirs,
    PartitionState, TopicState, TypedVersion,
};
use crate::livetest::produce::{
    leader_facts, numbers_text, one_leader_facts, opening, PartitionLeader,
};
use crate::livetest::read::{scan_facts, tail_facts, topic_key, Facts, ScanStats, TailStats};
use crate::livetest::report::on_one_line;
use crate::livetest::smoke::{count_of, lemma_count_of, offsets_facts, OffsetsAnswer};
use crate::livetest::suite::{
    batching_facts, classic_facts, group_facts, steady_facts, txn_facts, BatchingRun, TxnCounts,
};
use crate::text::{decimal_of, in_small_letters, signed_of, strung, text_views, truth};

verus! {

/// Whether a fact is among others, and says a value.
pub open spec fn says(facts: Facts, key: Seq<char>, value: Seq<char>) -> bool {
    facts.contains_key(key) && facts[key] == value
}

/// What differs differs behind one front.
proof fn lemma_behind_one_front(front: Seq<char>, a: Seq<char>, b: Seq<char>)
    requires
        a != b,
    ensures
        front + a != front + b,
{
    let n = front.len() as int;
    assert((front + a).skip(n) =~= a);
    assert((front + b).skip(n) =~= b);
}

/// What is reported of batching: the records, the requests they took, the bytes sent,
/// the time, and how many records went with a request.
pub proof fn what_is_reported_of_batching(facts: Facts, run: BatchingRun)
    requires
        run.after.requests_sent > run.mark.requests_sent,
        run.after.bytes_sent >= run.mark.bytes_sent,
    ensures
        ({
            let out = batching_facts(facts, run);
            &&& says(out, "batching.records"@, decimal_of(run.delivered as nat))
            &&& says(
                out,
                "batching.requests"@,
                decimal_of((run.after.requests_sent - run.mark.requests_sent) as nat),
            )
            &&& says(
                out,
                "batching.bytes_sent"@,
                decimal_of((run.after.bytes_sent - run.mark.bytes_sent) as nat),
            )
            &&& says(out, "batching.elapsed_ms"@, decimal_of(run.elapsed_ms as nat))
            &&& says(
                out,
                "batching.records_per_request"@,
                decimal_of(run.delivered as nat / (run.after.requests_sent - run.mark.requests_sent) as nat),
            )
        }),
{
    reveal_strlit("batching.records");
    reveal_strlit("batching.requests");
    reveal_strlit("batching.bytes_sent");
    reveal_strlit("batching.elapsed_ms");
    reveal_strlit("batching.records_per_request");
    assert("batching.records"@.len() == 16);
    assert("batching.requests"@.len() == 17);
    assert("batching.bytes_sent"@.len() == 19);
    assert("batching.elapsed_ms"@.len() == 19);
    assert("batching.records_per_request"@.len() == 28);
    assert("batching.bytes_sent"@[9] != "batching.elapsed_ms"@[9]);
}

/// What is reported of transactions: what each of the two readers saw of each.
pub proof fn what_is_reported_of_transactions(facts: Facts, counts: TxnCounts)
    ensures
        ({
            let out = txn_facts(facts, counts);
            &&& says(out, "txn.all.committed_records"@, decimal_of(counts.all_committed as nat))
            &&& says(out, "txn.all.aborted_records"@, decimal_of(counts.all_aborted as nat))
            &&& says(
                out,
                "txn.committed_only.committed_records"@,
                decimal_of(counts.only_committed as nat),
            )
            &&& says(
                out,
                "txn.committed_only.aborted_records"@,
                decimal_of(counts.only_aborted as nat),
            )
        }),
{
    reveal_strlit("txn.all.committed_records");
    reveal_strlit("txn.all.aborted_records");
    reveal_strlit("txn.committed_only.committed_records");
    reveal_strlit("txn.committed_only.aborted_records");
    assert("txn.all.committed_records"@.len() == 25);
    assert("txn.all.aborted_records"@.len() == 23);
    assert("txn.committed_only.committed_records"@.len() == 36);
    assert("txn.committed_only.aborted_records"@.len() == 34);
}

/// What is reported of caught-up polls that are incremental.
pub proof fn what_is_reported_of_steady_polls(facts: Facts, requests: u64, bytes: u64)
    requires
        requests > 0,
        bytes / requests < 200,
    ensures
        ({
            let out = steady_facts(facts, requests, bytes);
            &&& says(out, "consume.steady_requests"@, decimal_of(requests as nat))
            &&& says(out, "consume.steady_bytes"@, decimal_of(bytes as nat))
            &&& says(
                out,
                "consume.steady_bytes_per_request"@,
                decimal_of((bytes / requests) as nat),
            )
            &&& says(out, "consume.session_incremental"@, truth(true))
        }),
{
    reveal_strlit("consume.steady_requests");
    reveal_strlit("consume.steady_bytes");
    reveal_strlit("consume.steady_bytes_per_request");
    reveal_strlit("consume.session_incremental");
    assert("consume.steady_requests"@.len() == 23);
    assert("consume.steady_bytes"@.len() == 20);
    assert("consume.steady_bytes_per_request"@.len() == 32);
    assert("consume.session_incremental"@.len() == 27);
}

/// What is reported of two members of a group that share nothing and cover everything.
pub proof fn what_is_reported_of_a_group(
    facts: Facts,
    settle_ms: u64,
    a: Seq<PartitionKey>,
    b: Seq<PartitionKey>,
    named: (bool, bool),
)
    requires
        common(a, b).len() == 0,
        a.len() + b.len() == 6,
    ensures
        ({
            let out = group_facts(facts, settle_ms, a, b, named);
            &&& says(out, "group.settle_ms"@, decimal_of(settle_ms as nat))
            &&& says(out, "group.member_a"@, decimal_of(a.len()))
            &&& says(out, "group.member_b"@, decimal_of(b.len()))
            &&& says(out, "group.member_a_id_issued"@, truth(named.0))
            &&& says(out, "group.member_b_id_issued"@, truth(named.1))
            &&& says(out, "group.overlap"@, decimal_of(0))
            &&& says(out, "group.union"@, decimal_of(6))
            &&& says(out, "group.covers_every_partition"@, truth(true))
        }),
{
    reveal_strlit("group.settle_ms");
    reveal_strlit("group.member_a");
    reveal_strlit("group.member_b");
    reveal_strlit("group.member_a_id_issued");
    reveal_strlit("group.member_b_id_issued");
    reveal_strlit("group.overlap");
    reveal_strlit("group.union");
    reveal_strlit("group.covers_every_partition");
    assert("group.settle_ms"@.len() == 15);
    assert("group.member_a"@.len() == 14);
    assert("group.member_b"@.len() == 14);
    assert("group.member_a_id_issued"@.len() == 24);
    assert("group.member_b_id_issued"@.len() == 24);
    assert("group.overlap"@.len() == 13);
    assert("group.union"@.len() == 11);
    assert("group.covers_every_partition"@.len() == 28);
    assert("group.member_a"@[13] != "group.member_b"@[13]);
    assert("group.member_a_id_issued"@[13] != "group.member_b_id_issued"@[13]);
}

/// What is reported of two members of a classic group that share nothing and cover everything.
pub proof fn what_is_reported_of_a_classic_group(
    facts: Facts,
    settle_ms: u64,
    a: Seq<PartitionKey>,
    b: Seq<PartitionKey>,
    led: bool,
)
    requires
        common(a, b).len() == 0,
        a.len() + b.len() == 6,
    ensures
        ({
            let out = classic_facts(facts, settle_ms, a, b, led);
            &&& says(out, "classic.settle_ms"@, decimal_of(settle_ms as nat))
            &&& says(out, "classic.member_a"@, decimal_of(a.len()))
            &&& says(out, "classic.member_b"@, decimal_of(b.len()))
            &&& says(out, "classic.leader_elected"@, truth(led))
            &&& says(out, "classic.overlap"@, decimal_of(0))
            &&& says(out, "classic.union"@, decimal_of(6))
            &&& says(out, "classic.covers_every_partition"@, truth(true))
        }),
{
    reveal_strlit("classic.settle_ms");
    reveal_strlit("classic.member_a");
    reveal_strlit("classic.member_b");
    reveal_strlit("classic.leader_elected");
    reveal_strlit("classic.overlap");
    reveal_strlit("classic.union");
    reveal_strlit("classic.covers_every_partition");
    assert("classic.settle_ms"@.len() == 17);
    assert("classic.member_a"@.len() == 16);
    assert("classic.member_b"@.len() == 16);
    assert("classic.leader_elected"@.len() == 22);
    assert("classic.overlap"@.len() == 15);
    assert("classic.union"@.len() == 13);
    assert("classic.covers_every_partition"@.len() == 30);
    assert("classic.member_a"@[15] != "classic.member_b"@[15]);
}

/// What is reported of a topic's scan, under the topic's own key.
pub proof fn what_is_reported_of_a_scan(facts: Facts, key: Seq<char>, stats: ScanStats)
    ensures
        ({
            let out = scan_facts(facts, key, stats);
            &&& says(out, key + ".records"@, decimal_of(stats.records as nat))
            &&& says(out, key + ".malformed"@, decimal_of(stats.malformed as nat))
            &&& says(out, key + ".tombstones"@, decimal_of(stats.tombstones as nat))
            &&& says(out, key + ".with_headers"@, decimal_of(stats.with_headers as nat))
            &&& says(out, key + ".transactional"@, decimal_of(stats.transactional as nat))
            &&& says(out, key + ".ordered"@, truth(stats.ordered))
            &&& says(out, key + ".partitions_seen"@, decimal_of(stats.partitions_seen as nat))
            &&& says(out, key + ".hit_limit"@, truth(stats.hit_limit))
            &&& says(out, key + ".saw_progress"@, truth(stats.saw_progress))
        }),
{
    reveal_strlit(".records");
    reveal_strlit(".malformed");
    reveal_strlit(".tombstones");
    reveal_strlit(".with_headers");
    reveal_strlit(".transactional");
    reveal_strlit(".ordered");
    reveal_strlit(".partitions_seen");
    reveal_strlit(".hit_limit");
    reveal_strlit(".saw_progress");
    assert(".records"@.len() == 8);
    assert(".malformed"@.len() == 10);
    assert(".tombstones"@.len() == 11);
    assert(".with_headers"@.len() == 13);
    assert(".transactional"@.len() == 14);
    assert(".ordered"@.len() == 8);
    assert(".partitions_seen"@.len() == 16);
    assert(".hit_limit"@.len() == 10);
    assert(".saw_progress"@.len() == 13);
    lemma_behind_one_front(key, ".records"@, ".malformed"@);
    lemma_behind_one_front(key, ".records"@, ".tombstones"@);
    lemma_behind_one_front(key, ".records"@, ".with_headers"@);
    lemma_behind_one_front(key, ".records"@, ".transactional"@);
    assert(".records"@[1] != ".ordered"@[1]);
    lemma_behind_one_front(key, ".records"@, ".ordered"@);
    lemma_behind_one_front(key, ".records"@, ".partitions_seen"@);
    lemma_behind_one_front(key, ".records"@, ".hit_limit"@);
    lemma_behind_one_front(key, ".records"@, ".saw_progress"@);
    lemma_behind_one_front(key, ".malformed"@, ".tombstones"@);
    lemma_behind_one_front(key, ".malformed"@, ".with_headers"@);
    lemma_behind_one_front(key, ".malformed"@, ".transactional"@);
    lemma_behind_one_front(key, ".malformed"@, ".ordered"@);
    lemma_behind_one_front(key, ".malformed"@, ".partitions_seen"@);
    assert(".malformed"@[1] != ".hit_limit"@[1]);
    lemma_behind_one_front(key, ".malformed"@, ".hit_limit"@);
    lemma_behind_one_front(key, ".malformed"@, ".saw_progress"@);
    lemma_behind_one_front(key, ".tombstones"@, ".with_headers"@);
    lemma_behind_one_front(key, ".tombstones"@, ".transactional"@);
    lemma_behind_one_front(key, ".tombstones"@, ".ordered"@);
    lemma_behind_one_front(key, ".tombstones"@, ".partitions_seen"@);
    lemma_behind_one_front(key, ".tombstones"@, ".hit_limit"@);
    lemma_behind_one_front(key, ".tombstones"@, ".saw_progress"@);
    lemma_behind_one_front(key, ".with_headers"@, ".transactional"@);
    lemma_behind_one_front(key, ".with_headers"@, ".ordered"@);
    lemma_behind_one_front(key, ".with_headers"@, ".partitions_seen"@);
    lemma_behind_one_front(key, ".with_headers"@, ".hit_limit"@);
    assert(".with_headers"@[1] != ".saw_progress"@[1]);
    lemma_behind_one_front(key, ".with_headers"@, ".saw_progress"@);
    lemma_behind_one_front(key, ".transactional"@, ".ordered"@);
    lemma_behind_one_front(key, ".transactional"@, ".partitions_seen"@);
    lemma_behind_one_front(key, ".transactional"@, ".hit_limit"@);
    lemma_behind_one_front(key, ".transactional"@, ".saw_progress"@);
    lemma_behind_one_front(key, ".ordered"@, ".partitions_seen"@);
    lemma_behind_one_front(key, ".ordered"@, ".hit_limit"@);
    lemma_behind_one_front(key, ".ordered"@, ".saw_progress"@);
    lemma_behind_one_front(key, ".partitions_seen"@, ".hit_limit"@);
    lemma_behind_one_front(key, ".partitions_seen"@, ".saw_progress"@);
    lemma_behind_one_front(key, ".hit_limit"@, ".saw_progress"@);
}

/// What is reported of a topic's tail, under the topic's own key.
pub proof fn what_is_reported_of_a_tail(facts: Facts, key: Seq<char>, stats: TailStats)
    ensures
        ({
            let out = tail_facts(facts, key, stats);
            &&& says(out, key + ".tail.records"@, decimal_of(stats.records as nat))
            &&& says(out, key + ".tail.ordered"@, truth(stats.ordered))
            &&& says(out, key + ".tail.ends_at_high_watermark"@, truth(stats.at_end))
            &&& says(out, key + ".tail.fetches"@, decimal_of(stats.fetches as nat))
        }),
{
    reveal_strlit(".tail.records");
    reveal_strlit(".tail.ordered");
    reveal_strlit(".tail.ends_at_high_watermark");
    reveal_strlit(".tail.fetches");
    assert(".tail.records"@.len() == 13);
    assert(".tail.ordered"@.len() == 13);
    assert(".tail.ends_at_high_watermark"@.len() == 28);
    assert(".tail.fetches"@.len() == 13);
    assert(".tail.records"@[6] != ".tail.ordered"@[6]);
    lemma_behind_one_front(key, ".tail.records"@, ".tail.ordered"@);
    lemma_behind_one_front(key, ".tail.records"@, ".tail.ends_at_high_watermark"@);
    assert(".tail.records"@[6] != ".tail.fetches"@[6]);
    lemma_behind_one_front(key, ".tail.records"@, ".tail.fetches"@);
    lemma_behind_one_front(key, ".tail.ordered"@, ".tail.ends_at_high_watermark"@);
    assert(".tail.ordered"@[6] != ".tail.fetches"@[6]);
    lemma_behind_one_front(key, ".tail.ordered"@, ".tail.fetches"@);
    lemma_behind_one_front(key, ".tail.ends_at_high_watermark"@, ".tail.fetches"@);
}

/// What is reported of an api key: the broker's versions, ours, and the one agreed on.
pub proof fn what_is_reported_of_an_api(facts: Facts, entry: ApiEntry)
    ensures
        ({
            let out = entry_facts(facts, entry);
            &&& says(out, api_key(entry) + ".broker"@, range_text(entry.broker))
            &&& says(
                out,
                api_key(entry) + ".ours"@,
                match entry.ours {
                    Some(range) => range_text(range),
                    None => "-"@,
                },
            )
            &&& says(
                out,
                api_key(entry) + ".negotiated"@,
                match entry.negotiated {
                    Some(version) => signed_of(version as int),
                    None => "-"@,
                },
            )
        }),
{
    reveal_strlit(".broker");
    reveal_strlit(".ours");
    reveal_strlit(".negotiated");
    assert(".broker"@.len() == 7);
    assert(".ours"@.len() == 5);
    assert(".negotiated"@.len() == 11);
    lemma_behind_one_front(api_key(entry), ".broker"@, ".ours"@);
    lemma_behind_one_front(api_key(entry), ".broker"@, ".negotiated"@);
    lemma_behind_one_front(api_key(entry), ".ours"@, ".negotiated"@);
}

/// What is reported of the version table besides its entries.
pub proof fn what_is_reported_of_the_apis(facts: Facts, entries: Seq<ApiEntry>, support: ApiSupport)
    ensures
        ({
            let out = version_facts(facts, entries, support, seq![]);
            &&& says(
                out,
                "api.broker_ahead_count"@,
                decimal_of(count_of(entries, |entry: ApiEntry| entry.broker_ahead)),
            )
            &&& says(
                out,
                "api.unnameable_count"@,
                decimal_of(count_of(entries, |entry: ApiEntry| entry.ours is None)),
            )
            &&& says(
                out,
                "api.supports.describe_topic_partitions"@,
                truth(support.describe_topic_partitions),
            )
            &&& says(
                out,
                "api.supports.consumer_group_describe"@,
                truth(support.consumer_group_describe),
            )
            &&& says(out, "api.supports.share_group_describe"@, truth(support.share_group_describe))
            &&& says(out, "api.supports.describe_cluster"@, truth(support.describe_cluster))
        }),
{
    reveal_strlit("api.broker_ahead_count");
    reveal_strlit("api.unnameable_count");
    reveal_strlit("api.supports.describe_topic_partitions");
    reveal_strlit("api.supports.consumer_group_describe");
    reveal_strlit("api.supports.share_group_describe");
    reveal_strlit("api.supports.describe_cluster");
    assert("api.broker_ahead_count"@.len() == 22);
    assert("api.unnameable_count"@.len() == 20);
    assert("api.supports.describe_topic_partitions"@.len() == 38);
    assert("api.supports.consumer_group_describe"@.len() == 36);
    assert("api.supports.share_group_describe"@.len() == 33);
    assert("api.supports.describe_cluster"@.len() == 29);
}

/// What is reported of what a cluster says of itself.
pub proof fn what_is_reported_of_a_cluster(facts: Facts, known: ClusterDescription)
    ensures
        ({
            let out = description_facts(facts, Ok(known));
            &&& says(out, "cluster.id.present"@, truth(known.cluster_id@.len() > 0))
            &&& says(
                out,
                "cluster.controller.present"@,
                if known.controller is Some {
                    truth(true)
                } else {
                    "-"@
                },
            )
            &&& says(out, "cluster.brokers"@, decimal_of(known.brokers@.len()))
            &&& says(
                out,
                "cluster.brokers.fenced"@,
                decimal_of(count_of(known.brokers@, |broker: BrokerState| broker.fenced)),
            )
            &&& says(
                out,
                "cluster.brokers.racked"@,
                decimal_of(count_of(known.brokers@, |broker: BrokerState| broker.racked)),
            )
        }),
{
    reveal_strlit("cluster.id.present");
    reveal_strlit("cluster.controller.present");
    reveal_strlit("cluster.brokers");
    reveal_strlit("cluster.brokers.fenced");
    reveal_strlit("cluster.brokers.racked");
    assert("cluster.id.present"@.len() == 18);
    assert("cluster.controller.present"@.len() == 26);
    assert("cluster.brokers"@.len() == 15);
    assert("cluster.brokers.fenced"@.len() == 22);
    assert("cluster.brokers.racked"@.len() == 22);
    assert("cluster.brokers.fenced"@[16] != "cluster.brokers.racked"@[16]);
}

/// What is reported of a metadata snapshot.
pub proof fn what_is_reported_of_metadata(facts: Facts, brokers: usize, topics: Seq<TopicState>)
    requires
        all_partitions(topics).len() <= usize::MAX,
    ensures
        ({
            let out = snapshot_facts(facts, brokers, topics);
            &&& says(out, "metadata.brokers"@, decimal_of(brokers as nat))
            &&& says(out, "metadata.topics"@, decimal_of(topics.len()))
            &&& says(
                out,
                "metadata.topics.internal"@,
                decimal_of(count_of(topics, |topic: TopicState| topic.internal)),
            )
            &&& says(out, "metadata.partitions"@, decimal_of(all_partitions(topics).len()))
            &&& says(
                out,
                "metadata.partitions.leaderless"@,
                decimal_of(count_of(all_partitions(topics), |partition: PartitionState| !partition.led)),
            )
            &&& says(
                out,
                "metadata.partitions.under_replicated"@,
                decimal_of(count_of(all_partitions(topics), |partition: PartitionState| partition.under_replicated)),
            )
            &&& says(
                out,
                "metadata.topic_ids.present"@,
                decimal_of(count_of(topics, |topic: TopicState| topic.has_id)),
            )
        }),
{
    reveal_strlit("metadata.brokers");
    reveal_strlit("metadata.topics");
    reveal_strlit("metadata.topics.internal");
    reveal_strlit("metadata.partitions");
    reveal_strlit("metadata.partitions.leaderless");
    reveal_strlit("metadata.partitions.under_replicated");
    reveal_strlit("metadata.topic_ids.present");
    assert("metadata.brokers"@.len() == 16);
    assert("metadata.topics"@.len() == 15);
    assert("metadata.topics.internal"@.len() == 24);
    assert("metadata.partitions"@.len() == 19);
    assert("metadata.partitions.leaderless"@.len() == 30);
    assert("metadata.partitions.under_replicated"@.len() == 36);
    assert("metadata.topic_ids.present"@.len() == 26);
    lemma_count_of(all_partitions(topics), |partition: PartitionState| !partition.led);
    lemma_count_of(
        all_partitions(topics),
        |partition: PartitionState| partition.under_replicated,
    );
}

/// What is reported of topics that were described: how many were, and how many of them
/// disagree with the metadata.
pub proof fn what_is_reported_of_described_topics(facts: Facts, topics: Vec<DescribedTopic>)
    ensures
        ({
            let out = describe_facts(facts, Ok(topics));
            &&& says(out, "describe_topics.asked"@, decimal_of(topics@.len()))
            &&& says(
                out,
                "describe_topics.ok"@,
                decimal_of(count_of(topics@, |topic: DescribedTopic| topic.partitions is Some)),
            )
            &&& says(
                out,
                "describe_topics.err"@,
                decimal_of(count_of(topics@, |topic: DescribedTopic| topic.partitions is None)),
            )
            &&& says(
                out,
                "describe_topics.disagrees_with_metadata"@,
                decimal_of(count_of(topics@, |topic: DescribedTopic| disagrees(topic))),
            )
        }),
{
    reveal_strlit("describe_topics.asked");
    reveal_strlit("describe_topics.ok");
    reveal_strlit("describe_topics.err");
    reveal_strlit("describe_topics.disagrees_with_metadata");
    assert("describe_topics.asked"@.len() == 21);
    assert("describe_topics.ok"@.len() == 18);
    assert("describe_topics.err"@.len() == 19);
    assert("describe_topics.disagrees_with_metadata"@.len() == 39);
}

/// What is reported of the brokers' log directories.
pub proof fn what_is_reported_of_log_directories(facts: Facts, brokers: Vec<LogDirs>)
    requires
        all_dirs(brokers@).len() <= usize::MAX,
    ensures
        ({
            let out = log_dir_facts(facts, Ok(brokers));
            &&& says(
                out,
                "log_dirs.brokers_ok"@,
                decimal_of(count_of(brokers@, |dirs: LogDirs| dirs is Some)),
            )
            &&& says(
                out,
                "log_dirs.brokers_err"@,
                decimal_of(count_of(brokers@, |dirs: LogDirs| dirs is None)),
            )
            &&& says(out, "log_dirs.count"@, decimal_of(all_dirs(brokers@).len()))
            &&& says(out, "log_dirs.reports_total_bytes"@, truth(all_dirs(brokers@).contains(true)))
        }),
{
    reveal_strlit("log_dirs.brokers_ok");
    reveal_strlit("log_dirs.brokers_err");
    reveal_strlit("log_dirs.count");
    reveal_strlit("log_dirs.reports_total_bytes");
    assert("log_dirs.brokers_ok"@.len() == 19);
    assert("log_dirs.brokers_err"@.len() == 20);
    assert("log_dirs.count"@.len() == 14);
    assert("log_dirs.reports_total_bytes"@.len() == 28);
}

/// What is reported of groups that were described: how many of each kind.
pub proof fn what_is_reported_of_described_groups(facts: Facts, groups: Vec<GroupKind>)
    ensures
        ({
            let out = described_facts(facts, Ok(groups));
            &&& says(
                out,
                "groups.described.classic"@,
                decimal_of(count_of(groups@, |group: GroupKind| group is Classic)),
            )
            &&& says(
                out,
                "groups.described.consumer"@,
                decimal_of(count_of(groups@, |group: GroupKind| group is Consumer)),
            )
            &&& says(
                out,
                "groups.described.share"@,
                decimal_of(count_of(groups@, |group: GroupKind| group is Share)),
            )
            &&& says(
                out,
                "groups.described.unrecognized"@,
                decimal_of(count_of(groups@, |group: GroupKind| group is Unrecognized)),
            )
            &&& says(
                out,
                "groups.described.failed"@,
                decimal_of(count_of(groups@, |group: GroupKind| group is Failed)),
            )
            &&& says(
                out,
                "groups.described.first_failure"@,
                match first_failed(groups@) {
                    Some(text) => on_one_line(text),
                    None => "-"@,
                },
            )
        }),
{
    reveal_strlit("groups.described.classic");
    reveal_strlit("groups.described.consumer");
    reveal_strlit("groups.described.share");
    reveal_strlit("groups.described.unrecognized");
    reveal_strlit("groups.described.failed");
    reveal_strlit("groups.described.first_failure");
    assert("groups.described.classic"@.len() == 24);
    assert("groups.described.consumer"@.len() == 25);
    assert("groups.described.share"@.len() == 22);
    assert("groups.described.unrecognized"@.len() == 29);
    assert("groups.described.failed"@.len() == 23);
    assert("groups.described.first_failure"@.len() == 30);
}

/// What is reported of groups that were listed, besides their kinds.
pub proof fn what_is_reported_of_listed_groups(facts: Facts, listings: Seq<GroupListing>)
    ensures
        ({
            let out = listing_facts(facts, listings);
            &&& says(
                out,
                "groups.describable"@,
                decimal_of(count_of(listings, |listing: GroupListing| listing.describable)),
            )
            &&& says(
                out,
                "groups.undescribable"@,
                decimal_of(count_of(listings, |listing: GroupListing| !listing.describable)),
            )
        }),
{
    reveal_strlit("groups.describable");
    reveal_strlit("groups.undescribable");
    assert("groups.describable"@.len() == 18);
    assert("groups.undescribable"@.len() == 20);
}

/// What is reported of the users that have passwords.
pub proof fn what_is_reported_of_passwords(facts: Facts, users: Vec<Option<usize>>)
    requires
        total_credentials(users@) <= usize::MAX,
    ensures
        ({
            let out = scram_facts(facts, Ok(users));
            &&& says(out, "scram.supported"@, truth(true))
            &&& says(
                out,
                "scram.users"@,
                decimal_of(count_of(users@, |user: Option<usize>| user is Some)),
            )
            &&& says(out, "scram.credentials"@, decimal_of(total_credentials(users@)))
        }),
{
    reveal_strlit("scram.supported");
    reveal_strlit("scram.users");
    reveal_strlit("scram.credentials");
    assert("scram.supported"@.len() == 15);
    assert("scram.users"@.len() == 11);
    assert("scram.credentials"@.len() == 17);
}

/// What is reported of a listener, under its own key.
pub proof fn what_is_reported_of_a_listener(facts: Facts, listener: Listener)
    ensures
        ({
            let out = one_listener_facts(facts, listener);
            &&& says(out, listener_key(listener) + ".protocol"@, listener.protocol@)
            &&& says(
                out,
                listener_key(listener) + ".sasl_mechanisms"@,
                strung(text_views(listener.sasl_mechanisms@), ","@),
            )
            &&& says(out, listener_key(listener) + ".client_auth"@, listener.client_auth@)
            &&& says(out, listener_key(listener) + ".inter_broker"@, truth(listener.inter_broker))
            &&& says(out, listener_key(listener) + ".controller"@, truth(listener.controller))
        }),
{
    reveal_strlit(".protocol");
    reveal_strlit(".sasl_mechanisms");
    reveal_strlit(".client_auth");
    reveal_strlit(".inter_broker");
    reveal_strlit(".controller");
    assert(".protocol"@.len() == 9);
    assert(".sasl_mechanisms"@.len() == 16);
    assert(".client_auth"@.len() == 12);
    assert(".inter_broker"@.len() == 13);
    assert(".controller"@.len() == 11);
    lemma_behind_one_front(listener_key(listener), ".protocol"@, ".sasl_mechanisms"@);
    lemma_behind_one_front(listener_key(listener), ".protocol"@, ".client_auth"@);
    lemma_behind_one_front(listener_key(listener), ".protocol"@, ".inter_broker"@);
    lemma_behind_one_front(listener_key(listener), ".protocol"@, ".controller"@);
    lemma_behind_one_front(listener_key(listener), ".sasl_mechanisms"@, ".client_auth"@);
    lemma_behind_one_front(listener_key(listener), ".sasl_mechanisms"@, ".inter_broker"@);
    lemma_behind_one_front(listener_key(listener), ".sasl_mechanisms"@, ".controller"@);
    lemma_behind_one_front(listener_key(listener), ".client_auth"@, ".inter_broker"@);
    lemma_behind_one_front(listener_key(listener), ".client_auth"@, ".controller"@);
    lemma_behind_one_front(listener_key(listener), ".inter_broker"@, ".controller"@);
}

/// What is reported of a principal whose sources all answered, under its own key.
pub proof fn what_is_reported_of_a_principal(facts: Facts, index: usize, known: PrincipalFacts)
    requires
        known.scram is Ok,
        known.tokens is Ok,
        known.acls is Ok,
        known.quotas is Ok,
    ensures
        ({
            let out = principal_facts(facts, index, known);
            &&& says(out, principal_key(index) + ".name"@, on_one_line(known.name@))
            &&& says(
                out,
                principal_key(index) + ".is_distinguished_name"@,
                truth(known.is_distinguished_name),
            )
            &&& says(
                out,
                principal_key(index) + ".scram.count"@,
                decimal_of(known.scram->Ok_0.0 as nat),
            )
            &&& says(
                out,
                principal_key(index) + ".scram.mechanisms"@,
                strung(text_views(known.scram->Ok_0.1@), ","@),
            )
            &&& says(
                out,
                principal_key(index) + ".tokens.count"@,
                decimal_of(known.tokens->Ok_0 as nat),
            )
            &&& says(
                out,
                principal_key(index) + ".acls.count"@,
                decimal_of(known.acls->Ok_0 as nat),
            )
            &&& says(
                out,
                principal_key(index) + ".quotas.count"@,
                decimal_of(known.quotas->Ok_0 as nat),
            )
            &&& says(
                out,
                principal_key(index) + ".has_stored_credentials"@,
                truth(known.has_stored_credentials),
            )
            &&& says(out, principal_key(index) + ".is_unrecorded"@, truth(known.is_unrecorded))
            &&& says(out, principal_key(index) + ".verdict"@, on_one_line(known.verdict@))
            &&& says(out, principal_key(index) + ".verdict.basis"@, known.basis@)
            &&& says(out, principal_key(index) + ".verdict.conclusive"@, truth(known.conclusive))
        }),
{
    reveal_strlit(".name");
    reveal_strlit(".is_distinguished_name");
    reveal_strlit(".scram.count");
    reveal_strlit(".scram.mechanisms");
    reveal_strlit(".tokens.count");
    reveal_strlit(".acls.count");
    reveal_strlit(".quotas.count");
    reveal_strlit(".has_stored_credentials");
    reveal_strlit(".is_unrecorded");
    reveal_strlit(".verdict");
    reveal_strlit(".verdict.basis");
    reveal_strlit(".verdict.conclusive");
    assert(".name"@.len() == 5);
    assert(".is_distinguished_name"@.len() == 22);
    assert(".scram.count"@.len() == 12);
    assert(".scram.mechanisms"@.len() == 17);
    assert(".tokens.count"@.len() == 13);
    assert(".acls.count"@.len() == 11);
    assert(".quotas.count"@.len() == 13);
    assert(".has_stored_credentials"@.len() == 23);
    assert(".is_unrecorded"@.len() == 14);
    assert(".verdict"@.len() == 8);
    assert(".verdict.basis"@.len() == 14);
    assert(".verdict.conclusive"@.len() == 19);
    lemma_behind_one_front(principal_key(index), ".name"@, ".is_distinguished_name"@);
    lemma_behind_one_front(principal_key(index), ".name"@, ".scram.count"@);
    lemma_behind_one_front(principal_key(index), ".name"@, ".scram.mechanisms"@);
    lemma_behind_one_front(principal_key(index), ".name"@, ".tokens.count"@);
    lemma_behind_one_front(principal_key(index), ".name"@, ".acls.count"@);
    lemma_behind_one_front(principal_key(index), ".name"@, ".quotas.count"@);
    lemma_behind_one_front(principal_key(index), ".name"@, ".has_stored_credentials"@);
    lemma_behind_one_front(principal_key(index), ".name"@, ".is_unrecorded"@);
    lemma_behind_one_front(principal_key(index), ".name"@, ".verdict"@);
    lemma_behind_one_front(principal_key(index), ".name"@, ".verdict.basis"@);
    lemma_behind_one_front(principal_key(index), ".name"@, ".verdict.conclusive"@);
    lemma_behind_one_front(principal_key(index), ".is_distinguished_name"@, ".scram.count"@);
    lemma_behind_one_front(principal_key(index), ".is_distinguished_name"@, ".scram.mechanisms"@);
    lemma_behind_one_front(principal_key(index), ".is_distinguished_name"@, ".tokens.count"@);
    lemma_behind_one_front(principal_key(index), ".is_distinguished_name"@, ".acls.count"@);
    lemma_behind_one_front(principal_key(index), ".is_distinguished_name"@, ".quotas.count"@);
    lemma_behind_one_front(principal_key(index), ".is_distinguished_name"@, ".has_stored_credentials"@);
    lemma_behind_one_front(principal_key(index), ".is_distinguished_name"@, ".is_unrecorded"@);
    lemma_behind_one_front(principal_key(index), ".is_distinguished_name"@, ".verdict"@);
    lemma_behind_one_front(principal_key(index), ".is_distinguished_name"@, ".verdict.basis"@);
    lemma_behind_one_front(principal_key(index), ".is_distinguished_name"@, ".verdict.conclusive"@);
    lemma_behind_one_front(principal_key(index), ".scram.count"@, ".scram.mechanisms"@);
    lemma_behind_one_front(principal_key(index), ".scram.count"@, ".tokens.count"@);
    lemma_behind_one_front(principal_key(index), ".scram.count"@, ".acls.count"@);
    lemma_behind_one_front(principal_key(index), ".scram.count"@, ".quotas.count"@);
    lemma_behind_one_front(principal_key(index), ".scram.count"@, ".has_stored_credentials"@);
    lemma_behind_one_front(principal_key(index), ".scram.count"@, ".is_unrecorded"@);
    lemma_behind_one_front(principal_key(index), ".scram.count"@, ".verdict"@);
    lemma_behind_one_front(principal_key(index), ".scram.count"@, ".verdict.basis"@);
    lemma_behind_one_front(principal_key(index), ".scram.count"@, ".verdict.conclusive"@);
    lemma_behind_one_front(principal_key(index), ".scram.mechanisms"@, ".tokens.count"@);
    lemma_behind_one_front(principal_key(index), ".scram.mechanisms"@, ".acls.count"@);
    lemma_behind_one_front(principal_key(index), ".scram.mechanisms"@, ".quotas.count"@);
    lemma_behind_one_front(principal_key(index), ".scram.mechanisms"@, ".has_stored_credentials"@);
    lemma_behind_one_front(principal_key(index), ".scram.mechanisms"@, ".is_unrecorded"@);
    lemma_behind_one_front(principal_key(index), ".scram.mechanisms"@, ".verdict"@);
    lemma_behind_one_front(principal_key(index), ".scram.mechanisms"@, ".verdict.basis"@);
    lemma_behind_one_front(principal_key(index), ".scram.mechanisms"@, ".verdict.conclusive"@);
    lemma_behind_one_front(principal_key(index), ".tokens.count"@, ".acls.count"@);
    assert(".tokens.count"@[1] != ".quotas.count"@[1]);
    lemma_behind_one_front(principal_key(index), ".tokens.count"@, ".quotas.count"@);
    lemma_behind_one_front(principal_key(index), ".tokens.count"@, ".has_stored_credentials"@);
    lemma_behind_one_front(principal_key(index), ".tokens.count"@, ".is_unrecorded"@);
    lemma_behind_one_front(principal_key(index), ".tokens.count"@, ".verdict"@);
    lemma_behind_one_front(principal_key(index), ".tokens.count"@, ".verdict.basis"@);
    lemma_behind_one_front(principal_key(index), ".tokens.count"@, ".verdict.conclusive"@);
    lemma_behind_one_front(principal_key(index), ".acls.count"@, ".quotas.count"@);
    lemma_behind_one_front(principal_key(index), ".acls.count"@, ".has_stored_credentials"@);
    lemma_behind_one_front(principal_key(index), ".acls.count"@, ".is_unrecorded"@);
    lemma_behind_one_front(principal_key(index), ".acls.count"@, ".verdict"@);
    lemma_behind_one_front(principal_key(index), ".acls.count"@, ".verdict.basis"@);
    lemma_behind_one_front(principal_key(index), ".acls.count"@, ".verdict.conclusive"@);
    lemma_behind_one_front(principal_key(index), ".quotas.count"@, ".has_stored_credentials"@);
    lemma_behind_one_front(principal_key(index), ".quotas.count"@, ".is_unrecorded"@);
    lemma_behind_one_front(principal_key(index), ".quotas.count"@, ".verdict"@);
    lemma_behind_one_front(principal_key(index), ".quotas.count"@, ".verdict.basis"@);
    lemma_behind_one_front(principal_key(index), ".quotas.count"@, ".verdict.conclusive"@);
    lemma_behind_one_front(principal_key(index), ".has_stored_credentials"@, ".is_unrecorded"@);
    lemma_behind_one_front(principal_key(index), ".has_stored_credentials"@, ".verdict"@);
    lemma_behind_one_front(principal_key(index), ".has_stored_credentials"@, ".verdict.basis"@);
    lemma_behind_one_front(principal_key(index), ".has_stored_credentials"@, ".verdict.conclusive"@);
    lemma_behind_one_front(principal_key(index), ".is_unrecorded"@, ".verdict"@);
    assert(".is_unrecorded"@[1] != ".verdict.basis"@[1]);
    lemma_behind_one_front(principal_key(index), ".is_unrecorded"@, ".verdict.basis"@);
    lemma_behind_one_front(principal_key(index), ".is_unrecorded"@, ".verdict.conclusive"@);
    lemma_behind_one_front(principal_key(index), ".verdict"@, ".verdict.basis"@);
    lemma_behind_one_front(principal_key(index), ".verdict"@, ".verdict.conclusive"@);
    lemma_behind_one_front(principal_key(index), ".verdict.basis"@, ".verdict.conclusive"@);
    reveal_strlit(".tokens");
    reveal_strlit(".acls");
    reveal_strlit(".quotas");
    reveal_strlit(".count");
    let key = principal_key(index);
    assert(".tokens"@ + ".count"@ =~= ".tokens.count"@);
    assert(".acls"@ + ".count"@ =~= ".acls.count"@);
    assert(".quotas"@ + ".count"@ =~= ".quotas.count"@);
    assert(key + ".tokens"@ + ".count"@ =~= key + (".tokens"@ + ".count"@));
    assert(key + ".acls"@ + ".count"@ =~= key + (".acls"@ + ".count"@));
    assert(key + ".quotas"@ + ".count"@ =~= key + (".quotas"@ + ".count"@));
}

/// What is reported of how a broker's listeners authenticate, besides the listeners.
pub proof fn what_is_reported_of_authentication(facts: Facts, known: Authentication)
    requires
        known.listeners@.len() == 0,
    ensures
        ({
            let out = authentication_facts(facts, known);
            &&& says(out, "auth.described_broker"@, signed_of(known.node_id as int))
            &&& says(out, "auth.listener.count"@, decimal_of(0))
            &&& says(out, "auth.client_listener.count"@, decimal_of(known.client_listeners as nat))
            &&& says(
                out,
                "auth.principal_mapping_rules"@,
                match known.mapping_rules {
                    Some(rules) => on_one_line(rules@),
                    None => "-"@,
                },
            )
            &&& says(out, "auth.maps_certificates_to_subjects"@, truth(known.maps_to_subjects))
            &&& says(
                out,
                "auth.client_mechanisms"@,
                strung(text_views(known.client_mechanisms@), ","@),
            )
        }),
{
    reveal_strlit("auth.described_broker");
    reveal_strlit("auth.listener.count");
    reveal_strlit("auth.client_listener.count");
    reveal_strlit("auth.principal_mapping_rules");
    reveal_strlit("auth.maps_certificates_to_subjects");
    reveal_strlit("auth.client_mechanisms");
    assert("auth.described_broker"@.len() == 21);
    assert("auth.listener.count"@.len() == 19);
    assert("auth.client_listener.count"@.len() == 26);
    assert("auth.principal_mapping_rules"@.len() == 28);
    assert("auth.maps_certificates_to_subjects"@.len() == 34);
    assert("auth.client_mechanisms"@.len() == 22);
}

/// What is reported of something a cluster may not have: that it has it, and how many; or
/// that it has not, and the code that says why.
pub proof fn what_is_reported_of_support(
    facts: Facts,
    what: Seq<char>,
    counted: Seq<char>,
    count: usize,
    code: Option<String>,
)
    requires
        "."@ + counted != ".supported"@,
    ensures
        ({
            let has = supported_facts(facts, what, counted, Ok(count));
            let has_not = supported_facts(facts, what, counted, Err(code));
            &&& has[what + ".supported"@] == truth(true)
            &&& has[what + "."@ + counted] == decimal_of(count as nat)
            &&& has_not[what + ".supported"@] == truth(false)
            &&& has_not[what + ".error_code"@] == match code {
                Some(code) => code@,
                None => "-"@,
            }
        }),
{
    reveal_strlit(".supported");
    reveal_strlit(".error_code");
    assert(".supported"@.len() == 10);
    assert(".error_code"@.len() == 11);
    lemma_behind_one_front(what, ".supported"@, ".error_code"@);
    lemma_behind_one_front(what, "."@ + counted, ".supported"@);
    assert(what + ("."@ + counted) =~= what + "."@ + counted);
}

/// What is reported of a source: how many there are, or why nobody knows.
pub proof fn what_is_reported_of_a_source(
    facts: Facts,
    key: Seq<char>,
    count: usize,
    error: String,
)
    ensures
        source_facts(facts, key, Ok(count)) == facts.insert(
            key + ".count"@,
            decimal_of(count as nat),
        ),
        source_facts(facts, key, Err(error)) == facts.insert(
            key + ".error"@,
            on_one_line(error@),
        ),
        password_facts(facts, key, Err(error)) == facts.insert(
            key + ".scram.error"@,
            on_one_line(error@),
        ),
{
}

/// What is reported of one way of asking for offsets: how many partitions answered, and
/// what went wrong unless all six did.
pub proof fn what_is_reported_of_offsets(facts: Facts, answer: OffsetsAnswer)
    ensures
        ({
            let key = "smoke.offsets."@ + answer.spec@;
            let out = offsets_facts(facts, answer);
            &&& out[key + ".ok"@] == decimal_of(answer.answered as nat)
            &&& answer.answered != 6 ==> (answer.error matches Some(error) ==> out[key + ".error"@]
                == on_one_line(error@))
            &&& answer.answered == 6 || answer.error is None ==> out == facts.insert(
                key + ".ok"@,
                decimal_of(answer.answered as nat),
            )
        }),
{
    reveal_strlit(".ok");
    reveal_strlit(".error");
    assert(".ok"@.len() == 3);
    assert(".error"@.len() == 6);
    lemma_behind_one_front("smoke.offsets."@ + answer.spec@, ".ok"@, ".error"@);
}

/// A configuration's first entry of a name counts.
pub proof fn the_first_entry_of_a_name_counts(entries: Seq<ConfigEntry>, name: Seq<char>, k: int)
    requires
        0 <= k <= entries.len(),
        forall|j: int| 0 <= j < k ==> (#[trigger] entries[j]).name@ != name,
    ensures
        k == entries.len() ==> config_value(entries, name) is None,
        k < entries.len() && entries[k].name@ == name ==> match entries[k].value {
            Some(value) => config_value(entries, name) == Some(on_one_line(value@)),
            None => config_value(entries, name) is None,
        },
    decreases entries.len(),
{
    if entries.len() > 0 && k > 0 {
        assert(entries[0].name@ != name);
        let rest = entries.skip(1);
        assert forall|j: int| 0 <= j < k - 1 implies (#[trigger] rest[j]).name@ != name by {
            assert(rest[j] == entries[j + 1]);
        }
        the_first_entry_of_a_name_counts(rest, name, k - 1);
        if k < entries.len() {
            assert(rest[k - 1] == entries[k]);
        }
    }
}

/// A topic disagrees if its two counts of partitions are known and differ.
pub proof fn when_a_topic_disagrees(topic: DescribedTopic)
    ensures
        topic.partitions is None || topic.known is None ==> !disagrees(topic),
        topic.partitions is Some && topic.known is Some ==> (disagrees(topic)
            <==> topic.partitions->Some_0 != topic.known->Some_0),
{
}

/// The partitions of topics, the directories of brokers and the credentials of users are
/// taken together, one after another; what could not be had counts for nothing.
pub proof fn how_things_are_taken_together(
    topics: Seq<TopicState>,
    topic: TopicState,
    brokers: Seq<LogDirs>,
    dirs: LogDirs,
    users: Seq<Option<usize>>,
    user: Option<usize>,
)
    ensures
        all_partitions(seq![]).len() == 0,
        all_partitions(topics.push(topic)) == all_partitions(topics) + topic.partitions@,
        all_dirs(seq![]).len() == 0,
        dirs matches Some(dirs) ==> all_dirs(brokers.push(Some(dirs))) == all_dirs(brokers) + dirs@,
        dirs is None ==> all_dirs(brokers.push(dirs)) == all_dirs(brokers),
        total_credentials(seq![]) == 0,
        user matches Some(count) ==> total_credentials(users.push(user)) == total_credentials(users)
            + count,
        user is None ==> total_credentials(users.push(user)) == total_credentials(users),
{
    assert(topics.push(topic).drop_last() =~= topics);
    assert(brokers.push(dirs).drop_last() =~= brokers);
    assert(users.push(user).drop_last() =~= users);
    if dirs is None {
        assert(all_dirs(brokers) + seq![] =~= all_dirs(brokers));
    }
}

/// A number that is filled up has three characters at least, and is filled with zeros
/// behind its sign.
pub proof fn how_a_number_is_filled_up(n: int)
    ensures
        0 <= n < 10 ==> three_digits(n) == seq!['0', '0'] + decimal_of(n as nat),
        10 <= n < 100 ==> three_digits(n) == seq!['0'] + decimal_of(n as nat),
        n >= 100 ==> three_digits(n) == decimal_of(n as nat),
        -10 < n < 0 ==> three_digits(n) == seq!['-', '0'] + decimal_of((-n) as nat),
        n <= -10 ==> three_digits(n) == seq!['-'] + decimal_of((-n) as nat),
{
    reveal_strlit("00");
    reveal_strlit("0");
    reveal_strlit("-0");
    reveal_strlit("-");
    assert("00"@ =~= seq!['0', '0']);
    assert("0"@ =~= seq!['0']);
    assert("-0"@ =~= seq!['-', '0']);
    assert("-"@ =~= seq!['-']);
}

/// The first group that failed is the one that is named.
pub proof fn the_first_group_that_failed_is_named(groups: Seq<GroupKind>, group: GroupKind)
    ensures
        first_failed(seq![]) is None,
        first_failed(groups) is Some ==> first_failed(groups.push(group)) == first_failed(groups),
        first_failed(groups) is None && !(group is Failed) ==> first_failed(groups.push(group))
            is None,
        first_failed(groups) is None ==> (group matches GroupKind::Failed { group_id, error }
            ==> first_failed(groups.push(group)) == Some(group_id@ + ": "@ + error@)),
{
    assert(groups.push(group).drop_last() =~= groups);
}

/// The facts of several things are those of each, one after another.
pub proof fn how_facts_are_added_up(
    facts: Facts,
    entries: Seq<ApiEntry>,
    entry: ApiEntry,
    typed: Seq<TypedVersion>,
    version: TypedVersion,
    listeners: Seq<Listener>,
    listener: Listener,
    leaders: Seq<PartitionLeader>,
    leader: PartitionLeader,
)
    ensures
        all_entry_facts(facts, seq![]) == facts,
        all_entry_facts(facts, entries.push(entry)) == entry_facts(
            all_entry_facts(facts, entries),
            entry,
        ),
        typed_facts(facts, seq![]) == facts,
        typed_facts(facts, typed.push(version)) == typed_facts(facts, typed).insert(
            "api.typed."@ + version.name@,
            match version.version {
                Some(number) => signed_of(number as int),
                None => "-"@,
            },
        ),
        all_listener_facts(facts, seq![]) == facts,
        all_listener_facts(facts, listeners.push(listener)) == one_listener_facts(
            all_listener_facts(facts, listeners),
            listener,
        ),
        leader_facts(facts, seq![]) == facts,
        leader_facts(facts, leaders.push(leader)) == one_leader_facts(
            leader_facts(facts, leaders),
            leader,
        ),
{
    assert(entries.push(entry).drop_last() =~= entries);
    assert(typed.push(version).drop_last() =~= typed);
    assert(listeners.push(listener).drop_last() =~= listeners);
    assert(leaders.push(leader).drop_last() =~= leaders);
}

/// What is reported of a partition: its leader, and its replicas with a stroke between
/// each two.
pub proof fn what_is_reported_of_a_leader(facts: Facts, known: PartitionLeader)
    ensures
        ({
            let out = one_leader_facts(facts, known);
            let number = signed_of(known.partition as int);
            &&& says(
                out,
                "produce.leader.p"@ + number,
                match known.leader {
                    Some(leader) => signed_of(leader as int),
                    None => "-"@,
                },
            )
            &&& says(
                out,
                "produce.replicas.p"@ + number,
                strung(
                    Seq::new(
                        known.replicas@.len(),
                        |i: int| signed_of(known.replicas@[i] as int),
                    ),
                    "/"@,
                ),
            )
        }),
{
    reveal_strlit("produce.leader.p");
    reveal_strlit("produce.replicas.p");
    let number = signed_of(known.partition as int);
    assert("produce.leader.p"@.len() == 16);
    assert("produce.replicas.p"@.len() == 18);
    assert(("produce.leader.p"@ + number).len() != ("produce.replicas.p"@ + number).len());
    assert(numbers_text(known.replicas@) =~= Seq::new(
        known.replicas@.len(),
        |i: int| signed_of(known.replicas@[i] as int),
    ));
}

/// What is reported of a broker's configuration: nothing if it was not asked for, else what
/// went wrong with it, or the eight values worth comparing.
pub proof fn what_is_reported_of_a_configuration(
    facts: Facts,
    error: String,
    entries: Seq<ConfigEntry>,
    names: Seq<Seq<char>>,
    name: Seq<char>,
)
    ensures
        broker_config_facts(facts, BrokerConfig::NotAsked) == facts,
        broker_config_facts(facts, BrokerConfig::Missing) == facts.insert(
            "broker_config.error"@,
            "no result returned"@,
        ),
        broker_config_facts(facts, BrokerConfig::Failed(error)) == facts.insert(
            "broker_config.error"@,
            on_one_line(error@),
        ),
        config_facts(facts, entries, seq![]) == facts,
        config_facts(facts, entries, names.push(name)) == config_facts(facts, entries, names).insert(
            "broker_config."@ + name,
            match config_value(entries, name) {
                Some(value) => value,
                None => "-"@,
            },
        ),
        config_names().len() == 8,
        config_names().contains("auto.create.topics.enable"@),
        config_names().contains("compression.type"@),
        config_names().contains("message.max.bytes"@),
        config_names().contains("num.partitions"@),
        config_names().contains("default.replication.factor"@),
        config_names().contains("group.coordinator.rebalance.protocols"@),
        config_names().contains("log.message.format.version"@),
        config_names().contains("unstable.api.versions.enable"@),
{
    assert(names.push(name).drop_last() =~= names);
    let all = config_names();
    assert(all[0] == "auto.create.topics.enable"@);
    assert(all[1] == "compression.type"@);
    assert(all[2] == "message.max.bytes"@);
    assert(all[3] == "num.partitions"@);
    assert(all[4] == "default.replication.factor"@);
    assert(all[5] == "group.coordinator.rebalance.protocols"@);
    assert(all[6] == "log.message.format.version"@);
    assert(all[7] == "unstable.api.versions.enable"@);
}

/// A kind of group is counted in small letters, and one that is not reported as such.
pub proof fn how_kinds_are_counted(kind: Seq<char>)
    ensures
        kind.len() == 0 ==> kind_name(kind) == "unreported"@,
        kind.len() > 0 ==> kind_name(kind) == in_small_letters(kind),
{
}

/// What reports are filed under.
pub proof fn what_reports_are_filed_under(
    entry: ApiEntry,
    listener: Listener,
    index: usize,
    topic: Seq<char>,
)
    ensures
        api_key(entry) == "api."@ + three_digits(entry.code as int) + "."@ + entry.name@,
        listener_key(listener) == "auth.listener."@ + in_small_letters(listener.name@),
        principal_key(index) == "principal."@ + decimal_of(index as nat),
        topic_key(topic) == "read.topic."@ + topic,
{
}

/// What is written first to try the write path: a record with everything on it, a
/// tombstone, an empty value, and one record through each of the four codecs; all to one
/// partition of the topic.
pub proof fn what_is_written_first(topic: Seq<char>, i: int)
    requires
        0 <= i < 7,
    ensures
        opening(topic).len() == 7,
        opening(topic)[i].0.topic == topic,
        opening(topic)[i].0.partition == Some(3i32),
        opening(topic)[i].0.key is Some,
        i < 3 ==> opening(topic)[i].1 == Compression::Uncompressed,
        opening(topic)[3].1 == Compression::Gzip,
        opening(topic)[4].1 == Compression::Snappy,
        opening(topic)[5].1 == Compression::Lz4,
        opening(topic)[6].1 == Compression::Zstd,
        opening(topic)[0].0.key == Some(vstd::utf8::encode_utf8("customer-7"@)),
        opening(topic)[0].0.value == Some(vstd::utf8::encode_utf8("{\"total\":42}"@)),
        opening(topic)[0].0.timestamp == Some(1_765_000_000_000i64),
        opening(topic)[0].0.headers.len() == 2,
        i > 0 ==> opening(topic)[i].0.timestamp is None && opening(topic)[i].0.headers.len() == 0,
        opening(topic)[1].0.key == Some(vstd::utf8::encode_utf8("gone"@)),
        opening(topic)[1].0.value is None,
        opening(topic)[2].0.key == Some(vstd::utf8::encode_utf8("blank"@)),
        opening(topic)[2].0.value == Some(Seq::<u8>::empty()),
        opening(topic)[3].0.key == Some(vstd::utf8::encode_utf8("codec-"@ + "Gzip"@)),
        opening(topic)[4].0.key == Some(vstd::utf8::encode_utf8("codec-"@ + "Snappy"@)),
        opening(topic)[5].0.key == Some(vstd::utf8::encode_utf8("codec-"@ + "Lz4"@)),
        opening(topic)[6].0.key == Some(vstd::utf8::encode_utf8("codec-"@ + "Zstd"@)),
        i >= 3 ==> opening(topic)[i].0.value is Some,
{
    let all = opening(topic);
    assert(all.len() == 7);
    assert(all[i] == all[0] || all[i] == all[1] || all[i] == all[2] || all[i] == all[3] || all[i]
        == all[4] || all[i] == all[5] || all[i] == all[6]);
}

/// What is reported of a cluster's shape: what it says of itself, then its metadata, then
/// its configuration; and of a topic that no cluster has, the code or the error.
pub proof fn what_is_reported_of_the_shape(
    facts: Facts,
    description: Result<ClusterDescription, String>,
    brokers: usize,
    topics: Seq<TopicState>,
    config: BrokerConfig,
    code: Option<String>,
    error: String,
)
    ensures
        shape_facts(facts, description, brokers, topics, config) == broker_config_facts(
            snapshot_facts(description_facts(facts, description), brokers, topics),
            config,
        ),
        unknown_facts(facts, Ok(code)) == facts.insert(
            "unknown_topic.code"@,
            match code {
                Some(code) => code@,
                None => "-"@,
            },
        ),
        unknown_facts(facts, Err(error)) == facts.insert(
            "unknown_topic.error"@,
            on_one_line(error@),
        ),
        description_facts(facts, Err(error)) == facts.insert(
            "cluster.describe.error"@,
            on_one_line(error@),
        ),
{
}

} // verus!
