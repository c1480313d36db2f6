//! Read-only inventory of a live cluster: which facts its answers come to.
//!
//! The output is a report that can be compared, so two probes are a conformance
//! check.

use vstd::prelude::*;
use vstd::string::*;
use crate::error::text_of;
use crate::livetest::read::Facts;
use crate::livetest::report::{on_one_line, one_line, present_or_dash, Report};
use crate::livetest::smoke::count_of;
use crate::read::batch::held;
use crate::text::{
    decimal, decimal_of, join, joined, letters, same, signed, signed_of, strung, text_views, truth,
};

verus! {

/// The notes that a probe starts with.
pub fn probe(label: &str, bootstrap: &Vec<String>) -> (report: Report)
    ensures
        report@.wf(),
        report@.facts() == Map::<Seq<char>, Seq<char>>::empty(),
        report@.notes == seq![
            "target: "@ + label@,
            "bootstrap: "@ + strung(text_views(bootstrap@), ","@),
        ],
{
    let mut report = Report::new();
    report.note(joined("target: ", label));
    report.note(joined("bootstrap: ", join(bootstrap, ",").as_str()));
    assert(report@.notes =~= seq![
        "target: "@ + label@,
        "bootstrap: "@ + strung(text_views(bootstrap@), ","@),
    ]);
    report
}

/// A range of versions.
#[derive(Debug, Clone, Copy, PartialEq, Eq, Structural)]
pub struct VersionRange {
    /// The lowest.
    pub min: i16,
    /// The highest.
    pub max: i16,
}

/// A range of versions as a text.
pub open spec fn range_text(range: VersionRange) -> Seq<char> {
    signed_of(range.min as int) + ".."@ + signed_of(range.max as int)
}

/// A range of versions as a text.
fn range_words(range: VersionRange) -> (text: String)
    ensures
        text@ == range_text(range),
{
    let mut text = signed(range.min as i64);
    text.append("..");
    text.append(signed(range.max as i64).as_str());
    text
}

/// What was negotiated for one api key.
#[derive(Debug)]
pub struct ApiEntry {
    /// Its number.
    pub code: i16,
    /// Its name.
    pub name: String,
    /// What the broker speaks.
    pub broker: VersionRange,
    /// What this client speaks, if it knows the key.
    pub ours: Option<VersionRange>,
    /// What was agreed on.
    pub negotiated: Option<i16>,
    /// Whether the broker speaks newer versions than this client.
    pub broker_ahead: bool,
}

/// A number of at least three characters, filled up with zeros behind its sign.
pub open spec fn three_digits(n: int) -> Seq<char> {
    if n < 0 {
        if n > -10 {
            "-0"@ + decimal_of((-n) as nat)
        } else {
            "-"@ + decimal_of((-n) as nat)
        }
    } else if n < 10 {
        "00"@ + decimal_of(n as nat)
    } else if n < 100 {
        "0"@ + decimal_of(n as nat)
    } else {
        decimal_of(n as nat)
    }
}

/// What the facts of an api key start with. Its number comes first, so that one
/// that only one of two clusters names still lines up.
pub open spec fn api_key(entry: ApiEntry) -> Seq<char> {
    "api."@ + three_digits(entry.code as int) + "."@ + entry.name@
}

/// What the facts of an api key start with.
fn api_words(entry: &ApiEntry) -> (text: String)
    ensures
        text@ == api_key(*entry),
{
    let mut text = "api.".to_owned();
    let code: i64 = entry.code as i64;
    if code < 0 {
        if code > -10 {
            text.append("-0");
        } else {
            text.append("-");
        }
        text.append(decimal((-code) as u64).as_str());
    } else {
        if code < 10 {
            text.append("00");
        } else if code < 100 {
            text.append("0");
        }
        text.append(decimal(code as u64).as_str());
    }
    text.append(".");
    text.append(entry.name.as_str());
    assert(text@ =~= api_key(*entry));
    text
}

/// An optional range as a text.
pub open spec fn optional_range(range: Option<VersionRange>) -> Option<Seq<char>> {
    match range {
        Some(range) => Some(range_text(range)),
        None => None,
    }
}

/// An optional number as a text.
pub open spec fn optional_number(number: Option<i16>) -> Option<Seq<char>> {
    match number {
        Some(number) => Some(signed_of(number as int)),
        None => None,
    }
}

/// The facts of one api key.
pub open spec fn entry_facts(facts: Facts, entry: ApiEntry) -> Facts {
    facts.insert(api_key(entry) + ".broker"@, range_text(entry.broker)).insert(
        api_key(entry) + ".ours"@,
        present_or_dash(optional_range(entry.ours)),
    ).insert(
        api_key(entry) + ".negotiated"@,
        present_or_dash(optional_number(entry.negotiated)),
    )
}

/// The facts of every api key.
pub open spec fn all_entry_facts(facts: Facts, entries: Seq<ApiEntry>) -> Facts
    decreases entries.len(),
{
    if entries.len() == 0 {
        facts
    } else {
        entry_facts(all_entry_facts(facts, entries.drop_last()), entries.last())
    }
}

/// The version that one request is sent with.
#[derive(Debug)]
pub struct TypedVersion {
    /// The request.
    pub name: String,
    /// Its version, if it can be sent.
    pub version: Option<i16>,
}

/// The facts of the versions that requests are sent with.
pub open spec fn typed_facts(facts: Facts, typed: Seq<TypedVersion>) -> Facts
    decreases typed.len(),
{
    if typed.len() == 0 {
        facts
    } else {
        typed_facts(facts, typed.drop_last()).insert(
            "api.typed."@ + typed.last().name@,
            present_or_dash(optional_number(typed.last().version)),
        )
    }
}

/// Which api keys a broker has of those that this tool asks about.
#[derive(Debug, Clone, Copy, PartialEq, Eq, Structural)]
pub struct ApiSupport {
    /// Describing topics page by page.
    pub describe_topic_partitions: bool,
    /// Describing groups of the newer consumer protocol.
    pub consumer_group_describe: bool,
    /// Describing share groups.
    pub share_group_describe: bool,
    /// Describing the cluster.
    pub describe_cluster: bool,
}

/// Everything that the version table comes to.
pub open spec fn version_facts(
    facts: Facts,
    entries: Seq<ApiEntry>,
    support: ApiSupport,
    typed: Seq<TypedVersion>,
) -> Facts {
    typed_facts(
        all_entry_facts(facts.insert("api.count"@, decimal_of(entries.len())), entries).insert(
            "api.broker_ahead_count"@,
            decimal_of(count_of(entries, |entry: ApiEntry| entry.broker_ahead)),
        ).insert(
            "api.unnameable_count"@,
            decimal_of(count_of(entries, |entry: ApiEntry| entry.ours is None)),
        ).insert(
            "api.supports.describe_topic_partitions"@,
            truth(support.describe_topic_partitions),
        ).insert(
            "api.supports.consumer_group_describe"@,
            truth(support.consumer_group_describe),
        ).insert("api.supports.share_group_describe"@, truth(support.share_group_describe)).insert(
            "api.supports.describe_cluster"@,
            truth(support.describe_cluster),
        ),
        typed,
    )
}

/// An optional number as a text.
fn optional_words(number: Option<i16>) -> (text: Option<String>)
    ensures
        text_of(text) == optional_number(number),
{
    match number {
        Some(number) => Some(signed(number as i64)),
        None => None,
    }
}

/// Records the negotiated version table: the single most useful thing to
/// compare.
pub fn api_versions(
    report: &mut Report,
    entries: &Vec<ApiEntry>,
    support: &ApiSupport,
    typed: &Vec<TypedVersion>,
)
    requires
        old(report)@.wf(),
    ensures
        final(report)@.wf(),
        final(report)@.notes == old(report)@.notes,
        final(report)@.facts() == version_facts(
            old(report)@.facts(),
            entries@,
            *support,
            typed@,
        ),
{
    report.set_count("api.count", entries.len() as u64);
    let ghost counted = report@.facts();
    let mut ahead: usize = 0;
    let mut unnameable: usize = 0;
    let mut at: usize = 0;
    assert(entries@.take(0) =~= seq![]);
    while at < entries.len()
        invariant
            at <= entries.len(),
            ahead <= at,
            unnameable <= at,
            report@.wf(),
            report@.notes == old(report)@.notes,
            report@.facts() == all_entry_facts(counted, entries@.take(at as int)),
            ahead == count_of(entries@.take(at as int), |entry: ApiEntry| entry.broker_ahead),
            unnameable == count_of(entries@.take(at as int), |entry: ApiEntry| entry.ours is None),
        decreases entries.len() - at,
    {
        let entry = &entries[at];
        assert(entries@.take(at + 1).drop_last() =~= entries@.take(at as int));
        assert(entries@.take(at + 1).last() == *entry);
        let key = api_words(entry);
        report.set(joined(key.as_str(), ".broker"), range_words(entry.broker));
        let ours = match entry.ours {
            Some(range) => Some(range_words(range)),
            None => None,
        };
        assert(text_of(ours) == optional_range(entry.ours));
        report.set_opt(joined(key.as_str(), ".ours"), ours);
        report.set_opt(joined(key.as_str(), ".negotiated"), optional_words(entry.negotiated));
        if entry.broker_ahead {
            ahead += 1;
        }
        if entry.ours.is_none() {
            unnameable += 1;
        }
        at += 1;
    }
    assert(entries@.take(at as int) =~= entries@);
    report.set_count("api.broker_ahead_count", ahead as u64);
    report.set_count("api.unnameable_count", unnameable as u64);
    report.set_flag("api.supports.describe_topic_partitions", support.describe_topic_partitions);
    report.set_flag("api.supports.consumer_group_describe", support.consumer_group_describe);
    report.set_flag("api.supports.share_group_describe", support.share_group_describe);
    report.set_flag("api.supports.describe_cluster", support.describe_cluster);
    let ghost listed = report@.facts();
    let mut at: usize = 0;
    assert(typed@.take(0) =~= seq![]);
    while at < typed.len()
        invariant
            at <= typed.len(),
            report@.wf(),
            report@.notes == old(report)@.notes,
            report@.facts() == typed_facts(listed, typed@.take(at as int)),
        decreases typed.len() - at,
    {
        assert(typed@.take(at + 1).drop_last() =~= typed@.take(at as int));
        assert(typed@.take(at + 1).last() == typed@[at as int]);
        report.set_opt(
            joined("api.typed.", typed[at].name.as_str()),
            optional_words(typed[at].version),
        );
        at += 1;
    }
    assert(typed@.take(at as int) =~= typed@);
}

/// What a cluster says of itself.
#[derive(Debug)]
pub struct ClusterDescription {
    /// Its id.
    pub cluster_id: String,
    /// Its controller.
    pub controller: Option<i32>,
    /// Its brokers.
    pub brokers: Vec<BrokerState>,
}

/// What a cluster says of one broker.
#[derive(Debug, Clone, Copy, PartialEq, Eq, Structural)]
pub struct BrokerState {
    /// Whether it is fenced.
    pub fenced: bool,
    /// Whether it says which rack it is in.
    pub racked: bool,
}

/// One partition in metadata.
#[derive(Debug, Clone, Copy, PartialEq, Eq, Structural)]
pub struct PartitionState {
    /// Whether it has a leader.
    pub led: bool,
    /// Whether some of its replicas lag behind.
    pub under_replicated: bool,
}

/// One topic in metadata.
#[derive(Debug)]
pub struct TopicState {
    /// Whether it is internal.
    pub internal: bool,
    /// Whether its id is known.
    pub has_id: bool,
    /// Its partitions.
    pub partitions: Vec<PartitionState>,
}

/// The partitions of every topic.
pub open spec fn all_partitions(topics: Seq<TopicState>) -> Seq<PartitionState>
    decreases topics.len(),
{
    if topics.len() == 0 {
        seq![]
    } else {
        all_partitions(topics.drop_last()) + topics.last().partitions@
    }
}

/// One configuration value of a broker.
#[derive(Debug)]
pub struct ConfigEntry {
    /// Its name.
    pub name: String,
    /// Its value.
    pub value: Option<String>,
    /// Whether it was set rather than left at its default.
    pub explicit: bool,
    /// Whether it is kept secret.
    pub sensitive: bool,
}

/// What asking a broker for its configuration came to.
#[derive(Debug)]
pub enum BrokerConfig {
    /// There was no broker to ask.
    NotAsked,
    /// There was no answer for it.
    Missing,
    /// It failed.
    Failed(String),
    /// It answered.
    Entries(Vec<ConfigEntry>),
}

/// The value that the first entry of a name has, on one line.
pub open spec fn config_value(entries: Seq<ConfigEntry>, name: Seq<char>) -> Option<Seq<char>>
    decreases entries.len(),
{
    if entries.len() == 0 {
        None
    } else if entries[0].name@ == name {
        match entries[0].value {
            Some(value) => Some(on_one_line(value@)),
            None => None,
        }
    } else {
        config_value(entries.skip(1), name)
    }
}

/// The value that the first entry of a name has, on one line.
fn find_config(entries: &Vec<ConfigEntry>, name: &str) -> (value: Option<String>)
    ensures
        text_of(value) == config_value(entries@, name@),
{
    let mut at: usize = 0;
    assert(entries@.skip(0) =~= entries@);
    while at < entries.len()
        invariant
            at <= entries.len(),
            config_value(entries@, name@) == config_value(entries@.skip(at as int), name@),
        decreases entries.len() - at,
    {
        assert(entries@.skip(at as int)[0] == entries@[at as int]);
        assert(entries@.skip(at as int).skip(1) =~= entries@.skip(at + 1));
        if same(&entries[at].name, name) {
            return match &entries[at].value {
                Some(value) => Some(one_line(value.as_str())),
                None => None,
            };
        }
        at += 1;
    }
    None
}

/// The facts of the values worth comparing: most are specific to a cluster, but
/// these are not.
pub open spec fn config_facts(facts: Facts, entries: Seq<ConfigEntry>, names: Seq<Seq<char>>) -> Facts
    decreases names.len(),
{
    if names.len() == 0 {
        facts
    } else {
        config_facts(facts, entries, names.drop_last()).insert(
            "broker_config."@ + names.last(),
            present_or_dash(config_value(entries, names.last())),
        )
    }
}

/// The names of the values worth comparing.
pub open spec fn config_names() -> Seq<Seq<char>> {
    seq![
        "auto.create.topics.enable"@,
        "compression.type"@,
        "message.max.bytes"@,
        "num.partitions"@,
        "default.replication.factor"@,
        "group.coordinator.rebalance.protocols"@,
        "log.message.format.version"@,
        "unstable.api.versions.enable"@,
    ]
}

/// The names of the values worth comparing.
fn config_name_list() -> (names: Vec<String>)
    ensures
        text_views(names@) == config_names(),
{
    let mut names: Vec<String> = Vec::new();
    names.push("auto.create.topics.enable".to_owned());
    names.push("compression.type".to_owned());
    names.push("message.max.bytes".to_owned());
    names.push("num.partitions".to_owned());
    names.push("default.replication.factor".to_owned());
    names.push("group.coordinator.rebalance.protocols".to_owned());
    names.push("log.message.format.version".to_owned());
    names.push("unstable.api.versions.enable".to_owned());
    assert(text_views(names@) =~= config_names());
    names
}

/// The facts of what a cluster says of itself.
pub open spec fn description_facts(facts: Facts, description: Result<ClusterDescription, String>) -> Facts {
    match description {
        Ok(description) => facts.insert(
            "cluster.id.present"@,
            truth(description.cluster_id@.len() > 0),
        ).insert(
            "cluster.controller.present"@,
            match description.controller {
                Some(_) => truth(true),
                None => "-"@,
            },
        ).insert("cluster.brokers"@, decimal_of(description.brokers@.len())).insert(
            "cluster.brokers.fenced"@,
            decimal_of(count_of(description.brokers@, |broker: BrokerState| broker.fenced)),
        ).insert(
            "cluster.brokers.racked"@,
            decimal_of(count_of(description.brokers@, |broker: BrokerState| broker.racked)),
        ),
        Err(error) => facts.insert("cluster.describe.error"@, on_one_line(error@)),
    }
}

/// The facts of a metadata snapshot.
pub open spec fn snapshot_facts(facts: Facts, brokers: usize, topics: Seq<TopicState>) -> Facts {
    let partitions = all_partitions(topics);
    facts.insert("metadata.brokers"@, decimal_of(brokers as nat)).insert(
        "metadata.topics"@,
        decimal_of(topics.len()),
    ).insert(
        "metadata.topics.internal"@,
        decimal_of(count_of(topics, |topic: TopicState| topic.internal)),
    ).insert("metadata.partitions"@, decimal_of(held(partitions.len()) as nat)).insert(
        "metadata.partitions.leaderless"@,
        decimal_of(
            held(count_of(partitions, |partition: PartitionState| !partition.led)) as nat,
        ),
    ).insert(
        "metadata.partitions.under_replicated"@,
        decimal_of(
            held(count_of(partitions, |partition: PartitionState| partition.under_replicated)) as nat,
        ),
    ).insert(
        "metadata.topic_ids.present"@,
        decimal_of(count_of(topics, |topic: TopicState| topic.has_id)),
    )
}

/// The facts of a broker's configuration.
pub open spec fn broker_config_facts(facts: Facts, config: BrokerConfig) -> Facts {
    match config {
        BrokerConfig::NotAsked => facts,
        BrokerConfig::Missing => facts.insert("broker_config.error"@, "no result returned"@),
        BrokerConfig::Failed(error) => facts.insert("broker_config.error"@, on_one_line(error@)),
        BrokerConfig::Entries(entries) => config_facts(
            facts.insert("broker_config.count"@, decimal_of(entries@.len())).insert(
                "broker_config.explicit"@,
                decimal_of(count_of(entries@, |entry: ConfigEntry| entry.explicit)),
            ).insert(
                "broker_config.sensitive"@,
                decimal_of(count_of(entries@, |entry: ConfigEntry| entry.sensitive)),
            ),
            entries@,
            config_names(),
        ),
    }
}

/// Everything that a cluster's shape comes to.
pub open spec fn shape_facts(
    facts: Facts,
    description: Result<ClusterDescription, String>,
    brokers: usize,
    topics: Seq<TopicState>,
    config: BrokerConfig,
) -> Facts {
    broker_config_facts(
        snapshot_facts(description_facts(facts, description), brokers, topics),
        config,
    )
}

/// Records what a cluster says of itself.
fn describe_cluster(report: &mut Report, description: &Result<ClusterDescription, String>)
    requires
        old(report)@.wf(),
    ensures
        final(report)@.wf(),
        final(report)@.notes == old(report)@.notes,
        final(report)@.facts() == description_facts(old(report)@.facts(), *description),
{
    match description {
        Ok(description) => {
            let brokers = &description.brokers;
            let mut fenced: usize = 0;
            let mut racked: usize = 0;
            let mut at: usize = 0;
            assert(brokers@.take(0) =~= seq![]);
            while at < brokers.len()
                invariant
                    at <= brokers.len(),
                    fenced <= at,
                    racked <= at,
                    fenced == count_of(brokers@.take(at as int), |broker: BrokerState| broker.fenced),
                    racked == count_of(brokers@.take(at as int), |broker: BrokerState| broker.racked),
                decreases brokers.len() - at,
            {
                assert(brokers@.take(at + 1).drop_last() =~= brokers@.take(at as int));
                assert(brokers@.take(at + 1).last() == brokers@[at as int]);
                if brokers[at].fenced {
                    fenced += 1;
                }
                if brokers[at].racked {
                    racked += 1;
                }
                at += 1;
            }
            assert(brokers@.take(at as int) =~= brokers@);
            let named = letters(description.cluster_id.as_str()).len() > 0;
            report.set_flag("cluster.id.present", named);
            match description.controller {
                Some(_) => report.set_flag("cluster.controller.present", true),
                None => report.set_text("cluster.controller.present", "-"),
            }
            report.set_count("cluster.brokers", brokers.len() as u64);
            report.set_count("cluster.brokers.fenced", fenced as u64);
            report.set_count("cluster.brokers.racked", racked as u64);
        },
        Err(error) => {
            report.set("cluster.describe.error".to_owned(), one_line(error.as_str()));
        },
    }
}

/// The counts of one more sequence add to those of the others.
proof fn lemma_count_append<T>(a: Seq<T>, b: Seq<T>, holds: spec_fn(T) -> bool)
    ensures
        count_of(a + b, holds) == count_of(a, holds) + count_of(b, holds),
    decreases b.len(),
{
    if b.len() == 0 {
        assert(a + b =~= a);
    } else {
        lemma_count_append(a, b.drop_last(), holds);
        assert((a + b).drop_last() =~= a + b.drop_last());
        assert((a + b).last() == b.last());
    }
}

/// How many of some partitions have no leader, and how many lag behind.
fn count_partitions(partitions: &Vec<PartitionState>) -> (counts: (usize, usize))
    ensures
        counts.0 == count_of(partitions@, |partition: PartitionState| !partition.led),
        counts.1 == count_of(partitions@, |partition: PartitionState| partition.under_replicated),
{
    let mut leaderless: usize = 0;
    let mut lagging: usize = 0;
    let mut at: usize = 0;
    assert(partitions@.take(0) =~= seq![]);
    while at < partitions.len()
        invariant
            at <= partitions.len(),
            leaderless <= at,
            lagging <= at,
            leaderless == count_of(
                partitions@.take(at as int),
                |partition: PartitionState| !partition.led,
            ),
            lagging == count_of(
                partitions@.take(at as int),
                |partition: PartitionState| partition.under_replicated,
            ),
        decreases partitions.len() - at,
    {
        assert(partitions@.take(at + 1).drop_last() =~= partitions@.take(at as int));
        assert(partitions@.take(at + 1).last() == partitions@[at as int]);
        if !partitions[at].led {
            leaderless += 1;
        }
        if partitions[at].under_replicated {
            lagging += 1;
        }
        at += 1;
    }
    assert(partitions@.take(at as int) =~= partitions@);
    (leaderless, lagging)
}

/// Records a metadata snapshot.
fn describe_snapshot(report: &mut Report, brokers: usize, topics: &Vec<TopicState>)
    requires
        old(report)@.wf(),
    ensures
        final(report)@.wf(),
        final(report)@.notes == old(report)@.notes,
        final(report)@.facts() == snapshot_facts(old(report)@.facts(), brokers, topics@),
{
    let mut internal: usize = 0;
    let mut identified: usize = 0;
    let mut partitions: usize = 0;
    let mut leaderless: usize = 0;
    let mut lagging: usize = 0;
    let mut at: usize = 0;
    assert(topics@.take(0) =~= seq![]);
    while at < topics.len()
        invariant
            at <= topics.len(),
            internal <= at,
            identified <= at,
            internal == count_of(topics@.take(at as int), |topic: TopicState| topic.internal),
            identified == count_of(topics@.take(at as int), |topic: TopicState| topic.has_id),
            partitions == held(all_partitions(topics@.take(at as int)).len()),
            leaderless == held(
                count_of(
                    all_partitions(topics@.take(at as int)),
                    |partition: PartitionState| !partition.led,
                ),
            ),
            lagging == held(
                count_of(
                    all_partitions(topics@.take(at as int)),
                    |partition: PartitionState| partition.under_replicated,
                ),
            ),
        decreases topics.len() - at,
    {
        let topic = &topics[at];
        proof {
            assert(topics@.take(at + 1).drop_last() =~= topics@.take(at as int));
            assert(topics@.take(at + 1).last() == topics@[at as int]);
            lemma_count_append(
                all_partitions(topics@.take(at as int)),
                topic.partitions@,
                |partition: PartitionState| !partition.led,
            );
            lemma_count_append(
                all_partitions(topics@.take(at as int)),
                topic.partitions@,
                |partition: PartitionState| partition.under_replicated,
            );
        }
        if topic.internal {
            internal += 1;
        }
        if topic.has_id {
            identified += 1;
        }
        let (missing, behind): (usize, usize) = count_partitions(&topic.partitions);
        partitions = partitions.saturating_add(topic.partitions.len());
        leaderless = leaderless.saturating_add(missing);
        lagging = lagging.saturating_add(behind);
        at += 1;
    }
    assert(topics@.take(at as int) =~= topics@);
    report.set_count("metadata.brokers", brokers as u64);
    report.set_count("metadata.topics", topics.len() as u64);
    report.set_count("metadata.topics.internal", internal as u64);
    report.set_count("metadata.partitions", partitions as u64);
    report.set_count("metadata.partitions.leaderless", leaderless as u64);
    report.set_count("metadata.partitions.under_replicated", lagging as u64);
    report.set_count("metadata.topic_ids.present", identified as u64);
}

/// Records a broker's configuration.
fn describe_config(report: &mut Report, config: &BrokerConfig)
    requires
        old(report)@.wf(),
    ensures
        final(report)@.wf(),
        final(report)@.notes == old(report)@.notes,
        final(report)@.facts() == broker_config_facts(old(report)@.facts(), *config),
{
    match config {
        BrokerConfig::NotAsked => {},
        BrokerConfig::Missing => {
            report.set_text("broker_config.error", "no result returned");
        },
        BrokerConfig::Failed(error) => {
            report.set("broker_config.error".to_owned(), one_line(error.as_str()));
        },
        BrokerConfig::Entries(entries) => {
            let mut explicit: usize = 0;
            let mut sensitive: usize = 0;
            let mut at: usize = 0;
            assert(entries@.take(0) =~= seq![]);
            while at < entries.len()
                invariant
                    at <= entries.len(),
                    explicit <= at,
                    sensitive <= at,
                    explicit == count_of(
                        entries@.take(at as int),
                        |entry: ConfigEntry| entry.explicit,
                    ),
                    sensitive == count_of(
                        entries@.take(at as int),
                        |entry: ConfigEntry| entry.sensitive,
                    ),
                decreases entries.len() - at,
            {
                assert(entries@.take(at + 1).drop_last() =~= entries@.take(at as int));
                assert(entries@.take(at + 1).last() == entries@[at as int]);
                if entries[at].explicit {
                    explicit += 1;
                }
                if entries[at].sensitive {
                    sensitive += 1;
                }
                at += 1;
            }
            assert(entries@.take(at as int) =~= entries@);
            report.set_count("broker_config.count", entries.len() as u64);
            report.set_count("broker_config.explicit", explicit as u64);
            report.set_count("broker_config.sensitive", sensitive as u64);
            let names = config_name_list();
            let ghost views = config_names();
            let ghost counted = report@.facts();
            let mut at: usize = 0;
            assert(views.take(0) =~= seq![]);
            while at < names.len()
                invariant
                    at <= names.len(),
                    views == text_views(names@),
                    report@.wf(),
                    report@.notes == old(report)@.notes,
                    report@.facts() == config_facts(counted, entries@, views.take(at as int)),
                decreases names.len() - at,
            {
                assert(views.take(at + 1).drop_last() =~= views.take(at as int));
                assert(views.take(at + 1).last() == names@[at as int]@);
                let value = find_config(entries, names[at].as_str());
                report.set_opt(joined("broker_config.", names[at].as_str()), value);
                at += 1;
            }
            assert(views.take(at as int) =~= views);
        },
    }
}

/// Records a cluster's shape: what it says of itself, what metadata says, and
/// what one broker is configured with. The id itself cannot be compared between
/// clusters, only whether there is one; of the configuration it is the key set
/// that is worth comparing.
pub fn cluster_shape(
    report: &mut Report,
    description: &Result<ClusterDescription, String>,
    brokers: usize,
    topics: &Vec<TopicState>,
    config: &BrokerConfig,
)
    requires
        old(report)@.wf(),
    ensures
        final(report)@.wf(),
        final(report)@.notes == old(report)@.notes,
        final(report)@.facts() == shape_facts(
            old(report)@.facts(),
            *description,
            brokers,
            topics@,
            *config,
        ),
{
    describe_cluster(report, description);
    describe_snapshot(report, brokers, topics);
    describe_config(report, config);
}

/// How many topics are described at once.
pub const DESCRIBE_AT_ONCE: usize = 50;

/// A topic that was described: what the describe says, and what metadata does.
#[derive(Debug, Clone, Copy, PartialEq, Eq, Structural)]
pub struct DescribedTopic {
    /// How many partitions the describe says it has, if it went through.
    pub partitions: Option<usize>,
    /// How many partitions metadata says it has, if it knows the topic.
    pub known: Option<usize>,
}

/// Whether a describe and metadata disagree about a topic.
pub open spec fn disagrees(topic: DescribedTopic) -> bool {
    topic.partitions matches Some(described) && topic.known matches Some(known) && described != known
}

/// The facts of describing topics.
pub open spec fn describe_facts(facts: Facts, described: Result<Vec<DescribedTopic>, String>) -> Facts {
    match described {
        Ok(topics) => facts.insert("describe_topics.asked"@, decimal_of(topics@.len())).insert(
            "describe_topics.ok"@,
            decimal_of(count_of(topics@, |topic: DescribedTopic| topic.partitions is Some)),
        ).insert(
            "describe_topics.err"@,
            decimal_of(count_of(topics@, |topic: DescribedTopic| topic.partitions is None)),
        ).insert(
            "describe_topics.disagrees_with_metadata"@,
            decimal_of(count_of(topics@, |topic: DescribedTopic| disagrees(topic))),
        ),
        Err(error) => facts.insert("describe_topics.error"@, on_one_line(error@)),
    }
}

/// The fact of describing a topic that no cluster has.
pub open spec fn unknown_facts(facts: Facts, unknown: Result<Option<String>, String>) -> Facts {
    match unknown {
        Ok(code) => facts.insert("unknown_topic.code"@, present_or_dash(text_of(code))),
        Err(error) => facts.insert("unknown_topic.error"@, on_one_line(error@)),
    }
}

/// A broker's log directories: for each, whether it says how large it is; or
/// nothing when the broker did not answer.
pub type LogDirs = Option<Vec<bool>>;

/// The directories of every broker that answered.
pub open spec fn all_dirs(brokers: Seq<LogDirs>) -> Seq<bool>
    decreases brokers.len(),
{
    if brokers.len() == 0 {
        seq![]
    } else {
        all_dirs(brokers.drop_last()) + match brokers.last() {
            Some(dirs) => dirs@,
            None => seq![],
        }
    }
}

/// The facts of the brokers' log directories.
pub open spec fn log_dir_facts(facts: Facts, brokers: Result<Vec<LogDirs>, String>) -> Facts {
    match brokers {
        Ok(brokers) => facts.insert(
            "log_dirs.brokers_ok"@,
            decimal_of(count_of(brokers@, |dirs: LogDirs| dirs is Some)),
        ).insert(
            "log_dirs.brokers_err"@,
            decimal_of(count_of(brokers@, |dirs: LogDirs| dirs is None)),
        ).insert("log_dirs.count"@, decimal_of(held(all_dirs(brokers@).len()) as nat)).insert(
            "log_dirs.reports_total_bytes"@,
            truth(all_dirs(brokers@).contains(true)),
        ),
        Err(error) => facts.insert("log_dirs.error"@, on_one_line(error@)),
    }
}

/// Records what describing topics came to. A disagreement between the
/// paginating describe and metadata is exactly the silent wrongness that a
/// fallback between the two must avoid.
fn describe_topics(report: &mut Report, described: &Result<Vec<DescribedTopic>, String>)
    requires
        old(report)@.wf(),
    ensures
        final(report)@.wf(),
        final(report)@.notes == old(report)@.notes,
        final(report)@.facts() == describe_facts(old(report)@.facts(), *described),
{
    match described {
        Ok(topics) => {
            let mut answered: usize = 0;
            let mut failed: usize = 0;
            let mut different: usize = 0;
            let mut at: usize = 0;
            assert(topics@.take(0) =~= seq![]);
            while at < topics.len()
                invariant
                    at <= topics.len(),
                    answered <= at,
                    failed <= at,
                    different <= at,
                    answered == count_of(
                        topics@.take(at as int),
                        |topic: DescribedTopic| topic.partitions is Some,
                    ),
                    failed == count_of(
                        topics@.take(at as int),
                        |topic: DescribedTopic| topic.partitions is None,
                    ),
                    different == count_of(
                        topics@.take(at as int),
                        |topic: DescribedTopic| disagrees(topic),
                    ),
                decreases topics.len() - at,
            {
                assert(topics@.take(at + 1).drop_last() =~= topics@.take(at as int));
                assert(topics@.take(at + 1).last() == topics@[at as int]);
                let topic: DescribedTopic = topics[at];
                match topic.partitions {
                    Some(partitions) => {
                        answered += 1;
                        if let Some(known) = topic.known {
                            if partitions != known {
                                different += 1;
                            }
                        }
                    },
                    None => {
                        failed += 1;
                    },
                }
                at += 1;
            }
            assert(topics@.take(at as int) =~= topics@);
            report.set_count("describe_topics.asked", topics.len() as u64);
            report.set_count("describe_topics.ok", answered as u64);
            report.set_count("describe_topics.err", failed as u64);
            report.set_count("describe_topics.disagrees_with_metadata", different as u64);
        },
        Err(error) => {
            report.set("describe_topics.error".to_owned(), one_line(error.as_str()));
        },
    }
}

/// Records the brokers' log directories.
fn describe_log_dirs(report: &mut Report, brokers: &Result<Vec<LogDirs>, String>)
    requires
        old(report)@.wf(),
    ensures
        final(report)@.wf(),
        final(report)@.notes == old(report)@.notes,
        final(report)@.facts() == log_dir_facts(old(report)@.facts(), *brokers),
{
    match brokers {
        Ok(brokers) => {
            let mut answered: usize = 0;
            let mut failed: usize = 0;
            let mut count: usize = 0;
            let mut sized = false;
            let mut at: usize = 0;
            assert(brokers@.take(0) =~= seq![]);
            while at < brokers.len()
                invariant
                    at <= brokers.len(),
                    answered <= at,
                    failed <= at,
                    answered == count_of(brokers@.take(at as int), |dirs: LogDirs| dirs is Some),
                    failed == count_of(brokers@.take(at as int), |dirs: LogDirs| dirs is None),
                    count == held(all_dirs(brokers@.take(at as int)).len()),
                    sized == all_dirs(brokers@.take(at as int)).contains(true),
                decreases brokers.len() - at,
            {
                assert(brokers@.take(at + 1).drop_last() =~= brokers@.take(at as int));
                assert(brokers@.take(at + 1).last() == brokers@[at as int]);
                let ghost earlier = all_dirs(brokers@.take(at as int));
                let ghost all = all_dirs(brokers@.take(at + 1));
                match &brokers[at] {
                    Some(dirs) => {
                        answered += 1;
                        count = count.saturating_add(dirs.len());
                        let ghost before = sized;
                        let mut k: usize = 0;
                        while k < dirs.len()
                            invariant
                                k <= dirs.len(),
                                sized == (before || exists|i: int| 0 <= i < k && dirs@[i]),
                            decreases dirs.len() - k,
                        {
                            if dirs[k] {
                                sized = true;
                            }
                            k += 1;
                        }
                        proof {
                            assert(all =~= earlier + dirs@);
                            if all.contains(true) {
                                let i = choose|i: int| 0 <= i < all.len() && all[i] == true;
                                if i < earlier.len() {
                                    assert(earlier[i] == true);
                                } else {
                                    assert(dirs@[i - earlier.len()]);
                                }
                            }
                            if earlier.contains(true) {
                                let i = choose|i: int| 0 <= i < earlier.len() && earlier[i] == true;
                                assert(all[i] == true);
                            }
                            if exists|i: int| 0 <= i < dirs@.len() && dirs@[i] {
                                let i = choose|i: int| 0 <= i < dirs@.len() && dirs@[i];
                                assert(all[earlier.len() + i] == true);
                            }
                        }
                    },
                    None => {
                        failed += 1;
                        assert(all =~= earlier);
                    },
                }
                at += 1;
            }
            assert(brokers@.take(at as int) =~= brokers@);
            report.set_count("log_dirs.brokers_ok", answered as u64);
            report.set_count("log_dirs.brokers_err", failed as u64);
            report.set_count("log_dirs.count", count as u64);
            report.set_flag("log_dirs.reports_total_bytes", sized);
        },
        Err(error) => {
            report.set("log_dirs.error".to_owned(), one_line(error.as_str()));
        },
    }
}

/// The first topics, as many as are described at once.
pub fn topics_to_describe(names: &Vec<String>) -> (asked: Vec<String>)
    ensures
        text_views(asked@) == text_views(names@).take(
            if names@.len() < DESCRIBE_AT_ONCE {
                names@.len() as int
            } else {
                DESCRIBE_AT_ONCE as int
            },
        ),
{
    let mut asked: Vec<String> = Vec::new();
    let mut at: usize = 0;
    assert(text_views(asked@) =~= text_views(names@).take(0));
    while at < names.len() && at < DESCRIBE_AT_ONCE
        invariant
            at <= names.len(),
            at <= DESCRIBE_AT_ONCE,
            text_views(asked@) == text_views(names@).take(at as int),
        decreases names.len() - at,
    {
        let ghost before = asked@;
        asked.push(names[at].clone());
        assert(text_views(asked@) =~= text_views(before).push(names@[at as int]@));
        at += 1;
        assert(text_views(asked@) =~= text_views(names@).take(at as int));
    }
    asked
}

/// Records what a cluster says of its topics: those it has, one that no cluster
/// has, and where their logs are.
pub fn topics(
    report: &mut Report,
    described: &Result<Vec<DescribedTopic>, String>,
    unknown: &Result<Option<String>, String>,
    log_dirs: &Result<Vec<LogDirs>, String>,
)
    requires
        old(report)@.wf(),
    ensures
        final(report)@.wf(),
        final(report)@.notes == old(report)@.notes,
        final(report)@.facts() == log_dir_facts(
            unknown_facts(describe_facts(old(report)@.facts(), *described), *unknown),
            *log_dirs,
        ),
{
    describe_topics(report, described);
    match unknown {
        Ok(code) => {
            let code = match code {
                Some(code) => Some(code.clone()),
                None => None,
            };
            report.set_opt("unknown_topic.code".to_owned(), code);
        },
        Err(error) => {
            report.set("unknown_topic.error".to_owned(), one_line(error.as_str()));
        },
    }
    describe_log_dirs(report, log_dirs);
}

} // verus!
