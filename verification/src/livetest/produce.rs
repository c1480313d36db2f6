//! The write path, against a cluster this tool does not own: what to write, and
//! what reading it back amounts to.
//!
//! Everything created is prefixed, and cleanup runs when something fails too.

use vstd::prelude::*;
use vstd::string::*;
use vstd::utf8::*;
use crate::compression::Compression;
use crate::error::text_of;
use crate::livetest::read::{verdict_of, Facts};
use crate::livetest::report::Report;
use crate::produce::partition::{key_partition, partition_for_key};
use crate::produce::record::{ProducerRecord, ProducerRecordView, RecordMetadata};
use crate::read::backward::record_views;
use crate::read::batch::Visibility;
use crate::read::record::{Record, RecordView};
use crate::read::scan::{EventView, ScanEvent, ScanSpec, StartPosition};
use crate::text::{
    decimal, decimal_of, join, joined, lossy, lossy_text, quote, quoted, same, signed, signed_of,
    strung, text_views, truth,
};
use crate::wire::{bytes_of, HeaderView};

verus! {

/// How many partitions the scratch topic gets.
pub const PARTITIONS: i32 = 6;

/// How many replicas each of them gets. With every acknowledgement required,
/// the leader then waits on real followers on other machines.
pub const REPLICATION: i16 = 3;

/// How long to wait for a produced record to become readable, in milliseconds.
pub const SETTLE_TIMEOUT_MS: u64 = 30_000;

/// Which topic to produce to.
#[derive(Debug)]
pub struct Options {
    /// An existing topic to use instead of creating a scratch one, so that the
    /// leader map can be compared with another client's view of the same topic.
    pub topic: Option<String>,
}

impl Default for Options {
    fn default() -> (options: Self)
        ensures
            options.topic is None,
    {
        Options { topic: None }
    }
}

/// The topic that a command line names, on top of one named so far.
pub open spec fn topic_option(args: Seq<Seq<char>>, so_far: Option<Seq<char>>) -> Result<
    Option<Seq<char>>,
    Seq<char>,
>
    decreases args.len(),
{
    if args.len() == 0 {
        Ok(so_far)
    } else if args[0] == "--topic"@ {
        if args.len() < 2 {
            Err("--topic needs a name"@)
        } else {
            topic_option(args.skip(2), Some(args[1]))
        }
    } else {
        Err("unknown produce option "@ + quoted(args[0]))
    }
}

impl Options {
    /// Parses the command line.
    pub fn parse(args: &[String]) -> (options: Result<Self, String>)
        ensures
            match options {
                Ok(options) => topic_option(text_views(args@), None) == Ok::<_, Seq<char>>(
                    text_of(options.topic),
                ),
                Err(text) => topic_option(text_views(args@), None) == Err::<Option<Seq<char>>, _>(
                    text@,
                ),
            },
    {
        let mut options = Options::default();
        let ghost views = text_views(args@);
        let mut at: usize = 0;
        assert(views.skip(0) =~= views);
        while at < args.len()
            invariant
                at <= args.len(),
                views == text_views(args@),
                topic_option(views, None) == topic_option(
                    views.skip(at as int),
                    text_of(options.topic),
                ),
            decreases args.len() - at,
        {
            let ghost rest = views.skip(at as int);
            proof {
                assert(rest[0] == args@[at as int]@);
                if at + 1 < args@.len() {
                    assert(rest[1] == args@[at + 1]@);
                    assert(rest.skip(2) =~= views.skip(at + 2));
                }
            }
            if same(&args[at], "--topic") {
                if at + 1 >= args.len() {
                    return Err("--topic needs a name".to_owned());
                }
                options.topic = Some(args[at + 1].clone());
            } else {
                return Err(joined("unknown produce option ", quote(args[at].as_str()).as_str()));
            }
            at += 2;
        }
        Ok(options)
    }
}

/// Where a run produces to: the topic that was named, or a scratch one, which
/// is the run's own to delete again.
pub fn produce(label: &str, options: &Options, scratch: String) -> (begun: (Report, String, bool))
    ensures
        begun.0@.wf(),
        begun.0@.facts() == Map::<Seq<char>, Seq<char>>::empty(),
        begun.2 == (options.topic is None),
        match text_of(options.topic) {
            Some(existing) => begun.1@ == existing && begun.0@.notes == seq![
                "target: "@ + label@,
                "using existing topic: "@ + existing,
            ],
            None => begun.1@ == scratch@ && begun.0@.notes == seq![
                "target: "@ + label@,
                "scratch topic: "@ + scratch@,
            ],
        },
{
    let mut report = Report::new();
    report.note(joined("target: ", label));
    match &options.topic {
        Some(existing) => {
            report.note(joined("using existing topic: ", existing.as_str()));
            assert(report@.notes =~= seq![
                "target: "@ + label@,
                "using existing topic: "@ + existing@,
            ]);
            (report, existing.clone(), false)
        },
        None => {
            report.note(joined("scratch topic: ", scratch.as_str()));
            assert(report@.notes =~= seq!["target: "@ + label@, "scratch topic: "@ + scratch@]);
            (report, scratch, true)
        },
    }
}

/// Who leads and who holds one partition.
#[derive(Debug)]
pub struct PartitionLeader {
    /// Partition.
    pub partition: i32,
    /// Its leader.
    pub leader: Option<i32>,
    /// Its replicas.
    pub replicas: Vec<i32>,
}

/// Numbers, as texts.
pub open spec fn numbers_text(numbers: Seq<i32>) -> Seq<Seq<char>> {
    numbers.map_values(|number: i32| signed_of(number as int))
}

/// The facts of one partition's leader and replicas.
pub open spec fn one_leader_facts(facts: Facts, known: PartitionLeader) -> Facts {
    facts.insert(
        "produce.leader.p"@ + signed_of(known.partition as int),
        match known.leader {
            Some(leader) => signed_of(leader as int),
            None => "-"@,
        },
    ).insert(
        "produce.replicas.p"@ + signed_of(known.partition as int),
        strung(numbers_text(known.replicas@), "/"@),
    )
}

/// The facts of every partition's leader and replicas.
pub open spec fn leader_facts(facts: Facts, known: Seq<PartitionLeader>) -> Facts
    decreases known.len(),
{
    if known.len() == 0 {
        facts
    } else {
        one_leader_facts(leader_facts(facts, known.drop_last()), known.last())
    }
}

/// Numbers, as texts.
fn number_words(numbers: &Vec<i32>) -> (texts: Vec<String>)
    ensures
        text_views(texts@) == numbers_text(numbers@),
{
    let mut texts: Vec<String> = Vec::new();
    let mut at: usize = 0;
    assert(text_views(texts@) =~= numbers_text(numbers@).take(0));
    while at < numbers.len()
        invariant
            at <= numbers.len(),
            text_views(texts@) == numbers_text(numbers@).take(at as int),
        decreases numbers.len() - at,
    {
        let ghost before = texts@;
        let text = signed(numbers[at] as i64);
        let ghost view = text@;
        texts.push(text);
        assert(text_views(texts@) =~= text_views(before).push(view));
        at += 1;
        assert(text_views(texts@) =~= numbers_text(numbers@).take(at as int));
    }
    assert(text_views(texts@) =~= numbers_text(numbers@));
    texts
}

/// Records the leader map as it is seen before producing. When a produce is
/// refused for the wrong leader, this separates "our metadata is wrong" from
/// "it was sent to the wrong broker anyway".
pub fn leader_map(report: &mut Report, known: &Vec<PartitionLeader>)
    requires
        old(report)@.wf(),
    ensures
        final(report)@.wf(),
        final(report)@.notes == old(report)@.notes,
        final(report)@.facts() == leader_facts(
            old(report)@.facts().insert("produce.partitions"@, decimal_of(known@.len())),
            known@,
        ),
{
    report.set_count("produce.partitions", known.len() as u64);
    let ghost before = report@.facts();
    let mut at: usize = 0;
    assert(known@.take(0) =~= seq![]);
    while at < known.len()
        invariant
            at <= known.len(),
            report@.wf(),
            report@.notes == old(report)@.notes,
            report@.facts() == leader_facts(before, known@.take(at as int)),
        decreases known.len() - at,
    {
        assert(known@.take(at + 1).drop_last() =~= known@.take(at as int));
        assert(known@.take(at + 1).last() == known@[at as int]);
        let number = signed(known[at].partition as i64);
        let leader = match known[at].leader {
            Some(leader) => signed(leader as i64),
            None => "-".to_owned(),
        };
        report.set(joined("produce.leader.p", number.as_str()), leader);
        report.set(
            joined("produce.replicas.p", number.as_str()),
            join(&number_words(&known[at].replicas), "/"),
        );
        at += 1;
    }
    assert(known@.take(at as int) =~= known@);
}

/// Records the version that produce requests are sent with. From version 13 on
/// they carry a topic id and no name at all.
pub fn produce_version(report: &mut Report, version: i16)
    requires
        old(report)@.wf(),
    ensures
        final(report)@.wf(),
        final(report)@.notes == old(report)@.notes,
        final(report)@.facts() == old(report)@.facts().insert(
            "produce.version"@,
            signed_of(version as int),
        ).insert("produce.by_topic_id"@, truth(version >= 13)),
{
    report.set_number("produce.version", version as i64);
    report.set_flag("produce.by_topic_id", version >= 13);
}

/// The timestamp of the first record.
pub const STAMPED: i64 = 1_765_000_000_000;

/// The partition that records with an explicit one go to.
pub const CHOSEN: i32 = 3;

/// How many records are sent before the first read back.
pub const OPENING: usize = 7;

/// The name of a codec.
pub open spec fn codec_name(compression: Compression) -> Seq<char> {
    match compression {
        Compression::Uncompressed => "None"@,
        Compression::Gzip => "Gzip"@,
        Compression::Snappy => "Snappy"@,
        Compression::Lz4 => "Lz4"@,
        Compression::Zstd => "Zstd"@,
    }
}

/// The name of a codec.
fn codec_words(compression: Compression) -> (name: &'static str)
    ensures
        name@ == codec_name(compression),
{
    match compression {
        Compression::Uncompressed => "None",
        Compression::Gzip => "Gzip",
        Compression::Snappy => "Snappy",
        Compression::Lz4 => "Lz4",
        Compression::Zstd => "Zstd",
    }
}

/// A record to send, and the codec to send it with.
#[derive(Debug)]
pub struct Outgoing {
    /// The record.
    pub record: ProducerRecord,
    /// The codec.
    pub compression: Compression,
}

/// A record without anything on it but where it goes.
pub open spec fn bare(topic: Seq<char>) -> ProducerRecordView {
    ProducerRecordView {
        topic,
        partition: Some(CHOSEN),
        key: None,
        value: None,
        headers: seq![],
        timestamp: None,
    }
}

/// The record that a codec is tried with.
pub open spec fn codec_record(topic: Seq<char>, compression: Compression) -> ProducerRecordView {
    ProducerRecordView {
        key: Some(encode_utf8("codec-"@ + codec_name(compression))),
        value: Some(encode_utf8("payload-"@ + codec_name(compression))),
        ..bare(topic)
    }
}

/// The headers of the first record.
pub open spec fn first_headers() -> Seq<HeaderView> {
    seq![
        ("content-type"@, Some(encode_utf8("application/json"@))),
        ("tombstoned-header"@, None),
    ]
}

/// What is sent first: a record with everything on it, a tombstone and an empty
/// value, which must not collapse into each other, and one record through every
/// codec, so that a broker's own validation sees each.
pub open spec fn opening(topic: Seq<char>) -> Seq<(ProducerRecordView, Compression)> {
    seq![
        (
            ProducerRecordView {
                key: Some(encode_utf8("customer-7"@)),
                value: Some(encode_utf8("{\"total\":42}"@)),
                headers: first_headers(),
                timestamp: Some(STAMPED),
                ..bare(topic)
            },
            Compression::Uncompressed,
        ),
        (
            ProducerRecordView { key: Some(encode_utf8("gone"@)), ..bare(topic) },
            Compression::Uncompressed,
        ),
        (
            ProducerRecordView {
                key: Some(encode_utf8("blank"@)),
                value: Some(seq![]),
                ..bare(topic)
            },
            Compression::Uncompressed,
        ),
        (codec_record(topic, Compression::Gzip), Compression::Gzip),
        (codec_record(topic, Compression::Snappy), Compression::Snappy),
        (codec_record(topic, Compression::Lz4), Compression::Lz4),
        (codec_record(topic, Compression::Zstd), Compression::Zstd),
    ]
}

/// Records to send, as plain values.
pub open spec fn outgoing_views(records: Seq<Outgoing>) -> Seq<(ProducerRecordView, Compression)> {
    records.map_values(|outgoing: Outgoing| (outgoing.record@, outgoing.compression))
}

/// The record that a codec is tried with.
fn codec_outgoing(topic: &str, compression: Compression) -> (outgoing: Outgoing)
    ensures
        (outgoing.record@, outgoing.compression) == (codec_record(topic@, compression), compression),
{
    let name = codec_words(compression);
    let record = ProducerRecord::new(topic).with_partition(CHOSEN).with_key(
        joined("codec-", name).as_str().as_bytes_vec(),
    ).with_value(joined("payload-", name).as_str().as_bytes_vec());
    Outgoing { record, compression }
}

/// What is sent first.
pub fn opening_records(topic: &str) -> (records: Vec<Outgoing>)
    ensures
        outgoing_views(records@) == opening(topic@),
{
    let mut records: Vec<Outgoing> = Vec::new();
    let first = ProducerRecord::new(topic).with_partition(CHOSEN).with_key(
        "customer-7".as_bytes_vec(),
    ).with_value("{\"total\":42}".as_bytes_vec()).with_header(
        "content-type",
        "application/json".as_bytes_vec(),
    ).with_null_header("tombstoned-header").with_timestamp(STAMPED);
    assert(first@.headers =~= first_headers());
    records.push(Outgoing { record: first, compression: Compression::Uncompressed });
    let gone = ProducerRecord::new(topic).with_partition(CHOSEN).with_key("gone".as_bytes_vec());
    records.push(Outgoing { record: gone, compression: Compression::Uncompressed });
    let empty: Vec<u8> = Vec::new();
    assert(empty@ =~= seq![]);
    let blank = ProducerRecord::new(topic).with_partition(CHOSEN).with_key(
        "blank".as_bytes_vec(),
    ).with_value(empty);
    records.push(Outgoing { record: blank, compression: Compression::Uncompressed });
    records.push(codec_outgoing(topic, Compression::Gzip));
    records.push(codec_outgoing(topic, Compression::Snappy));
    records.push(codec_outgoing(topic, Compression::Lz4));
    records.push(codec_outgoing(topic, Compression::Zstd));
    assert(outgoing_views(records@) =~= opening(topic@));
    records
}

/// Takes in where the first record landed, and judges it.
pub fn first_landed(report: &mut Report, metadata: &RecordMetadata, ack_ms: u64) -> (verdict: Result<
    (),
    String,
>)
    requires
        old(report)@.wf(),
    ensures
        final(report)@.wf(),
        final(report)@.notes == old(report)@.notes,
        final(report)@.facts() == old(report)@.facts().insert(
            "produce.one.partition"@,
            signed_of(metadata.partition as int),
        ).insert("produce.one.offset"@, signed_of(metadata.offset as int)).insert(
            "produce.one.ack_ms"@,
            decimal_of(ack_ms as nat),
        ).insert(
            "produce.one.broker_timestamp"@,
            match metadata.timestamp {
                Some(timestamp) => signed_of(timestamp as int),
                None => "-"@,
            },
        ),
        verdict_of(verdict) == if metadata.partition == CHOSEN {
            Ok::<_, Seq<char>>(())
        } else {
            Err(
                "explicit partition ignored: asked for 3, landed in "@ + signed_of(
                    metadata.partition as int,
                ),
            )
        },
{
    report.set_number("produce.one.partition", metadata.partition as i64);
    report.set_number("produce.one.offset", metadata.offset);
    report.set_count("produce.one.ack_ms", ack_ms);
    match metadata.timestamp {
        Some(timestamp) => report.set_number("produce.one.broker_timestamp", timestamp),
        None => report.set_text("produce.one.broker_timestamp", "-"),
    }
    if metadata.partition != CHOSEN {
        return Err(
            joined(
                "explicit partition ignored: asked for 3, landed in ",
                signed(metadata.partition as i64).as_str(),
            ),
        );
    }
    Ok(())
}

/// Fails when something did not survive the round trip.
pub fn check(what: &str, holds: bool) -> (verdict: Result<(), String>)
    ensures
        verdict_of(verdict) == if holds {
            Ok::<_, Seq<char>>(())
        } else {
            Err(what@ + " did not survive the round trip"@)
        },
{
    if !holds {
        return Err(joined(what, " did not survive the round trip"));
    }
    Ok(())
}

/// The first record with a key.
pub open spec fn found(records: Seq<RecordView>, key: Seq<u8>) -> Option<RecordView>
    decreases records.len(),
{
    if records.len() == 0 {
        None
    } else if records[0].key == Some(key) {
        Some(records[0])
    } else {
        found(records.skip(1), key)
    }
}

/// Whether two byte strings are the same.
fn same_bytes(a: &[u8], b: &[u8]) -> (is: bool)
    ensures
        is == (a@ == b@),
{
    if a.len() != b.len() {
        return false;
    }
    let mut at: usize = 0;
    while at < a.len()
        invariant
            at <= a.len(),
            a.len() == b.len(),
            forall|i: int| 0 <= i < at ==> a@[i] == b@[i],
        decreases a.len() - at,
    {
        if a[at] != b[at] {
            return false;
        }
        at += 1;
    }
    assert(a@ =~= b@);
    true
}

/// Whether an optional byte string is there and is the same as another.
fn is_bytes(a: &Option<Vec<u8>>, b: &[u8]) -> (is: bool)
    ensures
        is == (bytes_of(*a) == Some(b@)),
{
    match a {
        Some(a) => same_bytes(a.as_slice(), b),
        None => false,
    }
}

/// The first record with a key. Found by key and not by place: an existing
/// topic already holds records from earlier runs.
pub fn find<'a>(records: &'a [Record], key: &[u8]) -> (record: Result<&'a Record, String>)
    ensures
        match record {
            Ok(record) => found(record_views(records@), key@) == Some(record@),
            Err(text) => found(record_views(records@), key@) is None && text@
                == "no record with key "@ + lossy_text(key@),
        },
{
    let ghost views = record_views(records@);
    let mut at: usize = 0;
    assert(views.skip(0) =~= views);
    while at < records.len()
        invariant
            at <= records.len(),
            views == record_views(records@),
            found(views, key@) == found(views.skip(at as int), key@),
        decreases records.len() - at,
    {
        assert(views.skip(at as int)[0] == records@[at as int]@);
        assert(views.skip(at as int).skip(1) =~= views.skip(at + 1));
        if is_bytes(&records[at].key, key) {
            return Ok(&records[at]);
        }
        at += 1;
    }
    Err(joined("no record with key ", lossy(key).as_str()))
}

/// Whether bytes begin with others.
pub open spec fn bytes_begin(bytes: Seq<u8>, prefix: Seq<u8>) -> bool {
    prefix.len() <= bytes.len() && bytes.take(prefix.len() as int) == prefix
}

/// Whether bytes begin with others.
fn bytes_start(bytes: &[u8], prefix: &[u8]) -> (start: bool)
    ensures
        start == bytes_begin(bytes@, prefix@),
{
    if prefix.len() > bytes.len() {
        return false;
    }
    let head = vstd::slice::slice_subrange(bytes, 0, prefix.len());
    assert(head@ =~= bytes@.take(prefix@.len() as int));
    same_bytes(head, prefix)
}

/// The distinct keys that start with the mark of the codec records. Distinct
/// keys rather than records: an existing topic holds a copy per earlier run.
pub open spec fn codec_keys(records: Seq<RecordView>) -> Seq<Seq<u8>>
    decreases records.len(),
{
    if records.len() == 0 {
        seq![]
    } else {
        let before = codec_keys(records.drop_last());
        match records.last().key {
            Some(key) => if bytes_begin(key, encode_utf8("codec-"@)) && !before.contains(key) {
                before.push(key)
            } else {
                before
            },
            None => before,
        }
    }
}

/// How many distinct keys start with the mark of the codec records.
fn count_codec_keys(records: &Vec<Record>) -> (count: usize)
    ensures
        count == codec_keys(record_views(records@)).len(),
{
    let ghost views = record_views(records@);
    let mark = "codec-".as_bytes_vec();
    let mut keys: Vec<Vec<u8>> = Vec::new();
    let mut at: usize = 0;
    assert(keys@.map_values(|key: Vec<u8>| key@) =~= codec_keys(views.take(0)));
    while at < records.len()
        invariant
            at <= records.len(),
            views == record_views(records@),
            mark@ == encode_utf8("codec-"@),
            keys@.map_values(|key: Vec<u8>| key@) == codec_keys(views.take(at as int)),
        decreases records.len() - at,
    {
        let ghost before = codec_keys(views.take(at as int));
        assert(views.take(at + 1).drop_last() =~= views.take(at as int));
        assert(views.take(at + 1).last() == records@[at as int]@);
        if let Some(key) = &records[at].key {
            if bytes_start(key.as_slice(), mark.as_slice()) {
                let mut k: usize = 0;
                let mut seen = false;
                while k < keys.len()
                    invariant
                        k <= keys.len(),
                        before == keys@.map_values(|key: Vec<u8>| key@),
                        seen == exists|i: int| 0 <= i < k && before[i] == key@,
                    decreases keys.len() - k,
                {
                    assert(before[k as int] == keys@[k as int]@);
                    if same_bytes(keys[k].as_slice(), key.as_slice()) {
                        seen = true;
                    }
                    k += 1;
                }
                assert(seen == before.contains(key@));
                if !seen {
                    let ghost held = keys@;
                    keys.push(vstd::slice::slice_to_vec(key.as_slice()));
                    assert(keys@.map_values(|key: Vec<u8>| key@) =~= before.push(key@));
                }
            }
        }
        at += 1;
    }
    assert(views.take(at as int) =~= views);
    keys.len()
}

/// What is said when something did not survive.
pub open spec fn lost(what: Seq<char>) -> Result<(), Seq<char>> {
    Err(what + " did not survive the round trip"@)
}

/// What is said when a record is missing.
pub open spec fn missing(key: Seq<char>) -> Result<(), Seq<char>> {
    Err("no record with key "@ + lossy_text(encode_utf8(key)))
}

/// What reading back the first records comes to: the facts, as far as it gets,
/// and the verdict.
pub open spec fn read_back_of(facts: Facts, records: Seq<RecordView>) -> (
    Facts,
    Result<(), Seq<char>>,
) {
    let read = facts.insert("produce.read_back"@, decimal_of(records.len()));
    match found(records, encode_utf8("customer-7"@)) {
        None => (read, missing("customer-7"@)),
        Some(first) => if first.value != Some(encode_utf8("{\"total\":42}"@)) {
            (read, lost("value"@))
        } else if first.timestamp != STAMPED {
            (read, lost("timestamp"@))
        } else if first.headers != first_headers() {
            (read, lost("headers"@))
        } else {
            let survived = read.insert("produce.fields_survived"@, truth(true));
            match found(records, encode_utf8("gone"@)) {
                None => (survived, missing("gone"@)),
                Some(tombstone) => match found(records, encode_utf8("blank"@)) {
                    None => (survived, missing("blank"@)),
                    Some(blank) => if tombstone.value is Some {
                        (survived, lost("tombstone stayed null"@))
                    } else if blank.value != Some(Seq::<u8>::empty()) {
                        (survived, lost("empty value stayed empty"@))
                    } else {
                        let codecs = codec_keys(records).len();
                        (
                            survived.insert("produce.tombstone_distinct"@, truth(true)).insert(
                                "produce.codecs_read_back"@,
                                decimal_of(codecs),
                            ),
                            if codecs == 4 {
                                Ok(())
                            } else {
                                Err(
                                    "expected all 4 compressed codecs to read back, got "@
                                        + decimal_of(codecs),
                                )
                            },
                        )
                    },
                },
            }
        },
    }
}

/// Whether some headers are those of the first record.
fn are_first_headers(headers: &Vec<(String, Option<Vec<u8>>)>) -> (are: bool)
    ensures
        are == (crate::wire::headers_of(headers@) == first_headers()),
{
    let ghost views = crate::wire::headers_of(headers@);
    assert(first_headers().len() == 2);
    if headers.len() != 2 {
        assert(views.len() != 2);
        return false;
    }
    assert(views[0] == (headers@[0].0@, bytes_of(headers@[0].1)));
    assert(views[1] == (headers@[1].0@, bytes_of(headers@[1].1)));
    let json = "application/json".as_bytes_vec();
    let are = same(&headers[0].0, "content-type") && is_bytes(&headers[0].1, json.as_slice())
        && same(&headers[1].0, "tombstoned-header") && headers[1].1.is_none();
    proof {
        if are {
            assert(views =~= first_headers());
        } else {
            assert(first_headers()[0] == ("content-type"@, Some(encode_utf8("application/json"@))));
            assert(first_headers()[1] == ("tombstoned-header"@, None::<Seq<u8>>));
        }
    }
    are
}

/// Takes in the first records as they read back, and judges them.
pub fn read_back(report: &mut Report, records: &Vec<Record>) -> (verdict: Result<(), String>)
    requires
        old(report)@.wf(),
    ensures
        final(report)@.wf(),
        final(report)@.notes == old(report)@.notes,
        (final(report)@.facts(), verdict_of(verdict)) == read_back_of(
            old(report)@.facts(),
            record_views(records@),
        ),
{
    report.set_count("produce.read_back", records.len() as u64);
    let first = match find(records.as_slice(), "customer-7".as_bytes_vec().as_slice()) {
        Ok(first) => first,
        Err(text) => {
            return Err(text);
        },
    };
    let total = "{\"total\":42}".as_bytes_vec();
    if !is_bytes(&first.value, total.as_slice()) {
        return check("value", false);
    }
    if first.timestamp != STAMPED {
        return check("timestamp", false);
    }
    if !are_first_headers(&first.headers) {
        return check("headers", false);
    }
    report.set_flag("produce.fields_survived", true);
    let tombstone = match find(records.as_slice(), "gone".as_bytes_vec().as_slice()) {
        Ok(tombstone) => tombstone,
        Err(text) => {
            return Err(text);
        },
    };
    let blank = match find(records.as_slice(), "blank".as_bytes_vec().as_slice()) {
        Ok(blank) => blank,
        Err(text) => {
            return Err(text);
        },
    };
    if tombstone.value.is_some() {
        return check("tombstone stayed null", false);
    }
    let empty: Vec<u8> = Vec::new();
    assert(empty@ =~= Seq::<u8>::empty());
    if !is_bytes(&blank.value, empty.as_slice()) {
        return check("empty value stayed empty", false);
    }
    report.set_flag("produce.tombstone_distinct", true);
    let codecs: usize = count_codec_keys(records);
    report.set_count("produce.codecs_read_back", codecs as u64);
    if codecs != 4 {
        return Err(
            joined(
                "expected all 4 compressed codecs to read back, got ",
                decimal(codecs as u64).as_str(),
            ),
        );
    }
    Ok(())
}

/// How many keys are routed.
pub const ROUTED: u32 = 48;

/// A key to be routed.
pub fn routed_key(nth: u32) -> (key: String)
    ensures
        key@ == "key-"@ + decimal_of(nth as nat),
{
    joined("key-", decimal(nth as u64).as_str())
}

/// Judges where a record without an explicit partition landed: where the hash
/// of its key says.
pub fn routed(key: &str, placed: i32) -> (verdict: Result<(), String>)
    ensures
        verdict_of(verdict) == if placed == key_partition(encode_utf8(key@), PARTITIONS) {
            Ok::<_, Seq<char>>(())
        } else {
            Err(
                "key "@ + key@ + ": partitioner chose "@ + signed_of(
                    key_partition(encode_utf8(key@), PARTITIONS),
                ) + ", record landed in "@ + signed_of(placed as int),
            )
        },
{
    let bytes = key.as_bytes_vec();
    let ours: i32 = partition_for_key(bytes.as_slice(), PARTITIONS);
    if placed != ours {
        let mut text = joined("key ", key);
        text.append(": partitioner chose ");
        text.append(signed(ours as i64).as_str());
        text.append(", record landed in ");
        text.append(signed(placed as i64).as_str());
        return Err(text);
    }
    Ok(())
}

/// What a wait for records to become readable leads to.
#[derive(Debug)]
pub enum Awaited {
    /// They are there.
    Ready,
    /// They are to be read again after a while.
    Again,
    /// It is given up.
    Failed(String),
}

/// Decides what a read of a partition that should hold some records leads to.
/// A produce is acknowledged by the leader, and the read may reach a different
/// broker's view of the log.
pub fn await_records(
    topic: &str,
    partition: i32,
    expected: usize,
    seen: usize,
    expired: bool,
) -> (awaited: Awaited)
    ensures
        if seen >= expected {
            awaited is Ready
        } else if expired {
            awaited matches Awaited::Failed(text) && text@ == "expected "@ + decimal_of(
                expected as nat,
            ) + " records in "@ + topic@ + "-"@ + signed_of(partition as int) + ", saw "@
                + decimal_of(seen as nat)
        } else {
            awaited is Again
        },
{
    if seen >= expected {
        return Awaited::Ready;
    }
    if expired {
        let mut text = joined("expected ", decimal(expected as u64).as_str());
        text.append(" records in ");
        text.append(topic);
        text.append("-");
        text.append(signed(partition as i64).as_str());
        text.append(", saw ");
        text.append(decimal(seen as u64).as_str());
        return Awaited::Failed(text);
    }
    Awaited::Again
}

/// Decides what a describe of a topic that was just created leads to.
pub fn await_topic(topic: &str, visible: bool, expired: bool) -> (awaited: Awaited)
    ensures
        if visible {
            awaited is Ready
        } else if expired {
            awaited matches Awaited::Failed(text) && text@ == topic@ + " never became describable"@
        } else {
            awaited is Again
        },
{
    if visible {
        return Awaited::Ready;
    }
    if expired {
        return Awaited::Failed(joined(topic, " never became describable"));
    }
    Awaited::Again
}

/// What a read back of one partition is to scan: all of it, from the start.
pub fn read_partition_with(topic: &str, partition: i32, visibility: Visibility) -> (spec: ScanSpec)
    ensures
        spec.topic@ == topic@,
        spec.partitions matches Some(partitions) && partitions@ == seq![partition],
        spec.from == StartPosition::Earliest,
        spec.limit is None,
        !spec.follow,
        spec.filter is None,
        spec.visibility == visibility,
{
    let mut partitions: Vec<i32> = Vec::new();
    partitions.push(partition);
    ScanSpec::new(topic).partitions(partitions).from(StartPosition::Earliest).visibility(visibility)
}

/// Takes in one event of a read back. A batch that would not decode ends it:
/// what was just written must be readable.
pub fn take_back(records: &mut Vec<Record>, event: ScanEvent) -> (verdict: Result<(), String>)
    ensures
        match event@ {
            EventView::Record(record) => {
                &&& record_views(final(records)@) == record_views(old(records)@).push(record)
                &&& verdict_of(verdict) == Ok::<_, Seq<char>>(())
            },
            EventView::Malformed { offset, reason, .. } => {
                &&& final(records)@ == old(records)@
                &&& verdict_of(verdict) == Err::<(), _>(
                    "we wrote offset "@ + signed_of(offset as int) + " and could not read it back: "@
                        + reason,
                )
            },
            _ => {
                &&& final(records)@ == old(records)@
                &&& verdict_of(verdict) == Ok::<_, Seq<char>>(())
            },
        },
{
    match event {
        ScanEvent::Record(record) => {
            let ghost before = records@;
            let ghost view = record@;
            records.push(record);
            assert(record_views(records@) =~= record_views(before).push(view));
            Ok(())
        },
        ScanEvent::Malformed { offset, reason, .. } => {
            let mut text = joined("we wrote offset ", signed(offset).as_str());
            text.append(" and could not read it back: ");
            text.append(reason.reason.as_str());
            Err(text)
        },
        _ => Ok(()),
    }
}

} // verus!
