//! The read path, against records this tool did not write.
//!
//! Read-only by construction: scanning does not mutate a cluster.

use std::collections::HashMap;
use vstd::prelude::*;
use vstd::string::*;


use crate::livetest::report::{on_one_line, one_line, Report};
use crate::read::backward::PartitionTail;
use crate::read::batch::{held, saturating, saturating_sum};
use crate::read::scan::{EventView, ScanEvent};
use crate::read::scan_state::{capped, one_more};
use crate::text::{
    ascending, begins_with, decimal, decimal_of, join, joined, letters, number_in, parse_number,
    quote, quoted, same, sort_texts, starts_with, strung, text_views, truth, truth_text,
};

verus! {

/// How much to read.
#[derive(Debug)]
pub struct Options {
    /// Topics to read, or empty to pick from what the cluster has.
    pub topics: Vec<String>,
    /// Require exactly this many records from each named topic.
    pub expect: Option<usize>,
    /// Stop a scan after this many records.
    pub limit: usize,
    /// How many topics to pick when none were named.
    pub max_topics: usize,
}

/// [`Options`], as plain values.
pub struct OptionsView {
    pub topics: Seq<Seq<char>>,
    pub expect: Option<usize>,
    pub limit: usize,
    pub max_topics: usize,
}

impl View for Options {
    type V = OptionsView;

    open spec fn view(&self) -> OptionsView {
        OptionsView {
            topics: text_views(self.topics@),
            expect: self.expect,
            limit: self.limit,
            max_topics: self.max_topics,
        }
    }
}

/// What is read unless something else is asked for. A shared cluster's
/// benchmark topics run to millions of records, and reading all of them proves
/// nothing that the first twenty thousand did not.
pub open spec fn default_options() -> OptionsView {
    OptionsView { topics: seq![], expect: None, limit: 20_000, max_topics: 5 }
}

impl Default for Options {
    fn default() -> (options: Self)
        ensures
            options@ == default_options(),
    {
        let options = Options { topics: Vec::new(), expect: None, limit: 20_000, max_topics: 5 };
        assert(options@.topics =~= seq![]);
        options
    }
}

/// What is said of an option that needs a number.
pub open spec fn needs_a_number(option: Seq<char>) -> Seq<char> {
    option + " needs a number"@
}

/// The options that a command line gives, on top of those given so far.
pub open spec fn options_of(args: Seq<Seq<char>>, so_far: OptionsView) -> Result<
    OptionsView,
    Seq<char>,
>
    decreases args.len(),
{
    if args.len() == 0 {
        Ok(so_far)
    } else if args[0] == "--topic"@ {
        if args.len() < 2 {
            Err("--topic needs a value"@)
        } else {
            options_of(
                args.skip(2),
                OptionsView { topics: so_far.topics.push(args[1]), ..so_far },
            )
        }
    } else if args[0] == "--expect"@ {
        if args.len() < 2 || number_in(args[1]) is None {
            Err(needs_a_number("--expect"@))
        } else {
            options_of(args.skip(2), OptionsView { expect: number_in(args[1]), ..so_far })
        }
    } else if args[0] == "--limit"@ {
        if args.len() < 2 || number_in(args[1]) is None {
            Err(needs_a_number("--limit"@))
        } else {
            options_of(args.skip(2), OptionsView { limit: number_in(args[1])->Some_0, ..so_far })
        }
    } else if args[0] == "--max-topics"@ {
        if args.len() < 2 || number_in(args[1]) is None {
            Err(needs_a_number("--max-topics"@))
        } else {
            options_of(
                args.skip(2),
                OptionsView { max_topics: number_in(args[1])->Some_0, ..so_far },
            )
        }
    } else {
        Err("unknown option "@ + quoted(args[0]))
    }
}

/// The options that a command line gives.
pub open spec fn parsed(args: Seq<Seq<char>>) -> Result<OptionsView, Seq<char>> {
    match options_of(args, default_options()) {
        Err(text) => Err(text),
        Ok(options) => if options.expect is Some && options.topics.len() == 0 {
            Err("--expect only means something with an explicit --topic"@)
        } else {
            Ok(options)
        },
    }
}

/// The number that the value of an option writes.
fn number_after(args: &[String], at: usize) -> (number: Option<usize>)
    ensures
        number == if at < args@.len() {
            number_in(args@[at as int]@)
        } else {
            None
        },
{
    if at < args.len() {
        parse_number(letters(args[at].as_str()).as_slice())
    } else {
        None
    }
}

impl Options {
    /// Parses the command line.
    pub fn parse(args: &[String]) -> (options: Result<Self, String>)
        ensures
            match options {
                Ok(options) => parsed(text_views(args@)) == Ok::<_, Seq<char>>(options@),
                Err(text) => parsed(text_views(args@)) == Err::<OptionsView, _>(text@),
            },
    {
        let mut options = Options::default();
        let ghost views = text_views(args@);
        let mut at: usize = 0;
        assert(views.skip(0) =~= views);
        while at < args.len()
            invariant
                at <= args.len(),
                views == text_views(args@),
                options_of(views, default_options()) == options_of(views.skip(at as int), options@),
            decreases args.len() - at,
        {
            let ghost rest = views.skip(at as int);
            let ghost before = options.topics@;
            proof {
                assert(rest[0] == args@[at as int]@);
                if at + 1 < args@.len() {
                    assert(rest[1] == args@[at + 1]@);
                    assert(rest.skip(2) =~= views.skip(at + 2));
                }
            }
            let arg = &args[at];
            if same(arg, "--topic") {
                if at + 1 >= args.len() {
                    return Err("--topic needs a value".to_owned());
                }
                options.topics.push(args[at + 1].clone());
                assert(text_views(options.topics@) =~= text_views(before).push(args@[at + 1]@));
            } else if same(arg, "--expect") {
                match number_after(args, at + 1) {
                    Some(count) => {
                        options.expect = Some(count);
                    },
                    None => {
                        return Err("--expect".to_owned().concat(" needs a number"));
                    },
                }
            } else if same(arg, "--limit") {
                match number_after(args, at + 1) {
                    Some(limit) => {
                        options.limit = limit;
                    },
                    None => {
                        return Err("--limit".to_owned().concat(" needs a number"));
                    },
                }
            } else if same(arg, "--max-topics") {
                match number_after(args, at + 1) {
                    Some(max) => {
                        options.max_topics = max;
                    },
                    None => {
                        return Err("--max-topics".to_owned().concat(" needs a number"));
                    },
                }
            } else {
                return Err(joined("unknown option ", quote(arg.as_str()).as_str()));
            }
            at += 2;
        }
        if options.expect.is_some() && options.topics.len() == 0 {
            return Err("--expect only means something with an explicit --topic".to_owned());
        }
        Ok(options)
    }
}

/// What metadata says of a topic.
#[derive(Debug)]
pub struct TopicListing {
    /// Its name.
    pub name: String,
    /// Whether the broker says that it is internal.
    pub internal: bool,
    /// Whether metadata reports an error for it.
    pub failed: bool,
    /// How many partitions it has.
    pub partitions: usize,
}

/// A [`TopicListing`], as plain values.
pub struct ListingView {
    pub name: Seq<char>,
    pub internal: bool,
    pub failed: bool,
    pub partitions: usize,
}

impl View for TopicListing {
    type V = ListingView;

    open spec fn view(&self) -> ListingView {
        ListingView {
            name: self.name@,
            internal: self.internal,
            failed: self.failed,
            partitions: self.partitions,
        }
    }
}

/// Listings, as plain values.
pub open spec fn listing_views(topics: Seq<TopicListing>) -> Seq<ListingView> {
    topics.map_values(|topic: TopicListing| topic@)
}

/// Whether a topic is worth reading: a real one, that is not internal. One
/// whose name starts with two underscores is internal even when the broker does
/// not say so.
pub open spec fn readable(topic: ListingView) -> bool {
    !topic.internal && !begins_with(topic.name, "__"@) && !topic.failed && topic.partitions > 0
}

/// The names of the topics worth reading.
pub open spec fn readable_names(topics: Seq<ListingView>) -> Seq<Seq<char>>
    decreases topics.len(),
{
    if topics.len() == 0 {
        seq![]
    } else {
        let before = readable_names(topics.drop_last());
        if readable(topics.last()) {
            before.push(topics.last().name)
        } else {
            before
        }
    }
}

/// Whether some names are the first, in order, of those worth reading.
pub open spec fn picked(topics: Seq<ListingView>, max: usize, names: Seq<Seq<char>>) -> bool {
    exists|all: Seq<Seq<char>>| #[trigger]
        ascending(all) && all.to_multiset() == readable_names(topics).to_multiset() && names
            == all.take(
            if all.len() < max {
                all.len() as int
            } else {
                max as int
            },
        )
}

/// Topics worth reading: real ones, with data, that are not internal.
pub fn pick_topics(topics: &Vec<TopicListing>, max: usize) -> (names: Vec<String>)
    ensures
        picked(listing_views(topics@), max, text_views(names@)),
{
    let ghost views = listing_views(topics@);
    let mark = letters("__");
    let mut names: Vec<String> = Vec::new();
    let mut at: usize = 0;
    assert(text_views(names@) =~= readable_names(views.take(0)));
    while at < topics.len()
        invariant
            at <= topics.len(),
            views == listing_views(topics@),
            mark@ == "__"@,
            text_views(names@) == readable_names(views.take(at as int)),
        decreases topics.len() - at,
    {
        let ghost before = names@;
        assert(views.take(at + 1).drop_last() =~= views.take(at as int));
        assert(views.take(at + 1).last() == topics@[at as int]@);
        let topic = &topics[at];
        let name = letters(topic.name.as_str());
        if !topic.internal && !starts_with(name.as_slice(), mark.as_slice()) && !topic.failed
            && topic.partitions > 0 {
            names.push(topic.name.clone());
            assert(text_views(names@) =~= text_views(before).push(topic.name@));
        }
        at += 1;
    }
    assert(views.take(at as int) =~= views);
    let mut sorted = sort_texts(names);
    let ghost all = text_views(sorted@);
    assert(ascending(all));
    if max < sorted.len() {
        sorted.truncate(max);
        assert(text_views(sorted@) =~= all.take(max as int));
    } else {
        assert(all.take(all.len() as int) =~= all);
    }
    sorted
}

/// What a scan of one topic came to.
#[derive(Debug, Clone, Copy, PartialEq, Eq, Structural)]
pub struct ScanStats {
    /// Records.
    pub records: u64,
    /// Batches that would not decode.
    pub malformed: u64,
    /// Records without a value.
    pub tombstones: u64,
    /// Records with headers.
    pub with_headers: u64,
    /// Records written inside a transaction.
    pub transactional: u64,
    /// Partitions that records came from.
    pub partitions_seen: usize,
    /// Whether every partition's records came in log order.
    pub ordered: bool,
    /// Whether the scan stopped at its limit.
    pub hit_limit: bool,
    /// Whether the scan reported progress.
    pub saw_progress: bool,
}

/// A scan's events, being counted.
pub struct ScanTally {
    /// What they came to so far.
    pub stats: ScanStats,
    /// The last offset seen of each partition.
    pub last_offset: HashMap<i32, i64>,
}

/// A [`ScanTally`], as plain values.
pub struct TallyView {
    pub stats: ScanStats,
    pub last_offset: Map<i32, i64>,
}

impl View for ScanTally {
    type V = TallyView;

    open spec fn view(&self) -> TallyView {
        TallyView { stats: self.stats, last_offset: self.last_offset@ }
    }
}

/// One more where something holds.
pub open spec fn one_more_if(n: u64, holds: bool) -> u64 {
    if holds {
        one_more(n)
    } else {
        n
    }
}

impl TallyView {
    /// The tally after an event. Order is judged per partition, where the scan
    /// promises it always: a record must lie beyond the one before it.
    pub open spec fn after(self, event: EventView, limit: usize) -> TallyView {
        match event {
            EventView::Record(record) => TallyView {
                stats: ScanStats {
                    records: one_more(self.stats.records),
                    tombstones: one_more_if(self.stats.tombstones, record.value is None),
                    with_headers: one_more_if(self.stats.with_headers, record.headers.len() > 0),
                    transactional: one_more_if(self.stats.transactional, record.transactional),
                    ordered: self.stats.ordered && !(self.last_offset.contains_key(record.partition)
                        && self.last_offset[record.partition] >= record.offset),
                    ..self.stats
                },
                last_offset: self.last_offset.insert(record.partition, record.offset),
            },
            EventView::Malformed { .. } => TallyView {
                stats: ScanStats { malformed: one_more(self.stats.malformed), ..self.stats },
                ..self
            },
            EventView::Progress(_) => TallyView {
                stats: ScanStats { saw_progress: true, ..self.stats },
                ..self
            },
            EventView::Done(progress) => TallyView {
                stats: ScanStats { hit_limit: progress.records_emitted >= limit, ..self.stats },
                ..self
            },
            EventView::PartitionStarted { .. } => self,
            EventView::PartitionComplete { .. } => self,
        }
    }
}

/// A scan that nothing was seen of.
pub open spec fn no_stats() -> ScanStats {
    ScanStats {
        records: 0,
        malformed: 0,
        tombstones: 0,
        with_headers: 0,
        transactional: 0,
        partitions_seen: 0,
        ordered: true,
        hit_limit: false,
        saw_progress: false,
    }
}

/// One more where something holds, without leaving the type's range.
fn bump(n: u64, holds: bool) -> (sum: u64)
    ensures
        sum == one_more_if(n, holds),
{
    if holds && n < u64::MAX {
        n + 1
    } else {
        n
    }
}

impl ScanTally {
    /// A tally of nothing.
    pub fn new() -> (tally: Self)
        ensures
            tally@ == (TallyView { stats: no_stats(), last_offset: Map::empty() }),
    {
        broadcast use vstd::std_specs::hash::group_hash_axioms;

        ScanTally {
            stats: ScanStats {
                records: 0,
                malformed: 0,
                tombstones: 0,
                with_headers: 0,
                transactional: 0,
                partitions_seen: 0,
                ordered: true,
                hit_limit: false,
                saw_progress: false,
            },
            last_offset: HashMap::new(),
        }
    }

    /// Counts an event.
    pub fn scan_one(&mut self, event: &ScanEvent, limit: usize)
        ensures
            final(self)@ == old(self)@.after(event@, limit),
    {
        broadcast use vstd::std_specs::hash::group_hash_axioms;

        match event {
            ScanEvent::Record(record) => {
                self.stats.records = bump(self.stats.records, true);
                self.stats.tombstones = bump(self.stats.tombstones, record.is_tombstone());
                self.stats.with_headers = bump(self.stats.with_headers, record.headers.len() > 0);
                self.stats.transactional = bump(self.stats.transactional, record.transactional);
                let previous = self.last_offset.insert(record.partition, record.offset);
                if let Some(previous) = previous {
                    if previous >= record.offset {
                        self.stats.ordered = false;
                    }
                }
            },
            ScanEvent::Malformed { .. } => {
                self.stats.malformed = bump(self.stats.malformed, true);
            },
            ScanEvent::Progress(_) => {
                self.stats.saw_progress = true;
            },
            ScanEvent::Done(progress) => {
                self.stats.hit_limit = progress.records_emitted >= limit as u64;
            },
            ScanEvent::PartitionStarted { .. } => {},
            ScanEvent::PartitionComplete { .. } => {},
        }
    }

    /// What the events came to.
    pub fn finish(self) -> (stats: ScanStats)
        ensures
            stats == (ScanStats { partitions_seen: self@.last_offset.len() as usize, ..self.stats }),
    {
        broadcast use vstd::std_specs::hash::group_hash_axioms;

        let seen: usize = self.last_offset.len();
        ScanStats { partitions_seen: seen, ..self.stats }
    }
}

/// What the tail of one topic came to.
#[derive(Debug, Clone, Copy, PartialEq, Eq, Structural)]
pub struct TailStats {
    /// Records.
    pub records: usize,
    /// Fetches.
    pub fetches: usize,
    /// Whether every partition's records came in log order.
    pub ordered: bool,
    /// Whether every partition's tail ends at its high watermark.
    pub at_end: bool,
}

/// Whether the offsets of some records rise.
pub open spec fn rising(tail: PartitionTail) -> bool {
    forall|i: int, j: int|
        0 <= i < j < tail.records@.len() ==> (#[trigger] tail.records@[i]).offset < (
        #[trigger] tail.records@[j]).offset
}

/// Whether a tail ends where its partition does, as far as that is known. One
/// that does not has read the wrong window, which looks like success until
/// someone notices that the newest message is missing.
pub open spec fn ends_at_the_top(tail: PartitionTail, latest: Map<i32, Option<i64>>) -> bool {
    tail.records@.len() > 0 && latest.contains_key(tail.partition) ==> (
    latest[tail.partition] matches Some(high) ==> tail.records@.last().offset == saturating(
        high - 1,
    ))
}

/// What some tails come to.
pub open spec fn tail_stats(tails: Seq<PartitionTail>, latest: Map<i32, Option<i64>>) -> TailStats
    decreases tails.len(),
{
    if tails.len() == 0 {
        TailStats { records: 0, fetches: 0, ordered: true, at_end: true }
    } else {
        let before = tail_stats(tails.drop_last(), latest);
        let tail = tails.last();
        TailStats {
            records: held(before.records as nat + tail.records@.len()),
            fetches: held(before.fetches as nat + tail.fetches as nat),
            ordered: before.ordered && rising(tail),
            at_end: before.at_end && ends_at_the_top(tail, latest),
        }
    }
}

/// Whether the offsets of some records rise.
fn is_rising(tail: &PartitionTail) -> (is: bool)
    ensures
        is == rising(*tail),
{
    let mut at: usize = 1;
    while at < tail.records.len()
        invariant
            at >= 1,
            forall|i: int, j: int|
                0 <= i < j < at && j < tail.records@.len() ==> (#[trigger] tail.records@[i]).offset
                    < (#[trigger] tail.records@[j]).offset,
        decreases tail.records.len() - at,
    {
        if tail.records[at - 1].offset >= tail.records[at].offset {
            return false;
        }
        at += 1;
    }
    true
}

/// What the tails of a topic come to, given its partitions' high watermarks.
pub fn tail_one(tails: &Vec<PartitionTail>, latest: &HashMap<i32, Option<i64>>) -> (stats: TailStats)
    ensures
        stats == tail_stats(tails@, latest@),
{
    broadcast use vstd::std_specs::hash::group_hash_axioms;

    let mut stats = TailStats { records: 0, fetches: 0, ordered: true, at_end: true };
    let mut at: usize = 0;
    assert(tails@.take(0) =~= seq![]);
    while at < tails.len()
        invariant
            at <= tails.len(),
            stats == tail_stats(tails@.take(at as int), latest@),
        decreases tails.len() - at,
    {
        assert(tails@.take(at + 1).drop_last() =~= tails@.take(at as int));
        assert(tails@.take(at + 1).last() == tails@[at as int]);
        let tail = &tails[at];
        stats.records = stats.records.saturating_add(tail.records.len());
        stats.fetches = stats.fetches.saturating_add(tail.fetches);
        if !is_rising(tail) {
            stats.ordered = false;
        }
        if tail.records.len() > 0 {
            if let Some(Some(high)) = latest.get(&tail.partition) {
                if tail.records[tail.records.len() - 1].offset != saturating_sum(*high, -1) {
                    stats.at_end = false;
                }
            }
        }
        at += 1;
    }
    assert(tails@.take(at as int) =~= tails@);
    stats
}

/// Facts, by key.
pub type Facts = Map<Seq<char>, Seq<char>>;

/// The facts of one topic's scan.
pub open spec fn scan_facts(facts: Facts, key: Seq<char>, stats: ScanStats) -> Facts {
    facts.insert(key + ".records"@, decimal_of(stats.records as nat)).insert(
        key + ".malformed"@,
        decimal_of(stats.malformed as nat),
    ).insert(key + ".tombstones"@, decimal_of(stats.tombstones as nat)).insert(
        key + ".with_headers"@,
        decimal_of(stats.with_headers as nat),
    ).insert(key + ".transactional"@, decimal_of(stats.transactional as nat)).insert(
        key + ".ordered"@,
        truth(stats.ordered),
    ).insert(key + ".partitions_seen"@, decimal_of(stats.partitions_seen as nat)).insert(
        key + ".hit_limit"@,
        truth(stats.hit_limit),
    ).insert(key + ".saw_progress"@, truth(stats.saw_progress))
}

/// The facts of one topic's tail.
pub open spec fn tail_facts(facts: Facts, key: Seq<char>, stats: TailStats) -> Facts {
    facts.insert(key + ".tail.records"@, decimal_of(stats.records as nat)).insert(
        key + ".tail.ordered"@,
        truth(stats.ordered),
    ).insert(key + ".tail.ends_at_high_watermark"@, truth(stats.at_end)).insert(
        key + ".tail.fetches"@,
        decimal_of(stats.fetches as nat),
    )
}

/// What a scan of a topic is judged.
pub open spec fn scan_verdict(topic: Seq<char>, stats: ScanStats, expect: Option<usize>) -> Result<
    (),
    Seq<char>,
> {
    if !stats.ordered {
        Err(topic + ": records came out of log order within a partition"@)
    } else {
        match expect {
            Some(expected) => if expected != stats.records {
                Err(
                    topic + ": expected "@ + decimal_of(expected as nat) + " records, scanned "@
                        + decimal_of(stats.records as nat),
                )
            } else {
                Ok(())
            },
            None => Ok(()),
        }
    }
}

/// What the tail of a topic is judged.
pub open spec fn tail_verdict(topic: Seq<char>, tail: Result<TailStats, Seq<char>>) -> Result<
    (),
    Seq<char>,
> {
    match tail {
        Ok(stats) => if stats.ordered {
            Ok(())
        } else {
            Err(topic + ": the tail came back out of order"@)
        },
        Err(error) => Err(topic + ": tail failed: "@ + error),
    }
}

/// A verdict, as plain values.
pub open spec fn verdict_of(verdict: Result<(), String>) -> Result<(), Seq<char>> {
    match verdict {
        Ok(()) => Ok(()),
        Err(text) => Err(text@),
    }
}

/// A run over topics, being reported.
pub struct ReadRun {
    /// What was learned.
    pub report: Report,
    /// Records of all topics.
    pub total_records: u64,
    /// Batches of all topics that would not decode.
    pub total_malformed: u64,
}

/// The key that a topic's facts start with.
pub open spec fn topic_key(topic: Seq<char>) -> Seq<char> {
    "read.topic."@ + topic
}

impl ReadRun {
    /// Begins a run over some topics, and says whether there is anything to
    /// read.
    pub fn begin(label: &str, topics: &Vec<String>) -> (begun: (Self, bool))
        ensures
            begun.0.report@.wf(),
            begun.0.total_records == 0,
            begun.0.total_malformed == 0,
            begun.1 == (topics@.len() > 0),
            begun.0.report@.facts() == Map::<Seq<char>, Seq<char>>::empty().insert(
                "read.topics"@,
                decimal_of(topics@.len()),
            ),
            begun.0.report@.notes == seq![
                "target: "@ + label@,
                if topics@.len() == 0 {
                    "no readable topics on this cluster"@
                } else {
                    "reading: "@ + strung(text_views(topics@), ", "@)
                },
            ],
    {
        let mut report = Report::new();
        report.note(joined("target: ", label));
        report.set_count("read.topics", topics.len() as u64);
        if topics.len() == 0 {
            report.note("no readable topics on this cluster".to_owned());
        } else {
            report.note(joined("reading: ", join(topics, ", ").as_str()));
        }
        assert(report@.notes =~= seq![
            "target: "@ + label@,
            if topics@.len() == 0 {
                "no readable topics on this cluster"@
            } else {
                "reading: "@ + strung(text_views(topics@), ", "@)
            },
        ]);
        (ReadRun { report, total_records: 0, total_malformed: 0 }, topics.len() > 0)
    }

    /// Takes in what a scan of a topic came to, and judges it.
    pub fn scanned(&mut self, topic: &str, stats: &ScanStats, expect: Option<usize>) -> (verdict:
        Result<(), String>)
        requires
            old(self).report@.wf(),
        ensures
            final(self).report@.wf(),
            final(self).report@.facts() == scan_facts(
                old(self).report@.facts(),
                topic_key(topic@),
                *stats,
            ),
            final(self).report@.notes == old(self).report@.notes,
            final(self).total_records == capped(
                old(self).total_records as nat + stats.records as nat,
            ),
            final(self).total_malformed == capped(
                old(self).total_malformed as nat + stats.malformed as nat,
            ),
            verdict_of(verdict) == scan_verdict(topic@, *stats, expect),
    {
        let key = joined("read.topic.", topic);
        let report = &mut self.report;
        report.set(joined(key.as_str(), ".records"), decimal(stats.records));
        report.set(joined(key.as_str(), ".malformed"), decimal(stats.malformed));
        report.set(joined(key.as_str(), ".tombstones"), decimal(stats.tombstones));
        report.set(joined(key.as_str(), ".with_headers"), decimal(stats.with_headers));
        report.set(joined(key.as_str(), ".transactional"), decimal(stats.transactional));
        report.set(joined(key.as_str(), ".ordered"), truth_text(stats.ordered));
        report.set(
            joined(key.as_str(), ".partitions_seen"),
            decimal(stats.partitions_seen as u64),
        );
        report.set(joined(key.as_str(), ".hit_limit"), truth_text(stats.hit_limit));
        report.set(joined(key.as_str(), ".saw_progress"), truth_text(stats.saw_progress));
        self.total_records = self.total_records.saturating_add(stats.records);
        self.total_malformed = self.total_malformed.saturating_add(stats.malformed);
        if !stats.ordered {
            return Err(
                joined(topic, ": records came out of log order within a partition"),
            );
        }
        if let Some(expected) = expect {
            if expected as u64 != stats.records {
                let mut text = joined(topic, ": expected ");
                text.append(decimal(expected as u64).as_str());
                text.append(" records, scanned ");
                text.append(decimal(stats.records).as_str());
                return Err(text);
            }
        }
        Ok(())
    }

    /// Takes in what the tail of a topic came to, and judges it.
    pub fn tailed(&mut self, topic: &str, tail: &Result<TailStats, String>) -> (verdict: Result<
        (),
        String,
    >)
        requires
            old(self).report@.wf(),
        ensures
            final(self).report@.wf(),
            final(self).report@.notes == old(self).report@.notes,
            final(self).total_records == old(self).total_records,
            final(self).total_malformed == old(self).total_malformed,
            match tail {
                Ok(stats) => {
                    &&& final(self).report@.facts() == tail_facts(
                        old(self).report@.facts(),
                        topic_key(topic@),
                        *stats,
                    )
                    &&& verdict_of(verdict) == tail_verdict(topic@, Ok(*stats))
                },
                Err(error) => {
                    &&& final(self).report@.facts() == old(self).report@.facts().insert(
                        topic_key(topic@) + ".tail.error"@,
                        on_one_line(error@),
                    )
                    &&& verdict_of(verdict) == tail_verdict(topic@, Err(error@))
                },
            },
    {
        let key = joined("read.topic.", topic);
        let report = &mut self.report;
        match tail {
            Ok(stats) => {
                report.set(joined(key.as_str(), ".tail.records"), decimal(stats.records as u64));
                report.set(joined(key.as_str(), ".tail.ordered"), truth_text(stats.ordered));
                report.set(
                    joined(key.as_str(), ".tail.ends_at_high_watermark"),
                    truth_text(stats.at_end),
                );
                report.set(joined(key.as_str(), ".tail.fetches"), decimal(stats.fetches as u64));
                if !stats.ordered {
                    return Err(joined(topic, ": the tail came back out of order"));
                }
                Ok(())
            },
            Err(error) => {
                report.set(joined(key.as_str(), ".tail.error"), one_line(error.as_str()));
                let mut text = joined(topic, ": tail failed: ");
                text.append(error.as_str());
                Err(text)
            },
        }
    }

    /// Ends a run over topics that all passed.
    pub fn read(self) -> (report: Report)
        requires
            self.report@.wf(),
        ensures
            report@.wf(),
            report@.notes == self.report@.notes,
            report@.facts() == self.report@.facts().insert(
                "read.total_records"@,
                decimal_of(self.total_records as nat),
            ).insert("read.total_malformed"@, decimal_of(self.total_malformed as nat)),
    {
        let mut report = self.report;
        report.set_count("read.total_records", self.total_records);
        report.set_count("read.total_malformed", self.total_malformed);
        report
    }
}

} // verus!
