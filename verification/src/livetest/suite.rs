//! The sections of the produce suite that follow its first records: batching,
//! transactions, consuming and group membership. What each is to see, and what
//! is said when it does not.

use vstd::prelude::*;
use vstd::string::*;
use crate::keyed::PartitionKey;
use crate::livetest::assignment::{
    arrange, arranges, common, key_views, lemma_common, list_keys, listed_keys, overlap, together,
};
use crate::livetest::produce::PARTITIONS;
use crate::livetest::read::{verdict_of, Facts};
use crate::livetest::report::Report;
use crate::livetest::smoke::count_of;
use crate::livetest::traffic::Traffic;
use crate::read::backward::record_views;
use crate::read::batch::held;
use crate::read::record::{Record, RecordView};
use crate::text::{
    begins_with, decimal, decimal_of, joined, letters, lossy, lossy_text, number_in, parse_number,
    same, signed, signed_of, starts_with, truth,
};

verus! {

/// How many records the batching section writes.
pub const BATCHED: usize = 20_000;

/// How many requests show that nothing was batched.
pub const TOO_MANY_REQUESTS: u64 = 500;

/// What is left of a number after another is taken from it.
pub open spec fn less(a: u64, b: u64) -> u64 {
    if a > b {
        (a - b) as u64
    } else {
        0
    }
}

/// What is left of a number after another is taken from it.
fn minus(a: u64, b: u64) -> (rest: u64)
    ensures
        rest == less(a, b),
{
    if a > b {
        a - b
    } else {
        0
    }
}

/// What a batching section saw.
#[derive(Debug, Clone, Copy, PartialEq, Eq, Structural)]
pub struct BatchingRun {
    /// How many records were acknowledged.
    pub delivered: usize,
    /// What had gone over the connections before.
    pub mark: Traffic,
    /// What had gone over them after.
    pub after: Traffic,
    /// How long it took, in milliseconds.
    pub elapsed_ms: u64,
}

/// The facts of a batching section.
pub open spec fn batching_facts(facts: Facts, run: BatchingRun) -> Facts {
    let requests = less(run.after.requests_sent, run.mark.requests_sent);
    facts.insert("batching.records"@, decimal_of(run.delivered as nat)).insert(
        "batching.requests"@,
        decimal_of(requests as nat),
    ).insert(
        "batching.bytes_sent"@,
        decimal_of(less(run.after.bytes_sent, run.mark.bytes_sent) as nat),
    ).insert("batching.elapsed_ms"@, decimal_of(run.elapsed_ms as nat)).insert(
        "batching.records_per_request"@,
        decimal_of(
            if requests == 0 {
                0
            } else {
                run.delivered as nat / requests as nat
            },
        ),
    )
}

/// What a batching section is judged. Every record must have been delivered;
/// the count of requests must be one that was measured at all; and it must show
/// that there was batching.
pub open spec fn batching_verdict(run: BatchingRun) -> Result<(), Seq<char>> {
    let requests = less(run.after.requests_sent, run.mark.requests_sent);
    if run.delivered != BATCHED {
        Err(
            "enqueued 20000 records, "@ + decimal_of(run.delivered as nat) + " were delivered"@,
        )
    } else if run.mark.sampled != run.after.sampled {
        Err(
            "request counting is unreliable: sampled "@ + decimal_of(run.mark.sampled as nat)
                + " brokers before and "@ + decimal_of(run.after.sampled as nat) + " after"@,
        )
    } else if requests == 0 {
        Err(
            "request counting is broken: 20000 records were delivered and acknowledged across "@
                + decimal_of(run.after.sampled as nat)
                + " broker connections, which cannot have taken zero requests"@,
        )
    } else if requests >= TOO_MANY_REQUESTS {
        Err(
            "batching did not happen: "@ + decimal_of(requests as nat)
                + " requests for 20000 records"@,
        )
    } else {
        Ok(())
    }
}

/// Takes in what a batching section saw, and judges it.
///
/// The request count is the load-bearing number: a producer that batches
/// nothing still delivers every record in order.
pub fn batching(report: &mut Report, run: &BatchingRun) -> (verdict: Result<(), String>)
    requires
        old(report)@.wf(),
    ensures
        final(report)@.wf(),
        final(report)@.notes == old(report)@.notes,
        final(report)@.facts() == batching_facts(old(report)@.facts(), *run),
        verdict_of(verdict) == batching_verdict(*run),
{
    let requests: u64 = minus(run.after.requests_sent, run.mark.requests_sent);
    let bytes: u64 = minus(run.after.bytes_sent, run.mark.bytes_sent);
    report.set_count("batching.records", run.delivered as u64);
    report.set_count("batching.requests", requests);
    report.set_count("batching.bytes_sent", bytes);
    report.set_count("batching.elapsed_ms", run.elapsed_ms);
    let each: u64 = if requests == 0 {
        0
    } else {
        run.delivered as u64 / requests
    };
    report.set_count("batching.records_per_request", each);
    if run.delivered != BATCHED {
        let mut text = joined("enqueued 20000 records, ", decimal(run.delivered as u64).as_str());
        text.append(" were delivered");
        return Err(text);
    }
    if run.mark.sampled != run.after.sampled {
        let mut text = joined(
            "request counting is unreliable: sampled ",
            decimal(run.mark.sampled as u64).as_str(),
        );
        text.append(" brokers before and ");
        text.append(decimal(run.after.sampled as u64).as_str());
        text.append(" after");
        return Err(text);
    }
    if requests == 0 {
        let mut text = joined(
            "request counting is broken: 20000 records were delivered and acknowledged across ",
            decimal(run.after.sampled as u64).as_str(),
        );
        text.append(" broker connections, which cannot have taken zero requests");
        return Err(text);
    }
    if requests >= TOO_MANY_REQUESTS {
        let mut text = joined("batching did not happen: ", decimal(requests).as_str());
        text.append(" requests for 20000 records");
        return Err(text);
    }
    Ok(())
}

/// The number behind a marker in a record's value.
pub open spec fn number_behind(value: Option<Seq<u8>>, marker: Seq<char>) -> Option<usize> {
    match value {
        Some(value) => {
            let text = lossy_text(value);
            let mark = marker + "-"@;
            if begins_with(text, mark) {
                number_in(text.skip(mark.len() as int))
            } else {
                None
            }
        },
        None => None,
    }
}

/// The numbers behind a marker in the values of records, in log order.
pub open spec fn numbers_behind(records: Seq<RecordView>, marker: Seq<char>) -> Seq<usize>
    decreases records.len(),
{
    if records.len() == 0 {
        seq![]
    } else {
        let before = numbers_behind(records.drop_last(), marker);
        match number_behind(records.last().value, marker) {
            Some(number) => before.push(number),
            None => before,
        }
    }
}

/// The number behind a marker in a record's value.
fn read_number(value: &Option<Vec<u8>>, mark: &[char], Ghost(marker): Ghost<Seq<char>>) -> (number:
    Option<usize>)
    requires
        mark@ == marker + "-"@,
    ensures
        number == number_behind(crate::wire::bytes_of(*value), marker),
{
    match value {
        Some(value) => {
            let text = letters(lossy(value.as_slice()).as_str());
            if starts_with(text.as_slice(), mark) {
                let rest = vstd::slice::slice_subrange(text.as_slice(), mark.len(), text.len());
                assert(rest@ =~= text@.skip(mark@.len() as int));
                parse_number(rest)
            } else {
                None
            }
        },
        None => None,
    }
}

/// Whether numbers count up from zero.
pub open spec fn counts_up(numbers: Seq<usize>) -> bool {
    forall|i: int| 0 <= i < numbers.len() ==> #[trigger] numbers[i] == i
}

/// Whether numbers count up from zero.
fn is_counting_up(numbers: &Vec<usize>) -> (is: bool)
    ensures
        is == counts_up(numbers@),
{
    let mut at: usize = 0;
    while at < numbers.len()
        invariant
            at <= numbers.len(),
            forall|i: int| 0 <= i < at ==> #[trigger] numbers@[i] == i,
        decreases numbers.len() - at,
    {
        if numbers[at] != at {
            return false;
        }
        at += 1;
    }
    true
}

/// Takes in what was batched as it reads back, and judges its order. Counted by
/// marker: an existing topic may hold records from an earlier run.
pub fn in_order(report: &mut Report, records: &Vec<Record>, marker: &str) -> (verdict: Result<
    (),
    String,
>)
    requires
        old(report)@.wf(),
    ensures
        final(report)@.wf(),
        final(report)@.notes == old(report)@.notes,
        ({
            let numbers = numbers_behind(record_views(records@), marker@);
            let read = old(report)@.facts().insert(
                "batching.read_back"@,
                decimal_of(numbers.len()),
            );
            if numbers.len() != BATCHED {
                &&& final(report)@.facts() == read
                &&& verdict_of(verdict) == Err::<(), _>(
                    "wrote 20000 records and read back "@ + decimal_of(numbers.len()),
                )
            } else if !counts_up(numbers) {
                &&& final(report)@.facts() == read
                &&& verdict_of(verdict) == Err::<(), _>(
                    "the log's order does not match the order records were enqueued in"@,
                )
            } else {
                &&& final(report)@.facts() == read.insert("batching.in_order"@, truth(true))
                &&& verdict_of(verdict) == Ok::<_, Seq<char>>(())
            }
        }),
{
    let ghost views = record_views(records@);
    let mark = letters(joined(marker, "-").as_str());
    let mut numbers: Vec<usize> = Vec::new();
    let mut at: usize = 0;
    assert(numbers@ =~= numbers_behind(views.take(0), marker@));
    while at < records.len()
        invariant
            at <= records.len(),
            views == record_views(records@),
            mark@ == marker@ + "-"@,
            numbers@ == numbers_behind(views.take(at as int), marker@),
        decreases records.len() - at,
    {
        assert(views.take(at + 1).drop_last() =~= views.take(at as int));
        assert(views.take(at + 1).last() == records@[at as int]@);
        if let Some(number) = read_number(&records[at].value, mark.as_slice(), Ghost(marker@)) {
            numbers.push(number);
        }
        at += 1;
    }
    assert(views.take(at as int) =~= views);
    report.set_count("batching.read_back", numbers.len() as u64);
    if numbers.len() != BATCHED {
        return Err(
            joined("wrote 20000 records and read back ", decimal(numbers.len() as u64).as_str()),
        );
    }
    if !is_counting_up(&numbers) {
        return Err("the log's order does not match the order records were enqueued in".to_owned());
    }
    report.set_flag("batching.in_order", true);
    Ok(())
}

/// How many records each transaction writes.
pub const TXN_RECORDS: usize = 50;

/// What the values of a transaction's records start with.
pub open spec fn txn_mark(marker: Seq<char>, kind: Seq<char>) -> Seq<char> {
    marker + "-"@ + kind + "-"@
}

/// Whether a record's value starts with a mark.
pub open spec fn is_marked(record: RecordView, mark: Seq<char>) -> bool {
    record.value matches Some(value) && begins_with(lossy_text(value), mark)
}

/// How many records' values start with a mark.
pub open spec fn marked(records: Seq<RecordView>, mark: Seq<char>) -> nat {
    count_of(records, |record: RecordView| is_marked(record, mark))
}

/// How many records' values start with the mark of a transaction.
pub fn ours(records: &Vec<Record>, marker: &str, kind: &str) -> (count: usize)
    ensures
        count == marked(record_views(records@), txn_mark(marker@, kind@)),
        count <= records@.len(),
{
    let ghost views = record_views(records@);
    let ghost wanted = txn_mark(marker@, kind@);
    let mut text = joined(marker, "-");
    text.append(kind);
    text.append("-");
    let mark = letters(text.as_str());
    let mut count: usize = 0;
    let mut at: usize = 0;
    assert(views.take(0) =~= seq![]);
    while at < records.len()
        invariant
            at <= records.len(),
            count <= at,
            views == record_views(records@),
            mark@ == wanted,
            count == marked(views.take(at as int), wanted),
        decreases records.len() - at,
    {
        assert(views.take(at + 1).drop_last() =~= views.take(at as int));
        assert(views.take(at + 1).last() == records@[at as int]@);
        if let Some(value) = &records[at].value {
            let text = letters(lossy(value.as_slice()).as_str());
            if starts_with(text.as_slice(), mark.as_slice()) {
                count += 1;
            }
        }
        at += 1;
    }
    assert(views.take(at as int) =~= views);
    count
}

/// How many records of the two transactions two readers see.
#[derive(Debug, Clone, Copy, PartialEq, Eq, Structural)]
pub struct TxnCounts {
    /// Committed records that a reader of everything sees.
    pub all_committed: usize,
    /// Aborted records that it sees.
    pub all_aborted: usize,
    /// Committed records that a reader of what is committed sees.
    pub only_committed: usize,
    /// Aborted records that it sees.
    pub only_aborted: usize,
}

/// The facts of the two readers.
pub open spec fn txn_facts(facts: Facts, counts: TxnCounts) -> Facts {
    facts.insert("txn.all.committed_records"@, decimal_of(counts.all_committed as nat)).insert(
        "txn.all.aborted_records"@,
        decimal_of(counts.all_aborted as nat),
    ).insert(
        "txn.committed_only.committed_records"@,
        decimal_of(counts.only_committed as nat),
    ).insert("txn.committed_only.aborted_records"@, decimal_of(counts.only_aborted as nat))
}

/// What the two readers are judged: one must see both transactions, the other
/// the committed one alone.
pub open spec fn txn_verdict(counts: TxnCounts) -> Result<(), Seq<char>> {
    if counts.all_committed != TXN_RECORDS || counts.all_aborted != TXN_RECORDS {
        Err(
            "Visibility::All must show both transactions: "@ + decimal_of(
                counts.all_committed as nat,
            ) + " committed, "@ + decimal_of(counts.all_aborted as nat) + " aborted"@,
        )
    } else if counts.only_committed != TXN_RECORDS {
        Err(
            "Visibility::CommittedOnly lost committed records: "@ + decimal_of(
                counts.only_committed as nat,
            ),
        )
    } else if counts.only_aborted != 0 {
        Err(
            "an aborted transaction leaked into the committed view: "@ + decimal_of(
                counts.only_aborted as nat,
            ) + " records"@,
        )
    } else {
        Ok(())
    }
}

/// Takes in what two readers see of a committed and an aborted transaction, and
/// judges it. They must disagree about what is there.
pub fn transactions(
    report: &mut Report,
    everything: &Vec<Record>,
    committed: &Vec<Record>,
    marker: &str,
) -> (verdict: Result<(), String>)
    requires
        old(report)@.wf(),
    ensures
        final(report)@.wf(),
        final(report)@.notes == old(report)@.notes,
        ({
            let all = record_views(everything@);
            let only = record_views(committed@);
            let counts = TxnCounts {
                all_committed: marked(all, txn_mark(marker@, "committed"@)) as usize,
                all_aborted: marked(all, txn_mark(marker@, "aborted"@)) as usize,
                only_committed: marked(only, txn_mark(marker@, "committed"@)) as usize,
                only_aborted: marked(only, txn_mark(marker@, "aborted"@)) as usize,
            };
            &&& verdict_of(verdict) == txn_verdict(counts)
            &&& final(report)@.facts() == if txn_verdict(counts) is Ok {
                txn_facts(old(report)@.facts(), counts).insert("txn.filter_holds"@, truth(true))
            } else {
                txn_facts(old(report)@.facts(), counts)
            }
        }),
{
    let counts = TxnCounts {
        all_committed: ours(everything, marker, "committed"),
        all_aborted: ours(everything, marker, "aborted"),
        only_committed: ours(committed, marker, "committed"),
        only_aborted: ours(committed, marker, "aborted"),
    };
    report.set_count("txn.all.committed_records", counts.all_committed as u64);
    report.set_count("txn.all.aborted_records", counts.all_aborted as u64);
    report.set_count("txn.committed_only.committed_records", counts.only_committed as u64);
    report.set_count("txn.committed_only.aborted_records", counts.only_aborted as u64);
    if counts.all_committed != TXN_RECORDS || counts.all_aborted != TXN_RECORDS {
        let mut text = joined(
            "Visibility::All must show both transactions: ",
            decimal(counts.all_committed as u64).as_str(),
        );
        text.append(" committed, ");
        text.append(decimal(counts.all_aborted as u64).as_str());
        text.append(" aborted");
        return Err(text);
    }
    if counts.only_committed != TXN_RECORDS {
        return Err(
            joined(
                "Visibility::CommittedOnly lost committed records: ",
                decimal(counts.only_committed as u64).as_str(),
            ),
        );
    }
    if counts.only_aborted != 0 {
        let mut text = joined(
            "an aborted transaction leaked into the committed view: ",
            decimal(counts.only_aborted as u64).as_str(),
        );
        text.append(" records");
        return Err(text);
    }
    report.set_flag("txn.filter_holds", true);
    Ok(())
}

/// How many idle polls end a drain.
pub const IDLE_POLLS: u32 = 5;

/// A consumer being drained.
#[derive(Debug, Clone, Copy, PartialEq, Eq, Structural)]
pub struct Drain {
    /// Records read so far.
    pub total: usize,
    /// Polls in a row that brought nothing.
    pub idle: u32,
}

impl Drain {
    /// Whether to poll again: until enough polls in a row brought nothing, or
    /// the time is up.
    pub fn goes_on(&self, expired: bool) -> (goes_on: bool)
        ensures
            goes_on == (!expired && self.idle < IDLE_POLLS),
    {
        !expired && self.idle < IDLE_POLLS
    }

    /// Takes in a poll.
    pub fn polled(&self, count: usize) -> (after: Self)
        requires
            self.idle < IDLE_POLLS,
        ensures
            after == if count == 0 {
                Drain { idle: (self.idle + 1) as u32, ..*self }
            } else {
                Drain { total: held(self.total as nat + count as nat), idle: 0 }
            },
    {
        if count == 0 {
            Drain { idle: self.idle + 1, ..*self }
        } else {
            Drain { total: self.total.saturating_add(count), idle: 0 }
        }
    }
}

/// Takes in a drain, and judges it.
pub fn drained(report: &mut Report, assigned: usize, drain: &Drain, drain_ms: u64) -> (verdict:
    Result<(), String>)
    requires
        old(report)@.wf(),
    ensures
        final(report)@.wf(),
        final(report)@.notes == old(report)@.notes,
        final(report)@.facts() == old(report)@.facts().insert(
            "consume.assigned"@,
            decimal_of(assigned as nat),
        ).insert("consume.records"@, decimal_of(drain.total as nat)).insert(
            "consume.drain_ms"@,
            decimal_of(drain_ms as nat),
        ),
        verdict_of(verdict) == if drain.total == 0 {
            Err::<(), _>("the consumer read nothing from a topic we had just written to"@)
        } else {
            Ok(())
        },
{
    report.set_count("consume.assigned", assigned as u64);
    report.set_count("consume.records", drain.total as u64);
    report.set_count("consume.drain_ms", drain_ms);
    if drain.total == 0 {
        return Err("the consumer read nothing from a topic we had just written to".to_owned());
    }
    Ok(())
}

/// How many bytes a request of a caught-up consumer may take at most: more, and
/// it names every partition again.
pub const FULL_FETCH: u64 = 200;

/// What caught-up polls are judged.
pub open spec fn steady_verdict(requests: u64, bytes: u64) -> Result<(), Seq<char>> {
    if requests == 0 {
        Err("request counting is broken: ten polls cannot take zero requests"@)
    } else if bytes / requests >= FULL_FETCH {
        Err(
            "steady-state fetches average "@ + decimal_of((bytes / requests) as nat)
                + " bytes, which is a full              fetch wearing a session id rather than an incremental one"@,
        )
    } else {
        Ok(())
    }
}

/// The facts of caught-up polls.
pub open spec fn steady_facts(facts: Facts, requests: u64, bytes: u64) -> Facts {
    let counted = facts.insert("consume.steady_requests"@, decimal_of(requests as nat)).insert(
        "consume.steady_bytes"@,
        decimal_of(bytes as nat),
    );
    if requests == 0 {
        counted
    } else {
        let each = counted.insert(
            "consume.steady_bytes_per_request"@,
            decimal_of((bytes / requests) as nat),
        );
        if bytes / requests >= FULL_FETCH {
            each
        } else {
            each.insert("consume.session_incremental"@, truth(true))
        }
    }
}

/// Takes in what ten polls of a caught-up consumer sent, and judges it: this is
/// where an incremental session shows.
pub fn steady(report: &mut Report, requests: u64, bytes: u64) -> (verdict: Result<(), String>)
    requires
        old(report)@.wf(),
    ensures
        final(report)@.wf(),
        final(report)@.notes == old(report)@.notes,
        final(report)@.facts() == steady_facts(old(report)@.facts(), requests, bytes),
        verdict_of(verdict) == steady_verdict(requests, bytes),
{
    report.set_count("consume.steady_requests", requests);
    report.set_count("consume.steady_bytes", bytes);
    if requests == 0 {
        return Err("request counting is broken: ten polls cannot take zero requests".to_owned());
    }
    let each: u64 = bytes / requests;
    report.set_count("consume.steady_bytes_per_request", each);
    if each >= FULL_FETCH {
        let mut text = joined("steady-state fetches average ", decimal(each).as_str());
        text.append(
            " bytes, which is a full              fetch wearing a session id rather than an incremental one",
        );
        return Err(text);
    }
    report.set_flag("consume.session_incremental", true);
    Ok(())
}

/// What became of committing one partition's offset.
#[derive(Debug)]
pub struct Commit {
    /// Topic.
    pub topic: String,
    /// Partition.
    pub partition: i32,
    /// What went wrong.
    pub error: Option<String>,
}

/// The first offset that could not be committed, and why.
pub open spec fn first_uncommitted(commits: Seq<Commit>) -> Option<Seq<char>>
    decreases commits.len(),
{
    if commits.len() == 0 {
        None
    } else {
        match commits[0].error {
            Some(error) => Some(
                commits[0].topic@ + "-"@ + signed_of(commits[0].partition as int)
                    + " did not commit: "@ + error@,
            ),
            None => first_uncommitted(commits.skip(1)),
        }
    }
}

/// Takes in what committing came to, and how many partitions read back as
/// committed; and judges it.
pub fn consume(report: &mut Report, commits: &Vec<Commit>, committed: usize) -> (verdict: Result<
    (),
    String,
>)
    requires
        old(report)@.wf(),
    ensures
        final(report)@.wf(),
        final(report)@.notes == old(report)@.notes,
        match first_uncommitted(commits@) {
            Some(failure) => {
                &&& final(report)@.facts() == old(report)@.facts()
                &&& verdict_of(verdict) == Err::<(), _>(failure)
            },
            None => {
                let counted = old(report)@.facts().insert(
                    "consume.committed_partitions"@,
                    decimal_of(committed as nat),
                );
                if committed == 0 {
                    &&& final(report)@.facts() == counted
                    &&& verdict_of(verdict) == Err::<(), _>(
                        "a commit that reads back as nothing committed is not a commit"@,
                    )
                } else {
                    &&& final(report)@.facts() == counted.insert(
                        "consume.offsets_round_trip"@,
                        truth(true),
                    )
                    &&& verdict_of(verdict) == Ok::<_, Seq<char>>(())
                }
            },
        },
{
    let mut at: usize = 0;
    assert(commits@.skip(0) =~= commits@);
    while at < commits.len()
        invariant
            at <= commits.len(),
            *report == *old(report),
            report@.wf(),
            first_uncommitted(commits@) == first_uncommitted(commits@.skip(at as int)),
        decreases commits.len() - at,
    {
        assert(commits@.skip(at as int)[0] == commits@[at as int]);
        assert(commits@.skip(at as int).skip(1) =~= commits@.skip(at + 1));
        if let Some(error) = &commits[at].error {
            let mut text = joined(commits[at].topic.as_str(), "-");
            text.append(signed(commits[at].partition as i64).as_str());
            text.append(" did not commit: ");
            text.append(error.as_str());
            return Err(text);
        }
        at += 1;
    }
    report.set_count("consume.committed_partitions", committed as u64);
    if committed == 0 {
        return Err(
            "a commit that reads back as nothing committed is not a commit".to_owned(),
        );
    }
    report.set_flag("consume.offsets_round_trip", true);
    Ok(())
}

/// Whether two members have settled: together they own as many partitions as
/// there are, and each owns some.
pub fn members_settled(a: usize, b: usize) -> (settled: bool)
    ensures
        settled == (a + b == PARTITIONS && a > 0 && b > 0),
{
    a > 0 && b > 0 && a <= PARTITIONS as usize && b <= PARTITIONS as usize && a + b
        == PARTITIONS as usize
}

/// What two members of a group are judged: they must own every partition
/// between them, and none of them both. An overlap delivers records twice and
/// reports nothing at all.
pub open spec fn group_verdict(a: Seq<PartitionKey>, b: Seq<PartitionKey>) -> Result<
    (),
    Seq<char>,
> {
    if common(a, b).len() > 0 {
        Err(
            "two members own the same partitions, which delivers every record              twice and reports nothing: "@
                + ("["@ + listed_keys(common(a, b)) + "]"@),
        )
    } else if together(a, b) != PARTITIONS {
        Err(
            "the group covers "@ + decimal_of(together(a, b) as nat)
                + " of 6 partitions; a gap means              records nobody is reading"@,
        )
    } else {
        Ok(())
    }
}

/// The facts of two members of a group.
pub open spec fn group_facts(
    facts: Facts,
    settle_ms: u64,
    a: Seq<PartitionKey>,
    b: Seq<PartitionKey>,
    named: (bool, bool),
) -> Facts {
    let counted = facts.insert("group.settle_ms"@, decimal_of(settle_ms as nat)).insert(
        "group.member_a"@,
        decimal_of(a.len()),
    ).insert("group.member_b"@, decimal_of(b.len())).insert(
        "group.member_a_id_issued"@,
        truth(named.0),
    ).insert("group.member_b_id_issued"@, truth(named.1)).insert(
        "group.overlap"@,
        decimal_of(common(a, b).len()),
    );
    if common(a, b).len() > 0 {
        counted
    } else {
        let covered = counted.insert("group.union"@, decimal_of(together(a, b) as nat));
        if together(a, b) != PARTITIONS {
            covered
        } else {
            covered.insert("group.covers_every_partition"@, truth(true))
        }
    }
}

/// Takes in what two members of a group own, and judges it.
pub fn group(
    report: &mut Report,
    settle_ms: u64,
    first: &Vec<(String, i32)>,
    second: &Vec<(String, i32)>,
    first_named: bool,
    second_named: bool,
) -> (verdict: Result<(), String>)
    requires
        old(report)@.wf(),
    ensures
        final(report)@.wf(),
        final(report)@.notes == old(report)@.notes,
        exists|a: Seq<PartitionKey>, b: Seq<PartitionKey>|
            {
                &&& #[trigger] arranges(a, key_views(first@))
                &&& #[trigger] arranges(b, key_views(second@))
                &&& final(report)@.facts() == group_facts(
                    old(report)@.facts(),
                    settle_ms,
                    a,
                    b,
                    (first_named, second_named),
                )
                &&& verdict_of(verdict) == group_verdict(a, b)
            },
{
    let a = arrange(first);
    let b = arrange(second);
    let ghost owned_a = key_views(a@);
    let ghost owned_b = key_views(b@);
    report.set_count("group.settle_ms", settle_ms);
    report.set_count("group.member_a", a.len() as u64);
    report.set_count("group.member_b", b.len() as u64);
    report.set_flag("group.member_a_id_issued", first_named);
    report.set_flag("group.member_b_id_issued", second_named);
    let both = overlap(&a, &b);
    report.set_count("group.overlap", both.len() as u64);
    assert(both@.len() == common(owned_a, owned_b).len());
    if both.len() > 0 {
        assert(arranges(owned_a, key_views(first@)) && arranges(owned_b, key_views(second@)));
        return Err(
            joined(
                "two members own the same partitions, which delivers every record              twice and reports nothing: ",
                list_keys(&both).as_str(),
            ),
        );
    }
    let union: u128 = a.len() as u128 + b.len() as u128;
    assert(union == together(owned_a, owned_b));
    report.set("group.union".to_owned(), wide_decimal(union));
    if union != PARTITIONS as u128 {
        let mut text = joined("the group covers ", wide_decimal(union).as_str());
        text.append(" of 6 partitions; a gap means              records nobody is reading");
        assert(arranges(owned_a, key_views(first@)) && arranges(owned_b, key_views(second@)));
        return Err(text);
    }
    report.set_flag("group.covers_every_partition", true);
    assert(arranges(owned_a, key_views(first@)) && arranges(owned_b, key_views(second@)));
    Ok(())
}

/// A wide number in decimal.
fn wide_decimal(n: u128) -> (text: String)
    ensures
        text@ == decimal_of(n as nat),
    decreases n,
{
    if n < 10 {
        decimal(n as u64)
    } else {
        let mut text = wide_decimal(n / 10);
        let low: u64 = (n % 10) as u64;
        text.append(decimal(low).as_str());
        assert(text@ =~= decimal_of((n / 10) as nat).push(crate::text::digit((n % 10) as nat)));
        text
    }
}

/// Takes in what the survivor owns after one member left, and judges it:
/// leaving releases an assignment rather than stranding it.
pub fn after_leave(report: &mut Report, owned: usize) -> (verdict: Result<(), String>)
    requires
        old(report)@.wf(),
    ensures
        final(report)@.wf(),
        final(report)@.notes == old(report)@.notes,
        ({
            let counted = old(report)@.facts().insert(
                "group.after_leave"@,
                decimal_of(owned as nat),
            );
            if owned != PARTITIONS {
                &&& final(report)@.facts() == counted
                &&& verdict_of(verdict) == Err::<(), _>(
                    "after one member left, the survivor holds "@ + decimal_of(owned as nat)
                        + " of 6              partitions; the rest are assigned to nobody"@,
                )
            } else {
                &&& final(report)@.facts() == counted.insert(
                    "group.reassigned_on_leave"@,
                    truth(true),
                )
                &&& verdict_of(verdict) == Ok::<_, Seq<char>>(())
            }
        }),
{
    report.set_count("group.after_leave", owned as u64);
    if owned != PARTITIONS as usize {
        let mut text = joined(
            "after one member left, the survivor holds ",
            decimal(owned as u64).as_str(),
        );
        text.append(" of 6              partitions; the rest are assigned to nobody");
        return Err(text);
    }
    report.set_flag("group.reassigned_on_leave", true);
    Ok(())
}

/// What two members of a classic group are judged.
pub open spec fn classic_verdict(a: Seq<PartitionKey>, b: Seq<PartitionKey>) -> Result<
    (),
    Seq<char>,
> {
    if common(a, b).len() > 0 {
        Err("two classic members own the same partitions"@)
    } else if together(a, b) != PARTITIONS {
        Err(
            "the classic group covers "@ + decimal_of(together(a, b) as nat)
                + " of 6 partitions"@,
        )
    } else {
        Ok(())
    }
}

/// The facts of two members of a classic group.
pub open spec fn classic_facts(
    facts: Facts,
    settle_ms: u64,
    a: Seq<PartitionKey>,
    b: Seq<PartitionKey>,
    led: bool,
) -> Facts {
    let counted = facts.insert("classic.settle_ms"@, decimal_of(settle_ms as nat)).insert(
        "classic.member_a"@,
        decimal_of(a.len()),
    ).insert("classic.member_b"@, decimal_of(b.len())).insert(
        "classic.leader_elected"@,
        truth(led),
    ).insert("classic.overlap"@, decimal_of(common(a, b).len())).insert(
        "classic.union"@,
        decimal_of(together(a, b) as nat),
    );
    if classic_verdict(a, b) is Ok {
        counted.insert("classic.covers_every_partition"@, truth(true))
    } else {
        counted
    }
}

/// Takes in what two members of a classic group own, and judges it.
pub fn classic_group(
    report: &mut Report,
    settle_ms: u64,
    first: &Vec<(String, i32)>,
    second: &Vec<(String, i32)>,
    led: bool,
) -> (verdict: Result<(), String>)
    requires
        old(report)@.wf(),
    ensures
        final(report)@.wf(),
        final(report)@.notes == old(report)@.notes,
        exists|a: Seq<PartitionKey>, b: Seq<PartitionKey>|
            {
                &&& #[trigger] arranges(a, key_views(first@))
                &&& #[trigger] arranges(b, key_views(second@))
                &&& final(report)@.facts() == classic_facts(
                    old(report)@.facts(),
                    settle_ms,
                    a,
                    b,
                    led,
                )
                &&& verdict_of(verdict) == classic_verdict(a, b)
            },
{
    let a = arrange(first);
    let b = arrange(second);
    let ghost owned_a = key_views(a@);
    let ghost owned_b = key_views(b@);
    report.set_count("classic.settle_ms", settle_ms);
    report.set_count("classic.member_a", a.len() as u64);
    report.set_count("classic.member_b", b.len() as u64);
    report.set_flag("classic.leader_elected", led);
    let both = overlap(&a, &b);
    proof {
        assert(both@.len() == common(owned_a, owned_b).len());
        lemma_common(owned_a, owned_b);
        assert(arranges(owned_a, key_views(first@)) && arranges(owned_b, key_views(second@)));
    }
    report.set_count("classic.overlap", both.len() as u64);
    let union: u128 = a.len() as u128 - both.len() as u128 + b.len() as u128;
    assert(union == together(owned_a, owned_b));
    report.set("classic.union".to_owned(), wide_decimal(union));
    if both.len() > 0 {
        return Err("two classic members own the same partitions".to_owned());
    }
    if union != PARTITIONS as u128 {
        let mut text = joined("the classic group covers ", wide_decimal(union).as_str());
        text.append(" of 6 partitions");
        return Err(text);
    }
    report.set_flag("classic.covers_every_partition", true);
    Ok(())
}

} // verus!
