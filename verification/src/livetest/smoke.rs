//! The admin round trip, against a cluster this tool does not own: what to ask
//! for, and what the answers amount to.
//!
//! Creates only prefixed resources and removes them again, also when something
//! fails part way through.

use vstd::prelude::*;
use vstd::string::*;
use crate::error::text_of;
use crate::livetest::read::{verdict_of, Facts};
use crate::livetest::report::{on_one_line, one_line, present_or_dash, Report};
use crate::text::{decimal, decimal_of, joined, signed_of, truth};

verus! {

/// How long to wait for a change to become visible on an arbitrary broker, in
/// milliseconds.
pub const SETTLE_TIMEOUT_MS: u64 = 30_000;

/// How often to ask again while waiting, in milliseconds.
pub const SETTLE_INTERVAL_MS: u64 = 250;

/// How many partitions the scratch topic is grown to.
pub const GROWN_PARTITIONS: usize = 6;

/// How many of some items have a property.
pub open spec fn count_of<T>(items: Seq<T>, holds: spec_fn(T) -> bool) -> nat
    decreases items.len(),
{
    if items.len() == 0 {
        0
    } else {
        count_of(items.drop_last(), holds) + if holds(items.last()) {
            1nat
        } else {
            0nat
        }
    }
}

/// No more items have a property than there are.
pub proof fn lemma_count_of<T>(items: Seq<T>, holds: spec_fn(T) -> bool)
    ensures
        count_of(items, holds) <= items.len(),
    decreases items.len(),
{
    if items.len() > 0 {
        lemma_count_of(items.drop_last(), holds);
    }
}

/// The replication factor to ask for: three, or as many as there are brokers,
/// but at least one. The factor that a shared cluster will accept is not ours to
/// assume.
pub fn replication_factor(brokers: usize) -> (factor: i16)
    ensures
        factor == if brokers >= 3 {
            3int
        } else if brokers <= 1 {
            1int
        } else {
            2int
        },
{
    if brokers >= 3 {
        3
    } else if brokers <= 1 {
        1
    } else {
        2
    }
}

/// How long a change took to become visible, and how many reads it cost.
#[derive(Debug, Clone, Copy, PartialEq, Eq, Structural)]
pub struct Settled {
    /// How many reads it cost.
    pub reads: u32,
    /// How long it took, in milliseconds.
    pub elapsed_ms: u64,
}

/// What a read of a change that may not be visible yet leads to.
#[derive(Debug)]
pub enum SettleStep {
    /// It is visible.
    Settled(Settled),
    /// It is to be read again after a while.
    Again {
        /// How many reads there were.
        reads: u32,
    },
    /// It is given up.
    Failed(String),
}

/// Decides what a read leads to. Read-after-write on a cluster of several
/// brokers is not immediate, so a change is read again until it is visible or
/// the time is up, and what that took is reported.
pub fn settle(
    what: &str,
    reads: u32,
    visible: bool,
    elapsed_ms: u64,
    elapsed: &str,
) -> (step: SettleStep)
    requires
        reads < u32::MAX,
    ensures
        if visible {
            step matches SettleStep::Settled(settled) && settled == (Settled {
                reads: (reads + 1) as u32,
                elapsed_ms,
            })
        } else if elapsed_ms >= SETTLE_TIMEOUT_MS {
            step matches SettleStep::Failed(text) && text@ == what@ + " did not settle after "@
                + decimal_of((reads + 1) as nat) + " reads over "@ + elapsed@
        } else {
            step matches SettleStep::Again { reads: seen } && seen == reads + 1
        },
{
    let reads: u32 = reads + 1;
    if visible {
        return SettleStep::Settled(Settled { reads, elapsed_ms });
    }
    if elapsed_ms >= SETTLE_TIMEOUT_MS {
        let mut text = joined(what, " did not settle after ");
        text.append(decimal(reads as u64).as_str());
        text.append(" reads over ");
        text.append(elapsed);
        return SettleStep::Failed(text);
    }
    SettleStep::Again { reads }
}

/// Records how long a change took.
pub fn record_settle(report: &mut Report, key: &str, settled: &Settled)
    requires
        old(report)@.wf(),
    ensures
        final(report)@.wf(),
        final(report)@.notes == old(report)@.notes,
        final(report)@.facts() == old(report)@.facts().insert(
            key@ + ".reads_to_settle"@,
            decimal_of(settled.reads as nat),
        ).insert(key@ + ".settle_ms"@, decimal_of(settled.elapsed_ms as nat)),
{
    report.set(joined(key, ".reads_to_settle"), decimal(settled.reads as u64));
    report.set(joined(key, ".settle_ms"), decimal(settled.elapsed_ms));
}

/// A topic as it was created.
#[derive(Debug, Clone, Copy, PartialEq, Eq, Structural)]
pub struct CreatedTopic {
    /// How many partitions it has.
    pub partitions: i32,
    /// How many replicas each has.
    pub replication_factor: i16,
}

/// What became of one thing that was asked for: nothing was said, it was done,
/// or it failed.
pub open spec fn said_of<T>(result: Option<Result<T, String>>) -> Option<Result<T, Seq<char>>> {
    match result {
        None => None,
        Some(Ok(value)) => Some(Ok(value)),
        Some(Err(error)) => Some(Err(error@)),
    }
}

/// Takes in the creation of the scratch topic.
pub fn created(
    report: &mut Report,
    topic: &str,
    replication: i16,
    result: &Option<Result<CreatedTopic, String>>,
) -> (verdict: Result<(), String>)
    requires
        old(report)@.wf(),
    ensures
        final(report)@.wf(),
        final(report)@.notes == old(report)@.notes,
        ({
            let asked = old(report)@.facts().insert(
                "smoke.replication_factor"@,
                signed_of(replication as int),
            );
            match said_of(*result) {
                None => {
                    &&& final(report)@.facts() == asked
                    &&& verdict_of(verdict) == Err::<(), _>(
                        "create_topics returned no result for "@ + topic@,
                    )
                },
                Some(Ok(created)) => {
                    &&& final(report)@.facts() == asked.insert(
                        "smoke.created.partitions"@,
                        signed_of(created.partitions as int),
                    ).insert(
                        "smoke.created.replication"@,
                        signed_of(created.replication_factor as int),
                    )
                    &&& verdict_of(verdict) == Ok::<_, Seq<char>>(())
                },
                Some(Err(error)) => {
                    &&& final(report)@.facts() == asked
                    &&& verdict_of(verdict) == Err::<(), _>("creating "@ + topic@ + ": "@ + error)
                },
            }
        }),
{
    report.set_number("smoke.replication_factor", replication as i64);
    match result {
        None => Err(joined("create_topics returned no result for ", topic)),
        Some(Ok(created)) => {
            report.set_number("smoke.created.partitions", created.partitions as i64);
            report.set_number("smoke.created.replication", created.replication_factor as i64);
            Ok(())
        },
        Some(Err(error)) => {
            let mut text = joined("creating ", topic);
            text.append(": ");
            text.append(error.as_str());
            Err(text)
        },
    }
}

/// One partition of a described topic.
#[derive(Debug)]
pub struct DescribedPartition {
    /// Its leader.
    pub leader: Option<i32>,
    /// Its replicas.
    pub replicas: Vec<i32>,
}

/// Whether a partition has a leader.
pub open spec fn is_led(partition: DescribedPartition) -> bool {
    partition.leader is Some
}

/// Whether a partition's leader is one of its replicas.
pub open spec fn is_led_by_a_replica(partition: DescribedPartition) -> bool {
    partition.leader matches Some(leader) && partition.replicas@.contains(leader)
}

/// Whether every partition has a leader.
pub fn leaders_resolved(partitions: &Vec<DescribedPartition>) -> (resolved: bool)
    ensures
        resolved == forall|i: int|
            0 <= i < partitions@.len() ==> is_led(#[trigger] partitions@[i]),
{
    let mut at: usize = 0;
    while at < partitions.len()
        invariant
            at <= partitions.len(),
            forall|i: int| 0 <= i < at ==> is_led(#[trigger] partitions@[i]),
        decreases partitions.len() - at,
    {
        if partitions[at].leader.is_none() {
            assert(!is_led(partitions@[at as int]));
            return false;
        }
        at += 1;
    }
    true
}

/// Whether every partition's leader is one of its replicas.
pub fn leaders_are_replicas(partitions: &Vec<DescribedPartition>) -> (are: bool)
    ensures
        are == forall|i: int|
            0 <= i < partitions@.len() ==> is_led_by_a_replica(#[trigger] partitions@[i]),
{
    let mut at: usize = 0;
    while at < partitions.len()
        invariant
            at <= partitions.len(),
            forall|i: int| 0 <= i < at ==> is_led_by_a_replica(#[trigger] partitions@[i]),
        decreases partitions.len() - at,
    {
        let replicas = &partitions[at].replicas;
        let found = match partitions[at].leader {
            Some(leader) => {
                let mut k: usize = 0;
                while k < replicas.len() && replicas[k] != leader
                    invariant
                        k <= replicas.len(),
                        forall|i: int| 0 <= i < k ==> replicas@[i] != leader,
                    decreases replicas.len() - k,
                {
                    k += 1;
                }
                if k < replicas.len() {
                    assert(replicas@[k as int] == leader);
                }
                k < replicas.len()
            },
            None => false,
        };
        if !found {
            assert(!is_led_by_a_replica(partitions@[at as int]));
            return false;
        }
        at += 1;
    }
    true
}

/// Records what a describe of the scratch topic says.
pub fn described(report: &mut Report, partitions: &Vec<DescribedPartition>, has_topic_id: bool)
    requires
        old(report)@.wf(),
    ensures
        final(report)@.wf(),
        final(report)@.notes == old(report)@.notes,
        final(report)@.facts() == old(report)@.facts().insert(
            "smoke.described.partitions"@,
            decimal_of(partitions@.len()),
        ).insert(
            "smoke.described.leaders_resolved"@,
            truth(forall|i: int| 0 <= i < partitions@.len() ==> is_led(#[trigger] partitions@[i])),
        ).insert(
            "smoke.described.leader_in_replicas"@,
            truth(
                forall|i: int|
                    0 <= i < partitions@.len() ==> is_led_by_a_replica(#[trigger] partitions@[i]),
            ),
        ).insert("smoke.described.has_topic_id"@, truth(has_topic_id)),
{
    report.set_count("smoke.described.partitions", partitions.len() as u64);
    report.set_flag("smoke.described.leaders_resolved", leaders_resolved(partitions));
    report.set_flag("smoke.described.leader_in_replicas", leaders_are_replicas(partitions));
    report.set_flag("smoke.described.has_topic_id", has_topic_id);
}

/// Whether the scratch topic is grown: the new partitions exist and have
/// leaders. One without a leader answers with a transient error that must not
/// be raced against.
pub fn grown(partitions: &Vec<DescribedPartition>) -> (is: bool)
    ensures
        is == (partitions@.len() == GROWN_PARTITIONS && forall|i: int|
            0 <= i < partitions@.len() ==> is_led(#[trigger] partitions@[i])),
{
    partitions.len() == GROWN_PARTITIONS && leaders_resolved(partitions)
}

/// Takes in a change to the scratch topic: `doing` says what was being done,
/// `call` what was called.
pub fn changed(
    report: &mut Report,
    key: &str,
    doing: &str,
    call: &str,
    topic: &str,
    result: &Option<Result<(), String>>,
) -> (verdict: Result<(), String>)
    requires
        old(report)@.wf(),
    ensures
        final(report)@.wf(),
        final(report)@.notes == old(report)@.notes,
        match said_of(*result) {
            Some(Ok(())) => {
                &&& final(report)@.facts() == old(report)@.facts().insert(key@, truth(true))
                &&& verdict_of(verdict) == Ok::<_, Seq<char>>(())
            },
            Some(Err(error)) => {
                &&& final(report)@.facts() == old(report)@.facts()
                &&& verdict_of(verdict) == Err::<(), _>(
                    doing@ + " "@ + topic@ + ": "@ + error,
                )
            },
            None => {
                &&& final(report)@.facts() == old(report)@.facts()
                &&& verdict_of(verdict) == Err::<(), _>(call@ + " returned no result"@)
            },
        },
{
    match result {
        Some(Ok(())) => {
            report.set_flag(key, true);
            Ok(())
        },
        Some(Err(error)) => {
            let mut text = joined(doing, " ");
            text.append(topic);
            text.append(": ");
            text.append(error.as_str());
            Err(text)
        },
        None => Err(joined(call, " returned no result")),
    }
}

/// Records the changed retention as it reads back. That it does matters: a
/// broker that accepts a change and does not apply it is easy to miss.
pub fn retained(report: &mut Report, value: Option<String>, explicit: bool, from_topic: bool)
    requires
        old(report)@.wf(),
    ensures
        final(report)@.wf(),
        final(report)@.notes == old(report)@.notes,
        final(report)@.facts() == old(report)@.facts().insert(
            "smoke.retention.value"@,
            present_or_dash(text_of(value)),
        ).insert("smoke.retention.source_is_explicit"@, truth(explicit)).insert(
            "smoke.retention.source_is_topic_config"@,
            truth(from_topic),
        ),
{
    report.set_opt("smoke.retention.value".to_owned(), value);
    report.set_flag("smoke.retention.source_is_explicit", explicit);
    report.set_flag("smoke.retention.source_is_topic_config", from_topic);
}

/// What one way of asking for offsets was answered.
#[derive(Debug)]
pub struct OffsetsAnswer {
    /// What was asked for.
    pub spec: String,
    /// How many partitions answered.
    pub answered: usize,
    /// The first failure.
    pub error: Option<String>,
}

/// The facts of one way of asking for offsets.
pub open spec fn offsets_facts(facts: Facts, answer: OffsetsAnswer) -> Facts {
    let key = "smoke.offsets."@ + answer.spec@;
    let counted = facts.insert(key + ".ok"@, decimal_of(answer.answered as nat));
    match answer.error {
        Some(error) => if answer.answered == GROWN_PARTITIONS {
            counted
        } else {
            counted.insert(key + ".error"@, on_one_line(error@))
        },
        None => counted,
    }
}

/// The facts of every way of asking for offsets.
pub open spec fn all_offsets_facts(facts: Facts, answers: Seq<OffsetsAnswer>) -> Facts
    decreases answers.len(),
{
    if answers.len() == 0 {
        facts
    } else {
        offsets_facts(all_offsets_facts(facts, answers.drop_last()), answers.last())
    }
}

/// How many ways of asking for offsets every partition answered.
pub open spec fn fully_answered(answers: Seq<OffsetsAnswer>) -> nat {
    count_of(answers, |answer: OffsetsAnswer| answer.answered == GROWN_PARTITIONS)
}

/// Takes in what every way of asking for offsets was answered. All of them must
/// be answered for all partitions.
pub fn offsets(report: &mut Report, answers: &Vec<OffsetsAnswer>) -> (verdict: Result<(), String>)
    requires
        old(report)@.wf(),
    ensures
        final(report)@.wf(),
        final(report)@.notes == old(report)@.notes,
        final(report)@.facts() == all_offsets_facts(old(report)@.facts(), answers@).insert(
            "smoke.offsets.sentinels_answered"@,
            decimal_of(fully_answered(answers@)),
        ),
        verdict_of(verdict) == if fully_answered(answers@) == answers@.len() {
            Ok::<_, Seq<char>>(())
        } else {
            Err(
                "only "@ + decimal_of(fully_answered(answers@)) + " of "@ + decimal_of(
                    answers@.len(),
                ) + " reachable ListOffsets sentinels answered for all partitions"@,
            )
        },
{
    let ghost before = report@.facts();
    let mut full: usize = 0;
    let mut at: usize = 0;
    assert(answers@.take(0) =~= seq![]);
    while at < answers.len()
        invariant
            at <= answers.len(),
            full <= at,
            report@.wf(),
            report@.notes == old(report)@.notes,
            full == fully_answered(answers@.take(at as int)),
            report@.facts() == all_offsets_facts(before, answers@.take(at as int)),
        decreases answers.len() - at,
    {
        let answer = &answers[at];
        assert(answers@.take(at + 1).drop_last() =~= answers@.take(at as int));
        assert(answers@.take(at + 1).last() == *answer);
        let key = joined("smoke.offsets.", answer.spec.as_str());
        report.set(joined(key.as_str(), ".ok"), decimal(answer.answered as u64));
        if answer.answered == GROWN_PARTITIONS {
            full += 1;
        } else if let Some(error) = &answer.error {
            report.set(joined(key.as_str(), ".error"), one_line(error.as_str()));
        }
        at += 1;
    }
    assert(answers@.take(at as int) =~= answers@);
    report.set_count("smoke.offsets.sentinels_answered", full as u64);
    if full != answers.len() {
        let mut text = joined("only ", decimal(full as u64).as_str());
        text.append(" of ");
        text.append(decimal(answers.len() as u64).as_str());
        text.append(" reachable ListOffsets sentinels answered for all partitions");
        return Err(text);
    }
    Ok(())
}

/// Takes in a describe of one topic that exists and one that does not: a batch
/// with one bad name must come back as one error and the rest as answers.
pub fn per_item(report: &mut Report, answered: usize, failed: usize, seen: &str) -> (verdict: Result<
    (),
    String,
>)
    requires
        old(report)@.wf(),
    ensures
        final(report)@.wf(),
        final(report)@.notes == old(report)@.notes,
        final(report)@.facts() == old(report)@.facts().insert(
            "smoke.per_item.ok"@,
            decimal_of(answered as nat),
        ).insert("smoke.per_item.err"@, decimal_of(failed as nat)),
        verdict_of(verdict) == if answered == 1 && failed == 1 {
            Ok::<_, Seq<char>>(())
        } else {
            Err("expected exactly one ok and one err, got "@ + seen@)
        },
{
    report.set_count("smoke.per_item.ok", answered as u64);
    report.set_count("smoke.per_item.err", failed as u64);
    if answered != 1 || failed != 1 {
        return Err(joined("expected exactly one ok and one err, got ", seen));
    }
    Ok(())
}

/// What became of deleting one resource: its name, and the failure if there was
/// one.
#[derive(Debug)]
pub struct Deletion {
    /// The resource.
    pub name: String,
    /// What went wrong.
    pub error: Option<String>,
}

/// The notes that failed deletions leave.
pub open spec fn failed_deletions(results: Seq<Deletion>) -> Seq<Seq<char>>
    decreases results.len(),
{
    if results.len() == 0 {
        seq![]
    } else {
        let before = failed_deletions(results.drop_last());
        match results.last().error {
            Some(error) => before.push(
                "cleanup failed for "@ + results.last().name@ + ": "@ + error@,
            ),
            None => before,
        }
    }
}

/// Records what became of the scratch resources. A failed cleanup is reported
/// rather than swallowed.
pub fn cleanup(report: &mut Report, results: &Result<Vec<Deletion>, String>)
    requires
        old(report)@.wf(),
    ensures
        final(report)@.wf(),
        match results {
            Ok(results) => {
                &&& final(report)@.facts() == old(report)@.facts().insert(
                    "cleanup.deleted"@,
                    truth(failed_deletions(results@).len() == 0),
                )
                &&& final(report)@.notes == old(report)@.notes + failed_deletions(results@)
            },
            Err(error) => {
                &&& final(report)@.facts() == old(report)@.facts().insert(
                    "cleanup.deleted"@,
                    truth(false),
                )
                &&& final(report)@.notes == old(report)@.notes.push("cleanup failed: "@ + error@)
            },
        },
{
    match results {
        Ok(results) => {
            let ghost before = report@;
            let mut deleted = true;
            let mut at: usize = 0;
            assert(before.notes + failed_deletions(results@.take(0)) =~= before.notes);
            while at < results.len()
                invariant
                    at <= results.len(),
                    report@.entries == before.entries,
                    report@.notes == before.notes + failed_deletions(results@.take(at as int)),
                    deleted == (failed_deletions(results@.take(at as int)).len() == 0),
                decreases results.len() - at,
            {
                assert(results@.take(at + 1).drop_last() =~= results@.take(at as int));
                assert(results@.take(at + 1).last() == results@[at as int]);
                let ghost noted = report@.notes;
                if let Some(error) = &results[at].error {
                    deleted = false;
                    let mut text = joined("cleanup failed for ", results[at].name.as_str());
                    text.append(": ");
                    text.append(error.as_str());
                    report.note(text);
                    assert(report@.notes =~= before.notes + failed_deletions(
                        results@.take(at + 1),
                    ));
                }
                at += 1;
            }
            assert(results@.take(at as int) =~= results@);
            report.set_flag("cleanup.deleted", deleted);
        },
        Err(error) => {
            report.set_flag("cleanup.deleted", false);
            report.note(joined("cleanup failed: ", error.as_str()));
        },
    }
}

/// The notes that a run on scratch resources starts with.
pub fn smoke(label: &str, topic: &str) -> (report: Report)
    ensures
        report@.wf(),
        report@.facts() == Map::<Seq<char>, Seq<char>>::empty(),
        report@.notes == seq!["target: "@ + label@, "scratch topic: "@ + topic@],
{
    let mut report = Report::new();
    report.note(joined("target: ", label));
    report.note(joined("scratch topic: ", topic));
    assert(report@.notes =~= seq!["target: "@ + label@, "scratch topic: "@ + topic@]);
    report
}

} // verus!
