//! Sending a group of batches: encoding them, and resolving every record once
//! the broker has answered.

use vstd::prelude::*;
use vstd::seq_lib::*;
use vstd::string::*;

use crate::compression::Compression;
use crate::error::{Error, ErrorCode, ErrorView};
use crate::keyed::PartitionKey;
use crate::produce::accumulator::{
    all_failed, gone_error, producer_gone, queued_views, ready_views, release_views,
    resolution_views, tickets_of, Completed, MetadataView, Queued, QueuedView, Ready, ReadyView,
    Resolution, ResolutionView,
};
use crate::produce::dispatch::{
    outbound_views, resolved_views, Ack, Outbound, OutboundView, Resolved, ResolvedView,
};
use crate::produce::encode::{batch_bytes, encode_batch, stamped_batch};
use crate::produce::idempotence::invalidates_producer_state;
use crate::produce::record::{
    producer_views, ProducerRecord, ProducerRecordView, RecordMetadata,
};
use crate::produce::transactions::key_views;
use crate::read::batch::{saturating, saturating_sum};

verus! {

/// The callers of a batch that is on its way.
#[derive(Debug)]
pub struct Waiting {
    /// Topic.
    pub topic: String,
    /// Partition.
    pub partition: i32,
    /// The callers, in the order of their records.
    pub tickets: Vec<u64>,
    /// The number the batch starts from, when it has one.
    pub base: Option<i32>,
}

/// A [`Waiting`] batch, as plain values.
pub struct WaitingView {
    pub key: PartitionKey,
    pub tickets: Seq<u64>,
    pub base: Option<i32>,
}

impl View for Waiting {
    type V = WaitingView;

    open spec fn view(&self) -> WaitingView {
        WaitingView {
            key: (self.topic@, self.partition),
            tickets: self.tickets@,
            base: self.base,
        }
    }
}

/// Waiting batches, as plain values.
pub open spec fn waiting_views(waiting: Seq<Waiting>) -> Seq<WaitingView> {
    waiting.map_values(|batch: Waiting| batch@)
}

/// A group, encoded: what goes to the wire, who waits for it, and what is
/// already settled.
#[derive(Debug)]
pub struct Prepared {
    /// The batches that encoded.
    pub outbound: Vec<Outbound>,
    /// Their callers.
    pub waiting: Vec<Waiting>,
    /// The group's partitions, and the numbers of batches that did not encode.
    pub completed: Completed,
    /// The callers of batches that did not encode.
    pub resolutions: Vec<Resolution>,
}

/// The records of queued records.
pub open spec fn records_in(queued: Seq<QueuedView>) -> Seq<ProducerRecordView> {
    queued.map_values(|queued: QueuedView| queued.record)
}

/// The bytes of a ready batch.
pub open spec fn ready_bytes(ready: ReadyView, compression: Compression, now: i64) -> Result<
    Seq<u8>,
    ErrorView,
> {
    batch_bytes(stamped_batch(records_in(ready.records), now, ready.identity), compression)
}

/// The number a ready batch starts from.
pub open spec fn base_of(ready: ReadyView) -> Option<i32> {
    match ready.identity {
        Some(identity) => Some(identity.base_sequence),
        None => None,
    }
}

/// Reservations with one more to give back, if there is one.
pub open spec fn with_release(
    released: Seq<(PartitionKey, i32)>,
    key: PartitionKey,
    base: Option<i32>,
) -> Seq<(PartitionKey, i32)> {
    match base {
        Some(base) => released.push((key, base)),
        None => released,
    }
}

/// A [`Prepared`] group, as plain values.
pub struct PreparedView {
    pub outbound: Seq<OutboundView>,
    pub waiting: Seq<WaitingView>,
    pub partitions: Seq<PartitionKey>,
    pub released: Seq<(PartitionKey, i32)>,
    pub reset: bool,
    pub resolutions: Seq<ResolutionView>,
}

impl View for Prepared {
    type V = PreparedView;

    open spec fn view(&self) -> PreparedView {
        PreparedView {
            outbound: outbound_views(self.outbound@),
            waiting: waiting_views(self.waiting@),
            partitions: key_views(self.completed.partitions@),
            released: release_views(self.completed.released@),
            reset: self.completed.reset_identity,
            resolutions: resolution_views(self.resolutions@),
        }
    }
}

impl PreparedView {
    /// With one more batch encoded. An unencodable batch fails its own records
    /// and no others, and gives its numbers back, since nothing was sent.
    pub open spec fn with_batch(self, ready: ReadyView, compression: Compression, now: i64) -> Self {
        let partitions = self.partitions.push(ready.key);
        match ready_bytes(ready, compression, now) {
            Ok(encoded) => PreparedView {
                partitions,
                outbound: self.outbound.push(
                    OutboundView { topic: ready.key.0, partition: ready.key.1, encoded },
                ),
                waiting: self.waiting.push(
                    WaitingView {
                        key: ready.key,
                        tickets: tickets_of(ready.records),
                        base: base_of(ready),
                    },
                ),
                ..self
            },
            Err(error) => PreparedView {
                partitions,
                released: with_release(self.released, ready.key, base_of(ready)),
                resolutions: self.resolutions + all_failed(tickets_of(ready.records), error),
                ..self
            },
        }
    }
}

/// A group, encoded.
pub open spec fn prepared(group: Seq<ReadyView>, compression: Compression, now: i64) -> PreparedView
    decreases group.len(),
{
    if group.len() == 0 {
        PreparedView {
            outbound: seq![],
            waiting: seq![],
            partitions: seq![],
            released: seq![],
            reset: false,
            resolutions: seq![],
        }
    } else {
        prepared(group.drop_last(), compression, now).with_batch(group.last(), compression, now)
    }
}

/// Parts queued records from their callers.
fn part(queued: Vec<Queued>) -> (parts: (Vec<ProducerRecord>, Vec<u64>))
    ensures
        producer_views(parts.0@) == records_in(queued_views(queued@)),
        parts.1@ == tickets_of(queued_views(queued@)),
{
    let mut records: Vec<ProducerRecord> = Vec::new();
    let mut tickets: Vec<u64> = Vec::new();
    for one in iter: queued
        invariant
            iter.seq() == queued@,
            records@.len() == iter.index(),
            tickets@.len() == iter.index(),
            forall|k: int| 0 <= k < iter.index() ==> #[trigger] records@[k] == queued@[k].record,
            forall|k: int| 0 <= k < iter.index() ==> #[trigger] tickets@[k] == queued@[k].ticket,
    {
        records.push(one.record);
        tickets.push(one.ticket);
    }
    assert(producer_views(records@) =~= records_in(queued_views(queued@)));
    assert(tickets@ =~= tickets_of(queued_views(queued@)));
    (records, tickets)
}

/// Fails every ticket alike, appending the failures.
fn fail_tickets(tickets: &Vec<u64>, error: &Error, resolutions: &mut Vec<Resolution>)
    ensures
        resolution_views(final(resolutions)@) == resolution_views(old(resolutions)@) + all_failed(
            tickets@,
            error@,
        ),
{
    let ghost before = resolutions@;
    let mut i: usize = 0;
    while i < tickets.len()
        invariant
            i <= tickets.len(),
            resolutions@.len() == before.len() + i,
            forall|k: int| 0 <= k < before.len() ==> #[trigger] resolutions@[k] == before[k],
            forall|k: int|
                before.len() <= k < resolutions@.len() ==> (#[trigger] resolutions@[k])@ == (
                ResolutionView { ticket: tickets@[k - before.len()], outcome: Err(error@) }),
        decreases tickets.len() - i,
    {
        resolutions.push(Resolution { ticket: tickets[i], outcome: Err(error.duplicate()) });
        i += 1;
    }
    assert(resolution_views(resolutions@) =~= resolution_views(before) + all_failed(
        tickets@,
        error@,
    ));
}

/// Encodes a group of batches.
pub fn encode_group(group: Vec<Ready>, compression: Compression, now: i64) -> (result: Prepared)
    ensures
        result@ == prepared(ready_views(group@), compression, now),
{
    let mut result = Prepared {
        outbound: Vec::new(),
        waiting: Vec::new(),
        completed: Completed {
            partitions: Vec::new(),
            released: Vec::new(),
            reset_identity: false,
        },
        resolutions: Vec::new(),
    };
    let ghost views = ready_views(group@);
    proof {
        assert(views.take(0) =~= seq![]);
        assert(result@.outbound =~= seq![]);
        assert(result@.waiting =~= seq![]);
        assert(result@.partitions =~= seq![]);
        assert(result@.released =~= seq![]);
        assert(result@.resolutions =~= seq![]);
    }
    for ready in iter: group
        invariant
            iter.seq() == group@,
            views == ready_views(group@),
            result@ == prepared(views.take(iter.index()), compression, now),
    {
        let ghost before = result@;
        let ghost view = ready@;
        proof {
            assert(views.take(iter.index() + 1).drop_last() =~= views.take(iter.index()));
            assert(views.take(iter.index() + 1).last() == view);
        }
        let base: Option<i32> = match ready.identity {
            Some(identity) => Some(identity.base_sequence),
            None => None,
        };
        result.completed.partitions.push((ready.topic.clone(), ready.partition));
        assert(result@.partitions =~= before.partitions.push(view.key));
        let (records, tickets) = part(ready.records);
        match encode_batch(&records, compression, now, ready.identity) {
            Ok(encoded) => {
                result.outbound.push(
                    Outbound { topic: ready.topic.clone(), partition: ready.partition, encoded },
                );
                result.waiting.push(
                    Waiting { topic: ready.topic, partition: ready.partition, tickets, base },
                );
                proof {
                    let after = before.with_batch(view, compression, now);
                    assert(result@.outbound =~= after.outbound);
                    assert(result@.waiting =~= after.waiting);
                    assert(result@ == after);
                }
            },
            Err(error) => {
                if let Some(base) = base {
                    result.completed.released.push((ready.topic, ready.partition, base));
                }
                fail_tickets(&tickets, &error, &mut result.resolutions);
                proof {
                    let after = before.with_batch(view, compression, now);
                    assert(result@.released =~= after.released);
                    assert(result@ == after);
                }
            },
        }
    }
    assert(views.take(views.len() as int) =~= views);
    result
}

/// Where a partition's waiting batch is.
pub open spec fn waiting_position(waiting: Seq<WaitingView>, key: PartitionKey) -> Option<int>
    decreases waiting.len(),
{
    if waiting.len() == 0 {
        None
    } else {
        match waiting_position(waiting.drop_last(), key) {
            Some(at) => Some(at),
            None => if waiting.last().key == key {
                Some(waiting.len() - 1)
            } else {
                None
            },
        }
    }
}

/// A first waiting batch is a waiting batch, and there is none before it;
/// without one the partition has none.
pub proof fn lemma_waiting_position(waiting: Seq<WaitingView>, key: PartitionKey)
    ensures
        match waiting_position(waiting, key) {
            Some(at) => 0 <= at < waiting.len() && waiting[at].key == key && forall|k: int|
                0 <= k < at ==> (#[trigger] waiting[k]).key != key,
            None => forall|k: int| 0 <= k < waiting.len() ==> (#[trigger] waiting[k]).key != key,
        },
    decreases waiting.len(),
{
    if waiting.len() > 0 {
        let shorter = waiting.drop_last();
        lemma_waiting_position(shorter, key);
        assert forall|k: int| 0 <= k < shorter.len() implies shorter[k] == #[trigger] waiting[k] by {}
    }
}

/// The offset of the record at place `index` of a batch that landed.
pub open spec fn landed_at(base_offset: i64, index: int) -> i64 {
    if index > i64::MAX {
        base_offset
    } else {
        saturating(base_offset + index)
    }
}

/// Every record of a batch that landed, at the offset after the one before it.
pub open spec fn landed(batch: WaitingView, ack: Ack) -> Seq<ResolutionView> {
    Seq::new(
        batch.tickets.len(),
        |i: int|
            ResolutionView {
                ticket: batch.tickets[i],
                outcome: Ok(
                    MetadataView {
                        topic: batch.key.0,
                        partition: batch.key.1,
                        offset: landed_at(ack.base_offset, i),
                        timestamp: ack.log_append_time_ms,
                    },
                ),
            },
    )
}

/// Whether an error means that our producer state is gone.
pub open spec fn resets(error: ErrorView) -> bool {
    error.code() == Some(ErrorCode::UnknownProducerId) || error.code() == Some(
        ErrorCode::OutOfOrderSequenceNumber,
    ) || error.code() == Some(ErrorCode::InvalidProducerEpoch)
}

/// How far the resolution of a group has come, as plain values.
pub struct ProgressView {
    pub waiting: Seq<WaitingView>,
    pub released: Seq<(PartitionKey, i32)>,
    pub reset: bool,
    pub resolutions: Seq<ResolutionView>,
}

impl ProgressView {
    /// With one more batch resolved.
    ///
    /// A batch that did not land gives its numbers back: a hole in the sequence
    /// makes the broker reject every later batch for its partition.
    pub open spec fn with_result(self, result: ResolvedView) -> Self {
        match waiting_position(self.waiting, result.key) {
            None => self,
            Some(at) => {
                let batch = self.waiting[at];
                let waiting = self.waiting.remove(at);
                match result.outcome {
                    Ok(ack) => ProgressView {
                        waiting,
                        resolutions: self.resolutions + landed(batch, ack),
                        ..self
                    },
                    Err(error) => ProgressView {
                        waiting,
                        released: with_release(self.released, batch.key, batch.base),
                        reset: self.reset || resets(error),
                        resolutions: self.resolutions + all_failed(batch.tickets, error),
                    },
                }
            },
        }
    }

    /// With every batch resolved that was answered.
    pub open spec fn with_results(self, results: Seq<ResolvedView>) -> Self
        decreases results.len(),
    {
        if results.len() == 0 {
            self
        } else {
            self.with_results(results.drop_last()).with_result(results.last())
        }
    }

    /// With every batch abandoned that is still waiting.
    pub open spec fn abandoned(self) -> Self
        decreases self.waiting.len(),
    {
        if self.waiting.len() == 0 {
            self
        } else {
            let batch = self.waiting[0];
            ProgressView {
                waiting: self.waiting.remove(0),
                released: with_release(self.released, batch.key, batch.base),
                reset: self.reset,
                resolutions: self.resolutions + all_failed(batch.tickets, gone_error()),
            }.abandoned()
        }
    }
}

/// What a group came to.
#[derive(Debug)]
pub struct Finished {
    /// What the actor must do about it.
    pub completed: Completed,
    /// The end of every record that was waiting.
    pub resolutions: Vec<Resolution>,
}

/// Resolves every record of a batch that landed, appending the results.
fn land(batch: &Waiting, ack: Ack, resolutions: &mut Vec<Resolution>)
    ensures
        resolution_views(final(resolutions)@) == resolution_views(old(resolutions)@) + landed(
            batch@,
            ack,
        ),
{
    let ghost before = resolutions@;
    let ghost all = landed(batch@, ack);
    let mut i: usize = 0;
    while i < batch.tickets.len()
        invariant
            i <= batch.tickets.len(),
            all == landed(batch@, ack),
            resolutions@.len() == before.len() + i,
            forall|k: int| 0 <= k < before.len() ==> #[trigger] resolutions@[k] == before[k],
            forall|k: int|
                before.len() <= k < resolutions@.len() ==> (#[trigger] resolutions@[k])@ == all[k
                    - before.len()],
        decreases batch.tickets.len() - i,
    {
        let offset: i64 = if i as u64 > i64::MAX as u64 {
            ack.base_offset
        } else {
            saturating_sum(ack.base_offset, i as i64)
        };
        resolutions.push(
            Resolution {
                ticket: batch.tickets[i],
                outcome: Ok(
                    RecordMetadata {
                        topic: batch.topic.clone(),
                        partition: batch.partition,
                        offset,
                        timestamp: ack.log_append_time_ms,
                    },
                ),
            },
        );
        i += 1;
    }
    assert(resolution_views(resolutions@) =~= resolution_views(before) + all);
}

/// Takes a partition's waiting batch out.
fn take_waiting(waiting: &mut Vec<Waiting>, topic: &String, partition: i32) -> (batch: Option<
    Waiting,
>)
    ensures
        match batch {
            Some(batch) => waiting_position(waiting_views(old(waiting)@), (topic@, partition))
                matches Some(at) && batch@ == waiting_views(old(waiting)@)[at] && waiting_views(
                final(waiting)@,
            ) == waiting_views(old(waiting)@).remove(at),
            None => waiting_position(waiting_views(old(waiting)@), (topic@, partition)) is None
                && final(waiting)@ == old(waiting)@,
        },
{
    let ghost views = waiting_views(waiting@);
    let ghost key = (topic@, partition);
    proof {
        lemma_waiting_position(views, key);
    }
    let mut at: usize = 0;
    while at < waiting.len() && !(waiting[at].partition == partition && waiting[at].topic == *topic)
        invariant
            at <= waiting.len(),
            views == waiting_views(waiting@),
            key == (topic@, partition),
            forall|k: int| 0 <= k < at ==> (#[trigger] views[k]).key != key,
        decreases waiting.len() - at,
    {
        assert(views[at as int] == waiting@[at as int]@);
        at += 1;
    }
    if at < waiting.len() {
        assert(views[at as int] == waiting@[at as int]@);
        let batch = waiting.remove(at);
        assert(waiting_views(waiting@) =~= views.remove(at as int));
        Some(batch)
    } else {
        None
    }
}

/// Resolves every record of an encoded group, given the end each of its batches
/// came to.
///
/// A batch nobody answered for is abandoned: whether it was written is
/// unknowable.
pub fn send_group(prepared: Prepared, results: Vec<Resolved>) -> (finished: Finished)
    ensures
        ({
            let end = (ProgressView {
                waiting: prepared@.waiting,
                released: prepared@.released,
                reset: prepared@.reset,
                resolutions: prepared@.resolutions,
            }).with_results(resolved_views(results@)).abandoned();
            &&& key_views(finished.completed.partitions@) == prepared@.partitions
            &&& release_views(finished.completed.released@) == end.released
            &&& finished.completed.reset_identity == end.reset
            &&& resolution_views(finished.resolutions@) == end.resolutions
        }),
{
    let ghost start = ProgressView {
        waiting: prepared@.waiting,
        released: prepared@.released,
        reset: prepared@.reset,
        resolutions: prepared@.resolutions,
    };
    let ghost views = resolved_views(results@);
    let ghost partitions = prepared@.partitions;
    let mut waiting = prepared.waiting;
    let mut completed = prepared.completed;
    let mut resolutions = prepared.resolutions;
    for result in iter: results
        invariant
            iter.seq() == results@,
            views == resolved_views(results@),
            key_views(completed.partitions@) == partitions,
            start.with_results(views.take(iter.index())) == (ProgressView {
                waiting: waiting_views(waiting@),
                released: release_views(completed.released@),
                reset: completed.reset_identity,
                resolutions: resolution_views(resolutions@),
            }),
    {
        let ghost before = start.with_results(views.take(iter.index()));
        proof {
            assert(views.take(iter.index() + 1).drop_last() =~= views.take(iter.index()));
            assert(views.take(iter.index() + 1).last() == result@);
        }
        if let Some(batch) = take_waiting(&mut waiting, &result.topic, result.partition) {
            match result.outcome {
                Ok(ack) => {
                    land(&batch, ack, &mut resolutions);
                },
                Err(error) => {
                    if let Some(base) = batch.base {
                        completed.released.push((batch.topic.clone(), batch.partition, base));
                    }
                    assert(release_views(completed.released@) =~= with_release(
                        before.released,
                        batch@.key,
                        batch.base,
                    ));
                    let reset = match error.code() {
                        Some(code) => invalidates_producer_state(code),
                        None => false,
                    };
                    if reset {
                        completed.reset_identity = true;
                    }
                    fail_tickets(&batch.tickets, &error, &mut resolutions);
                },
            }
        }
    }
    assert(views.take(views.len() as int) =~= views);
    let ghost end = start.with_results(views).abandoned();
    while waiting.len() > 0
        invariant
            key_views(completed.partitions@) == partitions,
            end == (ProgressView {
                waiting: waiting_views(waiting@),
                released: release_views(completed.released@),
                reset: completed.reset_identity,
                resolutions: resolution_views(resolutions@),
            }).abandoned(),
        decreases waiting.len(),
    {
        let ghost left = waiting_views(waiting@);
        let ghost released = release_views(completed.released@);
        let batch = waiting.remove(0);
        assert(waiting_views(waiting@) =~= left.remove(0));
        assert(left[0] == batch@);
        if let Some(base) = batch.base {
            completed.released.push((batch.topic, batch.partition, base));
        }
        assert(release_views(completed.released@) =~= with_release(
            released,
            batch@.key,
            batch.base,
        ));
        fail_tickets(&batch.tickets, &producer_gone(), &mut resolutions);
    }
    Finished { completed, resolutions }
}

/// The tickets of resolutions.
pub open spec fn answered(resolutions: Seq<ResolutionView>) -> Seq<u64> {
    resolutions.map_values(|resolution: ResolutionView| resolution.ticket)
}

/// The tickets of ready batches.
pub open spec fn group_tickets(group: Seq<ReadyView>) -> Seq<u64>
    decreases group.len(),
{
    if group.len() == 0 {
        seq![]
    } else {
        group_tickets(group.drop_last()) + tickets_of(group.last().records)
    }
}

/// The tickets of waiting batches.
pub open spec fn waiting_tickets(waiting: Seq<WaitingView>) -> Seq<u64>
    decreases waiting.len(),
{
    if waiting.len() == 0 {
        seq![]
    } else {
        waiting_tickets(waiting.drop_last()) + waiting.last().tickets
    }
}

/// No tickets are an empty multiset.
proof fn lemma_no_tickets()
    ensures
        Seq::<u64>::empty().to_multiset() == vstd::multiset::Multiset::<u64>::empty(),
{
    broadcast use group_to_multiset_ensures;

    assert(Seq::<u64>::empty().to_multiset() =~= vstd::multiset::Multiset::<u64>::empty());
}

/// A batch that is taken out takes its tickets and no others.
proof fn lemma_taken_tickets(waiting: Seq<WaitingView>, at: int)
    requires
        0 <= at < waiting.len(),
    ensures
        waiting_tickets(waiting).to_multiset() == waiting_tickets(
            waiting.remove(at),
        ).to_multiset().add(waiting[at].tickets.to_multiset()),
    decreases waiting.len(),
{
    let shorter = waiting.drop_last();
    let last = waiting.last();
    lemma_multiset_commutative(waiting_tickets(shorter), last.tickets);
    if at == waiting.len() - 1 {
        assert(waiting.remove(at) =~= shorter);
    } else {
        lemma_taken_tickets(shorter, at);
        let left = waiting.remove(at);
        assert(left.drop_last() =~= shorter.remove(at));
        assert(left.last() == last);
        lemma_multiset_commutative(waiting_tickets(shorter.remove(at)), last.tickets);
    }
    assert(waiting_tickets(waiting).to_multiset() =~= waiting_tickets(
        waiting.remove(at),
    ).to_multiset().add(waiting[at].tickets.to_multiset()));
}

/// More answers answer more tickets.
proof fn lemma_more_answers(a: Seq<ResolutionView>, b: Seq<ResolutionView>)
    ensures
        answered(a + b).to_multiset() == answered(a).to_multiset().add(answered(b).to_multiset()),
{
    assert(answered(a + b) =~= answered(a) + answered(b));
    lemma_multiset_commutative(answered(a), answered(b));
}

/// Encoding a group loses no record: each is either answered, because its batch
/// did not encode, or waits for the wire.
pub proof fn encoding_answers_or_keeps_every_record(
    group: Seq<ReadyView>,
    compression: Compression,
    now: i64,
)
    ensures
        ({
            let result = prepared(group, compression, now);
            answered(result.resolutions).to_multiset().add(
                waiting_tickets(result.waiting).to_multiset(),
            ) == group_tickets(group).to_multiset()
        }),
    decreases group.len(),
{
    let result = prepared(group, compression, now);
    if group.len() == 0 {
        lemma_no_tickets();
        assert(answered(result.resolutions) =~= Seq::<u64>::empty());
        assert(answered(result.resolutions).to_multiset().add(
            waiting_tickets(result.waiting).to_multiset(),
        ) =~= group_tickets(group).to_multiset());
    } else {
        let before = prepared(group.drop_last(), compression, now);
        let ready = group.last();
        let own = tickets_of(ready.records);
        encoding_answers_or_keeps_every_record(group.drop_last(), compression, now);
        lemma_multiset_commutative(group_tickets(group.drop_last()), own);
        match ready_bytes(ready, compression, now) {
            Ok(_) => {
                assert(result.waiting.drop_last() =~= before.waiting);
                lemma_multiset_commutative(waiting_tickets(before.waiting), own);
            },
            Err(error) => {
                lemma_more_answers(before.resolutions, all_failed(own, error));
                assert(answered(all_failed(own, error)) =~= own);
            },
        }
        assert(answered(result.resolutions).to_multiset().add(
            waiting_tickets(result.waiting).to_multiset(),
        ) =~= group_tickets(group).to_multiset());
    }
}

/// The records a resolution has yet to answer, with those it has.
pub open spec fn accounted(progress: ProgressView) -> vstd::multiset::Multiset<u64> {
    answered(progress.resolutions).to_multiset().add(
        waiting_tickets(progress.waiting).to_multiset(),
    )
}

/// One more result answers the records of one batch at most, each once.
proof fn lemma_result_accounts(progress: ProgressView, result: ResolvedView)
    ensures
        accounted(progress.with_result(result)) == accounted(progress),
{
    lemma_waiting_position(progress.waiting, result.key);
    if let Some(at) = waiting_position(progress.waiting, result.key) {
        let batch = progress.waiting[at];
        lemma_taken_tickets(progress.waiting, at);
        match result.outcome {
            Ok(ack) => {
                lemma_more_answers(progress.resolutions, landed(batch, ack));
                assert(answered(landed(batch, ack)) =~= batch.tickets);
            },
            Err(error) => {
                lemma_more_answers(progress.resolutions, all_failed(batch.tickets, error));
                assert(answered(all_failed(batch.tickets, error)) =~= batch.tickets);
            },
        }
    }
    assert(accounted(progress.with_result(result)) =~= accounted(progress));
}

/// Any number of results answer each record once at most.
proof fn lemma_results_account(progress: ProgressView, results: Seq<ResolvedView>)
    ensures
        accounted(progress.with_results(results)) == accounted(progress),
    decreases results.len(),
{
    if results.len() > 0 {
        lemma_results_account(progress, results.drop_last());
        lemma_result_accounts(progress.with_results(results.drop_last()), results.last());
    }
}

/// Abandoning what is left answers it.
proof fn lemma_abandoning_accounts(progress: ProgressView)
    ensures
        accounted(progress.abandoned()) == accounted(progress),
        progress.abandoned().waiting.len() == 0,
    decreases progress.waiting.len(),
{
    if progress.waiting.len() > 0 {
        let batch = progress.waiting[0];
        let next = ProgressView {
            waiting: progress.waiting.remove(0),
            released: with_release(progress.released, batch.key, batch.base),
            reset: progress.reset,
            resolutions: progress.resolutions + all_failed(batch.tickets, gone_error()),
        };
        lemma_taken_tickets(progress.waiting, 0);
        lemma_more_answers(progress.resolutions, all_failed(batch.tickets, gone_error()));
        assert(answered(all_failed(batch.tickets, gone_error())) =~= batch.tickets);
        assert(accounted(next) =~= accounted(progress));
        lemma_abandoning_accounts(next);
    }
}

/// Every record of a group is answered exactly once, whatever became of its
/// batch and of the ones that travelled with it.
pub proof fn every_record_is_answered_once(
    group: Seq<ReadyView>,
    compression: Compression,
    now: i64,
    results: Seq<ResolvedView>,
)
    ensures
        ({
            let start = prepared(group, compression, now);
            let end = (ProgressView {
                waiting: start.waiting,
                released: start.released,
                reset: false,
                resolutions: start.resolutions,
            }).with_results(results).abandoned();
            answered(end.resolutions).to_multiset() == group_tickets(group).to_multiset()
        }),
{
    let start = prepared(group, compression, now);
    let progress = ProgressView {
        waiting: start.waiting,
        released: start.released,
        reset: false,
        resolutions: start.resolutions,
    };
    encoding_answers_or_keeps_every_record(group, compression, now);
    lemma_results_account(progress, results);
    lemma_abandoning_accounts(progress.with_results(results));
    let end = progress.with_results(results).abandoned();
    lemma_no_tickets();
    assert(waiting_tickets(end.waiting) =~= Seq::<u64>::empty());
    assert(answered(end.resolutions).to_multiset() =~= accounted(end));
}

} // verus!
