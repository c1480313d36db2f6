//! What holds of every group that is sent.

use vstd::prelude::*;

use crate::compression::Compression;
use crate::error::{code_for, ErrorKindView, ErrorView};
use crate::keyed::PartitionKey;
use crate::produce::accumulator::{
    all_failed, gone_error, tickets_of, MetadataView, QueuedView, ReadyView, ResolutionView,
};
use crate::produce::dispatch::{Ack, OutboundView, ResolvedView};
use crate::produce::encode::{batch_bytes, stamped, stamped_batch};
use crate::produce::send::{
    landed, lemma_waiting_position, prepared, ready_bytes, records_in, resets, waiting_position,
    ProgressView, WaitingView,
};

verus! {

/// The records of a batch that landed lie one after another: the record at place
/// `i` is answered with the offset `i` behind the first, under the batch's own
/// topic and partition, with the time the broker gave.
pub proof fn a_batch_lands_record_by_record(batch: WaitingView, ack: Ack, i: int)
    requires
        0 <= i < batch.tickets.len() <= i64::MAX,
    ensures
        landed(batch, ack).len() == batch.tickets.len(),
        landed(batch, ack)[i].ticket == batch.tickets[i],
        landed(batch, ack)[i].outcome matches Ok(metadata) && {
            &&& metadata.topic == batch.key.0
            &&& metadata.partition == batch.key.1
            &&& metadata.timestamp == ack.log_append_time_ms
            &&& ack.base_offset + i <= i64::MAX ==> metadata.offset == ack.base_offset + i
            &&& ack.base_offset + i > i64::MAX ==> metadata.offset == i64::MAX
        },
{
}

/// No two records of a batch are told the same offset, and the next record lies
/// at the next one.
pub proof fn offsets_rise_by_one(batch: WaitingView, ack: Ack)
    requires
        batch.tickets.len() <= i64::MAX,
        ack.base_offset + batch.tickets.len() <= i64::MAX,
    ensures
        forall|i: int, j: int|
            0 <= i < j < batch.tickets.len() ==> (#[trigger] landed(
                batch,
                ack,
            )[j]).outcome->Ok_0.offset - (#[trigger] landed(batch, ack)[i]).outcome->Ok_0.offset
                == j - i,
        batch.tickets.len() > 0 ==> landed(batch, ack)[0].outcome->Ok_0.offset == ack.base_offset,
{
}

/// The records of a batch that failed are each told why.
pub proof fn a_failed_batch_fails_every_record(tickets: Seq<u64>, error: ErrorView)
    ensures
        all_failed(tickets, error).len() == tickets.len(),
        forall|i: int|
            0 <= i < tickets.len() ==> (#[trigger] all_failed(tickets, error)[i]).ticket
                == tickets[i] && all_failed(tickets, error)[i].outcome == Err::<
                MetadataView,
                ErrorView,
            >(error),
{
}

/// A record nobody answered for is told that the producer is gone, which a
/// retry may mend.
pub proof fn a_record_nobody_answered_for_may_be_tried_again()
    ensures
        gone_error().kind == (ErrorKindView::ConnectionClosed { peer: "the producer"@ }),
        gone_error().retriable,
        !gone_error().needs_metadata_refresh,
{
}

/// Three of the broker's codes say that it has forgotten this producer: 45, 47
/// and 59. No other error does.
pub proof fn three_codes_reset_the_producer(error: ErrorView)
    ensures
        resets(error) <==> (error.kind matches ErrorKindView::Broker { code, .. } && {
            ||| code_for(45) == Some(code)
            ||| code_for(47) == Some(code)
            ||| code_for(59) == Some(code)
        }),
{
}

/// What is queued keeps its record and its caller, place by place.
pub proof fn records_and_callers_stay_together(queued: Seq<QueuedView>)
    ensures
        records_in(queued).len() == queued.len(),
        tickets_of(queued).len() == queued.len(),
        forall|i: int|
            0 <= i < queued.len() ==> #[trigger] records_in(queued)[i] == queued[i].record,
        forall|i: int|
            0 <= i < queued.len() ==> #[trigger] tickets_of(queued)[i] == queued[i].ticket,
{
}

/// The first batch that waits for a partition takes the partition's next result,
/// and nothing else changes.
pub proof fn one_result_ends_one_batch(progress: ProgressView, result: ResolvedView, at: int)
    requires
        0 <= at < progress.waiting.len(),
        progress.waiting[at].key == result.key,
        forall|k: int| 0 <= k < at ==> (#[trigger] progress.waiting[k]).key != result.key,
    ensures
        ({
            let after = progress.with_result(result);
            let batch = progress.waiting[at];
            let n = progress.resolutions.len() as int;
            &&& after.waiting == progress.waiting.remove(at)
            &&& after.resolutions.len() == n + batch.tickets.len()
            &&& after.resolutions.take(n) == progress.resolutions
            &&& result.outcome matches Ok(ack) ==> {
                &&& after.resolutions.skip(n) == landed(batch, ack)
                &&& after.released == progress.released
                &&& after.reset == progress.reset
            }
            &&& result.outcome matches Err(error) ==> {
                &&& after.resolutions.skip(n) == all_failed(batch.tickets, error)
                &&& after.released == match batch.base {
                    Some(base) => progress.released.push((result.key, base)),
                    None => progress.released,
                }
                &&& after.reset <==> progress.reset || resets(error)
            }
        }),
{
    lemma_waiting_position(progress.waiting, result.key);
    let after = progress.with_result(result);
    let n = progress.resolutions.len() as int;
    assert(after.resolutions.take(n) =~= progress.resolutions);
    match result.outcome {
        Ok(ack) => {
            assert(after.resolutions.skip(n) =~= landed(progress.waiting[at], ack));
        },
        Err(error) => {
            assert(after.resolutions.skip(n) =~= all_failed(
                progress.waiting[at].tickets,
                error,
            ));
        },
    }
}

/// A result that no batch waits for changes nothing.
pub proof fn a_stray_result_changes_nothing(progress: ProgressView, result: ResolvedView)
    requires
        forall|k: int|
            0 <= k < progress.waiting.len() ==> (#[trigger] progress.waiting[k]).key != result.key,
    ensures
        progress.with_result(result) == progress,
{
    lemma_waiting_position(progress.waiting, result.key);
}

/// Batches of which no two wait for one partition.
pub open spec fn one_each(waiting: Seq<WaitingView>) -> bool {
    forall|i: int, j: int|
        0 <= i < j < waiting.len() ==> (#[trigger] waiting[i]).key != (#[trigger] waiting[j]).key
}

/// What a record is told of its batch's end.
pub open spec fn told(batch: WaitingView, outcome: Result<Ack, ErrorView>, i: int) -> Result<
    MetadataView,
    ErrorView,
> {
    match outcome {
        Ok(ack) => Ok(
            MetadataView {
                topic: batch.key.0,
                partition: batch.key.1,
                offset: (ack.base_offset + i) as i64,
                timestamp: ack.log_append_time_ms,
            },
        ),
        Err(error) => Err(error),
    }
}

/// Whether every record of a batch has been told of the batch's end.
pub open spec fn all_told(
    resolutions: Seq<ResolutionView>,
    batch: WaitingView,
    outcome: Result<Ack, ErrorView>,
) -> bool {
    forall|i: int|
        0 <= i < batch.tickets.len() ==> resolutions.contains(
            ResolutionView { ticket: #[trigger] batch.tickets[i], outcome: told(batch, outcome, i) },
        )
}

/// The batch fits in memory, and the offsets that a result gives it exist.
pub open spec fn offsets_exist(batch: WaitingView, outcome: Result<Ack, ErrorView>) -> bool {
    &&& batch.tickets.len() <= i64::MAX
    &&& outcome matches Ok(ack) ==> ack.base_offset + batch.tickets.len() <= i64::MAX
}

/// Longer answers hold what shorter ones held.
proof fn lemma_longer(a: Seq<ResolutionView>, b: Seq<ResolutionView>)
    ensures
        forall|one: ResolutionView| a.contains(one) ==> #[trigger] (a + b).contains(one),
        forall|one: ResolutionView| b.contains(one) ==> #[trigger] (a + b).contains(one),
{
    assert forall|one: ResolutionView| a.contains(one) implies #[trigger] (a + b).contains(
        one,
    ) by {
        let k = choose|k: int| 0 <= k < a.len() && a[k] == one;
        assert((a + b)[k] == one);
    }
    assert forall|one: ResolutionView| b.contains(one) implies #[trigger] (a + b).contains(
        one,
    ) by {
        let k = choose|k: int| 0 <= k < b.len() && b[k] == one;
        assert((a + b)[a.len() + k] == one);
    }
}

/// A result that a batch takes tells all its records.
proof fn lemma_tells(before: Seq<ResolutionView>, batch: WaitingView, outcome: Result<Ack, ErrorView>)
    requires
        outcome is Ok ==> offsets_exist(batch, outcome),
    ensures
        match outcome {
            Ok(ack) => all_told(before + landed(batch, ack), batch, outcome),
            Err(error) => all_told(before + all_failed(batch.tickets, error), batch, outcome),
        },
{
    let more = match outcome {
        Ok(ack) => landed(batch, ack),
        Err(error) => all_failed(batch.tickets, error),
    };
    lemma_longer(before, more);
    assert forall|i: int| 0 <= i < batch.tickets.len() implies (before + more).contains(
        ResolutionView { ticket: #[trigger] batch.tickets[i], outcome: told(batch, outcome, i) },
    ) by {
        assert(more[i] == (ResolutionView {
            ticket: batch.tickets[i],
            outcome: told(batch, outcome, i),
        }));
        assert(more.contains(more[i]));
    }
}

/// What one result leaves as it was.
proof fn lemma_step(progress: ProgressView, result: ResolvedView)
    requires
        one_each(progress.waiting),
    ensures
        one_each(progress.with_result(result).waiting),
        forall|one: ResolutionView|
            progress.resolutions.contains(one) ==> #[trigger] progress.with_result(
                result,
            ).resolutions.contains(one),
        forall|one: (PartitionKey, i32)|
            progress.released.contains(one) ==> #[trigger] progress.with_result(
                result,
            ).released.contains(one),
        forall|batch: WaitingView|
            progress.waiting.contains(batch) && batch.key != result.key
                ==> #[trigger] progress.with_result(result).waiting.contains(batch),
        forall|batch: WaitingView| #[trigger]
            progress.with_result(result).waiting.contains(batch) ==> progress.waiting.contains(
                batch,
            ),
{
    lemma_waiting_position(progress.waiting, result.key);
    let after = progress.with_result(result);
    if let Some(at) = waiting_position(progress.waiting, result.key) {
        let batch = progress.waiting[at];
        match result.outcome {
            Ok(ack) => lemma_longer(progress.resolutions, landed(batch, ack)),
            Err(error) => {
                lemma_longer(progress.resolutions, all_failed(batch.tickets, error));
                assert forall|one: (PartitionKey, i32)|
                    progress.released.contains(one) implies #[trigger] after.released.contains(
                    one,
                ) by {
                    let k = choose|k: int|
                        0 <= k < progress.released.len() && progress.released[k] == one;
                    assert(after.released[k] == one);
                }
            },
        }
        assert forall|other: WaitingView|
            progress.waiting.contains(other) && other.key
                != result.key implies #[trigger] after.waiting.contains(other) by {
            let k = choose|k: int| 0 <= k < progress.waiting.len() && progress.waiting[k] == other;
            if k < at {
                assert(after.waiting[k] == other);
            } else {
                assert(after.waiting[k - 1] == other);
            }
        }
        assert forall|other: WaitingView| #[trigger]
            after.waiting.contains(other) implies progress.waiting.contains(other) by {
            let k = choose|k: int| 0 <= k < after.waiting.len() && after.waiting[k] == other;
            if k < at {
                assert(progress.waiting[k] == other);
            } else {
                assert(progress.waiting[k + 1] == other);
            }
        }
    }
}

/// Results for other partitions leave a batch waiting.
proof fn lemma_still_waiting(start: ProgressView, results: Seq<ResolvedView>, batch: WaitingView)
    requires
        one_each(start.waiting),
        start.waiting.contains(batch),
        forall|k: int| 0 <= k < results.len() ==> (#[trigger] results[k]).key != batch.key,
    ensures
        one_each(start.with_results(results).waiting),
        start.with_results(results).waiting.contains(batch),
    decreases results.len(),
{
    if results.len() > 0 {
        assert forall|k: int| 0 <= k < results.drop_last().len() implies (
        #[trigger] results.drop_last()[k]).key != batch.key by {
            assert(results.drop_last()[k] == results[k]);
        }
        lemma_still_waiting(start, results.drop_last(), batch);
        lemma_step(start.with_results(results.drop_last()), results.last());
    }
}

/// The batch that waits for a partition takes the partition's result.
proof fn lemma_taken(progress: ProgressView, result: ResolvedView, batch: WaitingView)
    requires
        one_each(progress.waiting),
        progress.waiting.contains(batch),
        batch.key == result.key,
        offsets_exist(batch, result.outcome),
    ensures
        all_told(progress.with_result(result).resolutions, batch, result.outcome),
        result.outcome is Err && batch.base is Some ==> progress.with_result(
            result,
        ).released.contains((batch.key, batch.base->Some_0)),
{
    lemma_waiting_position(progress.waiting, result.key);
    let k = choose|k: int| 0 <= k < progress.waiting.len() && progress.waiting[k] == batch;
    let at = waiting_position(progress.waiting, result.key)->Some_0;
    assert(at == k);
    lemma_tells(progress.resolutions, batch, result.outcome);
    if result.outcome is Err && batch.base is Some {
        let after = progress.with_result(result);
        assert(after.released.last() == (batch.key, batch.base->Some_0));
    }
}

/// A batch's first result is the one that tells, whatever comes later.
proof fn lemma_answered_batch(
    start: ProgressView,
    results: Seq<ResolvedView>,
    batch: WaitingView,
    k: int,
)
    requires
        one_each(start.waiting),
        start.waiting.contains(batch),
        0 <= k < results.len(),
        results[k].key == batch.key,
        forall|j: int| 0 <= j < k ==> (#[trigger] results[j]).key != batch.key,
        offsets_exist(batch, results[k].outcome),
    ensures
        one_each(start.with_results(results).waiting),
        all_told(start.with_results(results).resolutions, batch, results[k].outcome),
        results[k].outcome is Err && batch.base is Some ==> start.with_results(
            results,
        ).released.contains((batch.key, batch.base->Some_0)),
    decreases results.len(),
{
    let before = results.drop_last();
    assert forall|j: int| 0 <= j < before.len() implies #[trigger] before[j] == results[j] by {}
    let progress = start.with_results(before);
    if k == results.len() - 1 {
        lemma_still_waiting(start, before, batch);
        lemma_step(progress, results.last());
        lemma_taken(progress, results.last(), batch);
    } else {
        lemma_answered_batch(start, before, batch, k);
        lemma_step(progress, results.last());
        assert forall|i: int| 0 <= i < batch.tickets.len() implies start.with_results(
            results,
        ).resolutions.contains(
            ResolutionView {
                ticket: #[trigger] batch.tickets[i],
                outcome: told(batch, results[k].outcome, i),
            },
        ) by {}
    }
}

/// What is abandoned is told so, and what was told stays told.
proof fn lemma_abandoned(progress: ProgressView)
    ensures
        forall|one: ResolutionView|
            progress.resolutions.contains(one)
                ==> #[trigger] progress.abandoned().resolutions.contains(one),
        forall|one: (PartitionKey, i32)|
            progress.released.contains(one) ==> #[trigger] progress.abandoned().released.contains(
                one,
            ),
        forall|k: int|
            0 <= k < progress.waiting.len() ==> all_told(
                progress.abandoned().resolutions,
                #[trigger] progress.waiting[k],
                Err(gone_error()),
            ),
        forall|k: int|
            0 <= k < progress.waiting.len() && (#[trigger] progress.waiting[k]).base is Some
                ==> progress.abandoned().released.contains(
                (progress.waiting[k].key, progress.waiting[k].base->Some_0),
            ),
        progress.abandoned().reset == progress.reset,
    decreases progress.waiting.len(),
{
    if progress.waiting.len() > 0 {
        let batch = progress.waiting[0];
        let next = ProgressView {
            waiting: progress.waiting.remove(0),
            released: match batch.base {
                Some(base) => progress.released.push((batch.key, base)),
                None => progress.released,
            },
            reset: progress.reset,
            resolutions: progress.resolutions + all_failed(batch.tickets, gone_error()),
        };
        assert(next.abandoned() == progress.abandoned());
        lemma_abandoned(next);
        lemma_longer(progress.resolutions, all_failed(batch.tickets, gone_error()));
        lemma_tells(progress.resolutions, batch, Err(gone_error()));
        assert forall|one: (PartitionKey, i32)| progress.released.contains(one) implies #[trigger]
        progress.abandoned().released.contains(one) by {
            let k = choose|k: int| 0 <= k < progress.released.len() && progress.released[k] == one;
            assert(next.released[k] == one);
            assert(next.released.contains(one));
        }
        assert forall|k: int| 0 <= k < progress.waiting.len() implies all_told(
            progress.abandoned().resolutions,
            #[trigger] progress.waiting[k],
            Err(gone_error()),
        ) by {
            if k == 0 {
                assert forall|i: int| 0 <= i < batch.tickets.len() implies next.abandoned()
                    .resolutions.contains(
                    ResolutionView {
                        ticket: #[trigger] batch.tickets[i],
                        outcome: told(batch, Err(gone_error()), i),
                    },
                ) by {
                    assert(next.resolutions.contains(
                        ResolutionView {
                            ticket: batch.tickets[i],
                            outcome: told(batch, Err(gone_error()), i),
                        },
                    ));
                }
            } else {
                assert(next.waiting[k - 1] == progress.waiting[k]);
            }
        }
        assert forall|k: int|
            0 <= k < progress.waiting.len() && (
            #[trigger] progress.waiting[k]).base is Some implies progress.abandoned()
            .released.contains((progress.waiting[k].key, progress.waiting[k].base->Some_0)) by {
            if k == 0 {
                assert(next.released.last() == (batch.key, batch.base->Some_0));
                assert(next.released.contains((batch.key, batch.base->Some_0)));
            } else {
                assert(next.waiting[k - 1] == progress.waiting[k]);
            }
        }
    }
}

/// Every record of a batch that was answered is told what became of it: the
/// record at place `i` lies `i` behind the batch's first offset, or failed as the
/// batch did. The numbers of a batch that failed are given back.
pub proof fn an_answered_batch_tells_every_record(
    start: ProgressView,
    results: Seq<ResolvedView>,
    batch: WaitingView,
    k: int,
)
    requires
        one_each(start.waiting),
        start.waiting.contains(batch),
        0 <= k < results.len(),
        results[k].key == batch.key,
        forall|j: int| 0 <= j < k ==> (#[trigger] results[j]).key != batch.key,
        offsets_exist(batch, results[k].outcome),
    ensures
        all_told(start.with_results(results).abandoned().resolutions, batch, results[k].outcome),
        results[k].outcome is Err && batch.base is Some ==> start.with_results(
            results,
        ).abandoned().released.contains((batch.key, batch.base->Some_0)),
{
    lemma_answered_batch(start, results, batch, k);
    let progress = start.with_results(results);
    lemma_abandoned(progress);
    assert forall|i: int| 0 <= i < batch.tickets.len() implies progress.abandoned()
        .resolutions.contains(
        ResolutionView {
            ticket: #[trigger] batch.tickets[i],
            outcome: told(batch, results[k].outcome, i),
        },
    ) by {
        assert(progress.resolutions.contains(
            ResolutionView { ticket: batch.tickets[i], outcome: told(batch, results[k].outcome, i) },
        ));
    }
}

/// Every record of a batch nobody answered for is told so, and the batch's numbers
/// are given back.
pub proof fn an_unanswered_batch_tells_every_record(
    start: ProgressView,
    results: Seq<ResolvedView>,
    batch: WaitingView,
)
    requires
        one_each(start.waiting),
        start.waiting.contains(batch),
        forall|k: int| 0 <= k < results.len() ==> (#[trigger] results[k]).key != batch.key,
    ensures
        all_told(
            start.with_results(results).abandoned().resolutions,
            batch,
            Err(
                ErrorView {
                    kind: ErrorKindView::ConnectionClosed { peer: "the producer"@ },
                    retriable: true,
                    needs_metadata_refresh: false,
                },
            ),
        ),
        batch.base is Some ==> start.with_results(results).abandoned().released.contains(
            (batch.key, batch.base->Some_0),
        ),
{
    lemma_still_waiting(start, results, batch);
    let progress = start.with_results(results);
    lemma_abandoned(progress);
    let k = choose|k: int| 0 <= k < progress.waiting.len() && progress.waiting[k] == batch;
    assert(progress.waiting[k] == batch);
}

/// What becomes of one batch of a group when the group is encoded: it goes to the
/// wire and its callers wait, or its callers are told why it cannot. Either way its
/// partition is among the group's.
pub proof fn a_batch_is_sent_or_refused(
    group: Seq<ReadyView>,
    compression: Compression,
    now: i64,
    k: int,
)
    requires
        0 <= k < group.len(),
    ensures
        ({
            let out = prepared(group, compression, now);
            let ready = group[k];
            let tickets = Seq::new(ready.records.len(), |i: int| ready.records[i].ticket);
            let base = match ready.identity {
                Some(identity) => Some(identity.base_sequence),
                None => None,
            };
            let batch = WaitingView { key: ready.key, tickets, base };
            &&& out.partitions.len() == group.len()
            &&& out.partitions[k] == ready.key
            &&& !out.reset
            &&& ready_bytes(ready, compression, now) matches Ok(encoded) ==> {
                &&& out.waiting.contains(batch)
                &&& out.outbound.contains(
                    OutboundView { topic: ready.key.0, partition: ready.key.1, encoded },
                )
            }
            &&& ready_bytes(ready, compression, now) matches Err(error) ==> {
                &&& all_told(out.resolutions, batch, Err(error))
                &&& base is Some ==> out.released.contains((ready.key, base->Some_0))
            }
        }),
    decreases group.len(),
{
    let before = prepared(group.drop_last(), compression, now);
    let out = prepared(group, compression, now);
    let ready = group[k];
    let tickets = Seq::new(ready.records.len(), |i: int| ready.records[i].ticket);
    assert(tickets_of(ready.records) =~= tickets);
    let base = match ready.identity {
        Some(identity) => Some(identity.base_sequence),
        None => None,
    };
    let batch = WaitingView { key: ready.key, tickets, base };
    if k == group.len() - 1 {
        if group.len() > 1 {
            a_batch_is_sent_or_refused(group.drop_last(), compression, now, 0);
        }
        match ready_bytes(ready, compression, now) {
            Ok(encoded) => {
                assert(out.waiting.last() == batch);
                assert(out.outbound.last() == (OutboundView {
                    topic: ready.key.0,
                    partition: ready.key.1,
                    encoded,
                }));
            },
            Err(error) => {
                lemma_tells(before.resolutions, batch, Err(error));
                if base is Some {
                    assert(out.released.last() == (ready.key, base->Some_0));
                }
            },
        }
    } else {
        a_batch_is_sent_or_refused(group.drop_last(), compression, now, k);
        assert(group.drop_last()[k] == group[k]);
        let last = group.last();
        match ready_bytes(last, compression, now) {
            Ok(_) => {},
            Err(error) => {
                lemma_longer(before.resolutions, all_failed(tickets_of(last.records), error));
            },
        }
        match ready_bytes(ready, compression, now) {
            Ok(encoded) => {
                let w = choose|w: int| 0 <= w < before.waiting.len() && before.waiting[w] == batch;
                assert(out.waiting[w] == batch);
                let sent = OutboundView { topic: ready.key.0, partition: ready.key.1, encoded };
                let o = choose|o: int| 0 <= o < before.outbound.len() && before.outbound[o] == sent;
                assert(out.outbound[o] == sent);
            },
            Err(error) => {
                assert forall|i: int| 0 <= i < batch.tickets.len() implies out.resolutions.contains(
                    ResolutionView {
                        ticket: #[trigger] batch.tickets[i],
                        outcome: told(batch, Err(error), i),
                    },
                ) by {
                    assert(before.resolutions.contains(
                        ResolutionView {
                            ticket: batch.tickets[i],
                            outcome: told(batch, Err(error), i),
                        },
                    ));
                }
                if base is Some {
                    let one = (ready.key, base->Some_0);
                    let r = choose|r: int|
                        0 <= r < before.released.len() && before.released[r] == one;
                    assert(out.released[r] == one);
                }
            },
        }
    }
}

/// A batch is sent as its own records, in order, each stamped with its place, the clock
/// reading, and the batch's identity, through the codec.
pub proof fn what_a_batch_is_sent_as(ready: ReadyView, compression: Compression, now: i64)
    ensures
        ready_bytes(ready, compression, now) == batch_bytes(
            Seq::new(
                ready.records.len(),
                |i: int| stamped(ready.records[i].record, i, now, ready.identity),
            ),
            compression,
        ),
{
    let records = records_in(ready.records);
    assert(stamped_batch(records, now, ready.identity) =~= Seq::new(
        ready.records.len(),
        |i: int| stamped(ready.records[i].record, i, now, ready.identity),
    ));
}

} // verus!
