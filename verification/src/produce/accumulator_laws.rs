//! What holds of batching, whatever is appended and whenever it is sent.

use vstd::prelude::*;

use crate::keyed::PartitionKey;
use crate::produce::accumulator::{
    busy, entries_distinct, entry_position, first_expiry, later, lemma_entry_position, nearer,
    outstanding, record_cost, records_of, state_of, with_state, ActorView, BatchView,
    DispatchView, EntryView, QueuedView, StateView, IDENTITY_RETRY_MS,
};
use crate::read::batch::held;

verus! {

/// The records of one more batch come last.
proof fn lemma_records_of_push(batches: Seq<BatchView>, batch: BatchView)
    ensures
        records_of(batches.push(batch)) == records_of(batches) + batch.records,
{
    assert(batches.push(batch).drop_last() =~= batches);
}

/// The records of the first batch come first.
proof fn lemma_records_of_first(batches: Seq<BatchView>)
    requires
        batches.len() > 0,
    ensures
        records_of(batches) == batches[0].records + records_of(batches.skip(1)),
    decreases batches.len(),
{
    let rest = batches.skip(1);
    if batches.len() == 1 {
        assert(batches.drop_last() =~= Seq::<BatchView>::empty());
        assert(rest =~= Seq::<BatchView>::empty());
        assert(records_of(batches) =~= batches[0].records + records_of(rest));
    } else {
        let shorter = batches.drop_last();
        lemma_records_of_first(shorter);
        assert(shorter.skip(1) =~= rest.drop_last());
        assert(rest.last() == batches.last());
        assert(records_of(batches) =~= batches[0].records + records_of(rest));
    }
}

/// Closing an open batch changes nothing about which records wait, or in what
/// order.
pub proof fn closing_keeps_the_order(state: StateView)
    ensures
        outstanding(state.closed()) == outstanding(state),
{
    if let Some(open) = state.open {
        lemma_records_of_push(state.pending, open);
        assert(outstanding(state.closed()) =~= outstanding(state));
    }
}

/// A record that is appended waits behind every record appended before it,
/// however the batches are cut.
pub proof fn appending_keeps_the_order(
    state: StateView,
    queued: QueuedView,
    size: usize,
    batch_size: usize,
    max_request: usize,
    now: u64,
)
    ensures
        outstanding(state.appended(queued, size, batch_size, max_request, now)) == outstanding(
            state,
        ).push(queued),
{
    let room = if state.overflows(size, batch_size, max_request) {
        state.closed()
    } else {
        state
    };
    closing_keeps_the_order(state);
    let filled = room.with_record(queued, size, now);
    assert(outstanding(filled) =~= outstanding(room).push(queued));
    closing_keeps_the_order(filled);
}

/// What a partition sends is the oldest of what waits, and the rest waits on in
/// order: with one batch on the wire at a time, the log's order is the order of
/// the appends.
pub proof fn the_oldest_records_go_first(by: DispatchView, entry: EntryView)
    requires
        by.lets_go(entry),
    ensures
        by.sends(entry).records + outstanding(by.gone(entry).state) == outstanding(entry.state),
        by.gone(entry).state.in_flight,
        by.gone(entry).key == entry.key,
{
    lemma_records_of_first(entry.state.pending);
    assert(by.sends(entry).records + outstanding(by.gone(entry).state) =~= outstanding(
        entry.state,
    ));
}

/// A partition with a batch on the wire sends nothing until it is answered.
pub proof fn one_batch_per_partition_is_on_the_wire(by: DispatchView, entry: EntryView)
    requires
        entry.state.in_flight,
    ensures
        !by.lets_go(entry),
        by.gone(entry) == entry,
{
}

/// A partition an open transaction has not been told about sends nothing.
pub proof fn nothing_goes_unenrolled(by: DispatchView, entry: EntryView)
    requires
        by.transactional(),
        !by.transaction->Some_0.enrolled.contains(entry.key),
    ensures
        !by.lets_go(entry),
{
}

/// One partition's records leave every other partition alone.
pub proof fn partitions_do_not_touch_each_other(
    entries: Seq<EntryView>,
    key: PartitionKey,
    other: PartitionKey,
    state: StateView,
)
    requires
        key != other,
    ensures
        state_of(with_state(entries, key, state), key) == state,
        state_of(with_state(entries, key, state), other) == state_of(entries, other),
{
    let after = with_state(entries, key, state);
    lemma_entry_position(entries, key);
    lemma_entry_position(entries, other);
    lemma_entry_position(after, key);
    lemma_entry_position(after, other);
    match entry_position(entries, key) {
        Some(at) => {
            assert forall|k: int| 0 <= k < after.len() implies (#[trigger] after[k]).key
                == entries[k].key by {}
            assert(after[at].key == key);
            if let Some(there) = entry_position(entries, other) {
                assert(after[there].key == other);
            }
            if let Some(there) = entry_position(after, other) {
                assert(entries[there].key == other);
            }
        },
        None => {
            let last = entries.len() as int;
            assert(after[last].key == key);
            assert forall|k: int| 0 <= k < entries.len() implies #[trigger] after[k]
                == entries[k] by {}
            if let Some(there) = entry_position(entries, other) {
                assert(after[there].key == other);
            }
            if let Some(there) = entry_position(after, other) {
                assert(entries[there].key == other);
            }
        },
    }
}

/// What the records of a batch cost together.
pub open spec fn batch_cost(records: Seq<QueuedView>) -> nat
    decreases records.len(),
{
    if records.len() == 0 {
        0
    } else {
        batch_cost(records.drop_last()) + record_cost(records.last().record)
    }
}

/// Whether a batch holds something, is charged what its records cost, and, when
/// it holds more than one record, is within both bounds.
pub open spec fn batch_within(batch: BatchView, batch_size: usize, max_request: usize) -> bool {
    &&& batch.records.len() > 0
    &&& batch.bytes == held(batch_cost(batch.records))
    &&& batch.records.len() > 1 ==> batch.bytes <= batch_size && batch.bytes <= max_request
}

/// Whether every batch of a partition is within bounds, and the open one below
/// the size that would have closed it.
pub open spec fn state_within(state: StateView, batch_size: usize, max_request: usize) -> bool {
    &&& forall|i: int|
        0 <= i < state.pending.len() ==> batch_within(
            #[trigger] state.pending[i],
            batch_size,
            max_request,
        )
    &&& state.open matches Some(open) ==> batch_within(open, batch_size, max_request) && open.bytes
        < batch_size
}

/// Batches stay within bounds: only a record that is over a bound by itself
/// makes a batch that is.
pub proof fn batches_stay_within_bounds(
    state: StateView,
    queued: QueuedView,
    batch_size: usize,
    max_request: usize,
    now: u64,
)
    requires
        state_within(state, batch_size, max_request),
    ensures
        state_within(state.closed(), batch_size, max_request),
        state_within(
            state.appended(
                queued,
                held(record_cost(queued.record)),
                batch_size,
                max_request,
                now,
            ),
            batch_size,
            max_request,
        ),
{
    let size = held(record_cost(queued.record));
    let room = if state.overflows(size, batch_size, max_request) {
        state.closed()
    } else {
        state
    };
    assert(state_within(room, batch_size, max_request));
    let filled = room.with_record(queued, size, now);
    let grown = filled.open->Some_0;
    let held_before = match room.open {
        Some(open) => open.records,
        None => seq![],
    };
    assert(grown.records.drop_last() =~= held_before);
    assert(grown.records.last() == queued);
    assert(batch_cost(grown.records) == batch_cost(held_before) + record_cost(queued.record));
    assert(grown.bytes == held(batch_cost(grown.records)));
    assert(batch_within(grown, batch_size, max_request));
    let after = filled.closed();
    assert forall|i: int| 0 <= i < after.pending.len() implies batch_within(
        #[trigger] after.pending[i],
        batch_size,
        max_request,
    ) by {
        if i < filled.pending.len() {
            assert(after.pending[i] == filled.pending[i]);
        }
    }
}

/// A partition that is free and has work always gets to send, unless an open
/// transaction has yet to be told about it.
pub proof fn work_is_not_held_back(by: DispatchView, entry: EntryView)
    requires
        !entry.state.in_flight,
        entry.state.pending.len() > 0,
        !by.transactional() || by.transaction->Some_0.enrolled.contains(entry.key),
    ensures
        by.lets_go(entry),
{
}

/// Forgetting idle partitions forgets no record.
pub proof fn forgetting_loses_nothing(entries: Seq<EntryView>, key: PartitionKey)
    requires
        entries_distinct(entries),
    ensures
        outstanding(state_of(busy(entries), key)) == outstanding(state_of(entries, key)),
        state_of(busy(entries), key).in_flight == state_of(entries, key).in_flight,
    decreases entries.len(),
{
    lemma_entry_position(entries, key);
    lemma_entry_position(busy(entries), key);
    if entries.len() > 0 {
        let shorter = entries.drop_last();
        let last = entries.last();
        assert(entries_distinct(shorter)) by {
            assert forall|i: int, k: int| 0 <= i < k < shorter.len() implies (
            #[trigger] shorter[i]).key != (#[trigger] shorter[k]).key by {
                assert(entries[i].key != entries[k].key);
            }
        }
        forgetting_loses_nothing(shorter, key);
        lemma_entry_position(shorter, key);
        lemma_entry_position(busy(shorter), key);
        if last.key == key {
            assert(entry_position(shorter, key) is None) by {
                if let Some(there) = entry_position(shorter, key) {
                    assert(entries[there].key == entries[entries.len() - 1].key);
                }
            }
            lemma_busy_keys(shorter, key);
            assert(entry_position(busy(shorter), key) is None);
            if last.state.idle() {
                assert(outstanding(last.state) =~= outstanding(
                    crate::produce::accumulator::fresh(),
                ));
            } else {
                let kept = busy(entries);
                assert(kept.drop_last() =~= busy(shorter));
                assert(kept.last() == last);
            }
        } else if !last.state.idle() {
            let kept = busy(entries);
            assert(kept.drop_last() =~= busy(shorter));
            assert(kept.last() == last);
        }
    }
}

/// A partition without an entry has no busy one.
proof fn lemma_busy_keys(entries: Seq<EntryView>, key: PartitionKey)
    requires
        entry_position(entries, key) is None,
    ensures
        entry_position(busy(entries), key) is None,
    decreases entries.len(),
{
    if entries.len() > 0 {
        lemma_busy_keys(entries.drop_last(), key);
        if !entries.last().state.idle() {
            assert(busy(entries).drop_last() =~= busy(entries.drop_last()));
        }
    }
}

/// Work held back for want of a producer id always wakes the actor again, soon
/// enough to retry the claim; and an open batch wakes it no later than its
/// linger expires.
pub proof fn the_actor_never_sleeps_on_work(actor: ActorView, now: u64, at: int)
    ensures
        ({
            let deadline = nearer(
                first_expiry(actor.partitions, actor.config.linger),
                if actor.blocked() && actor.has_work() {
                    Some(later(now, IDENTITY_RETRY_MS))
                } else {
                    None
                },
            );
            &&& actor.blocked() && actor.has_work() ==> (deadline matches Some(wake) && wake
                <= later(now, IDENTITY_RETRY_MS))
            &&& 0 <= at < actor.partitions.len() ==> (
            actor.partitions[at].state.open matches Some(open) ==> (deadline matches Some(wake)
                && wake <= later(open.opened_at, actor.config.linger)))
        }),
{
    if 0 <= at < actor.partitions.len() {
        lemma_first_expiry(actor.partitions, actor.config.linger, at);
    }
}

/// The first expiry is no later than any.
proof fn lemma_first_expiry(entries: Seq<EntryView>, linger: u64, at: int)
    requires
        0 <= at < entries.len(),
    ensures
        entries[at].state.open matches Some(open) ==> (first_expiry(entries, linger) matches Some(
            first,
        ) && first <= later(open.opened_at, linger)),
    decreases entries.len(),
{
    if at < entries.len() - 1 {
        lemma_first_expiry(entries.drop_last(), linger, at);
    }
}

} // verus!
