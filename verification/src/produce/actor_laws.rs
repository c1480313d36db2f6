//! What holds of the producer's actor, step by step.

use vstd::prelude::*;

use crate::error::{code_for, ErrorKindView, ErrorView};
use crate::keyed::PartitionKey;
use crate::produce::accumulator::{
    busy, first_expiry, given_back, later, nearer, pending_failures, record_cost, record_limit,
    records_of, release_views, state_of, too_large, waiting, ActorView, BatchView, Command, DispatchView, EntryView, QueuedView,
    ResolutionView, StateView,
};
use crate::produce::accumulator_laws::partitions_do_not_touch_each_other;
use crate::produce::config::ProducerConfig;
use crate::produce::idempotence::{next_sequence, BatchIdentity};
use crate::produce::record::ProducerRecordView;
use crate::produce::run::{dispatched, going, RunView, Wake};
use crate::produce::transactions::{key_views, TransactionsView};
use crate::read::batch::held;
use crate::wire::HeaderView;

verus! {

/// What a record costs the buffer: 32 bytes of its own, the bytes of its key and its
/// value, and for each header 8 bytes and those of its name and its value.
pub proof fn what_a_record_costs(record: ProducerRecordView, header: HeaderView)
    ensures
        record.key is None && record.value is None && record.headers.len() == 0 ==> record_cost(
            record,
        ) == 32,
        record.key matches Some(key) ==> record_cost(record) == record_cost(
            ProducerRecordView { key: None, ..record },
        ) + key.len(),
        record.value matches Some(value) ==> record_cost(record) == record_cost(
            ProducerRecordView { value: None, ..record },
        ) + value.len(),
        ({
            let more = record_cost(
                ProducerRecordView { headers: record.headers.push(header), ..record },
            ) - record_cost(record);
            let name = vstd::utf8::encode_utf8(header.0).len();
            match header.1 {
                Some(value) => more == 8 + name + value.len(),
                None => more == 8 + name,
            }
        }),
{
    assert(record.headers.push(header).drop_last() =~= record.headers);
}

/// A record may be as large as a request, and as the buffer, and no larger; one that
/// is not let in is refused as the broker refuses it: code 10.
pub proof fn how_large_a_record_may_be(
    config: ProducerConfig,
    topic: Seq<char>,
    size: usize,
    limit: usize,
)
    ensures
        record_limit(config) <= config.max_request_size,
        record_limit(config) <= config.buffer_memory,
        record_limit(config) == config.max_request_size || record_limit(config)
            == config.buffer_memory,
        too_large(topic, size, limit).kind matches ErrorKindView::Broker { code, context }
            && code_for(10) == Some(code) && context is Some,
{
}

/// The nearer of two moments is one of them and comes no later than either; of one
/// moment it is that one.
pub proof fn the_nearer_moment(a: Option<u64>, b: Option<u64>)
    ensures
        nearer(a, b) is None <==> a is None && b is None,
        nearer(a, b) is Some ==> nearer(a, b) == a || nearer(a, b) == b,
        a matches Some(at) ==> (nearer(a, b) matches Some(first) && first <= at),
        b matches Some(at) ==> (nearer(a, b) matches Some(first) && first <= at),
{
}

/// A later moment is later by just so much, while the clock can say so.
pub proof fn a_later_moment(at: u64, by: u64)
    ensures
        at + by <= u64::MAX ==> later(at, by) == at + by,
        at + by > u64::MAX ==> later(at, by) == u64::MAX,
{
}

/// A record that is appended joins the open batch unless the two together are over a
/// bound; then that batch is closed as it is, and the record opens the next. A batch
/// that has reached the target size is closed at once.
pub proof fn where_an_appended_record_goes(
    state: StateView,
    queued: QueuedView,
    size: usize,
    batch_size: usize,
    max_request: usize,
    now: u64,
)
    requires
        state.open matches Some(open) ==> open.bytes + size <= usize::MAX,
    ensures
        ({
            let after = state.appended(queued, size, batch_size, max_request, now);
            let own = BatchView { records: seq![queued], bytes: size, opened_at: now };
            let joins = state.open matches Some(open) && (open.records.len() == 0 || (open.bytes
                + size <= batch_size && open.bytes + size <= max_request));
            let joined = BatchView {
                records: state.open->Some_0.records.push(queued),
                bytes: (state.open->Some_0.bytes + size) as usize,
                opened_at: state.open->Some_0.opened_at,
            };
            &&& after.in_flight == state.in_flight
            &&& joins && joined.bytes < batch_size ==> after.open == Some(joined) && after.pending
                == state.pending
            &&& joins && joined.bytes >= batch_size ==> after.open is None && after.pending
                == state.pending.push(joined)
            &&& state.open is None && size < batch_size ==> after.open == Some(own)
                && after.pending == state.pending
            &&& state.open is None && size >= batch_size ==> after.open is None && after.pending
                == state.pending.push(own)
            &&& state.open is Some && !joins && size < batch_size ==> after.open == Some(own)
                && after.pending == state.pending.push(state.open->Some_0)
            &&& state.open is Some && !joins && size >= batch_size ==> after.open is None
                && after.pending == state.pending.push(state.open->Some_0).push(own)
        }),
{
    assert(Seq::<QueuedView>::empty().push(queued) =~= seq![queued]);
}

/// A partition with its open batch closed: the batch waits behind those that were
/// closed before.
pub open spec fn shut(entry: EntryView) -> EntryView {
    EntryView {
        key: entry.key,
        state: StateView {
            open: None,
            pending: match entry.state.open {
                Some(open) => entry.state.pending.push(open),
                None => entry.state.pending,
            },
            in_flight: entry.state.in_flight,
        },
    }
}

/// A flush closes every open batch; a deadline closes those that were opened at least
/// the linger ago and no others.
pub proof fn which_batches_are_closed(actor: ActorView, now: u64, i: int)
    requires
        0 <= i < actor.partitions.len(),
    ensures
        ({
            let entry = actor.partitions[i];
            let due = entry.state.open matches Some(open) && open.opened_at + actor.config.linger
                <= now;
            let flushed = actor.all_closed();
            let lapsed = actor.expired_closed(now);
            &&& flushed.partitions.len() == actor.partitions.len()
            &&& flushed.partitions[i] == shut(entry)
            &&& lapsed.partitions.len() == actor.partitions.len()
            &&& now < u64::MAX ==> lapsed.partitions[i] == if due {
                shut(entry)
            } else {
                entry
            }
            &&& flushed.identity == actor.identity && flushed.sequences == actor.sequences
                && flushed.flush_waiters == actor.flush_waiters && flushed.config == actor.config
            &&& lapsed.identity == actor.identity && lapsed.sequences == actor.sequences
                && lapsed.flush_waiters == actor.flush_waiters && lapsed.config == actor.config
        }),
{
}

/// A finished send frees its partitions and no others. The numbers of batches that did
/// not land are given back, unless the identity is gone: then every number is.
pub proof fn what_a_finished_send_changes(
    actor: ActorView,
    keys: Set<PartitionKey>,
    released: Seq<(PartitionKey, i32)>,
    reset: bool,
    i: int,
)
    requires
        0 <= i < actor.partitions.len(),
    ensures
        ({
            let after = actor.settled(keys, released, reset);
            let before = actor.partitions[i];
            &&& after.partitions.len() == actor.partitions.len()
            &&& after.partitions[i].key == before.key
            &&& after.partitions[i].state.open == before.state.open
            &&& after.partitions[i].state.pending == before.state.pending
            &&& after.partitions[i].state.in_flight <==> before.state.in_flight && !keys.contains(
                before.key,
            )
            &&& reset ==> after.identity is None && after.sequences == Map::<
                PartitionKey,
                i32,
            >::empty()
            &&& !reset ==> after.identity == actor.identity && after.sequences == given_back(
                actor.sequences,
                released,
            )
            &&& after.config == actor.config && after.flush_waiters == actor.flush_waiters
        }),
{
}

/// A number that is given back is the partition's next again, and no other partition's
/// number moves.
pub proof fn a_number_that_is_given_back_is_next(
    next: Map<PartitionKey, i32>,
    released: Seq<(PartitionKey, i32)>,
    key: PartitionKey,
    base: i32,
    other: PartitionKey,
)
    ensures
        given_back(next, seq![]) == next,
        next_sequence(given_back(next, released.push((key, base))), key) == base,
        other != key ==> next_sequence(given_back(next, released.push((key, base))), other)
            == next_sequence(given_back(next, released), other),
{
    assert(released.push((key, base)).drop_last() =~= released);
}

/// What a dispatch makes of one more partition: if it has a closed batch, nothing on the
/// wire, and no open transaction that does not know of it, the oldest closed batch goes,
/// to the partition's leader, under the identity and with the partition's next number;
/// and under an identity the number moves on by one for each record. Otherwise nothing
/// happens to it.
pub proof fn what_a_dispatch_makes_of_a_partition(
    by: DispatchView,
    entries: Seq<EntryView>,
    entry: EntryView,
)
    requires
        entry.state.pending.len() > 0 ==> entry.state.pending[0].records.len() <= i32::MAX,
    ensures
        ({
            let open = by.transaction matches Some(transaction) && transaction.open;
            let goes = !entry.state.in_flight && entry.state.pending.len() > 0 && (open
                ==> by.transaction->Some_0.enrolled.contains(entry.key));
            let out = by.going(entries.push(entry));
            let before = by.going(entries);
            let first = if by.sequences.contains_key(entry.key) {
                by.sequences[entry.key]
            } else {
                0i32
            };
            let n = entry.state.pending[0].records.len();
            let after = by.spent(entries.push(entry));
            &&& by.going(seq![]).len() == 0
            &&& by.spent(seq![]) == by.sequences
            &&& !goes ==> {
                &&& out == before
                &&& after == by.spent(entries)
                &&& by.gone(entry) == entry
            }
            &&& goes ==> {
                &&& out.drop_last() == before
                &&& out.last().0 == if by.leaders.contains_key(entry.key) {
                    Some(by.leaders[entry.key])
                } else {
                    None
                }
                &&& out.last().1.key == entry.key
                &&& out.last().1.records == entry.state.pending[0].records
                &&& by.identity is None ==> out.last().1.identity is None && after == by.spent(
                    entries,
                )
                &&& by.identity matches Some(issued) ==> {
                    &&& out.last().1.identity == Some(
                        BatchIdentity {
                            producer_id: issued.producer_id,
                            producer_epoch: issued.producer_epoch,
                            base_sequence: first,
                            transactional: open,
                        },
                    )
                    &&& first + n <= i32::MAX ==> after == by.spent(entries).insert(
                        entry.key,
                        (first + n) as i32,
                    )
                    &&& first + n > i32::MAX ==> after == by.spent(entries).insert(
                        entry.key,
                        (first + n - 0x1_0000_0000) as i32,
                    )
                }
                &&& by.gone(entry) == (EntryView {
                    key: entry.key,
                    state: StateView {
                        open: entry.state.open,
                        pending: entry.state.pending.skip(1),
                        in_flight: true,
                    },
                })
            }
        }),
{
    assert(entries.push(entry).drop_last() =~= entries);
    let before = by.going(entries);
    assert(by.going(entries.push(entry)).drop_last() =~= before || by.going(entries.push(entry))
        == before);
}

/// Nothing goes while a producer that is to have an id has none; otherwise what a
/// dispatch lets go.
pub proof fn nothing_goes_without_an_id(
    actor: ActorView,
    transaction: Option<TransactionsView>,
    leaders: Map<PartitionKey, i32>,
)
    ensures
        ({
            let held_back = actor.config.idempotent && actor.identity is None;
            let by = DispatchView {
                identity: actor.identity,
                sequences: actor.sequences,
                transaction,
                leaders,
            };
            let after = dispatched(actor, transaction, leaders);
            &&& held_back ==> going(actor, transaction, leaders).len() == 0 && after == actor
            &&& !held_back ==> {
                &&& going(actor, transaction, leaders) == by.going(actor.partitions)
                &&& after.sequences == by.spent(actor.partitions)
                &&& after.partitions.len() == actor.partitions.len()
                &&& forall|i: int|
                    0 <= i < actor.partitions.len() ==> #[trigger] after.partitions[i] == by.gone(
                        actor.partitions[i],
                    )
            }
            &&& after.identity == actor.identity && after.config == actor.config
                && after.flush_waiters == actor.flush_waiters
        }),
{
}

/// The partitions that wait for the wire are those with a closed batch and none on the
/// wire, in order; the ones that are kept are those with anything at all.
pub proof fn which_partitions_wait(entries: Seq<EntryView>, entry: EntryView)
    ensures
        waiting(seq![]).len() == 0,
        waiting(entries.push(entry)) == if !entry.state.in_flight && entry.state.pending.len() > 0 {
            waiting(entries).push(entry.key)
        } else {
            waiting(entries)
        },
        busy(seq![]).len() == 0,
        busy(entries.push(entry)) == if entry.state.in_flight || entry.state.pending.len() > 0
            || entry.state.open is Some {
            busy(entries).push(entry)
        } else {
            busy(entries)
        },
{
    assert(entries.push(entry).drop_last() =~= entries);
}

/// The first expiry is that of some open batch: the moment it was opened, and the
/// linger after it; without an open batch there is none.
pub proof fn the_first_expiry_is_a_batches(entries: Seq<EntryView>, linger: u64)
    ensures
        first_expiry(entries, linger) matches Some(at) ==> exists|i: int|
            0 <= i < entries.len() && ((#[trigger] entries[i]).state.open matches Some(open) && (
            open.opened_at + linger == at || (open.opened_at + linger > u64::MAX && at
                == u64::MAX))),
        first_expiry(entries, linger) is None ==> forall|i: int|
            0 <= i < entries.len() ==> (#[trigger] entries[i]).state.open is None,
    decreases entries.len(),
{
    if entries.len() > 0 {
        let before = entries.drop_last();
        the_first_expiry_is_a_batches(before, linger);
        let last = entries.len() - 1;
        assert(entries[last] == entries.last());
        if let Some(at) = first_expiry(entries, linger) {
            if first_expiry(before, linger) == Some(at) {
                let i = choose|i: int|
                    0 <= i < before.len() && ((#[trigger] before[i]).state.open matches Some(open)
                        && (open.opened_at + linger == at || (open.opened_at + linger > u64::MAX
                        && at == u64::MAX)));
                assert(entries[i] == before[i]);
            }
        } else {
            assert forall|i: int| 0 <= i < entries.len() implies (
            #[trigger] entries[i]).state.open is None by {
                if i < last {
                    assert(before[i] == entries[i]);
                }
            }
        }
    }
}

/// The failure of some partitions' closed batches reaches every record in them, in
/// order, and no record of another partition.
pub proof fn whom_a_partitions_failure_reaches(
    entries: Seq<EntryView>,
    entry: EntryView,
    keys: Set<PartitionKey>,
    error: ErrorView,
)
    ensures
        pending_failures(seq![], keys, error).len() == 0,
        ({
            let out = pending_failures(entries.push(entry), keys, error);
            let before = pending_failures(entries, keys, error);
            let held = records_of(entry.state.pending);
            &&& !keys.contains(entry.key) ==> out == before
            &&& keys.contains(entry.key) ==> out == before + Seq::new(
                held.len(),
                |i: int| ResolutionView { ticket: held[i].ticket, outcome: Err(error) },
            )
        }),
{
    assert(entries.push(entry).drop_last() =~= entries);
    let held = records_of(entry.state.pending);
    let told = Seq::new(
        held.len(),
        |i: int| ResolutionView { ticket: held[i].ticket, outcome: Err(error) },
    );
    if keys.contains(entry.key) {
        assert(pending_failures(entries.push(entry), keys, error) =~= pending_failures(
            entries,
            keys,
            error,
        ) + told);
    }
}

/// A flush is answered just when nothing is outstanding any more: until then its caller
/// waits.
pub proof fn a_flush_waits_for_everything(
    run: RunView,
    transaction: Option<TransactionsView>,
    leaders: Map<PartitionKey, i32>,
)
    ensures
        ({
            let end = run.ended(transaction, leaders);
            let sent = dispatched(run.actor, transaction, leaders);
            let nothing = forall|i: int|
                0 <= i < sent.partitions.len() ==> {
                    let state = (#[trigger] sent.partitions[i]).state;
                    state.open is None && state.pending.len() == 0 && !state.in_flight
                };
            &&& nothing ==> end.actor.flush_waiters.len() == 0
            &&& !nothing ==> end.actor.flush_waiters == run.actor.flush_waiters
            &&& end.closing == run.closing
            &&& end.actor.sequences == sent.sequences
            &&& end.actor.identity == run.actor.identity
        }),
{
}

/// What wakes the loop: a record is appended to its own partition's batches; a flush
/// closes what is open, and its caller waits behind the others; the last caller's leaving
/// closes what is open for good; an answer settles its partitions; and a deadline closes
/// what has waited long enough.
pub proof fn what_wakes_the_loop(run: RunView, wake: Wake, now: u64)
    ensures
        ({
            let after = run.woken(wake, now);
            &&& after.closing <==> run.closing || wake is Gone
            &&& after.actor.config == run.actor.config
            &&& !(wake is Completed) ==> after.actor.identity == run.actor.identity
                && after.actor.sequences == run.actor.sequences
            &&& wake matches Wake::Command(Command::Flush { ticket }) ==> {
                &&& after.actor.flush_waiters == run.actor.flush_waiters.push(ticket)
                &&& after.actor.partitions == run.actor.all_closed().partitions
            }
            &&& !(wake matches Wake::Command(Command::Flush { .. })) ==> after.actor.flush_waiters
                == run.actor.flush_waiters
            &&& wake is Gone ==> after.actor.partitions == run.actor.all_closed().partitions
            &&& wake is Deadline ==> after.actor.partitions == run.actor.expired_closed(
                now,
            ).partitions
            &&& wake matches Wake::Command(Command::Append { topic, partition, queued })
                ==> state_of(after.actor.partitions, (topic@, partition)) == state_of(
                run.actor.partitions,
                (topic@, partition),
            ).appended(
                queued@,
                held(record_cost(queued@.record)),
                run.actor.config.batch_size,
                run.actor.config.max_request_size,
                now,
            )
            &&& wake matches Wake::Completed(completed) ==> after.actor == run.actor.settled(
                Set::new(
                    |key: PartitionKey|
                        exists|k: int|
                            0 <= k < completed.partitions@.len() && key == ((
                            #[trigger] completed.partitions@[k]).0@, completed.partitions@[k].1),
                ),
                Seq::new(
                    completed.released@.len(),
                    |k: int|
                        (
                            (completed.released@[k].0@, completed.released@[k].1),
                            completed.released@[k].2,
                        ),
                ),
                completed.reset_identity,
            )
        }),
{
    match wake {
        Wake::Command(Command::Append { topic, partition, queued }) => {
            let key = (topic@, partition);
            partitions_do_not_touch_each_other(
                run.actor.partitions,
                key,
                (topic@, if partition == 0 { 1i32 } else { 0i32 }),
                state_of(run.actor.partitions, key).appended(
                    queued@,
                    held(record_cost(queued@.record)),
                    run.actor.config.batch_size,
                    run.actor.config.max_request_size,
                    now,
                ),
            );
        },
        Wake::Completed(completed) => {
            let keys = key_views(completed.partitions@);
            let plain = Set::new(
                |key: PartitionKey|
                    exists|k: int|
                        0 <= k < completed.partitions@.len() && key == ((
                        #[trigger] completed.partitions@[k]).0@, completed.partitions@[k].1),
            );
            assert forall|key: PartitionKey| keys.to_set().contains(key) == plain.contains(key) by {
                if keys.contains(key) {
                    let k = choose|k: int| 0 <= k < keys.len() && keys[k] == key;
                    assert(key == (completed.partitions@[k].0@, completed.partitions@[k].1));
                }
                if plain.contains(key) {
                    let k = choose|k: int|
                        0 <= k < completed.partitions@.len() && key == ((
                        #[trigger] completed.partitions@[k]).0@, completed.partitions@[k].1);
                    assert(keys[k] == key);
                }
            }
            assert(keys.to_set() =~= plain);
            assert(release_views(completed.released@) =~= Seq::new(
                completed.released@.len(),
                |k: int|
                    (
                        (completed.released@[k].0@, completed.released@[k].1),
                        completed.released@[k].2,
                    ),
            ));
        },
        _ => {},
    }
}

} // verus!
