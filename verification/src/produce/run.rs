//! The loop that drives an [`Actor`]: what wakes it, what a turn sends, and
//! when it is over.
//!
//! A turn has three parts. Something wakes the loop; what the actor needs of
//! the outside, a producer id or an enrolment, is got; and what may go goes.

use vstd::prelude::*;
use vstd::string::*;

use crate::keyed::{grouped, PartitionKey, PartitionMap};
use crate::produce::accumulator::{
    busy, entries_distinct, entry_position, lemma_entry_position, outstanding,
    ready_groups, release_views, state_of, Actor, ActorView, Command, Completed, DispatchView,
    EntryView, QueuedView, Ready, ReadyView,
};
use crate::produce::accumulator_laws::{forgetting_loses_nothing, the_oldest_records_go_first};
use crate::produce::config::ProducerConfig;
use crate::produce::transactions::{key_views, Transactions, TransactionsView};

verus! {

/// What wakes the loop.
#[derive(Debug)]
pub enum Wake {
    /// A caller asks for something.
    Command(Command),
    /// Every caller is gone.
    Gone,
    /// A send finished.
    Completed(Completed),
    /// The deadline passed.
    Deadline,
}

/// The loop.
pub struct Run {
    /// What it drives.
    pub actor: Actor,
    /// Whether every caller is gone.
    pub closing: bool,
}

/// A [`Run`], as plain values.
pub struct RunView {
    pub actor: ActorView,
    pub closing: bool,
}

impl View for Run {
    type V = RunView;

    open spec fn view(&self) -> RunView {
        RunView { actor: self.actor@, closing: self.closing }
    }
}

/// What a turn came to.
#[derive(Debug)]
pub struct TurnEnd {
    /// What goes, by leader.
    pub groups: Vec<(Option<i32>, Vec<Ready>)>,
    /// The callers whose flush is done.
    pub flushed: Vec<u64>,
    /// Whether the loop is over.
    pub over: bool,
}

/// A transaction, as plain values.
pub open spec fn transaction_of(transactions: Option<&Transactions>) -> Option<TransactionsView> {
    match transactions {
        Some(transactions) => Some(transactions@),
        None => None,
    }
}

/// The batches that go in a turn, with their leaders.
pub open spec fn going(
    actor: ActorView,
    transaction: Option<TransactionsView>,
    leaders: Map<PartitionKey, i32>,
) -> Seq<(Option<i32>, ReadyView)> {
    if actor.blocked() {
        seq![]
    } else {
        actor.dispatch(transaction, leaders).going(actor.partitions)
    }
}

/// The actor once they have gone.
pub open spec fn dispatched(
    actor: ActorView,
    transaction: Option<TransactionsView>,
    leaders: Map<PartitionKey, i32>,
) -> ActorView {
    let by = actor.dispatch(transaction, leaders);
    if actor.blocked() {
        actor
    } else {
        ActorView {
            partitions: actor.partitions.map_values(|entry: EntryView| by.gone(entry)),
            sequences: by.spent(actor.partitions),
            ..actor
        }
    }
}

impl RunView {
    /// The loop once something woke it. Without callers there is nothing left
    /// to wait for, so that what is open is closed: the records were accepted,
    /// and are attempted.
    pub open spec fn woken(self, wake: Wake, now: u64) -> RunView {
        match wake {
            Wake::Command(Command::Append { topic, partition, queued }) => RunView {
                actor: self.actor.appended((topic@, partition), queued@, now),
                ..self
            },
            Wake::Command(Command::Flush { ticket }) => RunView {
                actor: ActorView {
                    flush_waiters: self.actor.flush_waiters.push(ticket),
                    ..self.actor.all_closed()
                },
                ..self
            },
            Wake::Gone => RunView { actor: self.actor.all_closed(), closing: true },
            Wake::Completed(completed) => RunView {
                actor: self.actor.settled(
                    key_views(completed.partitions@).to_set(),
                    release_views(completed.released@),
                    completed.reset_identity,
                ),
                ..self
            },
            Wake::Deadline => RunView { actor: self.actor.expired_closed(now), ..self },
        }
    }

    /// The loop at the end of a turn.
    pub open spec fn ended(
        self,
        transaction: Option<TransactionsView>,
        leaders: Map<PartitionKey, i32>,
    ) -> RunView {
        let after = dispatched(self.actor, transaction, leaders);
        RunView {
            actor: ActorView {
                partitions: busy(after.partitions),
                flush_waiters: if after.idle() {
                    seq![]
                } else {
                    after.flush_waiters
                },
                ..after
            },
            ..self
        }
    }
}

/// What is busy is idle just when there is nothing busy.
proof fn lemma_busy_idle(entries: Seq<EntryView>)
    ensures
        forall|i: int| 0 <= i < busy(entries).len() ==> !(#[trigger] busy(entries)[i]).state.idle(),
        busy(entries).len() == 0 <==> forall|i: int|
            0 <= i < entries.len() ==> (#[trigger] entries[i]).state.idle(),
    decreases entries.len(),
{
    if entries.len() > 0 {
        let shorter = entries.drop_last();
        let last = entries.len() - 1;
        lemma_busy_idle(shorter);
        assert(entries[last] == entries.last());
        if !entries.last().state.idle() {
            assert(busy(entries).drop_last() =~= busy(shorter));
            assert forall|i: int| 0 <= i < busy(entries).len() implies !(#[trigger] busy(
                entries,
            )[i]).state.idle() by {
                if i < busy(shorter).len() {
                    assert(busy(entries)[i] == busy(shorter)[i]);
                }
            }
        } else if busy(entries).len() == 0 {
            assert forall|i: int| 0 <= i < entries.len() implies (#[trigger] entries[i]).state.idle() by {
                if i < last {
                    assert(shorter[i] == entries[i]);
                }
            }
        } else {
            let i = choose|i: int|
                0 <= i < shorter.len() && !(#[trigger] shorter[i]).state.idle();
            assert(entries[i] == shorter[i]);
        }
    }
}

impl Run {
    /// Nothing buffered, and callers expected.
    pub fn new(config: ProducerConfig) -> (run: Self)
        ensures
            run.actor.wf(),
            run@.actor == (ActorView {
                config,
                partitions: seq![],
                flush_waiters: seq![],
                identity: None,
                sequences: Map::empty(),
            }),
            !run.closing,
    {
        Run { actor: Actor::new(config), closing: false }
    }

    /// Whether callers are still listened to.
    pub fn listens(&self) -> (listens: bool)
        ensures
            listens == !self@.closing,
    {
        !self.closing
    }

    /// Takes in what woke the loop.
    pub fn wake(&mut self, wake: Wake, now: u64)
        requires
            old(self).actor.wf(),
        ensures
            final(self).actor.wf(),
            final(self)@ == old(self)@.woken(wake, now),
    {
        match wake {
            Wake::Command(command) => {
                self.actor.handle(command, now);
            },
            Wake::Gone => {
                self.closing = true;
                self.actor.close_all();
            },
            Wake::Completed(completed) => {
                self.actor.settle(completed);
            },
            Wake::Deadline => {
                self.actor.close_expired(now);
            },
        }
    }

    /// Ends a turn: what may go goes, flushes that are done are answered, and
    /// idle partitions are forgotten. The loop is over once nobody calls and
    /// nothing is outstanding.
    pub fn run(&mut self, transactions: Option<&Transactions>, leaders: &PartitionMap<i32>) -> (end:
        TurnEnd)
        requires
            old(self).actor.wf(),
            leaders.wf(),
            transactions matches Some(transactions) ==> transactions.wf(),
        ensures
            final(self).actor.wf(),
            final(self)@ == old(self)@.ended(transaction_of(transactions), leaders.map()),
            ready_groups(end.groups@) == grouped(
                going(old(self)@.actor, transaction_of(transactions), leaders.map()),
            ),
            end.flushed@ == if dispatched(
                old(self)@.actor,
                transaction_of(transactions),
                leaders.map(),
            ).idle() {
                old(self)@.actor.flush_waiters
            } else {
                seq![]
            },
            end.over == (old(self)@.closing && dispatched(
                old(self)@.actor,
                transaction_of(transactions),
                leaders.map(),
            ).idle()),
    {
        let ghost before = self@.actor;
        let groups = self.actor.dispatch_ready(transactions, leaders);
        let ghost after = self@.actor;
        proof {
            assert(after == dispatched(before, transaction_of(transactions), leaders.map()));
            if before.blocked() {
                assert(ready_groups(groups@) =~= grouped(
                    Seq::<(Option<i32>, ReadyView)>::empty(),
                ));
            }
        }
        let flushed = self.actor.settle_flushes();
        assert(!after.idle() ==> flushed@ =~= seq![]);
        self.actor.forget_idle();
        proof {
            lemma_busy_idle(after.partitions);
            let kept = self@.actor.partitions;
            assert(kept == busy(after.partitions));
            if self@.actor.idle() && kept.len() > 0 {
                assert(kept[0].state.idle());
            }
        }
        let over = self.closing && self.actor.is_idle();
        TurnEnd { groups, flushed, over }
    }
}

/// The records that go to a partition.
pub open spec fn sent_to(going: Seq<(Option<i32>, ReadyView)>, key: PartitionKey) -> Seq<QueuedView>
    decreases going.len(),
{
    if going.len() == 0 {
        seq![]
    } else {
        let before = sent_to(going.drop_last(), key);
        if going.last().1.key == key {
            before + going.last().1.records
        } else {
            before
        }
    }
}

/// What a dispatch sends to a partition is what its first entry lets go.
proof fn lemma_sent_to(by: DispatchView, entries: Seq<EntryView>, key: PartitionKey)
    requires
        entries_distinct(entries),
    ensures
        sent_to(by.going(entries), key) == match entry_position(entries, key) {
            Some(at) => if by.lets_go(entries[at]) {
                by.sends(entries[at]).records
            } else {
                seq![]
            },
            None => seq![],
        },
    decreases entries.len(),
{
    lemma_entry_position(entries, key);
    if entries.len() > 0 {
        let shorter = entries.drop_last();
        let last = entries.last();
        assert(entries_distinct(shorter)) by {
            assert forall|i: int, k: int| 0 <= i < k < shorter.len() implies (
            #[trigger] shorter[i]).key != (#[trigger] shorter[k]).key by {
                assert(entries[i].key != entries[k].key);
            }
        }
        lemma_sent_to(by, shorter, key);
        lemma_entry_position(shorter, key);
        if by.lets_go(last) {
            assert(by.going(entries).drop_last() =~= by.going(shorter));
            assert(by.going(entries).last().1 == by.sends(last));
        }
        if last.key == key {
            assert(entry_position(shorter, key) is None) by {
                if let Some(there) = entry_position(shorter, key) {
                    assert(entries[there].key == entries[entries.len() - 1].key);
                }
            }
            assert(sent_to(by.going(entries), key) =~= if by.lets_go(last) {
                by.sends(last).records
            } else {
                seq![]
            });
        }
    }
}

/// Keys stay where they are while states change.
proof fn lemma_position_mapped(entries: Seq<EntryView>, by: DispatchView, key: PartitionKey)
    ensures
        entry_position(entries.map_values(|entry: EntryView| by.gone(entry)), key)
            == entry_position(entries, key),
    decreases entries.len(),
{
    if entries.len() > 0 {
        let mapped = entries.map_values(|entry: EntryView| by.gone(entry));
        assert(mapped.drop_last() =~= entries.drop_last().map_values(
            |entry: EntryView| by.gone(entry),
        ));
        lemma_position_mapped(entries.drop_last(), by, key);
    }
}

/// A turn neither loses, repeats nor reorders a record: what a partition sends,
/// followed by what it still holds, is what it held before.
pub proof fn a_turn_keeps_every_record_in_order(
    run: RunView,
    transaction: Option<TransactionsView>,
    leaders: Map<PartitionKey, i32>,
    key: PartitionKey,
)
    requires
        entries_distinct(run.actor.partitions),
    ensures
        sent_to(going(run.actor, transaction, leaders), key) + outstanding(
            state_of(run.ended(transaction, leaders).actor.partitions, key),
        ) == outstanding(state_of(run.actor.partitions, key)),
{
    let entries = run.actor.partitions;
    let by = run.actor.dispatch(transaction, leaders);
    let after = dispatched(run.actor, transaction, leaders).partitions;
    assert(entries_distinct(after)) by {
        assert forall|i: int, k: int| 0 <= i < k < after.len() implies (#[trigger] after[i]).key
            != (#[trigger] after[k]).key by {
            assert(entries[i].key != entries[k].key);
        }
    }
    forgetting_loses_nothing(after, key);
    let sent = sent_to(going(run.actor, transaction, leaders), key);
    let kept = outstanding(state_of(after, key));
    let held = outstanding(state_of(entries, key));
    if !run.actor.blocked() {
        lemma_sent_to(by, entries, key);
        lemma_position_mapped(entries, by, key);
        lemma_entry_position(entries, key);
        if let Some(at) = entry_position(entries, key) {
            assert(after[at] == by.gone(entries[at]));
            if by.lets_go(entries[at]) {
                the_oldest_records_go_first(by, entries[at]);
            }
        }
    }
    assert(sent + kept =~= held);
}

/// The loop ends only when nobody calls any more and nothing is outstanding:
/// every accepted record was attempted and every answer came back.
pub proof fn the_loop_ends_only_when_everything_is_answered(
    run: RunView,
    transaction: Option<TransactionsView>,
    leaders: Map<PartitionKey, i32>,
    key: PartitionKey,
)
    requires
        run.closing,
        dispatched(run.actor, transaction, leaders).idle(),
    ensures
        outstanding(state_of(run.ended(transaction, leaders).actor.partitions, key)).len() == 0,
        !state_of(run.ended(transaction, leaders).actor.partitions, key).in_flight,
        run.ended(transaction, leaders).actor.flush_waiters.len() == 0,
{
    let after = dispatched(run.actor, transaction, leaders).partitions;
    lemma_busy_idle(after);
    assert(busy(after).len() == 0);
    assert(outstanding(crate::produce::accumulator::fresh()) =~= seq![]);
}

/// Once nobody calls any more, no batch is left open: there is nothing to wait
/// out, and the next turn can send.
pub proof fn closing_leaves_nothing_open(run: RunView, now: u64, at: int)
    requires
        0 <= at < run.actor.partitions.len(),
    ensures
        run.woken(Wake::Gone, now).closing,
        run.woken(Wake::Gone, now).actor.partitions[at].state.open is None,
        run.woken(Wake::Gone, now).actor.partitions[at].key == run.actor.partitions[at].key,
        outstanding(run.woken(Wake::Gone, now).actor.partitions[at].state) == outstanding(
            run.actor.partitions[at].state,
        ),
{
    crate::produce::accumulator_laws::closing_keeps_the_order(run.actor.partitions[at].state);
}

} // verus!
