//! What holds of every event that a forward scan hands out.

use vstd::prelude::*;

use crate::read::filter::{may_pass, occurs_at, occurs_in, RecordFilter};
use crate::read::log::{ascends, between, every, records_of};
use crate::read::record::{OutcomeView, RecordView};
use crate::read::scan::{timestamp_of, CursorView, EventView, ScanSpec};
use crate::read::scan_laws::{
    a_scan_leaves_nothing_out, absorbing_appends, actions_tell, after, all_taken,
    lemma_resumed_cursors, ran, read_to, taken_from, ScanAction,
};
use crate::read::scan_state::{
    earliest_head, lemma_earliest_head, started, waiting, wanted, ScanView, TurnView,
};

verus! {

/// Whether some bytes lie in others: something comes before them and something
/// after, either of which may be empty.
pub open spec fn lies_in(haystack: Seq<u8>, needle: Seq<u8>) -> bool {
    exists|before: Seq<u8>, after: Seq<u8>| haystack == #[trigger] (before + needle + after)
}

/// Whether a filter leaves the verdict to a predicate of the caller's own.
pub open spec fn own_predicate(filter: Option<RecordFilter>) -> bool {
    filter matches Some(filter) && filter is Custom
}

/// What a filter is documented to let through. Of a caller's own predicate nothing
/// is said.
pub open spec fn accepted_by(filter: Option<RecordFilter>, record: RecordView) -> bool {
    match filter {
        None => true,
        Some(filter) => {
            &&& filter matches RecordFilter::KeyContains(needle) ==> record.key matches Some(key)
                && lies_in(key, needle@)
            &&& filter matches RecordFilter::ValueContains(needle)
                ==> record.value matches Some(value) && lies_in(value, needle@)
            &&& filter matches RecordFilter::HasHeader(name) ==> exists|i: int|
                0 <= i < record.headers.len() && (#[trigger] record.headers[i]).0 == name@
            &&& filter is TombstonesOnly ==> record.value is None
        },
    }
}

/// Bytes that occur in others lie in them.
proof fn lemma_occurs(haystack: Seq<u8>, needle: Seq<u8>)
    ensures
        occurs_in(haystack, needle) == lies_in(haystack, needle),
{
    if occurs_in(haystack, needle) {
        let at = choose|at: int| occurs_at(haystack, needle, at);
        let before = haystack.take(at);
        let rest = haystack.skip(at + needle.len());
        let middle = haystack.subrange(at, at + needle.len());
        assert(haystack =~= before + middle + rest);
        assert(haystack == before + needle + rest);
    }
    if lies_in(haystack, needle) {
        let (before, rest) = choose|before: Seq<u8>, after: Seq<u8>|
            haystack == #[trigger] (before + needle + after);
        let at = before.len() as int;
        assert(haystack.subrange(at, at + needle.len()) =~= needle);
        assert(occurs_at(haystack, needle, at));
    }
}

/// A filter's verdict is the one it is documented to give, and without a filter
/// everything passes.
pub proof fn a_filter_means_what_it_says(
    filter: Option<RecordFilter>,
    record: RecordView,
    passes: bool,
)
    ensures
        !own_predicate(filter) ==> (may_pass(filter, record, passes) <==> passes == accepted_by(
            filter,
            record,
        )),
        own_predicate(filter) ==> may_pass(filter, record, passes),
{
    match filter {
        Some(RecordFilter::KeyContains(needle)) => {
            if let Some(key) = record.key {
                lemma_occurs(key, needle@);
            }
        },
        Some(RecordFilter::ValueContains(needle)) => {
            if let Some(value) = record.value {
                lemma_occurs(value, needle@);
            }
        },
        _ => {},
    }
}

/// The verdict that a scan takes of the record that comes out next is its filter's.
pub proof fn the_verdict_is_the_filters(state: ScanView, passes: bool, record: RecordView)
    requires
        state.up_next() == Some(OutcomeView::Decoded(record)),
        !own_predicate(state.spec.filter),
    ensures
        state.may_judge(passes) <==> passes == accepted_by(state.spec.filter, record),
{
    a_filter_means_what_it_says(state.spec.filter, record, passes);
}

/// Whether an outcome may come out before another: a batch that would not decode
/// before anything, and a record before those that are later.
pub open spec fn no_later(one: OutcomeView, other: OutcomeView) -> bool {
    match (one, other) {
        (OutcomeView::Malformed { .. }, _) => true,
        (OutcomeView::Decoded(one), OutcomeView::Decoded(other)) => one.timestamp
            <= other.timestamp,
        (OutcomeView::Decoded(one), OutcomeView::Malformed { .. }) => one.timestamp == i64::MIN,
    }
}

/// Of the heads that are as early as the earliest, the first partition's comes out.
proof fn lemma_first_of_the_earliest(cursors: Seq<CursorView>)
    ensures
        earliest_head(cursors) matches Some(at) ==> {
            &&& 0 <= at < cursors.len()
            &&& cursors[at].buffered.len() > 0
            &&& forall|i: int|
                0 <= i < at && (#[trigger] cursors[i]).buffered.len() > 0 ==> timestamp_of(
                    cursors[at].buffered[0],
                ) < timestamp_of(cursors[i].buffered[0])
        },
    decreases cursors.len(),
{
    if cursors.len() > 0 {
        let before = cursors.drop_last();
        lemma_first_of_the_earliest(before);
        lemma_earliest_head(before);
        if let Some(at) = earliest_head(cursors) {
            assert forall|i: int|
                0 <= i < at && (#[trigger] cursors[i]).buffered.len() > 0 implies timestamp_of(
                cursors[at].buffered[0],
            ) < timestamp_of(cursors[i].buffered[0]) by {
                assert(before[i] == cursors[i]);
            }
        }
    }
}

/// What comes out next is the head of a partition that has one, and no later than
/// any other's: of those that are as early, the first partition's. Nothing comes out
/// while a partition that has more to read is not represented, unless the buffer is
/// full.
pub proof fn the_next_is_the_earliest_head(state: ScanView, at: int)
    requires
        0 <= at < state.cursors.len(),
    ensures
        ({
            let someone_waits = exists|i: int|
                0 <= i < state.cursors.len() && (#[trigger] state.cursors[i]).buffered.len() == 0
                    && !state.cursors[i].finished && state.cursors[i].next_offset
                    < state.cursors[i].end_offset;
            let full = state.buffered_total >= state.spec.max_buffered_records;
            let head = state.cursors[at].buffered[0];
            let comes_first = {
                &&& state.cursors[at].buffered.len() > 0
                &&& forall|i: int|
                    0 <= i < state.cursors.len() && (
                    #[trigger] state.cursors[i]).buffered.len() > 0 ==> no_later(
                        head,
                        state.cursors[i].buffered[0],
                    )
                &&& forall|i: int|
                    0 <= i < at && (#[trigger] state.cursors[i]).buffered.len() > 0 ==> !no_later(
                        state.cursors[i].buffered[0],
                        head,
                    )
            };
            &&& someone_waits && !full ==> state.up_next() is None
            &&& (!someone_waits || full) && comes_first ==> {
                &&& state.up_next() == Some(head)
                &&& earliest_head(state.cursors) == Some(at)
            }
            &&& state.up_next() is Some && earliest_head(state.cursors) == Some(at) ==> {
                &&& comes_first
                &&& state.up_next() == Some(head)
            }
            &&& state.up_next() is Some ==> earliest_head(state.cursors) is Some
        }),
{
    lemma_earliest_head(state.cursors);
    lemma_first_of_the_earliest(state.cursors);
    let someone_waits = exists|i: int|
        0 <= i < state.cursors.len() && (#[trigger] state.cursors[i]).buffered.len() == 0
            && !state.cursors[i].finished && state.cursors[i].next_offset
            < state.cursors[i].end_offset;
    assert(someone_waits == waiting(state.cursors)) by {
        if someone_waits {
            let i = choose|i: int|
                0 <= i < state.cursors.len() && (#[trigger] state.cursors[i]).buffered.len() == 0
                    && !state.cursors[i].finished && state.cursors[i].next_offset
                    < state.cursors[i].end_offset;
            assert(!state.cursors[i].exhausted());
        }
        if waiting(state.cursors) {
            let i = choose|i: int|
                0 <= i < state.cursors.len() && !(#[trigger] state.cursors[i]).exhausted()
                    && state.cursors[i].buffered.len() == 0;
            assert(state.cursors[i].buffered.len() == 0);
        }
    }
    if let Some(first) = earliest_head(state.cursors) {
        assert(state.cursors[first].buffered.len() > 0);
        assert forall|a: OutcomeView, b: OutcomeView| #[trigger] no_later(a, b) == (timestamp_of(a)
            <= timestamp_of(b)) by {}
        if first != at {
            assert(!(state.cursors[at].buffered.len() > 0 && (forall|i: int|
                0 <= i < state.cursors.len() && (#[trigger] state.cursors[i]).buffered.len() > 0
                    ==> no_later(state.cursors[at].buffered[0], state.cursors[i].buffered[0])) && (
            forall|i: int|
                0 <= i < at && (#[trigger] state.cursors[i]).buffered.len() > 0 ==> !no_later(
                    state.cursors[i].buffered[0],
                    state.cursors[at].buffered[0],
                ))));
        }
    } else {
        assert(state.cursors[at].buffered.len() == 0);
    }
}

/// What an action hands out.
pub open spec fn given(state: ScanView, action: ScanAction) -> Option<EventView> {
    match action {
        ScanAction::Begin => match state.begun().1 {
            TurnView::Event(event) => Some(event),
            _ => None,
        },
        ScanAction::Absorb(_) => None,
        ScanAction::Resume(passes) => state.resumed(passes).1,
    }
}

/// Whether no record is among the events that are due: records come out of the
/// buffers.
pub open spec fn no_records_due(state: ScanView) -> bool {
    forall|i: int| 0 <= i < state.pending.len() ==> !((#[trigger] state.pending[i]) is Record)
}

/// What is due is never a record.
proof fn lemma_no_records_due(state: ScanView, action: ScanAction)
    requires
        no_records_due(state),
    ensures
        no_records_due(after(state, action)),
{
    match action {
        ScanAction::Absorb(fetched) => absorbing_appends(state, fetched),
        _ => {},
    }
}

/// A record that comes out of a buffer is handed out if it passes, as it is, and
/// counted as one more; if it does not pass, no record is handed out and none
/// counted. Either way one more was looked at, and the partition's buffer is shorter by
/// it.
pub proof fn a_record_that_passes_is_handed_out(
    state: ScanView,
    passes: bool,
    record: RecordView,
    at: int,
)
    requires
        no_records_due(state),
        state.up_next() == Some(OutcomeView::Decoded(record)),
        earliest_head(state.cursors) == Some(at),
    ensures
        ({
            let (end, event) = state.resumed(passes);
            &&& passes ==> event == Some(EventView::Record(record))
            &&& !passes ==> !(event matches Some(EventView::Record(_)))
            &&& passes && state.progress.records_emitted < u64::MAX ==> end.progress.records_emitted
                == state.progress.records_emitted + 1
            &&& !passes ==> end.progress.records_emitted == state.progress.records_emitted
            &&& state.progress.records_scanned < u64::MAX ==> end.progress.records_scanned
                == state.progress.records_scanned + 1
            &&& end.cursors.len() == state.cursors.len()
            &&& end.cursors[at].buffered == state.cursors[at].buffered.skip(1)
            &&& forall|i: int|
                0 <= i < state.cursors.len() && i != at ==> #[trigger] end.cursors[i]
                    == state.cursors[i]
        }),
{
    lemma_earliest_head(state.cursors);
}

/// A batch that would not decode is handed out as such, whatever the filter, with
/// where it is and what it held, and no record is counted.
pub proof fn damage_is_handed_out(
    state: ScanView,
    passes: bool,
    at: int,
    offset: i64,
    last_offset: Option<i64>,
    raw: Seq<u8>,
    reason: Seq<char>,
)
    requires
        state.up_next() == Some(OutcomeView::Malformed { offset, last_offset, raw, reason }),
        earliest_head(state.cursors) == Some(at),
    ensures
        ({
            let (end, event) = state.resumed(passes);
            &&& event == Some(
                EventView::Malformed {
                    topic: state.spec.topic@,
                    partition: state.cursors[at].partition,
                    offset,
                    last_offset,
                    raw,
                    reason,
                },
            )
            &&& end.progress.records_emitted == state.progress.records_emitted
            &&& end.progress.malformed_batches == state.progress.malformed_batches
            &&& end.cursors[at].buffered == state.cursors[at].buffered.skip(1)
        }),
{
    lemma_earliest_head(state.cursors);
}

/// What an action hands out of the buffer of the cursor at a place: the record it
/// hands out, if it made that buffer shorter.
pub open spec fn shown_from(state: ScanView, action: ScanAction, at: int) -> Seq<RecordView> {
    match given(state, action) {
        Some(EventView::Record(record)) => if after(state, action).cursors[at].buffered.len()
            < state.cursors[at].buffered.len() {
            seq![record]
        } else {
            seq![]
        },
        _ => seq![],
    }
}

/// The records that some actions hand out of a buffer, in order.
pub open spec fn all_shown(state: ScanView, actions: Seq<ScanAction>, at: int) -> Seq<RecordView>
    decreases actions.len(),
{
    if actions.len() == 0 {
        seq![]
    } else {
        all_shown(state, actions.drop_last(), at) + shown_from(
            ran(state, actions.drop_last()),
            actions.last(),
            at,
        )
    }
}

/// Whether every verdict that some actions bring is in order.
pub open spec fn verdicts_in_order(state: ScanView, actions: Seq<ScanAction>) -> bool
    decreases actions.len(),
{
    actions.len() > 0 ==> {
        &&& verdicts_in_order(state, actions.drop_last())
        &&& actions.last() matches ScanAction::Resume(passes) ==> ran(
            state,
            actions.drop_last(),
        ).may_judge(passes)
    }
}

/// The records that a filter lets through.
pub open spec fn accepts(filter: Option<RecordFilter>) -> spec_fn(RecordView) -> bool {
    |record: RecordView| accepted_by(filter, record)
}

/// Those of some records that a filter lets through, in order.
pub open spec fn let_through(records: Seq<RecordView>, filter: Option<RecordFilter>) -> Seq<
    RecordView,
>
    decreases records.len(),
{
    if records.len() == 0 {
        seq![]
    } else if accepted_by(filter, records.last()) {
        let_through(records.drop_last(), filter).push(records.last())
    } else {
        let_through(records.drop_last(), filter)
    }
}

/// What is let through of a part of a log.
proof fn lemma_let_through(
    log: Seq<RecordView>,
    from: int,
    to: int,
    filter: Option<RecordFilter>,
)
    ensures
        let_through(between(log, from, to, every()), filter) == between(
            log,
            from,
            to,
            accepts(filter),
        ),
    decreases log.len(),
{
    if log.len() > 0 {
        lemma_let_through(log.drop_last(), from, to, filter);
        let before = between(log.drop_last(), from, to, every());
        let last = log.last();
        if from <= last.offset < to {
            assert(before.push(last).drop_last() =~= before);
        }
    }
}

/// What one action shows of a partition is what it takes out of its buffer, where
/// the filter lets it through.
proof fn lemma_shown_from(state: ScanView, action: ScanAction, at: int)
    requires
        0 <= at < state.cursors.len(),
        no_records_due(state),
        !own_predicate(state.spec.filter),
        action matches ScanAction::Resume(passes) ==> state.may_judge(passes),
    ensures
        shown_from(state, action, at) == let_through(
            records_of(taken_from(state, action, at)),
            state.spec.filter,
        ),
        after(state, action).spec == state.spec,
        after(state, action).cursors.len() == state.cursors.len(),
{
    reveal_with_fuel(records_of, 2);
    reveal_with_fuel(let_through, 2);
    match action {
        ScanAction::Begin => {},
        ScanAction::Absorb(fetched) => absorbing_appends(state, fetched),
        ScanAction::Resume(passes) => {
            lemma_earliest_head(state.cursors);
            lemma_resumed_cursors(state, passes);
            if state.up_next() is Some {
                let first = earliest_head(state.cursors)->Some_0;
                let outcome = state.up_next()->Some_0;
                assert(seq![outcome].drop_last() =~= seq![]);
                assert(seq![outcome].last() == outcome);
                if let OutcomeView::Decoded(record) = outcome {
                    a_record_that_passes_is_handed_out(state, passes, record, first);
                    the_verdict_is_the_filters(state, passes, record);
                    assert(records_of(seq![outcome]) =~= seq![record]);
                    assert(seq![record].drop_last() =~= seq![]);
                    assert(let_through(seq![record], state.spec.filter) =~= if passes {
                        seq![record]
                    } else {
                        seq![]
                    });
                } else {
                    assert(records_of(seq![outcome]) =~= seq![]);
                }
            } else {
                assert(!(state.resumed(passes).1 matches Some(EventView::Record(_))));
            }
        },
    }
}

/// What is let through of records that were joined.
proof fn lemma_let_through_joined(
    a: Seq<RecordView>,
    b: Seq<RecordView>,
    filter: Option<RecordFilter>,
)
    ensures
        let_through(a + b, filter) == let_through(a, filter) + let_through(b, filter),
    decreases b.len(),
{
    if b.len() == 0 {
        assert(a + b =~= a);
        assert(let_through(a, filter) + let_through(b, filter) =~= let_through(a, filter));
    } else {
        lemma_let_through_joined(a, b.drop_last(), filter);
        assert((a + b).drop_last() =~= a + b.drop_last());
        if accepted_by(filter, b.last()) {
            assert(let_through(a, filter) + let_through(b, filter) =~= (let_through(a, filter)
                + let_through(b.drop_last(), filter)).push(b.last()));
        }
    }
}

/// The records of outcomes that were joined.
proof fn lemma_records_joined(a: Seq<OutcomeView>, b: Seq<OutcomeView>)
    ensures
        records_of(a + b) == records_of(a) + records_of(b),
{
    crate::read::log::lemma_records_of_joined(a, b);
}

/// Of what is taken out of a partition's buffer, the records that the filter lets
/// through are handed out, in order, each once, and no others.
pub proof fn what_is_taken_and_accepted_is_shown(
    state: ScanView,
    actions: Seq<ScanAction>,
    at: int,
)
    requires
        0 <= at < state.cursors.len(),
        no_records_due(state),
        !own_predicate(state.spec.filter),
        verdicts_in_order(state, actions),
    ensures
        all_shown(state, actions, at) == let_through(
            records_of(all_taken(state, actions, at)),
            state.spec.filter,
        ),
        no_records_due(ran(state, actions)),
        ran(state, actions).spec == state.spec,
        ran(state, actions).cursors.len() == state.cursors.len(),
    decreases actions.len(),
{
    if actions.len() > 0 {
        let earlier = actions.drop_last();
        let action = actions.last();
        let mid = ran(state, earlier);
        what_is_taken_and_accepted_is_shown(state, earlier, at);
        lemma_shown_from(mid, action, at);
        lemma_no_records_due(mid, action);
        let taken = all_taken(state, earlier, at);
        let more = taken_from(mid, action, at);
        lemma_records_joined(taken, more);
        lemma_let_through_joined(records_of(taken), records_of(more), state.spec.filter);
    }
}

/// A browse that is through with a partition has handed out exactly those of its
/// log's records, from where it started up to the end it was planned against, that
/// its filter accepts: each once, in order. The answers must tell what the log holds.
pub proof fn a_browse_shows_what_its_filter_accepts(
    log: Seq<RecordView>,
    state: ScanView,
    actions: Seq<ScanAction>,
    at: int,
)
    requires
        0 <= at < state.cursors.len(),
        state.cursors[at].buffered.len() == 0,
        state.cursors[at].finished ==> state.cursors[at].next_offset
            >= state.cursors[at].end_offset,
        ascends(log),
        actions_tell(log, state, actions, at),
        no_records_due(state),
        !own_predicate(state.spec.filter),
        verdicts_in_order(state, actions),
        !state.spec.follow,
        ran(state, actions).cursors[at].drained(),
    ensures
        all_shown(state, actions, at) == between(
            log,
            read_to(state.cursors[at], false),
            state.cursors[at].end_offset as int,
            accepts(state.spec.filter),
        ),
{
    a_scan_leaves_nothing_out(log, state, actions, at);
    what_is_taken_and_accepted_is_shown(state, actions, at);
    lemma_let_through(
        log,
        read_to(state.cursors[at], false),
        state.cursors[at].end_offset as int,
        state.spec.filter,
    );
}

/// As many records are counted as emitted as are handed out, out of whichever
/// partition.
pub proof fn every_record_that_is_handed_out_is_counted(state: ScanView, action: ScanAction)
    requires
        no_records_due(state),
        state.progress.records_emitted < u64::MAX,
    ensures
        given(state, action) matches Some(EventView::Record(record)) ==> {
            &&& after(state, action).progress.records_emitted == state.progress.records_emitted + 1
            &&& exists|at: int|
                #![trigger state.cursors[at]]
                0 <= at < state.cursors.len() && state.cursors[at].buffered.len() > 0
                    && state.cursors[at].buffered[0] == OutcomeView::Decoded(record)
        },
        !(given(state, action) matches Some(EventView::Record(_))) ==> after(
            state,
            action,
        ).progress.records_emitted == state.progress.records_emitted,
{
    match action {
        ScanAction::Begin => {},
        ScanAction::Absorb(fetched) => absorbing_appends(state, fetched),
        ScanAction::Resume(passes) => {
            lemma_earliest_head(state.cursors);
            if let Some(EventView::Record(record)) = given(state, action) {
                let at = earliest_head(state.cursors)->Some_0;
                assert(state.cursors[at].buffered[0] == OutcomeView::Decoded(record));
            }
        },
    }
}

/// Whether a cursor has nothing more to read or to hand out.
pub open spec fn through(cursor: CursorView) -> bool {
    (cursor.finished || cursor.next_offset >= cursor.end_offset) && cursor.buffered.len() == 0
}

/// A partition of a browse that its last outcome was taken from is announced as
/// complete, with the last offset that was read, before anything else that is due; a
/// tail announces nothing, nor does a partition that has more.
pub proof fn a_partition_is_announced_once_it_is_through(state: ScanView, at: int)
    requires
        0 <= at < state.cursors.len(),
        state.cursors[at].buffered.len() > 0,
        state.cursors[at].next_offset > i64::MIN,
    ensures
        ({
            let end = state.taken(at);
            let cursor = end.cursors[at];
            let event = EventView::PartitionComplete {
                partition: state.cursors[at].partition,
                last_offset: (state.cursors[at].next_offset - 1) as i64,
            };
            let scanned = if state.progress.records_scanned == u64::MAX {
                u64::MAX as int
            } else {
                state.progress.records_scanned + 1
            };
            let n = state.pending.len() as int;
            let announced = if !state.spec.follow && through(cursor) {
                state.pending.push(event)
            } else {
                state.pending
            };
            &&& end.progress.records_scanned == scanned
            &&& scanned < state.next_progress_at ==> {
                &&& end.pending == announced
                &&& end.next_progress_at == state.next_progress_at
            }
            &&& scanned >= state.next_progress_at ==> {
                &&& end.pending == announced.push(EventView::Progress(end.progress))
                &&& state.next_progress_at + 1000 <= u64::MAX ==> end.next_progress_at
                    == state.next_progress_at + 1000
            }
            &&& cursor == (CursorView {
                buffered: state.cursors[at].buffered.skip(1),
                ..state.cursors[at]
            })
            &&& end.buffered_total == state.buffered_total - 1 || state.buffered_total == 0
            &&& end.done == state.done
        }),
{
}

/// The first half of a turn hands out what is due, the oldest first; then nothing if
/// the scan is over; then the end, if as many records were emitted as were asked for;
/// and only then is anything fetched.
pub proof fn a_turn_begins_with_what_is_due(state: ScanView)
    ensures
        state.pending.len() > 0 ==> {
            &&& state.begun().1 == TurnView::Event(state.pending[0])
            &&& state.begun().0 == (ScanView { pending: state.pending.skip(1), ..state })
        },
        state.pending.len() == 0 && state.done ==> state.begun() == (state, TurnView::Over),
        state.pending.len() == 0 && !state.done && (state.spec.limit matches Some(limit)
            && state.progress.records_emitted >= limit) ==> {
            &&& state.begun().0.done
            &&& state.begun().1 matches TurnView::Event(EventView::Done(progress)) && {
                &&& progress.partitions_active == 0
                &&& progress.records_emitted == state.progress.records_emitted
                &&& progress.records_scanned == state.progress.records_scanned
                &&& progress.malformed_batches == state.progress.malformed_batches
                &&& progress.reorder_window == state.progress.reorder_window
                &&& progress == state.begun().0.progress
            }
        },
        state.pending.len() == 0 && !state.done && (state.spec.limit matches Some(limit)
            ==> state.progress.records_emitted < limit) ==> state.begun().1 is Fetch,
{
}

/// A scan ends on its own account just when nothing came out and every partition of
/// a browse is through.
pub proof fn a_scan_ends_when_it_is_through(state: ScanView, passes: bool)
    requires
        forall|i: int| 0 <= i < state.pending.len() ==> !((#[trigger] state.pending[i]) is Done),
    ensures
        ({
            let nothing_out = state.up_next() is None;
            let all_through = !state.spec.follow && forall|i: int|
                0 <= i < state.cursors.len() ==> through(#[trigger] state.cursors[i]);
            &&& nothing_out && all_through ==> state.resumed(passes).1 is Some
                && state.resumed(passes).1->Some_0 is Done && state.resumed(passes).0.done
            &&& nothing_out && !all_through ==> state.resumed(passes).1 is None
                && state.resumed(passes).0.done == state.done
            &&& state.spec.follow ==> !(state.resumed(passes).1 matches Some(EventView::Done(_)))
        }),
{
    lemma_earliest_head(state.cursors);
}

/// A scan starts with nothing read and nothing held, with where each of its
/// partitions starts to announce, in their order.
pub proof fn a_scan_starts_out_empty(spec: ScanSpec, cursors: Seq<CursorView>, i: int)
    requires
        0 <= i < cursors.len() <= usize::MAX,
    ensures
        ({
            let state = started(spec, cursors);
            &&& state.spec == spec
            &&& state.cursors.len() == cursors.len()
            &&& state.pending.len() == cursors.len()
            &&& state.pending[i] == (EventView::PartitionStarted {
                partition: cursors[i].partition,
                start_offset: cursors[i].start_offset,
                substituted: cursors[i].substituted,
            })
            &&& state.cursors[i].partition == cursors[i].partition
            &&& state.cursors[i].leader == cursors[i].leader
            &&& state.cursors[i].next_offset == cursors[i].next_offset
            &&& state.cursors[i].end_offset == cursors[i].end_offset
            &&& state.cursors[i].start_offset == cursors[i].start_offset
            &&& state.cursors[i].buffered == cursors[i].buffered
            &&& state.cursors[i].finished == cursors[i].finished
            &&& no_records_due(state)
            &&& state.buffered_total == 0
            &&& !state.done
            &&& state.next_progress_at == 1000
            &&& state.progress.records_emitted == 0
            &&& state.progress.records_scanned == 0
            &&& state.progress.malformed_batches == 0
            &&& state.progress.offsets_consumed == 0
            &&& state.progress.partitions_active == cursors.len()
            &&& state.progress.partitions_planned == cursors.len()
            &&& state.progress.reorder_window == 0
        }),
{
}

/// What a scan sets out to read is the sum of its partitions' ranges.
pub proof fn the_total_is_the_sum_of_the_ranges(
    spec: ScanSpec,
    cursors: Seq<CursorView>,
    cursor: CursorView,
)
    requires
        cursor.start_offset <= cursor.end_offset,
        0 <= cursor.start_offset,
        started(spec, cursors).progress.offsets_total + (cursor.end_offset - cursor.start_offset)
            < i64::MAX,
    ensures
        started(spec, seq![]).progress.offsets_total == 0,
        started(spec, cursors.push(cursor)).progress.offsets_total == started(
            spec,
            cursors,
        ).progress.offsets_total + (cursor.end_offset - cursor.start_offset),
{
    assert(cursors.push(cursor).drop_last() =~= cursors);
}

/// A scan keeps a record from where it stood, up to the end it was planned against,
/// and a batch that would not decode unless its header shows that it lies past that.
pub proof fn what_a_scan_keeps(from: i64, to: Option<i64>, outcome: OutcomeView)
    ensures
        outcome matches OutcomeView::Decoded(record) ==> {
            &&& record.offset < from ==> !wanted(from, to, outcome)
            &&& record.offset >= from && to is None ==> wanted(from, to, outcome)
            &&& to matches Some(to) ==> (wanted(from, Some(to), outcome) <==> from <= record.offset
                < to)
        },
        outcome matches OutcomeView::Malformed { offset, last_offset, .. } ==> {
            &&& to is None ==> wanted(from, to, outcome)
            &&& last_offset is None ==> wanted(from, to, outcome)
            &&& to matches Some(to) ==> (last_offset is Some ==> (wanted(from, Some(to), outcome)
                <==> offset < to))
        },
{
}

} // verus!
