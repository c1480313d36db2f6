//! A partition's log as a reader sees it, and what an answer tells of it.

use vstd::prelude::*;

use crate::read::batch::DecodedView;
use crate::read::record::{OutcomeView, RecordView};

verus! {

/// The records among some outcomes, in order.
pub open spec fn records_of(outcomes: Seq<OutcomeView>) -> Seq<RecordView>
    decreases outcomes.len(),
{
    if outcomes.len() == 0 {
        seq![]
    } else {
        let before = records_of(outcomes.drop_last());
        match outcomes.last() {
            OutcomeView::Decoded(record) => before.push(record),
            OutcomeView::Malformed { .. } => before,
        }
    }
}

/// Whether the offsets of some records strictly ascend, so that none comes
/// twice.
pub open spec fn ascends(records: Seq<RecordView>) -> bool {
    forall|i: int, j: int|
        0 <= i < j < records.len() ==> (#[trigger] records[i]).offset < (
        #[trigger] records[j]).offset
}

/// Whether some records all lie below an offset.
pub open spec fn all_below(records: Seq<RecordView>, bound: int) -> bool {
    forall|k: int| 0 <= k < records.len() ==> (#[trigger] records[k]).offset < bound
}

/// Whether some records all lie at an offset or past it.
pub open spec fn all_from(records: Seq<RecordView>, from: int) -> bool {
    forall|k: int| 0 <= k < records.len() ==> from <= (#[trigger] records[k]).offset
}

/// Whether each of some outcomes ends past the one before it, as in a log.
pub open spec fn in_order(outcomes: Seq<OutcomeView>) -> bool {
    forall|i: int, j: int|
        0 <= i < j < outcomes.len() ==> (#[trigger] outcomes[i]).last_offset() < (
        #[trigger] outcomes[j]).last_offset()
}

/// Whether some outcomes all end at an offset or before it.
pub open spec fn all_end_by(outcomes: Seq<OutcomeView>, last: int) -> bool {
    forall|k: int| 0 <= k < outcomes.len() ==> (#[trigger] outcomes[k]).last_offset() <= last
}

/// Whether some outcomes all end at an offset or past it.
pub open spec fn all_end_from(outcomes: Seq<OutcomeView>, from: int) -> bool {
    forall|k: int| 0 <= k < outcomes.len() ==> from <= (#[trigger] outcomes[k]).last_offset()
}

/// The records from one offset up to another that are accepted, in order.
pub open spec fn between(
    records: Seq<RecordView>,
    from: int,
    to: int,
    accepts: spec_fn(RecordView) -> bool,
) -> Seq<RecordView>
    decreases records.len(),
{
    if records.len() == 0 {
        seq![]
    } else {
        let before = between(records.drop_last(), from, to, accepts);
        let last = records.last();
        if from <= last.offset < to && accepts(last) {
            before.push(last)
        } else {
            before
        }
    }
}

/// The acceptance of every record.
pub open spec fn every() -> spec_fn(RecordView) -> bool {
    |record: RecordView| true
}

/// Whether an answer to a fetch from `offset` tells what a log holds: whole
/// batches, from the one that holds the offset on, with every record that the
/// log holds from there up to the last of them; or no whole batch, where the log
/// holds nothing more. The log is what can be read of it: the records that are
/// visible and whose batches decode.
pub open spec fn tells(log: Seq<RecordView>, offset: i64, answer: DecodedView) -> bool {
    let records = records_of(answer.outcomes);
    match answer.last_offset {
        Some(last) => {
            &&& offset <= last
            &&& in_order(answer.outcomes)
            &&& all_end_by(answer.outcomes, last as int)
            &&& between(records, offset as int, last + 1, every()) == between(
                log,
                offset as int,
                last + 1,
                every(),
            )
        },
        None => between(log, offset as int, i64::MAX + 1, every()).len() == 0,
    }
}

/// The records of outcomes that follow others follow theirs.
pub proof fn lemma_records_of_joined(a: Seq<OutcomeView>, b: Seq<OutcomeView>)
    ensures
        records_of(a + b) == records_of(a) + records_of(b),
    decreases b.len(),
{
    if b.len() == 0 {
        assert(a + b =~= a);
    } else {
        lemma_records_of_joined(a, b.drop_last());
        assert((a + b).drop_last() =~= a + b.drop_last());
        assert((a + b).last() == b.last());
        assert(records_of(a + b) =~= records_of(a) + records_of(b));
    }
}

/// The records of outcomes that are in order ascend, and lie where those end.
pub proof fn lemma_records_in_order(outcomes: Seq<OutcomeView>, last: int)
    requires
        in_order(outcomes),
        all_end_by(outcomes, last),
    ensures
        ascends(records_of(outcomes)),
        all_below(records_of(outcomes), last + 1),
    decreases outcomes.len(),
{
    if outcomes.len() > 0 {
        let shorter = outcomes.drop_last();
        let end = outcomes.last();
        assert(outcomes[outcomes.len() - 1] == end);
        assert forall|k: int| 0 <= k < shorter.len() implies (#[trigger] shorter[k]).last_offset()
            <= end.last_offset() - 1 by {
            assert(shorter[k] == outcomes[k]);
        }
        assert(in_order(shorter));
        lemma_records_in_order(shorter, end.last_offset() - 1);
    }
}

/// The records of outcomes that end at an offset or past it lie there too.
pub proof fn lemma_records_from(outcomes: Seq<OutcomeView>, from: int)
    requires
        all_end_from(outcomes, from),
    ensures
        all_from(records_of(outcomes), from),
    decreases outcomes.len(),
{
    if outcomes.len() > 0 {
        let shorter = outcomes.drop_last();
        assert forall|k: int| 0 <= k < shorter.len() implies from <= (
        #[trigger] shorter[k]).last_offset() by {
            assert(shorter[k] == outcomes[k]);
        }
        assert(outcomes.last() == outcomes[outcomes.len() - 1]);
        lemma_records_from(shorter, from);
    }
}

/// Records that were found between two offsets and lie below a third, followed
/// by others from there on, are what lies up to that one.
pub proof fn lemma_between_split(
    records: Seq<RecordView>,
    from: int,
    mid: int,
    to: int,
    accepts: spec_fn(RecordView) -> bool,
    older: Seq<RecordView>,
    newer: Seq<RecordView>,
)
    requires
        ascends(records),
        from <= mid <= to,
        older + newer == between(records, from, to, accepts),
        all_below(older, mid),
        all_from(newer, mid),
    ensures
        older == between(records, from, mid, accepts),
{
    let found = between(records, from, to, accepts);
    let before = between(records, from, mid, accepts);
    let after = between(records, mid, to, accepts);
    lemma_between_joined(records, from, mid, to, accepts);
    lemma_bounded(records);
    lemma_between(records, from, mid, accepts, i64::MAX + 1);
    lemma_between(records, mid, to, accepts, i64::MAX + 1);
    if older.len() < before.len() {
        assert(found[older.len() as int] == newer[0]);
        assert(found[older.len() as int] == before[older.len() as int]);
    }
    if older.len() > before.len() {
        assert(found[before.len() as int] == older[before.len() as int]);
        assert(found[before.len() as int] == after[0]);
    }
    assert(older =~= found.take(older.len() as int));
    assert(before =~= found.take(before.len() as int));
}

/// What lies between two offsets ascends where the whole does, lies between
/// them, and is accepted.
pub proof fn lemma_between(
    records: Seq<RecordView>,
    from: int,
    to: int,
    accepts: spec_fn(RecordView) -> bool,
    bound: int,
)
    requires
        ascends(records),
        all_below(records, bound),
    ensures
        ascends(between(records, from, to, accepts)),
        all_below(between(records, from, to, accepts), bound),
        forall|k: int|
            0 <= k < between(records, from, to, accepts).len() ==> from <= (#[trigger] between(
                records,
                from,
                to,
                accepts,
            )[k]).offset < to && accepts(between(records, from, to, accepts)[k]),
    decreases records.len(),
{
    if records.len() > 0 {
        let shorter = records.drop_last();
        let last = records.last();
        assert(records[records.len() - 1] == last);
        assert forall|k: int| 0 <= k < shorter.len() implies (#[trigger] shorter[k]).offset
            < last.offset by {
            assert(shorter[k] == records[k]);
        }
        assert(ascends(shorter));
        lemma_between(shorter, from, to, accepts, last.offset as int);
    }
}

/// Every accepted record between two offsets is found there.
pub proof fn lemma_between_is_complete(
    records: Seq<RecordView>,
    from: int,
    to: int,
    accepts: spec_fn(RecordView) -> bool,
    at: int,
)
    requires
        0 <= at < records.len(),
        from <= records[at].offset < to,
        accepts(records[at]),
    ensures
        between(records, from, to, accepts).contains(records[at]),
    decreases records.len(),
{
    let found = between(records, from, to, accepts);
    let before = between(records.drop_last(), from, to, accepts);
    if at == records.len() - 1 {
        assert(found.last() == records[at]);
        assert(found[found.len() - 1] == records[at]);
    } else {
        lemma_between_is_complete(records.drop_last(), from, to, accepts, at);
        let k = choose|k: int| 0 <= k < before.len() && before[k] == records[at];
        assert(found[k] == records[at]);
    }
}

/// Nothing that lies below an offset is found from there on.
proof fn lemma_nothing_above(
    records: Seq<RecordView>,
    from: int,
    to: int,
    accepts: spec_fn(RecordView) -> bool,
)
    requires
        all_below(records, from),
    ensures
        between(records, from, to, accepts) == Seq::<RecordView>::empty(),
    decreases records.len(),
{
    if records.len() > 0 {
        let shorter = records.drop_last();
        assert forall|k: int| 0 <= k < shorter.len() implies (#[trigger] shorter[k]).offset < from by {
            assert(shorter[k] == records[k]);
        }
        assert(records.last() == records[records.len() - 1]);
        lemma_nothing_above(shorter, from, to, accepts);
    }
}

/// What lies up to an offset, followed by what lies from there on, is the
/// whole.
pub proof fn lemma_between_joined(
    records: Seq<RecordView>,
    from: int,
    mid: int,
    to: int,
    accepts: spec_fn(RecordView) -> bool,
)
    requires
        ascends(records),
        from <= mid <= to,
    ensures
        between(records, from, mid, accepts) + between(records, mid, to, accepts) == between(
            records,
            from,
            to,
            accepts,
        ),
    decreases records.len(),
{
    if records.len() > 0 {
        let shorter = records.drop_last();
        let last = records.last();
        assert(records[records.len() - 1] == last);
        assert(ascends(shorter));
        lemma_between_joined(shorter, from, mid, to, accepts);
        if last.offset < mid {
            assert forall|k: int| 0 <= k < shorter.len() implies (#[trigger] shorter[k]).offset < mid by {
                assert(shorter[k] == records[k]);
            }
            lemma_nothing_above(shorter, mid, to, accepts);
        }
        assert(between(records, from, mid, accepts) + between(records, mid, to, accepts)
            =~= between(records, from, to, accepts));
    } else {
        assert(between(records, from, mid, accepts) + between(records, mid, to, accepts)
            =~= between(records, from, to, accepts));
    }
}

/// Nothing lies between an offset and one that is not past it.
pub proof fn lemma_nothing_between(
    records: Seq<RecordView>,
    from: int,
    to: int,
    accepts: spec_fn(RecordView) -> bool,
)
    requires
        to <= from,
    ensures
        between(records, from, to, accepts) == Seq::<RecordView>::empty(),
    decreases records.len(),
{
    if records.len() > 0 {
        lemma_nothing_between(records.drop_last(), from, to, accepts);
    }
}

/// Where nothing lies between two offsets, nothing lies between two nearer ones.
pub proof fn lemma_nothing_nearer(
    records: Seq<RecordView>,
    from: int,
    to: int,
    nearer_from: int,
    nearer_to: int,
    accepts: spec_fn(RecordView) -> bool,
)
    requires
        ascends(records),
        from <= nearer_from <= nearer_to <= to,
        between(records, from, to, accepts).len() == 0,
    ensures
        between(records, nearer_from, nearer_to, accepts) == Seq::<RecordView>::empty(),
{
    lemma_between_joined(records, from, nearer_from, to, accepts);
    lemma_between_joined(records, nearer_from, nearer_to, to, accepts);
}

/// Looking among what lies between two offsets finds what looking among the
/// whole does.
pub proof fn lemma_between_again(
    records: Seq<RecordView>,
    from: int,
    to: int,
    nearer: int,
    accepts: spec_fn(RecordView) -> bool,
)
    requires
        nearer <= to,
    ensures
        between(between(records, from, to, every()), from, nearer, accepts) == between(
            records,
            from,
            nearer,
            accepts,
        ),
    decreases records.len(),
{
    if records.len() > 0 {
        lemma_between_again(records.drop_last(), from, to, nearer, accepts);
        let before = between(records.drop_last(), from, to, every());
        let last = records.last();
        if from <= last.offset < to {
            assert(before.push(last).drop_last() =~= before);
        }
    }
}

/// Records that lie below two offsets are found alike up to either.
pub proof fn lemma_between_alike(
    records: Seq<RecordView>,
    from: int,
    to: int,
    other: int,
    accepts: spec_fn(RecordView) -> bool,
)
    requires
        to <= other,
        all_below(records, to),
    ensures
        between(records, from, to, accepts) == between(records, from, other, accepts),
    decreases records.len(),
{
    if records.len() > 0 {
        let shorter = records.drop_last();
        assert forall|k: int| 0 <= k < shorter.len() implies (#[trigger] shorter[k]).offset < to by {
            assert(shorter[k] == records[k]);
        }
        assert(records.last() == records[records.len() - 1]);
        lemma_between_alike(shorter, from, to, other, accepts);
    }
}

/// What an answer's records hold from where it was asked for up to an offset is
/// what the log holds there, as far as the answer reaches.
pub proof fn lemma_told(
    log: Seq<RecordView>,
    offset: i64,
    answer: DecodedView,
    to: int,
    accepts: spec_fn(RecordView) -> bool,
)
    requires
        tells(log, offset, answer),
        answer.last_offset is Some,
    ensures
        ({
            let reach = answer.last_offset->Some_0 + 1;
            between(records_of(answer.outcomes), offset as int, to, accepts) == between(
                log,
                offset as int,
                if to < reach {
                    to
                } else {
                    reach
                },
                accepts,
            )
        }),
{
    let records = records_of(answer.outcomes);
    let reach = answer.last_offset->Some_0 + 1;
    let nearer = if to < reach {
        to
    } else {
        reach
    };
    lemma_records_in_order(answer.outcomes, reach - 1);
    lemma_between_again(records, offset as int, reach, nearer, accepts);
    lemma_between_again(log, offset as int, reach, nearer, accepts);
    if reach <= to {
        lemma_between_alike(records, offset as int, reach, to, accepts);
    }
}

/// From any record found between two offsets on, what was found is everything
/// accepted from that record's offset on.
pub proof fn lemma_between_suffix(
    records: Seq<RecordView>,
    from: int,
    to: int,
    accepts: spec_fn(RecordView) -> bool,
    at: int,
)
    requires
        ascends(records),
        0 <= at < between(records, from, to, accepts).len(),
    ensures
        between(records, from, to, accepts).skip(at) == between(
            records,
            between(records, from, to, accepts)[at].offset as int,
            to,
            accepts,
        ),
{
    let found = between(records, from, to, accepts);
    let offset = found[at].offset as int;
    lemma_bounded(records);
    lemma_between(records, from, to, accepts, i64::MAX + 1);
    assert(from <= found[at].offset < to);
    lemma_between_joined(records, from, offset, to, accepts);
    let older = between(records, from, offset, accepts);
    let newer = between(records, offset, to, accepts);
    lemma_between(records, from, offset, accepts, i64::MAX + 1);
    lemma_between(records, offset, to, accepts, i64::MAX + 1);
    if older.len() > at {
        assert(found[at] == older[at]);
    }
    if older.len() < at {
        assert(found[older.len() as int] == newer[0]);
    }
    assert(found.skip(at) =~= newer);
}

/// Every offset is below the first that none can have.
proof fn lemma_bounded(records: Seq<RecordView>)
    ensures
        all_below(records, i64::MAX + 1),
{
}

} // verus!
