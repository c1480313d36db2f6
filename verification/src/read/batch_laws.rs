//! What holds of tolerant decoding, whatever the bytes.

use vstd::prelude::*;

use crate::read::batch::{
    decoded, further, header_of, hiding, walked,
    AbortedTransaction, BatchHeader, DecodeOptions, DecodedView, HeaderProblem, Visibility,
};

verus! {

/// The headers of the complete batches a walk comes to, in order.
pub open spec fn batches(buf: Seq<u8>) -> Seq<BatchHeader>
    decreases buf.len(),
{
    match header_of(buf) {
        Ok(header) => if header.total_len == 0 || header.total_len > buf.len() {
            seq![]
        } else {
            seq![header] + batches(buf.skip(header.total_len as int))
        },
        Err(_) => seq![],
    }
}

/// A batch cut anywhere short of its end yields nothing and is reported as a
/// truncated tail, never as corruption.
pub proof fn a_cut_batch_is_invisible(
    topic: Seq<char>,
    partition: i32,
    buf: Seq<u8>,
    aborted: Seq<AbortedTransaction>,
    options: DecodeOptions,
    cut: int,
)
    requires
        header_of(buf) matches Ok(header) && 0 < cut < header.total_len,
    ensures
        decoded(topic, partition, buf.take(cut), aborted, options) == (DecodedView {
            outcomes: seq![],
            control_batches_skipped: 0,
            aborted_records_skipped: 0,
            truncated_tail: true,
            last_offset: None,
        }),
{
    let short = buf.take(cut);
    if cut >= crate::read::batch::MIN_LEN {
        assert(short.subrange(8, 12) =~= buf.subrange(8, 12));
    }
    assert(header_of(short) == Err::<BatchHeader, HeaderProblem>(HeaderProblem::Truncated));
}

/// Whatever a batch turns out to be, the batches after it are still decoded:
/// their outcomes end the walk's.
pub proof fn one_bad_batch_is_not_one_bad_scan(
    topic: Seq<char>,
    partition: i32,
    buf: Seq<u8>,
    aborted: Seq<AbortedTransaction>,
    limit: usize,
    reached: int,
    hidden: Set<i64>,
)
    requires
        header_of(buf) is Ok,
    ensures
        ({
            let header = header_of(buf)->Ok_0;
            let whole = walked(topic, partition, buf, aborted, limit, reached, hidden);
            let now_hidden = hiding(hidden, aborted, reached, header.base_offset as int);
            let after = walked(
                topic,
                partition,
                buf.skip(header.total_len as int),
                aborted,
                limit,
                further(reached, header.base_offset as int),
                if header.control {
                    now_hidden.remove(header.producer_id)
                } else {
                    now_hidden
                },
            );
            &&& after.outcomes.len() <= whole.outcomes.len()
            &&& whole.outcomes.skip(whole.outcomes.len() - after.outcomes.len()) == after.outcomes
            &&& whole.truncated_tail == after.truncated_tail
        }),
{
    let header = header_of(buf)->Ok_0;
    let whole = walked(topic, partition, buf, aborted, limit, reached, hidden);
    let now_hidden = hiding(hidden, aborted, reached, header.base_offset as int);
    let after = walked(
        topic,
        partition,
        buf.skip(header.total_len as int),
        aborted,
        limit,
        further(reached, header.base_offset as int),
        if header.control {
            now_hidden.remove(header.producer_id)
        } else {
            now_hidden
        },
    );
    assert(whole.outcomes.skip(whole.outcomes.len() - after.outcomes.len()) =~= after.outcomes);
}

/// A walk with no aborted spans and nobody hidden hides nothing.
proof fn lemma_nothing_to_hide(
    topic: Seq<char>,
    partition: i32,
    buf: Seq<u8>,
    limit: usize,
    reached: int,
)
    ensures
        walked(topic, partition, buf, seq![], limit, reached, Set::empty()).aborted_records_skipped
            == 0,
    decreases buf.len(),
{
    if let Ok(header) = header_of(buf) {
        if header.total_len != 0 && header.total_len <= buf.len() {
            let base = header.base_offset as int;
            let now_hidden = hiding(Set::empty(), seq![], reached, base);
            assert(now_hidden =~= Set::empty());
            assert(now_hidden.remove(header.producer_id) =~= Set::empty());
            lemma_nothing_to_hide(
                topic,
                partition,
                buf.skip(header.total_len as int),
                limit,
                further(reached, base),
            );
        }
    }
}

/// [`Visibility::All`] shows the log as it is: the list of aborted transactions
/// changes nothing, and no record is hidden.
pub proof fn all_shows_everything(
    topic: Seq<char>,
    partition: i32,
    buf: Seq<u8>,
    aborted: Seq<AbortedTransaction>,
    options: DecodeOptions,
)
    requires
        options.visibility == Visibility::All,
    ensures
        decoded(topic, partition, buf, aborted, options) == decoded(
            topic,
            partition,
            buf,
            seq![],
            options,
        ),
        decoded(topic, partition, buf, aborted, options).aborted_records_skipped == 0,
{
    lemma_nothing_to_hide(
        topic,
        partition,
        buf,
        options.max_decompressed_bytes,
        i64::MIN - 1,
    );
}

/// Lists that enter the same producers at every step walk alike.
proof fn lemma_same_spans_walk_alike(
    topic: Seq<char>,
    partition: i32,
    buf: Seq<u8>,
    one: Seq<AbortedTransaction>,
    other: Seq<AbortedTransaction>,
    limit: usize,
    reached: int,
    hidden: Set<i64>,
)
    requires
        forall|span: AbortedTransaction|
            #![trigger one.contains(span)]
            #![trigger other.contains(span)]
            one.contains(span) <==> other.contains(span),
    ensures
        walked(topic, partition, buf, one, limit, reached, hidden) == walked(
            topic,
            partition,
            buf,
            other,
            limit,
            reached,
            hidden,
        ),
    decreases buf.len(),
{
    if let Ok(header) = header_of(buf) {
        if header.total_len != 0 && header.total_len <= buf.len() {
            let base = header.base_offset as int;
            let rest = buf.skip(header.total_len as int);
            lemma_hiding_by_members(hidden, one, other, reached, base);
            lemma_hiding_by_members(hidden, other, one, reached, base);
            let now_hidden = hiding(hidden, one, reached, base);
            assert(now_hidden =~= hiding(hidden, other, reached, base));
            let now_reached = further(reached, base);
            lemma_same_spans_walk_alike(
                topic,
                partition,
                rest,
                one,
                other,
                limit,
                now_reached,
                now_hidden,
            );
            lemma_same_spans_walk_alike(
                topic,
                partition,
                rest,
                one,
                other,
                limit,
                now_reached,
                now_hidden.remove(header.producer_id),
            );
        }
    }
}

/// A longer list hides at least as much.
proof fn lemma_hiding_by_members(
    hidden: Set<i64>,
    one: Seq<AbortedTransaction>,
    other: Seq<AbortedTransaction>,
    reached: int,
    base: int,
)
    requires
        forall|span: AbortedTransaction| #[trigger] one.contains(span) ==> other.contains(span),
    ensures
        hiding(hidden, one, reached, base).subset_of(hiding(hidden, other, reached, base)),
{
    assert forall|producer: i64|
        hiding(hidden, one, reached, base).contains(producer) implies hiding(
        hidden,
        other,
        reached,
        base,
    ).contains(producer) by {
        if !hidden.contains(producer) {
            let i = choose|i: int| #![trigger one[i]]
                0 <= i < one.len() && one[i].producer_id == producer && reached
                    < one[i].first_offset <= base;
            assert(one.contains(one[i]));
            let j = choose|j: int| 0 <= j < other.len() && other[j] == one[i];
            assert(other[j].producer_id == producer);
        }
    }
}

/// The order of the aborted list, and repeats in it, make no difference.
pub proof fn the_aborted_list_is_a_set(
    topic: Seq<char>,
    partition: i32,
    buf: Seq<u8>,
    one: Seq<AbortedTransaction>,
    other: Seq<AbortedTransaction>,
    options: DecodeOptions,
)
    requires
        forall|span: AbortedTransaction|
            #![trigger one.contains(span)]
            #![trigger other.contains(span)]
            one.contains(span) <==> other.contains(span),
    ensures
        decoded(topic, partition, buf, one, options) == decoded(
            topic,
            partition,
            buf,
            other,
            options,
        ),
{
    if options.visibility == Visibility::CommittedOnly {
        lemma_same_spans_walk_alike(
            topic,
            partition,
            buf,
            one,
            other,
            options.max_decompressed_bytes,
            i64::MIN - 1,
            Set::empty(),
        );
    }
}

/// A span that starts past every batch of a buffer hides nothing in it.
proof fn lemma_a_later_span_is_idle(
    topic: Seq<char>,
    partition: i32,
    buf: Seq<u8>,
    aborted: Seq<AbortedTransaction>,
    span: AbortedTransaction,
    limit: usize,
    reached: int,
    hidden: Set<i64>,
)
    requires
        forall|i: int|
            0 <= i < batches(buf).len() ==> (#[trigger] batches(buf)[i]).base_offset
                < span.first_offset,
    ensures
        walked(topic, partition, buf, aborted.push(span), limit, reached, hidden) == walked(
            topic,
            partition,
            buf,
            aborted,
            limit,
            reached,
            hidden,
        ),
    decreases buf.len(),
{
    if let Ok(header) = header_of(buf) {
        if header.total_len != 0 && header.total_len <= buf.len() {
            let base = header.base_offset as int;
            let rest = buf.skip(header.total_len as int);
            assert(batches(buf)[0] == header);
            assert forall|i: int| 0 <= i < batches(rest).len() implies (#[trigger] batches(
                rest,
            )[i]).base_offset < span.first_offset by {
                assert(batches(buf)[i + 1] == batches(rest)[i]);
            }
            let longer = aborted.push(span);
            let now_hidden = hiding(hidden, aborted, reached, base);
            assert forall|producer: i64|
                now_hidden.contains(producer) <==> hiding(hidden, longer, reached, base).contains(
                    producer,
                ) by {
                if exists|i: int| #![trigger aborted[i]]
                    0 <= i < aborted.len() && aborted[i].producer_id == producer && reached
                        < aborted[i].first_offset <= base {
                    let i = choose|i: int| #![trigger aborted[i]]
                        0 <= i < aborted.len() && aborted[i].producer_id == producer && reached
                            < aborted[i].first_offset <= base;
                    assert(longer[i] == aborted[i]);
                }
                if exists|i: int| #![trigger longer[i]]
                    0 <= i < longer.len() && longer[i].producer_id == producer && reached
                        < longer[i].first_offset <= base {
                    let i = choose|i: int| #![trigger longer[i]]
                        0 <= i < longer.len() && longer[i].producer_id == producer && reached
                            < longer[i].first_offset <= base;
                    assert(aborted[i] == longer[i]);
                }
            }
            assert(now_hidden =~= hiding(hidden, longer, reached, base));
            let now_reached = further(reached, base);
            lemma_a_later_span_is_idle(
                topic,
                partition,
                rest,
                aborted,
                span,
                limit,
                now_reached,
                now_hidden,
            );
            lemma_a_later_span_is_idle(
                topic,
                partition,
                rest,
                aborted,
                span,
                limit,
                now_reached,
                now_hidden.remove(header.producer_id),
            );
        }
    }
}

/// An aborted transaction hides nothing that comes before it: what a producer
/// committed earlier stays visible, however its later transaction ended.
pub proof fn nothing_before_a_span_is_hidden(
    topic: Seq<char>,
    partition: i32,
    buf: Seq<u8>,
    aborted: Seq<AbortedTransaction>,
    span: AbortedTransaction,
    options: DecodeOptions,
)
    requires
        forall|i: int|
            0 <= i < batches(buf).len() ==> (#[trigger] batches(buf)[i]).base_offset
                < span.first_offset,
    ensures
        decoded(topic, partition, buf, aborted.push(span), options) == decoded(
            topic,
            partition,
            buf,
            aborted,
            options,
        ),
{
    if options.visibility == Visibility::CommittedOnly {
        lemma_a_later_span_is_idle(
            topic,
            partition,
            buf,
            aborted,
            span,
            options.max_decompressed_bytes,
            i64::MIN - 1,
            Set::empty(),
        );
    }
}

/// Inside an aborted span, a producer's transactional batch yields nothing, and
/// its offsets are counted as hidden.
pub proof fn a_span_hides_its_producers_batches(
    topic: Seq<char>,
    partition: i32,
    buf: Seq<u8>,
    aborted: Seq<AbortedTransaction>,
    limit: usize,
    reached: int,
    hidden: Set<i64>,
    at: int,
)
    requires
        header_of(buf) matches Ok(header) && !header.control && header.transactional && 0 <= at
            < aborted.len() && aborted[at].producer_id == header.producer_id && reached
            < aborted[at].first_offset <= header.base_offset,
    ensures
        ({
            let header = header_of(buf)->Ok_0;
            let whole = walked(topic, partition, buf, aborted, limit, reached, hidden);
            let after = walked(
                topic,
                partition,
                buf.skip(header.total_len as int),
                aborted,
                limit,
                further(reached, header.base_offset as int),
                hiding(hidden, aborted, reached, header.base_offset as int),
            );
            &&& whole.outcomes == after.outcomes
            &&& whole.aborted_records_skipped == after.aborted_records_skipped
                + crate::read::batch::offset_span(header)
        }),
{
    let header = header_of(buf)->Ok_0;
    assert(aborted[at].producer_id == header.producer_id);
    assert(hiding(hidden, aborted, reached, header.base_offset as int).contains(
        header.producer_id,
    ));
}

} // verus!
