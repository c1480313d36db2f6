//! What holds of every verdict on a run.

use vstd::prelude::*;
use vstd::seq_lib::*;

use crate::keyed::PartitionKey;
use crate::livetest::assignment::{arranges, common, key_precedes, listed_keys, together};
use crate::livetest::exactly_once::{mismatched, offset_of, PartitionOffset};
use crate::livetest::produce::{bytes_begin, codec_keys, found, read_back_of};
use crate::livetest::read::{
    ends_at_the_top, no_stats, picked, readable, readable_names, scan_verdict, tail_stats,
    tail_verdict, Facts, ListingView, ScanStats, TailStats, TallyView,
};
use crate::livetest::smoke::{
    count_of, failed_deletions, fully_answered, is_led, is_led_by_a_replica, Deletion,
    DescribedPartition, OffsetsAnswer,
};
use crate::livetest::suite::{
    batching_verdict, classic_verdict, counts_up, first_uncommitted, group_verdict, is_marked, less,
    marked, number_behind, numbers_behind, steady_verdict, txn_mark, txn_verdict, BatchingRun,
    Commit, TxnCounts,
};
use crate::livetest::sweep::deleted;
use crate::livetest::traffic::{sampled, summed, ConnectionStats};
use crate::read::backward::PartitionTail;
use crate::read::record::RecordView;
use crate::read::scan::EventView;
use crate::text::{ascending, lossy_text, number_in, precedes, quoted, signed_of, strung};

verus! {

/// Things are counted one by one.
pub proof fn how_things_are_counted<T>(items: Seq<T>, item: T, holds: spec_fn(T) -> bool)
    ensures
        count_of(seq![], holds) == 0,
        holds(item) ==> count_of(items.push(item), holds) == count_of(items, holds) + 1,
        !holds(item) ==> count_of(items.push(item), holds) == count_of(items, holds),
{
    assert(items.push(item).drop_last() =~= items);
}

/// What is left is the difference, and nothing where more is taken than there was.
pub proof fn what_is_left(a: u64, b: u64)
    ensures
        a >= b ==> less(a, b) == a - b,
        a < b ==> less(a, b) == 0,
{
}

/// Batching passes just when every one of 20000 records was delivered, the same number
/// of brokers was sampled before and after, and it took requests, but fewer than 500.
pub proof fn when_batching_passes(run: BatchingRun)
    requires
        run.after.requests_sent >= run.mark.requests_sent,
    ensures
        batching_verdict(run) is Ok <==> {
            &&& run.delivered == 20000
            &&& run.mark.sampled == run.after.sampled
            &&& 0 < run.after.requests_sent - run.mark.requests_sent < 500
        },
{
}

/// Transactions pass just when one reader saw the fifty records of each, and the other
/// the fifty that were committed and none that was aborted.
pub proof fn when_transactions_pass(counts: TxnCounts)
    ensures
        txn_verdict(counts) is Ok <==> {
            &&& counts.all_committed == 50
            &&& counts.all_aborted == 50
            &&& counts.only_committed == 50
            &&& counts.only_aborted == 0
        },
{
}

/// Caught-up polls pass just when they took requests, and those took fewer than 200
/// bytes each on average.
pub proof fn when_steady_polls_pass(requests: u64, bytes: u64)
    ensures
        steady_verdict(requests, bytes) is Ok <==> requests > 0 && bytes < 200 * requests,
{
    if requests > 0 {
        let n = requests as int;
        let b = bytes as int;
        let each = b / n;
        assert(each < 200 <==> b < 200 * n) by (nonlinear_arith)
            requires
                each == b / n,
                n > 0,
                b >= 0,
        ;
    }
}

/// Commits pass just when each did; else the first that did not is named.
pub proof fn when_commits_pass(commits: Seq<Commit>, k: int)
    requires
        0 <= k <= commits.len(),
        forall|j: int| 0 <= j < k ==> (#[trigger] commits[j]).error is None,
    ensures
        k == commits.len() ==> first_uncommitted(commits) is None,
        k < commits.len() && commits[k].error is Some ==> first_uncommitted(commits) is Some,
        k < commits.len() && commits[k].error is Some ==> first_uncommitted(commits)
            == first_uncommitted(commits.skip(k)),
    decreases commits.len(),
{
    if commits.len() > 0 && k > 0 {
        assert(commits[0].error is None);
        let rest = commits.skip(1);
        assert forall|j: int| 0 <= j < k - 1 implies (#[trigger] rest[j]).error is None by {
            assert(rest[j] == commits[j + 1]);
        }
        when_commits_pass(rest, k - 1);
        if k < commits.len() {
            assert(rest[k - 1] == commits[k]);
            assert(rest.skip(k - 1) =~= commits.skip(k));
        }
    } else {
        assert(commits.skip(0) =~= commits);
    }
}

/// What two lists have in common is what is in both, in the order of the first.
pub proof fn what_two_lists_have_in_common(
    a: Seq<PartitionKey>,
    b: Seq<PartitionKey>,
    key: PartitionKey,
)
    ensures
        common(seq![], b).len() == 0,
        common(a.push(key), b) == if b.contains(key) {
            common(a, b).push(key)
        } else {
            common(a, b)
        },
{
    assert(a.push(key).drop_last() =~= a);
}

/// A list has something in common with another just when some key is in both.
proof fn lemma_in_common(a: Seq<PartitionKey>, b: Seq<PartitionKey>)
    ensures
        common(a, b).len() == 0 <==> forall|i: int|
            0 <= i < a.len() ==> !b.contains(#[trigger] a[i]),
    decreases a.len(),
{
    if a.len() > 0 {
        let before = a.drop_last();
        lemma_in_common(before, b);
        let last = a.len() - 1;
        assert(a[last] == a.last());
        if common(a, b).len() == 0 {
            assert forall|i: int| 0 <= i < a.len() implies !b.contains(#[trigger] a[i]) by {
                if i < last {
                    assert(before[i] == a[i]);
                }
            }
        } else if !b.contains(a.last()) {
            let i = choose|i: int| 0 <= i < before.len() && b.contains(#[trigger] before[i]);
            assert(a[i] == before[i]);
        }
    }
}

/// A group passes just when no partition is both members', and they own six between
/// them; of either protocol.
pub proof fn when_a_group_passes(a: Seq<PartitionKey>, b: Seq<PartitionKey>)
    ensures
        ({
            let apart = forall|i: int| 0 <= i < a.len() ==> !b.contains(#[trigger] a[i]);
            &&& group_verdict(a, b) is Ok <==> apart && a.len() + b.len() == 6
            &&& classic_verdict(a, b) is Ok <==> apart && a.len() + b.len() == 6
            &&& apart ==> together(a, b) == a.len() + b.len()
        }),
{
    lemma_in_common(a, b);
}

/// Partitions are ordered by their topics, and those of one topic by number.
pub proof fn how_partitions_are_ordered(topic: Seq<char>, a: i32, b: i32)
    ensures
        a < b ==> key_precedes((topic, a), (topic, b)) && !key_precedes((topic, b), (topic, a)),
        !key_precedes((topic, a), (topic, a)),
{
    crate::text_laws::how_texts_are_ordered(topic, topic, topic);
}

/// A record's number is what its value has behind the marker and a dash, where that is a
/// number and nothing else.
pub proof fn what_number_a_record_has(value: Seq<u8>, marker: Seq<char>, rest: Seq<char>)
    ensures
        number_behind(None, marker) is None,
        lossy_text(value) == marker + "-"@ + rest ==> number_behind(Some(value), marker)
            == number_in(rest),
        number_behind(Some(value), marker) matches Some(number) ==> exists|text: Seq<char>|
            lossy_text(value) == #[trigger] (marker + "-"@ + text) && number_in(text) == Some(
                number,
            ),
{
    let mark = marker + "-"@;
    let text = lossy_text(value);
    if text == mark + rest {
        assert(text.take(mark.len() as int) =~= mark);
        assert(text.skip(mark.len() as int) =~= rest);
    }
    if number_behind(Some(value), marker) is Some {
        let behind = text.skip(mark.len() as int);
        assert(text =~= text.take(mark.len() as int) + behind);
        assert(text == marker + "-"@ + behind);
    }
}

/// The numbers of records that have one, in order.
pub proof fn which_numbers_are_read(
    records: Seq<RecordView>,
    record: RecordView,
    marker: Seq<char>,
)
    ensures
        numbers_behind(seq![], marker).len() == 0,
        match number_behind(record.value, marker) {
            Some(number) => numbers_behind(records.push(record), marker) == numbers_behind(
                records,
                marker,
            ).push(number),
            None => numbers_behind(records.push(record), marker) == numbers_behind(records, marker),
        },
{
    assert(records.push(record).drop_last() =~= records);
}

/// Numbers count up just when the next is as large as there are before it.
pub proof fn when_numbers_count_up(numbers: Seq<usize>, number: usize)
    ensures
        counts_up(seq![]),
        counts_up(numbers.push(number)) <==> counts_up(numbers) && number == numbers.len(),
{
    let all = numbers.push(number);
    if counts_up(all) {
        assert(all[numbers.len() as int] == number);
        assert forall|i: int| 0 <= i < numbers.len() implies #[trigger] numbers[i] == i by {
            assert(all[i] == i);
        }
    }
}

/// A record bears a mark if its value begins with it; a tombstone bears none.
pub proof fn which_records_are_marked(
    records: Seq<RecordView>,
    record: RecordView,
    marker: Seq<char>,
    kind: Seq<char>,
    rest: Seq<char>,
)
    ensures
        ({
            let mark = txn_mark(marker, kind);
            &&& record.value is None ==> !is_marked(record, mark)
            &&& record.value matches Some(value) ==> (lossy_text(value) == marker + "-"@ + kind
                + "-"@ + rest ==> is_marked(record, mark))
            &&& is_marked(record, mark) ==> marked(records.push(record), mark) == marked(
                records,
                mark,
            ) + 1
            &&& !is_marked(record, mark) ==> marked(records.push(record), mark) == marked(
                records,
                mark,
            )
        }),
{
    let mark = txn_mark(marker, kind);
    how_things_are_counted(records, record, |record: RecordView| is_marked(record, mark));
    if let Some(value) = record.value {
        if lossy_text(value) == marker + "-"@ + kind + "-"@ + rest {
            assert(lossy_text(value).take(mark.len() as int) =~= mark);
        }
    }
}

/// A topic is read if it is no internal one, by what the broker says or by two
/// underscores, did not fail, and has partitions.
pub proof fn which_topics_are_read(topics: Seq<ListingView>, topic: ListingView, rest: Seq<char>)
    ensures
        topic.internal || topic.failed || topic.partitions == 0 ==> !readable(topic),
        topic.name == seq!['_', '_'] + rest ==> !readable(topic),
        !topic.internal && !topic.failed && topic.partitions > 0 && (topic.name.len() < 2
            || topic.name[0] != '_' || topic.name[1] != '_') ==> readable(topic),
        readable_names(seq![]).len() == 0,
        readable_names(topics.push(topic)) == if readable(topic) {
            readable_names(topics).push(topic.name)
        } else {
            readable_names(topics)
        },
{
    reveal_strlit("__");
    assert("__"@ =~= seq!['_', '_']);
    assert(topics.push(topic).drop_last() =~= topics);
    if topic.name == seq!['_', '_'] + rest {
        assert(topic.name.take(2) =~= "__"@);
    }
    if topic.name.len() >= 2 && topic.name.take(2) == "__"@ {
        assert(topic.name[0] == topic.name.take(2)[0]);
        assert(topic.name[1] == topic.name.take(2)[1]);
    }
}

/// The topics that are picked are the first of those worth reading: as many as were asked
/// for or there are, in order, each of them worth reading, and none that is left out comes
/// before one of them.
pub proof fn which_topics_are_picked(topics: Seq<ListingView>, max: usize, names: Seq<Seq<char>>)
    requires
        picked(topics, max, names),
    ensures
        ({
            let worth = readable_names(topics);
            &&& worth.len() <= max ==> names.len() == worth.len()
            &&& worth.len() > max ==> names.len() == max
            &&& ascending(names)
            &&& forall|k: int| 0 <= k < names.len() ==> worth.contains(#[trigger] names[k])
            &&& forall|r: int, k: int|
                0 <= r < worth.len() && 0 <= k < names.len() && !names.contains(worth[r])
                    ==> !precedes(#[trigger] worth[r], #[trigger] names[k])
        }),
{
    broadcast use group_to_multiset_ensures;

    let worth = readable_names(topics);
    let all = choose|all: Seq<Seq<char>>| #[trigger]
        ascending(all) && all.to_multiset() == worth.to_multiset() && names == all.take(
            if all.len() < max {
                all.len() as int
            } else {
                max as int
            },
        );
    assert(all.len() == worth.len()) by {
        assert(all.to_multiset().len() == worth.to_multiset().len());
    }
    assert forall|i: int, j: int| 0 <= i < j < names.len() implies !precedes(
        #[trigger] names[j],
        #[trigger] names[i],
    ) by {
        assert(!precedes(all[j], all[i]));
    }
    assert forall|k: int| 0 <= k < names.len() implies worth.contains(#[trigger] names[k]) by {
        assert(all.contains(all[k]));
        assert(all.to_multiset().count(all[k]) > 0);
        assert(worth.to_multiset().count(all[k]) > 0);
    }
    assert forall|r: int, k: int|
        0 <= r < worth.len() && 0 <= k < names.len() && !names.contains(worth[r]) implies !precedes(
        #[trigger] worth[r],
        #[trigger] names[k],
    ) by {
        assert(worth.contains(worth[r]));
        assert(worth.to_multiset().count(worth[r]) > 0);
        assert(all.to_multiset().count(worth[r]) > 0);
        assert(all.contains(worth[r]));
        let at = choose|at: int| 0 <= at < all.len() && all[at] == worth[r];
        if at < names.len() {
            assert(names[at] == worth[r]);
        } else {
            assert(!precedes(all[at], all[k]));
        }
    }
}

/// What a tally notes of an event: each record once, and whether it lies beyond its
/// partition's last; each damaged batch; that there was progress; and whether the end came
/// at the limit.
pub proof fn what_a_tally_notes(tally: TallyView, event: EventView, limit: usize)
    requires
        tally.stats.records < u64::MAX,
        tally.stats.tombstones < u64::MAX,
        tally.stats.with_headers < u64::MAX,
        tally.stats.transactional < u64::MAX,
        tally.stats.malformed < u64::MAX,
    ensures
        ({
            let stats = tally.stats;
            let after = tally.after(event, limit).stats;
            let last = tally.after(event, limit).last_offset;
            &&& event matches EventView::Record(record) ==> {
                let one_if = |holds: bool|
                    if holds {
                        1int
                    } else {
                        0int
                    };
                &&& after.records == stats.records + 1
                &&& after.tombstones == stats.tombstones + one_if(record.value is None)
                &&& after.with_headers == stats.with_headers + one_if(record.headers.len() > 0)
                &&& after.transactional == stats.transactional + one_if(record.transactional)
                &&& after.ordered <==> stats.ordered && (tally.last_offset.contains_key(
                    record.partition,
                ) ==> tally.last_offset[record.partition] < record.offset)
                &&& last == tally.last_offset.insert(record.partition, record.offset)
                &&& after.malformed == stats.malformed
            }
            &&& event is Malformed ==> after == (ScanStats {
                malformed: (stats.malformed + 1) as u64,
                ..stats
            })
            &&& event is Progress ==> after == (ScanStats { saw_progress: true, ..stats })
            &&& event matches EventView::Done(progress) ==> after == (ScanStats {
                hit_limit: progress.records_emitted >= limit,
                ..stats
            })
            &&& event is PartitionStarted || event is PartitionComplete ==> after == stats
            &&& !(event is Record) ==> last == tally.last_offset
        }),
{
}

/// Of a scan that nothing was seen of nothing is said.
pub proof fn nothing_seen_is_nothing_said()
    ensures
        ({
            let stats = no_stats();
            &&& stats.records == 0 && stats.malformed == 0 && stats.tombstones == 0
            &&& stats.with_headers == 0 && stats.transactional == 0 && stats.partitions_seen == 0
            &&& stats.ordered && !stats.hit_limit && !stats.saw_progress
        }),
{
}

/// Tails are summed, and in order and at their ends only if each is: its offsets rise,
/// and its last is the one before its partition's end, as far as that is known.
pub proof fn what_tails_come_to(
    tails: Seq<PartitionTail>,
    tail: PartitionTail,
    latest: Map<i32, Option<i64>>,
)
    ensures
        ({
            let none = tail_stats(seq![], latest);
            let before = tail_stats(tails, latest);
            let after = tail_stats(tails.push(tail), latest);
            let rises = forall|i: int, j: int|
                0 <= i < j < tail.records@.len() ==> (#[trigger] tail.records@[i]).offset < (
                #[trigger] tail.records@[j]).offset;
            let n = tail.records@.len();
            &&& none.records == 0 && none.fetches == 0 && none.ordered && none.at_end
            &&& before.records + n <= usize::MAX ==> after.records == before.records + n
            &&& before.fetches + tail.fetches <= usize::MAX ==> after.fetches == before.fetches
                + tail.fetches
            &&& after.ordered <==> before.ordered && rises
            &&& after.at_end <==> before.at_end && ends_at_the_top(tail, latest)
            &&& n == 0 || !latest.contains_key(tail.partition) ==> ends_at_the_top(tail, latest)
            &&& n > 0 && latest.contains_key(tail.partition) ==> match latest[tail.partition] {
                None => ends_at_the_top(tail, latest),
                Some(high) => high > i64::MIN ==> (ends_at_the_top(tail, latest)
                    <==> tail.records@[n - 1].offset == high - 1),
            }
        }),
{
    assert(tails.push(tail).drop_last() =~= tails);
}

/// A scan passes just when it was in order, and had as many records as were expected,
/// where any number was; a tail just when it could be read and was in order.
pub proof fn when_a_topic_passes(
    topic: Seq<char>,
    stats: ScanStats,
    expect: Option<usize>,
    tail: Result<TailStats, Seq<char>>,
)
    ensures
        scan_verdict(topic, stats, expect) is Ok <==> stats.ordered && (
        expect matches Some(expected) ==> expected == stats.records),
        tail_verdict(topic, tail) is Ok <==> (tail matches Ok(stats) && stats.ordered),
{
}

/// A partition's first listed offset counts.
pub proof fn the_first_listed_offset_counts(
    offsets: Seq<PartitionOffset>,
    topic: Seq<char>,
    partition: i32,
    k: int,
)
    requires
        0 <= k <= offsets.len(),
        forall|j: int|
            0 <= j < k ==> !((#[trigger] offsets[j]).topic@ == topic && offsets[j].partition
                == partition),
    ensures
        k == offsets.len() ==> offset_of(offsets, topic, partition) is None,
        k < offsets.len() && offsets[k].topic@ == topic && offsets[k].partition == partition
            ==> offset_of(offsets, topic, partition) == Some(offsets[k].offset),
    decreases offsets.len(),
{
    if offsets.len() > 0 && k > 0 {
        assert(!(offsets[0].topic@ == topic && offsets[0].partition == partition));
        let rest = offsets.skip(1);
        assert forall|j: int| 0 <= j < k - 1 implies !((#[trigger] rest[j]).topic@ == topic
            && rest[j].partition == partition) by {
            assert(rest[j] == offsets[j + 1]);
        }
        the_first_listed_offset_counts(rest, topic, partition, k - 1);
        if k < offsets.len() {
            assert(rest[k - 1] == offsets[k]);
        }
    }
}

/// A position that was not stored is told with what was stored instead, in order; one
/// that was is not.
pub proof fn what_is_said_of_a_lost_position(
    positions: Seq<PartitionOffset>,
    position: PartitionOffset,
    stored: Seq<PartitionOffset>,
)
    ensures
        mismatched(seq![], stored).len() == 0,
        ({
            let kept = offset_of(stored, position.topic@, position.partition);
            let before = mismatched(positions, stored);
            let after = mismatched(positions.push(position), stored);
            let said = position.topic@ + "-"@ + signed_of(position.partition as int) + " wanted "@
                + signed_of(position.offset as int) + ", stored "@;
            &&& kept == Some(position.offset) ==> after == before
            &&& kept is None ==> after == before.push(said + "None"@)
            &&& kept matches Some(other) ==> (other != position.offset ==> after == before.push(
                said + ("Some("@ + signed_of(other as int) + ")"@),
            ))
        }),
{
    assert(positions.push(position).drop_last() =~= positions);
}

/// Partitions are listed with a comma between each two.
pub proof fn how_partitions_are_listed(keys: Seq<PartitionKey>)
    ensures
        listed_keys(keys) == strung(
            Seq::new(
                keys.len(),
                |i: int|
                    "("@ + quoted(keys[i].0) + ", "@ + signed_of(keys[i].1 as int) + ")"@,
            ),
            ", "@,
        ),
    decreases keys.len(),
{
    let texts = Seq::new(
        keys.len(),
        |i: int| "("@ + quoted(keys[i].0) + ", "@ + signed_of(keys[i].1 as int) + ")"@,
    );
    if keys.len() > 1 {
        let before = keys.drop_last();
        how_partitions_are_listed(before);
        assert(texts.drop_last() =~= Seq::new(
            before.len(),
            |i: int| "("@ + quoted(before[i].0) + ", "@ + signed_of(before[i].1 as int) + ")"@,
        ));
    }
}

/// What is arranged is in order, holds every partition that is assigned, and no other.
pub proof fn what_is_arranged(keys: Seq<PartitionKey>, assignment: Seq<PartitionKey>)
    requires
        arranges(keys, assignment),
    ensures
        forall|i: int, j: int|
            0 <= i < j < keys.len() ==> key_precedes(#[trigger] keys[i], #[trigger] keys[j]),
        forall|k: int|
            0 <= k < assignment.len() ==> keys.contains(#[trigger] assignment[k]),
        forall|k: int| 0 <= k < keys.len() ==> assignment.contains(#[trigger] keys[k]),
{
    assert forall|k: int| 0 <= k < assignment.len() implies keys.contains(
        #[trigger] assignment[k],
    ) by {
        assert(assignment.contains(assignment[k]));
    }
    assert forall|k: int| 0 <= k < keys.len() implies assignment.contains(#[trigger] keys[k]) by {
        assert(keys.contains(keys[k]));
    }
}

/// A deletion is listed if it went through, by its kind and name; one that failed leaves
/// a note.
pub proof fn what_deletions_leave(
    kind: Seq<char>,
    results: Seq<(Seq<char>, bool)>,
    result: (Seq<char>, bool),
    cleanups: Seq<Deletion>,
    cleanup: Deletion,
)
    ensures
        deleted(kind, seq![]).len() == 0,
        result.1 ==> deleted(kind, results.push(result)) == deleted(kind, results).push(
            kind + " "@ + result.0,
        ),
        !result.1 ==> deleted(kind, results.push(result)) == deleted(kind, results),
        failed_deletions(seq![]).len() == 0,
        cleanup.error is None ==> failed_deletions(cleanups.push(cleanup)) == failed_deletions(
            cleanups,
        ),
        cleanup.error matches Some(error) ==> failed_deletions(cleanups.push(cleanup))
            == failed_deletions(cleanups).push(
            "cleanup failed for "@ + cleanup.name@ + ": "@ + error@,
        ),
{
    assert(results.push(result).drop_last() =~= results);
    assert(cleanups.push(cleanup).drop_last() =~= cleanups);
}

/// A partition is led if it has a leader, and properly if that is one of its replicas.
pub proof fn when_a_partition_is_led(partition: DescribedPartition)
    ensures
        is_led(partition) <==> partition.leader is Some,
        partition.leader is None ==> !is_led_by_a_replica(partition),
        partition.leader matches Some(leader) ==> (is_led_by_a_replica(partition) <==> exists|i: int|
            0 <= i < partition.replicas@.len() && #[trigger] partition.replicas@[i] == leader),
{
}

/// A way of asking for offsets is answered in full when six partitions answered.
pub proof fn when_offsets_are_answered(answers: Seq<OffsetsAnswer>, answer: OffsetsAnswer)
    ensures
        fully_answered(seq![]) == 0,
        fully_answered(answers.push(answer)) == fully_answered(answers) + if answer.answered == 6 {
            1nat
        } else {
            0nat
        },
{
    assert(answers.push(answer).drop_last() =~= answers);
}

/// Traffic is summed over the connections that could be had, which are counted.
pub proof fn how_traffic_is_summed(
    connections: Seq<Option<ConnectionStats>>,
    connection: Option<ConnectionStats>,
    number: spec_fn(ConnectionStats) -> u64,
)
    ensures
        summed(seq![], number) == 0,
        sampled(seq![]) == 0,
        match connection {
            Some(stats) => {
                &&& summed(connections.push(connection), number) == summed(connections, number)
                    + number(stats)
                &&& sampled(connections.push(connection)) == sampled(connections) + 1
            },
            None => {
                &&& summed(connections.push(connection), number) == summed(connections, number)
                &&& sampled(connections.push(connection)) == sampled(connections)
            },
        },
{
    assert(connections.push(connection).drop_last() =~= connections);
}

/// The first record with a key is found.
pub proof fn the_first_record_with_a_key_is_found(
    records: Seq<RecordView>,
    key: Seq<u8>,
    k: int,
)
    requires
        0 <= k <= records.len(),
        forall|j: int| 0 <= j < k ==> (#[trigger] records[j]).key != Some(key),
    ensures
        k == records.len() ==> found(records, key) is None,
        k < records.len() && records[k].key == Some(key) ==> found(records, key) == Some(
            records[k],
        ),
    decreases records.len(),
{
    if records.len() > 0 && k > 0 {
        assert(records[0].key != Some(key));
        let rest = records.skip(1);
        assert forall|j: int| 0 <= j < k - 1 implies (#[trigger] rest[j]).key != Some(key) by {
            assert(rest[j] == records[j + 1]);
        }
        the_first_record_with_a_key_is_found(rest, key, k - 1);
        if k < records.len() {
            assert(rest[k - 1] == records[k]);
        }
    }
}

/// A codec's key is counted the first time it is read.
pub proof fn codec_keys_are_counted_once(records: Seq<RecordView>, record: RecordView)
    ensures
        codec_keys(seq![]).len() == 0,
        ({
            let before = codec_keys(records);
            let after = codec_keys(records.push(record));
            let is_codec = record.key matches Some(key) && bytes_begin(
                key,
                vstd::utf8::encode_utf8("codec-"@),
            );
            &&& is_codec && !before.contains(record.key->Some_0) ==> after == before.push(
                record.key->Some_0,
            )
            &&& !is_codec || before.contains(record.key->Some_0) ==> after == before
        }),
{
    assert(records.push(record).drop_last() =~= records);
}

/// The write path passes just when the first record came back with its value, its
/// timestamp and its headers, the tombstone without a value and the blank with an empty
/// one, and all four codecs.
pub proof fn when_the_write_path_passes(facts: Facts, records: Seq<RecordView>)
    ensures
        read_back_of(facts, records).1 is Ok <==> {
            &&& found(records, vstd::utf8::encode_utf8("customer-7"@)) matches Some(first)
            &&& found(records, vstd::utf8::encode_utf8("gone"@)) matches Some(tombstone)
            &&& found(records, vstd::utf8::encode_utf8("blank"@)) matches Some(blank)
            &&& first.value == Some(vstd::utf8::encode_utf8("{\"total\":42}"@))
            &&& first.timestamp == 1_765_000_000_000
            &&& first.headers.len() == 2
            &&& first.headers[0] == (
                "content-type"@,
                Some(vstd::utf8::encode_utf8("application/json"@)),
            )
            &&& first.headers[1] == ("tombstoned-header"@, None::<Seq<u8>>)
            &&& tombstone.value is None
            &&& blank.value == Some(Seq::<u8>::empty())
            &&& codec_keys(records).len() == 4
        },
{
    if let Some(first) = found(records, vstd::utf8::encode_utf8("customer-7"@)) {
        if first.headers.len() == 2 {
            assert(first.headers =~= seq![first.headers[0], first.headers[1]]);
        }
    }
}

} // verus!
