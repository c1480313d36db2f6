//! What holds of every answer that is read and of every scan that is planned.

use vstd::prelude::*;

use crate::compression::Compression;
use crate::error::{code_for, ErrorKindView, ErrorView};
use crate::read::batch::Visibility;
use crate::read::decompress::{
    block_length, decompressed, gunzipped, unblocked, unframed, unlz4, unpacked, unzstd,
    xerial_magic, DecompressErrorView,
};
use crate::read::fetch::{
    content, fetch_name, fetched_of, first_failure, isolation_of, FetchAnswer,
};
use crate::read::offsets::{bounds_of, listed, place, Listed};
use crate::read::scan::{
    cursor_of, narrowed, start_of, window_of, PartitionFacts, StartPosition, StartSubstitution,
};
use crate::text::signed_of;
use crate::wire::TopicRefView;

verus! {

/// What a codec puts out is taken whole or not at all: all of it, where it is within
/// the limit; a refusal that names the codec, where there is more; and the codec's own
/// complaint, where it has one. What has no codec is its own output.
pub proof fn nothing_is_cut_short(input: Seq<u8>, limit: usize)
    requires
        limit < u64::MAX,
    ensures
        ({
            let more = (limit + 1) as u64;
            &&& kept_whole(Compression::Uncompressed, input, Ok(input), limit)
            &&& kept_whole(Compression::Gzip, input, gunzipped(input, more), limit)
            &&& kept_whole(Compression::Lz4, input, unlz4(input, more), limit)
            &&& kept_whole(Compression::Zstd, input, unzstd(input, more), limit)
        }),
{
}

/// Whether decompressing takes a codec's output whole or not at all.
pub open spec fn kept_whole(
    codec: Compression,
    input: Seq<u8>,
    output: Result<Seq<u8>, Seq<char>>,
    limit: usize,
) -> bool {
    let result = decompressed(input, codec, limit);
    &&& output matches Ok(bytes) ==> {
        &&& bytes.len() <= limit ==> result == Ok::<Seq<u8>, DecompressErrorView>(bytes)
        &&& bytes.len() > limit ==> result == Err::<Seq<u8>, DecompressErrorView>(
            DecompressErrorView::PastLimit { codec, limit },
        )
    }
    &&& output matches Err(reason) ==> result == Err::<Seq<u8>, DecompressErrorView>(
        DecompressErrorView::Codec { reason },
    )
}

/// A snappy batch is read in either framing: as frames if it opens with the sixteen
/// bytes that say so, and is short enough that 68 times its length is within the limit;
/// else as one block, if the length it declares is.
pub proof fn snappy_comes_in_two_framings(input: Seq<u8>, limit: usize)
    ensures
        ({
            let result = decompressed(input, Compression::Snappy, limit);
            let framed = input.len() >= 16 && input.take(16) == seq![
                0x82u8, 0x53, 0x4e, 0x41, 0x50, 0x50, 0x59, 0, 0, 0, 0, 1, 0, 0, 0, 1,
            ];
            &&& framed && input.len() > limit / 68 ==> result is Err
                && result->Err_0 is FrameTooLong
            &&& framed && input.len() <= limit / 68 ==> match unframed(input) {
                Ok(bytes) => result == Ok::<Seq<u8>, DecompressErrorView>(bytes),
                Err(reason) => result == Err::<Seq<u8>, DecompressErrorView>(
                    DecompressErrorView::Codec { reason },
                ),
            }
            &&& !framed ==> match block_length(input) {
                Err(reason) => result == Err::<Seq<u8>, DecompressErrorView>(
                    DecompressErrorView::NoBlockLength { reason },
                ),
                Ok(declared) => if declared > limit {
                    result == Err::<Seq<u8>, DecompressErrorView>(
                        DecompressErrorView::BlockTooLong { declared, limit },
                    )
                } else {
                    match unblocked(input, declared) {
                        Ok(bytes) => result == Ok::<Seq<u8>, DecompressErrorView>(bytes),
                        Err(reason) => result == Err::<Seq<u8>, DecompressErrorView>(
                            DecompressErrorView::Codec { reason },
                        ),
                    }
                },
            }
        }),
{
    let magic = seq![0x82u8, 0x53, 0x4e, 0x41, 0x50, 0x50, 0x59, 0, 0, 0, 0, 1, 0, 0, 0, 1];
    assert(xerial_magic() =~= magic);
    assert(magic.len() == 16);
    assert(xerial_magic().is_prefix_of(input) == (input.len() >= 16 && input.take(16) == magic))
        by {
        if input.len() >= 16 {
            assert(input.take(16) =~= input.subrange(0, 16));
        }
    }
}

/// What is unpacked is what was decompressed, and has 6 bytes or more for every record
/// that is claimed; where it has not, the claim is refused.
pub proof fn a_claim_needs_bytes(input: Seq<u8>, codec: Compression, claimed: usize, limit: usize)
    ensures
        match decompressed(input, codec, limit) {
            Ok(bytes) => {
                &&& 6 * claimed <= bytes.len() ==> unpacked(input, codec, claimed, limit) == Ok::<
                    Seq<u8>,
                    DecompressErrorView,
                >(bytes)
                &&& 6 * claimed > bytes.len() ==> unpacked(input, codec, claimed, limit) is Err
                    && unpacked(input, codec, claimed, limit)->Err_0 is TooManyRecords
            },
            Err(error) => unpacked(input, codec, claimed, limit) == Err::<
                Seq<u8>,
                DecompressErrorView,
            >(error),
        },
{
}

/// Up to version 12 a fetch names its topic; from 13 on it gives the topic's id, and is
/// refused where there is none.
pub proof fn how_a_fetch_names_a_topic(topic: Seq<char>, topic_id: u128, version: i16)
    ensures
        version < 13 ==> fetch_name(topic, topic_id, version) == Ok::<TopicRefView, ErrorView>(
            TopicRefView::Name(topic),
        ),
        version >= 13 && topic_id != 0 ==> fetch_name(topic, topic_id, version) == Ok::<
            TopicRefView,
            ErrorView,
        >(TopicRefView::Id(topic_id)),
        version >= 13 && topic_id == 0 ==> (fetch_name(topic, topic_id, version) matches Err(error)
            && error.kind is InvalidRequest && !error.retriable),
{
}

/// The protocol's isolation levels: everything is zero, and what is committed is one.
pub proof fn isolation_levels_are_the_protocols(visibility: Visibility)
    ensures
        visibility == Visibility::All ==> isolation_of(visibility) == 0,
        visibility == Visibility::CommittedOnly ==> isolation_of(visibility) == 1,
{
}

/// What is read of a partition is what its answer holds; what is absent is empty.
pub proof fn what_an_answer_holds(answer: FetchAnswer)
    ensures
        content(answer).partition == answer.partition,
        content(answer).high_watermark == answer.high_watermark,
        content(answer).last_stable_offset == answer.last_stable_offset,
        content(answer).log_start_offset == answer.log_start_offset,
        answer.records matches Some(records) ==> content(answer).records == records@,
        answer.records is None ==> content(answer).records.len() == 0,
        answer.aborted matches Some(aborted) ==> content(answer).aborted == aborted@,
        answer.aborted is None ==> content(answer).aborted.len() == 0,
{
}

/// An answer fails as a whole by its own code; else by the first of its partitions
/// that has one, with the partition's name; and without a code anywhere it holds every
/// partition's part, in order.
pub proof fn the_first_code_fails_an_answer(
    topic: Seq<char>,
    error_code: i16,
    answers: Seq<FetchAnswer>,
    k: int,
)
    requires
        0 <= k <= answers.len(),
        forall|j: int| 0 <= j < k ==> (#[trigger] answers[j]).error_code == 0,
    ensures
        error_code != 0 ==> (fetched_of(topic, error_code, answers) matches Err(error)
            && error.kind == (ErrorKindView::Broker {
            code: code_for(error_code)->Some_0,
            context: None,
        })),
        error_code == 0 && k == answers.len() ==> (fetched_of(
            topic,
            error_code,
            answers,
        ) matches Ok(parts) && parts.len() == answers.len() && forall|j: int|
            0 <= j < answers.len() ==> #[trigger] parts[j] == content(answers[j])),
        error_code == 0 && k < answers.len() && answers[k].error_code != 0 ==> (fetched_of(
            topic,
            error_code,
            answers,
        ) matches Err(error) && error.kind == (ErrorKindView::Broker {
            code: code_for(answers[k].error_code)->Some_0,
            context: Some(place(topic, answers[k].partition)),
        })),
{
    lemma_first_failure(topic, answers, k);
}

/// The first part that has a code.
proof fn lemma_first_failure(topic: Seq<char>, answers: Seq<FetchAnswer>, k: int)
    requires
        0 <= k <= answers.len(),
        forall|j: int| 0 <= j < k ==> (#[trigger] answers[j]).error_code == 0,
    ensures
        k == answers.len() ==> first_failure(topic, answers) is None,
        k < answers.len() && answers[k].error_code != 0 ==> (first_failure(
            topic,
            answers,
        ) matches Some(error) && error.kind == (ErrorKindView::Broker {
            code: code_for(answers[k].error_code)->Some_0,
            context: Some(place(topic, answers[k].partition)),
        })),
    decreases answers.len(),
{
    if answers.len() > 0 {
        let before = answers.drop_last();
        assert forall|j: int| 0 <= j < before.len() implies before[j] == #[trigger] answers[j] by {}
        if k == answers.len() {
            assert(answers[k - 1].error_code == 0);
            lemma_first_failure(topic, before, k - 1);
        } else {
            lemma_first_failure(topic, before, k);
        }
    }
}

/// What is listed for a partition is in its first answer: a failure, by its code; an
/// offset; or none, where the offset is negative or there is no answer.
pub proof fn the_first_listing_counts(
    topic: Seq<char>,
    partition: i32,
    answers: Seq<Listed>,
    k: int,
)
    requires
        0 <= k <= answers.len(),
        forall|j: int| 0 <= j < k ==> (#[trigger] answers[j]).partition != partition,
    ensures
        k == answers.len() ==> listed(topic, partition, answers) == Ok::<Option<i64>, ErrorView>(
            None,
        ),
        k < answers.len() && answers[k].partition == partition ==> {
            let answer = answers[k];
            &&& answer.error_code != 0 ==> (listed(topic, partition, answers) matches Err(error)
                && error.kind == (ErrorKindView::Broker {
                code: code_for(answer.error_code)->Some_0,
                context: Some(place(topic, partition)),
            }))
            &&& answer.error_code == 0 && answer.offset >= 0 ==> listed(topic, partition, answers)
                == Ok::<Option<i64>, ErrorView>(Some(answer.offset))
            &&& answer.error_code == 0 && answer.offset < 0 ==> listed(topic, partition, answers)
                == Ok::<Option<i64>, ErrorView>(None)
        },
    decreases answers.len(),
{
    if answers.len() > 0 && k > 0 {
        assert(answers[0].partition != partition);
        let rest = answers.skip(1);
        assert forall|j: int| 0 <= j < k - 1 implies (#[trigger] rest[j]).partition != partition by {
            assert(rest[j] == answers[j + 1]);
        }
        the_first_listing_counts(topic, partition, rest, k - 1);
        if k < answers.len() {
            assert(rest[k - 1] == answers[k]);
        }
    }
}

/// A place is the topic, a dash, and the partition.
pub proof fn how_a_place_is_written(topic: Seq<char>, partition: i32)
    ensures
        place(topic, partition).len() == topic.len() + 1 + signed_of(partition as int).len(),
        place(topic, partition).take(topic.len() as int) == topic,
        place(topic, partition)[topic.len() as int] == '-',
        place(topic, partition).skip(topic.len() as int + 1) == signed_of(partition as int),
{
    reveal_strlit("-");
    assert(place(topic, partition).take(topic.len() as int) =~= topic);
    assert(place(topic, partition).skip(topic.len() as int + 1) =~= signed_of(partition as int));
}

/// A partition's bounds are the offsets that are listed for it: without an earliest it
/// starts at zero, and it does not end before it starts.
pub proof fn what_the_bounds_are(earliest: Option<i64>, latest: Option<i64>)
    ensures
        earliest matches Some(first) ==> bounds_of(earliest, latest).0 == first,
        earliest is None ==> bounds_of(earliest, latest).0 == 0,
        latest matches Some(last) ==> (last >= bounds_of(earliest, latest).0 ==> bounds_of(
            earliest,
            latest,
        ).1 == last),
        latest matches Some(last) ==> (last < bounds_of(earliest, latest).0 ==> bounds_of(
            earliest,
            latest,
        ).1 == bounds_of(earliest, latest).0),
        latest is None ==> bounds_of(earliest, latest).1 == bounds_of(earliest, latest).0,
{
}

/// Where a partition's scan starts: at its first offset, at its end, at the offset that
/// was asked for if the log has it and else at the nearer end, or at the first record
/// from a time on and else at the end. Whatever was asked for and not done is said.
pub proof fn where_a_scan_starts(from: StartPosition, facts: PartitionFacts)
    requires
        facts.earliest <= facts.latest,
    ensures
        ({
            let (start, substituted) = start_of(from, facts);
            &&& from is Earliest ==> start == facts.earliest && substituted is None
            &&& from is Latest ==> start == facts.latest && substituted is None
            &&& from matches StartPosition::Offset(offset) ==> {
                &&& facts.earliest <= offset <= facts.latest ==> start == offset
                    && substituted is None
                &&& offset < facts.earliest ==> start == facts.earliest && substituted == Some(
                    StartSubstitution::OffsetBelowLogStart {
                        requested: offset,
                        log_start: facts.earliest,
                    },
                )
                &&& offset > facts.latest ==> start == facts.latest && substituted == Some(
                    StartSubstitution::OffsetBeyondLogEnd {
                        requested: offset,
                        log_end: facts.latest,
                    },
                )
            }
            &&& from matches StartPosition::Timestamp(timestamp) ==> {
                &&& facts.at_timestamp matches Some(offset) ==> start == offset
                    && substituted is None
                &&& facts.at_timestamp is None ==> start == facts.latest && substituted == Some(
                    StartSubstitution::TimestampUnresolved {
                        requested: timestamp,
                        log_end: facts.latest,
                    },
                )
            }
        }),
{
}

/// A cursor starts out where its partition's scan does, with nothing read, and ends where
/// the log did then; a browse that starts there is through at once, and a tail is not.
pub proof fn how_a_cursor_starts_out(from: StartPosition, follow: bool, facts: PartitionFacts)
    ensures
        ({
            let cursor = cursor_of(from, follow, facts);
            let start = start_of(from, facts).0;
            &&& cursor.partition == facts.partition
            &&& cursor.leader == facts.leader
            &&& cursor.start_offset == start
            &&& cursor.next_offset == start
            &&& cursor.end_offset == facts.latest
            &&& cursor.substituted == start_of(from, facts).1
            &&& cursor.buffered.len() == 0
            &&& follow ==> !cursor.finished
            &&& !follow ==> (cursor.finished <==> start >= facts.latest)
        }),
{
}

/// The caveat about the order is the buffer's budget, spread over the partitions that
/// are merged; of one partition there is none.
pub proof fn how_wide_the_caveat_is(budget: usize, merging: nat)
    ensures
        merging <= 1 ==> window_of(budget, merging) == 0,
        merging > 1 ==> {
            &&& window_of(budget, merging) * merging <= budget
            &&& budget < (window_of(budget, merging) + 1) * merging
        },
{
    if merging > 1 {
        let b = budget as nat;
        let q = b / merging;
        assert(q * merging <= b < (q + 1) * merging) by (nonlinear_arith)
            requires
                q == b / merging,
                merging > 1,
        ;
        assert(q <= b) by (nonlinear_arith)
            requires
                q * merging <= b,
                merging > 1,
        ;
    }
}

/// A count is narrowed to 32 bits at its ends only.
pub proof fn a_count_is_narrowed_at_its_ends(n: i64)
    ensures
        0 <= n <= u32::MAX ==> narrowed(n) == n,
        n < 0 ==> narrowed(n) == 0,
        n > u32::MAX ==> narrowed(n) == u32::MAX,
{
}

} // verus!
