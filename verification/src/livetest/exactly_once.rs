//! Exactly-once cycles: consume, process, produce, with offsets that move only
//! when the transaction commits.
//!
//! The aborted half is the assertion that matters. An offset commit that merely
//! runs next to a transaction passes a check of commits alone.

use vstd::prelude::*;
use vstd::string::*;
use crate::livetest::read::verdict_of;
use crate::livetest::report::Report;
use crate::read::batch::{saturating, saturating_difference};
use crate::text::{
    decimal, decimal_of, joined, quote, quoted, same, signed, signed_of, strung, text_views, truth,
};

verus! {

/// How many records a cycle moves.
pub const EOS_RECORDS: usize = 25;

/// The partition that a cycle reads.
pub const EOS_PARTITION: i32 = 2;

/// Where a cycle starts to read: back over exactly what it seeded, because the
/// partition is shared with other sections.
pub fn seek_start(position: Option<i64>) -> (start: i64)
    ensures
        start == saturating(
            match position {
                Some(position) => position as int,
                None => 0,
            } - EOS_RECORDS,
        ),
{
    let end: i64 = match position {
        Some(position) => position,
        None => 0,
    };
    saturating_difference(end, EOS_RECORDS as i64)
}

/// Whether a cycle reads on: until it has all that was seeded, or time is up.
pub fn reads_on(consumed: usize, expired: bool) -> (on: bool)
    ensures
        on == (consumed < EOS_RECORDS && !expired),
{
    consumed < EOS_RECORDS && !expired
}

/// Whether a member reads on: until it owns partitions and has read something,
/// or time is up.
pub fn member_reads_on(assigned: usize, consumed: usize, expired: bool) -> (on: bool)
    ensures
        on == ((assigned == 0 || consumed == 0) && !expired),
{
    (assigned == 0 || consumed == 0) && !expired
}

/// Whether to go by the offsets that a group has now: once there are as many as
/// are wanted, or time is up.
pub fn offsets_settled(stored: usize, wanted: usize, expired: bool) -> (settled: bool)
    ensures
        settled == (stored >= wanted || expired),
{
    stored >= wanted || expired
}

/// Takes in how much a cycle read, and judges it.
pub fn cycle_read(report: &mut Report, consumed: usize) -> (verdict: Result<(), String>)
    requires
        old(report)@.wf(),
    ensures
        final(report)@.wf(),
        final(report)@.notes == old(report)@.notes,
        if consumed < EOS_RECORDS {
            &&& final(report)@.facts() == old(report)@.facts()
            &&& verdict_of(verdict) == Err::<(), _>(
                "the cycle only read "@ + decimal_of(consumed as nat) + " of 25 seeded records"@,
            )
        } else {
            &&& final(report)@.facts() == old(report)@.facts().insert(
                "eos.consumed"@,
                decimal_of(consumed as nat),
            )
            &&& verdict_of(verdict) == Ok::<_, Seq<char>>(())
        },
{
    if consumed < EOS_RECORDS {
        let mut text = joined("the cycle only read ", decimal(consumed as u64).as_str());
        text.append(" of 25 seeded records");
        return Err(text);
    }
    report.set_count("eos.consumed", consumed as u64);
    Ok(())
}

/// The offset of one partition.
#[derive(Debug)]
pub struct PartitionOffset {
    /// Topic.
    pub topic: String,
    /// Partition.
    pub partition: i32,
    /// Offset.
    pub offset: i64,
}

/// The offset that is listed first for a partition.
pub open spec fn offset_of(offsets: Seq<PartitionOffset>, topic: Seq<char>, partition: i32) -> Option<
    i64,
>
    decreases offsets.len(),
{
    if offsets.len() == 0 {
        None
    } else if offsets[0].topic@ == topic && offsets[0].partition == partition {
        Some(offsets[0].offset)
    } else {
        offset_of(offsets.skip(1), topic, partition)
    }
}

/// The offset that is listed first for a partition.
pub fn find_offset(offsets: &Vec<PartitionOffset>, topic: &str, partition: i32) -> (offset: Option<
    i64,
>)
    ensures
        offset == offset_of(offsets@, topic@, partition),
{
    let mut at: usize = 0;
    assert(offsets@.skip(0) =~= offsets@);
    while at < offsets.len()
        invariant
            at <= offsets.len(),
            offset_of(offsets@, topic@, partition) == offset_of(
                offsets@.skip(at as int),
                topic@,
                partition,
            ),
        decreases offsets.len() - at,
    {
        assert(offsets@.skip(at as int)[0] == offsets@[at as int]);
        assert(offsets@.skip(at as int).skip(1) =~= offsets@.skip(at + 1));
        if same(&offsets[at].topic, topic) && offsets[at].partition == partition {
            return Some(offsets[at].offset);
        }
        at += 1;
    }
    None
}

/// An optional offset as the `Debug` format writes it.
pub open spec fn optional_text(offset: Option<i64>) -> Seq<char> {
    match offset {
        Some(offset) => "Some("@ + signed_of(offset as int) + ")"@,
        None => "None"@,
    }
}

/// An optional offset as the `Debug` format writes it.
fn optional_words(offset: Option<i64>) -> (text: String)
    ensures
        text@ == optional_text(offset),
{
    match offset {
        Some(offset) => {
            let mut text = joined("Some(", signed(offset).as_str());
            text.append(")");
            text
        },
        None => "None".to_owned(),
    }
}

/// Takes in what the group has committed after an aborted cycle, and judges it:
/// the offsets must have gone with the transaction.
pub fn after_abort(report: &mut Report, committed: &Vec<PartitionOffset>, topic: &str) -> (verdict:
    Result<(), String>)
    requires
        old(report)@.wf(),
    ensures
        final(report)@.wf(),
        final(report)@.notes == old(report)@.notes,
        final(report)@.facts() == old(report)@.facts().insert(
            "eos.committed_after_abort"@,
            decimal_of(committed@.len()),
        ),
        verdict_of(verdict) == if committed@.len() == 0 {
            Ok::<_, Seq<char>>(())
        } else {
            Err(
                "an aborted transaction moved the group's offset to "@ + optional_text(
                    offset_of(committed@, topic@, EOS_PARTITION),
                ) + ", so the offsets were never inside it"@,
            )
        },
{
    report.set_count("eos.committed_after_abort", committed.len() as u64);
    if committed.len() > 0 {
        let moved = find_offset(committed, topic, EOS_PARTITION);
        let mut text = joined(
            "an aborted transaction moved the group's offset to ",
            optional_words(moved).as_str(),
        );
        text.append(", so the offsets were never inside it");
        return Err(text);
    }
    Ok(())
}

/// Takes in what the group has committed after a committed cycle, and judges
/// it: the position that was consumed.
pub fn exactly_once(
    report: &mut Report,
    positions: &Vec<PartitionOffset>,
    stored: &Vec<PartitionOffset>,
    topic: &str,
) -> (verdict: Result<(), String>)
    requires
        old(report)@.wf(),
    ensures
        final(report)@.wf(),
        final(report)@.notes == old(report)@.notes,
        ({
            let expected = offset_of(positions@, topic@, EOS_PARTITION);
            let actual = offset_of(stored@, topic@, EOS_PARTITION);
            let recorded = old(report)@.facts().insert(
                "eos.committed_offset"@,
                match actual {
                    Some(offset) => signed_of(offset as int),
                    None => "-"@,
                },
            );
            if actual is None || actual != expected {
                &&& final(report)@.facts() == recorded
                &&& verdict_of(verdict) == Err::<(), _>(
                    "a committed transaction stored "@ + optional_text(actual)
                        + ", not the consumed position "@ + optional_text(expected),
                )
            } else {
                &&& final(report)@.facts() == recorded.insert(
                    "eos.offsets_move_with_the_transaction"@,
                    truth(true),
                )
                &&& verdict_of(verdict) == Ok::<_, Seq<char>>(())
            }
        }),
{
    let expected = find_offset(positions, topic, EOS_PARTITION);
    let actual = find_offset(stored, topic, EOS_PARTITION);
    match actual {
        Some(offset) => report.set_number("eos.committed_offset", offset),
        None => report.set_text("eos.committed_offset", "-"),
    }
    let matches = match (actual, expected) {
        (Some(actual), Some(expected)) => actual == expected,
        _ => false,
    };
    if !matches {
        let mut text = joined(
            "a committed transaction stored ",
            optional_words(actual).as_str(),
        );
        text.append(", not the consumed position ");
        text.append(optional_words(expected).as_str());
        return Err(text);
    }
    report.set_flag("eos.offsets_move_with_the_transaction", true);
    Ok(())
}

/// Who commits a cycle as a member of a group.
#[derive(Debug, Clone, Copy, PartialEq, Eq, Structural)]
pub struct MemberState {
    /// The generation it is in.
    pub generation: i32,
    /// Whether it was given an id.
    pub id_issued: bool,
    /// Whether it counts as a member.
    pub is_member: bool,
}

/// Takes in how much a member read and what it commits as, and judges it.
pub fn member_read(report: &mut Report, consumed: usize, member: &MemberState) -> (verdict: Result<
    (),
    String,
>)
    requires
        old(report)@.wf(),
    ensures
        final(report)@.wf(),
        final(report)@.notes == old(report)@.notes,
        if consumed == 0 {
            &&& final(report)@.facts() == old(report)@.facts()
            &&& verdict_of(verdict) == Err::<(), _>("the member never read anything to commit"@)
        } else {
            &&& final(report)@.facts() == old(report)@.facts().insert(
                "eos.member.consumed"@,
                decimal_of(consumed as nat),
            ).insert("eos.member.epoch"@, signed_of(member.generation as int)).insert(
                "eos.member.id_issued"@,
                truth(member.id_issued),
            ).insert("eos.member.is_member"@, truth(member.is_member))
            &&& verdict_of(verdict) == Ok::<_, Seq<char>>(())
        },
{
    if consumed == 0 {
        return Err("the member never read anything to commit".to_owned());
    }
    report.set_count("eos.member.consumed", consumed as u64);
    report.set_number("eos.member.epoch", member.generation as i64);
    report.set_flag("eos.member.id_issued", member.id_issued);
    report.set_flag("eos.member.is_member", member.is_member);
    Ok(())
}

/// Takes in how many partitions the group has committed after a member's
/// aborted cycle, and judges it.
pub fn member_after_abort(report: &mut Report, committed: usize) -> (verdict: Result<(), String>)
    requires
        old(report)@.wf(),
    ensures
        final(report)@.wf(),
        final(report)@.notes == old(report)@.notes,
        final(report)@.facts() == old(report)@.facts().insert(
            "eos.member.committed_after_abort"@,
            decimal_of(committed as nat),
        ),
        verdict_of(verdict) == if committed == 0 {
            Ok::<_, Seq<char>>(())
        } else {
            Err("an aborted transaction moved a group member's offsets"@)
        },
{
    report.set_count("eos.member.committed_after_abort", committed as u64);
    if committed > 0 {
        return Err("an aborted transaction moved a group member's offsets".to_owned());
    }
    Ok(())
}

/// What is said of a position that was not stored.
pub open spec fn mismatch(position: PartitionOffset, stored: Option<i64>) -> Seq<char> {
    position.topic@ + "-"@ + signed_of(position.partition as int) + " wanted "@ + signed_of(
        position.offset as int,
    ) + ", stored "@ + optional_text(stored)
}

/// The positions that were not stored, in order, with what was.
pub open spec fn mismatched(positions: Seq<PartitionOffset>, stored: Seq<PartitionOffset>) -> Seq<
    Seq<char>,
>
    decreases positions.len(),
{
    if positions.len() == 0 {
        seq![]
    } else {
        let before = mismatched(positions.drop_last(), stored);
        let position = positions.last();
        let found = offset_of(stored, position.topic@, position.partition);
        if found == Some(position.offset) {
            before
        } else {
            before.push(mismatch(position, found))
        }
    }
}

/// Texts in quotes, with a comma between each two.
pub open spec fn listed_quoted(texts: Seq<Seq<char>>) -> Seq<char> {
    strung(texts.map_values(|text: Seq<char>| quoted(text)), ", "@)
}

/// Takes in what the group has committed after a member's committed cycle, and
/// judges it: every position that was consumed has to be stored as it is.
pub fn exactly_once_as_member(
    report: &mut Report,
    positions: &Vec<PartitionOffset>,
    stored: &Vec<PartitionOffset>,
) -> (verdict: Result<(), String>)
    requires
        old(report)@.wf(),
    ensures
        final(report)@.wf(),
        final(report)@.notes == old(report)@.notes,
        ({
            let wrong = mismatched(positions@, stored@);
            let recorded = old(report)@.facts().insert(
                "eos.member.committed_partitions"@,
                decimal_of(stored@.len()),
            );
            if wrong.len() > 0 {
                &&& final(report)@.facts() == recorded
                &&& verdict_of(verdict) == Err::<(), _>(
                    "a member's transactional commit stored the wrong offsets: ["@ + listed_quoted(
                        wrong,
                    ) + "]"@,
                )
            } else {
                &&& final(report)@.facts() == recorded.insert(
                    "eos.member.offsets_move_with_the_transaction"@,
                    truth(true),
                )
                &&& verdict_of(verdict) == Ok::<_, Seq<char>>(())
            }
        }),
{
    report.set_count("eos.member.committed_partitions", stored.len() as u64);
    let mut quotes: Vec<String> = Vec::new();
    let mut at: usize = 0;
    let ghost all = mismatched(positions@, stored@);
    assert(text_views(quotes@) =~= mismatched(positions@.take(0), stored@).map_values(
        |text: Seq<char>| quoted(text),
    ));
    while at < positions.len()
        invariant
            at <= positions.len(),
            text_views(quotes@) == mismatched(positions@.take(at as int), stored@).map_values(
                |text: Seq<char>| quoted(text),
            ),
        decreases positions.len() - at,
    {
        let ghost before = mismatched(positions@.take(at as int), stored@);
        let ghost held = quotes@;
        assert(positions@.take(at + 1).drop_last() =~= positions@.take(at as int));
        assert(positions@.take(at + 1).last() == positions@[at as int]);
        let position = &positions[at];
        let found = find_offset(stored, position.topic.as_str(), position.partition);
        let same_offset = match found {
            Some(offset) => offset == position.offset,
            None => false,
        };
        if !same_offset {
            let mut text = joined(position.topic.as_str(), "-");
            text.append(signed(position.partition as i64).as_str());
            text.append(" wanted ");
            text.append(signed(position.offset).as_str());
            text.append(", stored ");
            text.append(optional_words(found).as_str());
            assert(text@ =~= mismatch(*position, found));
            let line = quote(text.as_str());
            let ghost view = line@;
            quotes.push(line);
            assert(text_views(quotes@) =~= text_views(held).push(view));
            assert(text_views(quotes@) =~= before.push(text@).map_values(
                |text: Seq<char>| quoted(text),
            ));
        }
        at += 1;
    }
    assert(positions@.take(at as int) =~= positions@);
    assert(text_views(quotes@).len() == all.len());
    if quotes.len() > 0 {
        let mut text = joined(
            "a member's transactional commit stored the wrong offsets: [",
            crate::text::join(&quotes, ", ").as_str(),
        );
        text.append("]");
        return Err(text);
    }
    report.set_flag("eos.member.offsets_move_with_the_transaction", true);
    Ok(())
}

/// A cycle of a member passes just when every position it consumed is stored.
pub proof fn every_position_must_be_stored(
    positions: Seq<PartitionOffset>,
    stored: Seq<PartitionOffset>,
)
    ensures
        mismatched(positions, stored).len() == 0 <==> forall|i: int|
            0 <= i < positions.len() ==> offset_of(
                stored,
                (#[trigger] positions[i]).topic@,
                positions[i].partition,
            ) == Some(positions[i].offset),
    decreases positions.len(),
{
    if positions.len() > 0 {
        let before = positions.drop_last();
        every_position_must_be_stored(before, stored);
        let last = positions.len() - 1;
        assert(positions.last() == positions[last]);
        if mismatched(positions, stored).len() == 0 {
            assert forall|i: int| 0 <= i < positions.len() implies offset_of(
                stored,
                (#[trigger] positions[i]).topic@,
                positions[i].partition,
            ) == Some(positions[i].offset) by {
                if i < last {
                    assert(before[i] == positions[i]);
                }
            }
        } else if forall|i: int|
            0 <= i < positions.len() ==> offset_of(
                stored,
                (#[trigger] positions[i]).topic@,
                positions[i].partition,
            ) == Some(positions[i].offset) {
            assert forall|i: int| 0 <= i < before.len() implies offset_of(
                stored,
                (#[trigger] before[i]).topic@,
                before[i].partition,
            ) == Some(before[i].offset) by {
                assert(before[i] == positions[i]);
            }
        }
    }
}

} // verus!
