//! Removing what a crashed run left behind.
//!
//! The one rule: nothing without the configured prefix is ever deleted. These
//! are shared clusters holding other people's data, so the names to delete come
//! from a function that lets nothing else through.

use vstd::prelude::*;
use vstd::string::*;

use crate::livetest::target::{Target, READ_ONLY_ENV};
use crate::text::{ascending, begins_with, joined, sort_texts, text_views};

verus! {

/// Those of some names that belong to runs with a prefix, in order.
pub open spec fn owned_among(prefix: Seq<char>, names: Seq<Seq<char>>) -> Seq<Seq<char>>
    decreases names.len(),
{
    if names.len() == 0 {
        seq![]
    } else {
        let before = owned_among(prefix, names.drop_last());
        if begins_with(names.last(), prefix + "-"@) {
            before.push(names.last())
        } else {
            before
        }
    }
}

/// The names to delete: every one that this tool owns, and no other; none at
/// all of a target that is only to be read.
pub fn sweep(target: &Target, names: &Vec<String>) -> (owned: Result<Vec<String>, String>)
    ensures
        match owned {
            Ok(owned) => !target.read_only && text_views(owned@) == owned_among(
                target.prefix@,
                text_views(names@),
            ),
            Err(text) => target.read_only && text@ == "sweeping"@
                + " needs to create resources, but "@ + READ_ONLY_ENV@ + " is set"@,
        },
{
    target.require_writable("sweeping")?;
    Ok(owned_names(target, names))
}

/// Every one of some names that this tool owns.
fn owned_names(target: &Target, names: &Vec<String>) -> (owned: Vec<String>)
    ensures
        text_views(owned@) == owned_among(target.prefix@, text_views(names@)),
{
    let ghost views = text_views(names@);
    let mut owned: Vec<String> = Vec::new();
    let mut at: usize = 0;
    assert(text_views(owned@) =~= owned_among(target.prefix@, views.take(0)));
    while at < names.len()
        invariant
            at <= names.len(),
            views == text_views(names@),
            text_views(owned@) == owned_among(target.prefix@, views.take(at as int)),
        decreases names.len() - at,
    {
        let ghost before = owned@;
        assert(views.take(at + 1).drop_last() =~= views.take(at as int));
        assert(views.take(at + 1).last() == names@[at as int]@);
        if target.owns(names[at].as_str()) {
            owned.push(names[at].clone());
            assert(text_views(owned@) =~= text_views(before).push(names@[at as int]@));
        }
        at += 1;
    }
    assert(views.take(at as int) =~= views);
    owned
}

/// Nothing that lacks the prefix and its separator is chosen, and nothing that
/// has them is passed over.
pub proof fn nothing_else_is_chosen(prefix: Seq<char>, names: Seq<Seq<char>>, name: Seq<char>)
    ensures
        owned_among(prefix, names).contains(name) <==> names.contains(name) && begins_with(
            name,
            prefix + "-"@,
        ),
    decreases names.len(),
{
    if names.len() > 0 {
        let shorter = names.drop_last();
        let last = names.last();
        nothing_else_is_chosen(prefix, shorter, name);
        let before = owned_among(prefix, shorter);
        let after = owned_among(prefix, names);
        assert(names =~= shorter.push(last));
        if names.contains(name) && !shorter.contains(name) {
            let i = choose|i: int| 0 <= i < names.len() && names[i] == name;
            if i < shorter.len() {
                assert(shorter[i] == name);
            }
        }
        if shorter.contains(name) {
            let i = choose|i: int| 0 <= i < shorter.len() && shorter[i] == name;
            assert(names[i] == name);
        }
        assert(names[names.len() - 1] == last);
        if after.contains(name) && !before.contains(name) {
            let i = choose|i: int| 0 <= i < after.len() && after[i] == name;
            if i < before.len() {
                assert(before[i] == name);
            }
        }
        if before.contains(name) {
            let i = choose|i: int| 0 <= i < before.len() && before[i] == name;
            assert(after[i] == name);
        }
        if begins_with(last, prefix + "-"@) {
            assert(after[after.len() - 1] == last);
        }
    }
}

/// What was deleted, as lines: a kind and a name for each deletion that went
/// through.
pub open spec fn deleted(kind: Seq<char>, results: Seq<(Seq<char>, bool)>) -> Seq<Seq<char>>
    decreases results.len(),
{
    if results.len() == 0 {
        seq![]
    } else {
        let before = deleted(kind, results.drop_last());
        if results.last().1 {
            before.push(kind + " "@ + results.last().0)
        } else {
            before
        }
    }
}

/// Deletions, as plain values.
pub open spec fn result_views(results: Seq<(String, bool)>) -> Seq<(Seq<char>, bool)> {
    results.map_values(|result: (String, bool)| (result.0@, result.1))
}

/// Adds the lines of what was deleted.
fn note_deleted(lines: &mut Vec<String>, kind: &str, results: &Vec<(String, bool)>)
    ensures
        text_views(final(lines)@) == text_views(old(lines)@) + deleted(
            kind@,
            result_views(results@),
        ),
{
    let ghost before = text_views(lines@);
    let ghost views = result_views(results@);
    let mut at: usize = 0;
    assert(before + deleted(kind@, views.take(0)) =~= before);
    while at < results.len()
        invariant
            at <= results.len(),
            views == result_views(results@),
            text_views(lines@) == before + deleted(kind@, views.take(at as int)),
        decreases results.len() - at,
    {
        let ghost earlier = lines@;
        assert(views.take(at + 1).drop_last() =~= views.take(at as int));
        assert(views.take(at + 1).last() == views[at as int]);
        if results[at].1 {
            let mut line = joined(kind, " ");
            line.append(results[at].0.as_str());
            let ghost text = line@;
            lines.push(line);
            assert(text_views(lines@) =~= text_views(earlier).push(text));
            assert(text_views(lines@) =~= before + deleted(kind@, views.take(at + 1)));
        }
        at += 1;
    }
    assert(views.take(at as int) =~= views);
}

/// What a sweep removed, in order: the topics and groups whose deletion went
/// through.
pub fn removed(topics: &Vec<(String, bool)>, groups: &Vec<(String, bool)>) -> (lines: Vec<String>)
    ensures
        ascending(text_views(lines@)),
        text_views(lines@).to_multiset() == (deleted("topic"@, result_views(topics@)) + deleted(
            "group"@,
            result_views(groups@),
        )).to_multiset(),
{
    let mut lines: Vec<String> = Vec::new();
    assert(text_views(lines@) =~= seq![]);
    note_deleted(&mut lines, "topic", topics);
    note_deleted(&mut lines, "group", groups);
    assert(text_views(lines@) =~= deleted("topic"@, result_views(topics@)) + deleted(
        "group"@,
        result_views(groups@),
    ));
    sort_texts(lines)
}

} // verus!
