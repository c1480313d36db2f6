//! A deterministic, line-oriented report.
//!
//! Sorted `key = value` lines, so that comparing two runs is a matter of
//! comparing two texts: a flat sorted key space shows one difference as one
//! line.

use vstd::prelude::*;
use vstd::string::*;

use crate::text::{
    decimal, decimal_of, lemma_order_is_transitive, lemma_texts_are_ordered, letters, precedes,
    signed, signed_of, spelled, standing, text_views, trim, trimmed, truth, truth_text, Standing,
};

verus! {

/// A collected report.
#[derive(Debug)]
pub struct Report {
    entries: Vec<(String, String)>,
    notes: Vec<String>,
}

/// One fact, as plain sequences.
pub type FactView = (Seq<char>, Seq<char>);

/// A [`Report`], as plain sequences.
pub struct ReportView {
    pub entries: Seq<FactView>,
    pub notes: Seq<Seq<char>>,
}

/// Facts, as plain sequences.
pub open spec fn fact_views(entries: Seq<(String, String)>) -> Seq<FactView> {
    entries.map_values(|entry: (String, String)| (entry.0@, entry.1@))
}

impl View for Report {
    type V = ReportView;

    closed spec fn view(&self) -> ReportView {
        ReportView { entries: fact_views(self.entries@), notes: text_views(self.notes@) }
    }
}

/// The facts that some entries state, by key.
pub open spec fn facts_of(entries: Seq<FactView>) -> Map<Seq<char>, Seq<char>>
    decreases entries.len(),
{
    if entries.len() == 0 {
        Map::empty()
    } else {
        facts_of(entries.drop_last()).insert(entries.last().0, entries.last().1)
    }
}

/// Some entries, one line each.
pub open spec fn lines_of(entries: Seq<FactView>) -> Seq<char>
    decreases entries.len(),
{
    if entries.len() == 0 {
        seq![]
    } else {
        lines_of(entries.drop_last()) + entries.last().0 + " = "@ + entries.last().1 + "\n"@
    }
}

/// Some notes, one comment line each.
pub open spec fn comments_of(notes: Seq<Seq<char>>) -> Seq<char>
    decreases notes.len(),
{
    if notes.len() == 0 {
        seq![]
    } else {
        comments_of(notes.drop_last()) + "# "@ + notes.last() + "\n"@
    }
}

/// Whether the keys of some entries rise.
pub open spec fn sorted(entries: Seq<FactView>) -> bool {
    forall|i: int, j: int|
        0 <= i < j < entries.len() ==> precedes(
            (#[trigger] entries[i]).0,
            (#[trigger] entries[j]).0,
        )
}

impl ReportView {
    /// What holds of every report: its keys rise, so none occurs twice.
    pub open spec fn wf(self) -> bool {
        sorted(self.entries)
    }

    /// The facts, by key.
    pub open spec fn facts(self) -> Map<Seq<char>, Seq<char>> {
        facts_of(self.entries)
    }
}

/// A fact is stated just when an entry states it.
proof fn lemma_facts(entries: Seq<FactView>)
    requires
        sorted(entries),
    ensures
        forall|i: int|
            0 <= i < entries.len() ==> facts_of(entries).contains_key((#[trigger] entries[i]).0)
                && facts_of(entries)[entries[i].0] == entries[i].1,
        forall|key: Seq<char>| #[trigger]
            facts_of(entries).contains_key(key) ==> exists|i: int|
                0 <= i < entries.len() && (#[trigger] entries[i]).0 == key,
    decreases entries.len(),
{
    if entries.len() > 0 {
        let before = entries.drop_last();
        let last = entries.last();
        assert(sorted(before)) by {
            assert forall|i: int, j: int| 0 <= i < j < before.len() implies precedes(
                (#[trigger] before[i]).0,
                (#[trigger] before[j]).0,
            ) by {
                assert(entries[i] == before[i] && entries[j] == before[j]);
            }
        }
        lemma_facts(before);
        assert forall|i: int| 0 <= i < entries.len() implies facts_of(entries).contains_key(
            (#[trigger] entries[i]).0,
        ) && facts_of(entries)[entries[i].0] == entries[i].1 by {
            if i < before.len() {
                assert(before[i] == entries[i]);
                lemma_texts_are_ordered(entries[i].0, last.0);
                assert(precedes(entries[i].0, entries[entries.len() - 1].0));
            }
        }
        assert forall|key: Seq<char>| #[trigger] facts_of(entries).contains_key(key) implies exists|
            i: int,
        |
            0 <= i < entries.len() && (#[trigger] entries[i]).0 == key by {
            if key == last.0 {
                assert(entries[entries.len() - 1].0 == key);
            } else {
                assert(facts_of(before).contains_key(key));
                let i = choose|i: int| 0 <= i < before.len() && (#[trigger] before[i]).0 == key;
                assert(entries[i] == before[i]);
            }
        }
    }
}

/// Two lists of entries whose keys rise and which state the same facts are the
/// same list.
proof fn lemma_facts_determine_entries(a: Seq<FactView>, b: Seq<FactView>)
    requires
        sorted(a),
        sorted(b),
        facts_of(a) == facts_of(b),
    ensures
        a == b,
    decreases a.len(),
{
    lemma_facts(a);
    lemma_facts(b);
    if a.len() == 0 {
        if b.len() > 0 {
            assert(facts_of(b).contains_key(b[0].0));
        }
        assert(a =~= b);
    } else {
        let last = a.last();
        assert(a[a.len() - 1] == last);
        assert(facts_of(b).contains_key(last.0));
        let at = choose|i: int| 0 <= i < b.len() && (#[trigger] b[i]).0 == last.0;
        // The greatest key of one is the greatest of the other.
        let end = b[b.len() - 1];
        assert(facts_of(a).contains_key(end.0));
        let there = choose|i: int| 0 <= i < a.len() && (#[trigger] a[i]).0 == end.0;
        lemma_texts_are_ordered(last.0, end.0);
        if at != b.len() - 1 {
            assert(precedes(b[at].0, b[b.len() - 1].0));
            if there != a.len() - 1 {
                assert(precedes(a[there].0, a[a.len() - 1].0));
            }
        }
        assert(last.0 == end.0);
        assert(facts_of(a)[last.0] == last.1);
        assert(facts_of(b)[end.0] == end.1);
        let c = a.drop_last();
        let d = b.drop_last();
        assert(sorted(c)) by {
            assert forall|i: int, j: int| 0 <= i < j < c.len() implies precedes(
                (#[trigger] c[i]).0,
                (#[trigger] c[j]).0,
            ) by {
                assert(a[i] == c[i] && a[j] == c[j]);
            }
        }
        assert(sorted(d)) by {
            assert forall|i: int, j: int| 0 <= i < j < d.len() implies precedes(
                (#[trigger] d[i]).0,
                (#[trigger] d[j]).0,
            ) by {
                assert(b[i] == d[i] && b[j] == d[j]);
            }
        }
        lemma_facts(c);
        lemma_facts(d);
        assert(!facts_of(c).contains_key(last.0)) by {
            if facts_of(c).contains_key(last.0) {
                let i = choose|i: int| 0 <= i < c.len() && (#[trigger] c[i]).0 == last.0;
                assert(precedes(a[i].0, a[a.len() - 1].0));
                lemma_texts_are_ordered(last.0, last.0);
            }
        }
        assert(!facts_of(d).contains_key(last.0)) by {
            if facts_of(d).contains_key(last.0) {
                let i = choose|i: int| 0 <= i < d.len() && (#[trigger] d[i]).0 == last.0;
                assert(precedes(b[i].0, b[b.len() - 1].0));
                lemma_texts_are_ordered(last.0, last.0);
            }
        }
        assert(facts_of(a).remove(last.0) =~= facts_of(c));
        assert(facts_of(b).remove(last.0) =~= facts_of(d));
        lemma_facts_determine_entries(c, d);
        assert(a =~= c.push(last));
        assert(b =~= d.push(end));
    }
}

/// The body of a report depends on what was recorded alone, not on the order in
/// which it was: two reports of the same facts are the same text.
pub proof fn the_same_facts_render_the_same(a: ReportView, b: ReportView)
    requires
        a.wf(),
        b.wf(),
        a.facts() == b.facts(),
    ensures
        lines_of(a.entries) == lines_of(b.entries),
{
    lemma_facts_determine_entries(a.entries, b.entries);
}

impl Report {
    /// An empty report.
    pub fn new() -> (report: Self)
        ensures
            report@.wf(),
            report@.facts() == Map::<Seq<char>, Seq<char>>::empty(),
            report@.notes == Seq::<Seq<char>>::empty(),
    {
        let report = Report { entries: Vec::new(), notes: Vec::new() };
        assert(report@.entries =~= seq![]);
        assert(report@.notes =~= seq![]);
        report
    }

    /// Where a key is, or would go.
    fn place(&self, key: &str) -> (place: (usize, bool))
        requires
            self@.wf(),
        ensures
            place.0 <= self@.entries.len(),
            forall|i: int| 0 <= i < place.0 ==> precedes((#[trigger] self@.entries[i]).0, key@),
            place.1 ==> place.0 < self@.entries.len() && self@.entries[place.0 as int].0 == key@,
            !place.1 ==> forall|i: int|
                place.0 <= i < self@.entries.len() ==> precedes(
                    key@,
                    (#[trigger] self@.entries[i]).0,
                ),
    {
        let ghost entries = self@.entries;
        let mut at: usize = 0;
        while at < self.entries.len()
            invariant
                at <= self.entries.len(),
                entries == self@.entries,
                entries.len() == self.entries@.len(),
                self@.wf(),
                forall|i: int| 0 <= i < at ==> precedes((#[trigger] entries[i]).0, key@),
            decreases self.entries.len() - at,
        {
            assert(entries[at as int].0 == self.entries@[at as int].0@);
            match standing(self.entries[at].0.as_str(), key) {
                Standing::Before => {
                    at += 1;
                },
                Standing::Same => {
                    return (at, true);
                },
                Standing::After => {
                    proof {
                        lemma_texts_are_ordered(entries[at as int].0, key@);
                        assert forall|i: int| at <= i < entries.len() implies precedes(
                            key@,
                            (#[trigger] entries[i]).0,
                        ) by {
                            if i > at {
                                assert(precedes(entries[at as int].0, entries[i].0));
                                lemma_order_is_transitive(
                                    key@,
                                    entries[at as int].0,
                                    entries[i].0,
                                );
                            }
                        }
                    }
                    return (at, false);
                },
            }
        }
        (at, false)
    }

    /// Records a fact. Recording a key again replaces its value.
    pub fn set(&mut self, key: String, value: String)
        requires
            old(self)@.wf(),
        ensures
            final(self)@.wf(),
            final(self)@.facts() == old(self)@.facts().insert(key@, value@),
            final(self)@.notes == old(self)@.notes,
    {
        let ghost before = self@.entries;
        let ghost fact = (key@, value@);
        let (at, there): (usize, bool) = self.place(key.as_str());
        if there {
            let mut entry = self.entries.remove(at);
            entry.1 = value;
            self.entries.insert(at, entry);
            assert(self@.entries =~= before.update(at as int, fact));
        } else {
            self.entries.insert(at, (key, value));
            assert(self@.entries =~= before.insert(at as int, fact));
        }
        proof {
            let after = self@.entries;
            assert forall|i: int, j: int| 0 <= i < j < after.len() implies precedes(
                (#[trigger] after[i]).0,
                (#[trigger] after[j]).0,
            ) by {
                if there {
                    assert(after[i].0 == before[i].0 && after[j].0 == before[j].0);
                } else {
                    let a = if i < at {
                        i
                    } else {
                        i - 1
                    };
                    let b = if j < at {
                        j
                    } else {
                        j - 1
                    };
                    if i != at && j != at {
                        assert(after[i] == before[a] && after[j] == before[b]);
                    } else if i == at {
                        assert(after[j] == before[b]);
                    } else {
                        assert(after[i] == before[a]);
                    }
                }
            }
            lemma_facts(before);
            lemma_facts(after);
            let recorded = facts_of(before).insert(fact.0, fact.1);
            assert forall|k: Seq<char>|
                #![trigger facts_of(after).contains_key(k)]
                #![trigger recorded.contains_key(k)]
                facts_of(after).contains_key(k) == recorded.contains_key(k) && (
                recorded.contains_key(k) ==> facts_of(after)[k] == recorded[k]) by {
                assert(after[at as int] == fact);
                if facts_of(after).contains_key(k) {
                    let i = choose|i: int| 0 <= i < after.len() && (#[trigger] after[i]).0 == k;
                    if there {
                        assert(before[i].0 == after[i].0);
                        if i == at {
                            assert(k == fact.0);
                        } else {
                            assert(after[i] == before[i]);
                            lemma_texts_are_ordered(k, fact.0);
                            if i < at {
                                assert(precedes(before[i].0, before[at as int].0));
                            } else {
                                assert(precedes(before[at as int].0, before[i].0));
                            }
                        }
                    } else if i != at {
                        let a = if i < at {
                            i
                        } else {
                            i - 1
                        };
                        assert(after[i] == before[a]);
                        lemma_texts_are_ordered(k, fact.0);
                    }
                }
                if facts_of(before).contains_key(k) && k != fact.0 {
                    let i = choose|i: int| 0 <= i < before.len() && (#[trigger] before[i]).0 == k;
                    if there {
                        assert(after[i] == before[i]);
                    } else {
                        let b = if i < at {
                            i
                        } else {
                            i + 1
                        };
                        assert(after[b] == before[i]);
                    }
                }
            }
            assert forall|k: Seq<char>| facts_of(after).dom().contains(k) == recorded.dom().contains(
                k,
            ) by {
                assert(facts_of(after).contains_key(k) == recorded.contains_key(k));
            }
            assert(facts_of(after).dom() =~= recorded.dom());
            assert(facts_of(after) =~= recorded);
        }
    }
}

/// How a fact that may be missing is written. Absence has to be visible in the
/// key space, or a comparison cannot tell "this cluster does not have it" from
/// "nobody looked".
pub open spec fn present_or_dash(value: Option<Seq<char>>) -> Seq<char> {
    match value {
        Some(value) => value,
        None => "-"@,
    }
}

impl Report {
    /// Records a fact only when there is one, writing absence as `-`.
    pub fn set_opt(&mut self, key: String, value: Option<String>)
        requires
            old(self)@.wf(),
        ensures
            final(self)@.wf(),
            final(self)@.facts() == old(self)@.facts().insert(
                key@,
                present_or_dash(crate::error::text_of(value)),
            ),
            final(self)@.notes == old(self)@.notes,
    {
        match value {
            Some(value) => self.set(key, value),
            None => self.set(key, "-".to_owned()),
        }
    }

    /// Records a text.
    pub fn set_text(&mut self, key: &str, value: &str)
        requires
            old(self)@.wf(),
        ensures
            final(self)@.wf(),
            final(self)@.facts() == old(self)@.facts().insert(key@, value@),
            final(self)@.notes == old(self)@.notes,
    {
        self.set(key.to_owned(), value.to_owned());
    }

    /// Records a count.
    pub fn set_count(&mut self, key: &str, count: u64)
        requires
            old(self)@.wf(),
        ensures
            final(self)@.wf(),
            final(self)@.facts() == old(self)@.facts().insert(key@, decimal_of(count as nat)),
            final(self)@.notes == old(self)@.notes,
    {
        self.set(key.to_owned(), decimal(count));
    }

    /// Records a number.
    pub fn set_number(&mut self, key: &str, number: i64)
        requires
            old(self)@.wf(),
        ensures
            final(self)@.wf(),
            final(self)@.facts() == old(self)@.facts().insert(key@, signed_of(number as int)),
            final(self)@.notes == old(self)@.notes,
    {
        self.set(key.to_owned(), signed(number));
    }

    /// Records whether something holds.
    pub fn set_flag(&mut self, key: &str, holds: bool)
        requires
            old(self)@.wf(),
        ensures
            final(self)@.wf(),
            final(self)@.facts() == old(self)@.facts().insert(key@, truth(holds)),
            final(self)@.notes == old(self)@.notes,
    {
        self.set(key.to_owned(), truth_text(holds));
    }

    /// Adds a free-text note. Notes are printed but never compared.
    pub fn note(&mut self, note: String)
        ensures
            final(self)@.entries == old(self)@.entries,
            final(self)@.notes == old(self)@.notes.push(note@),
    {
        let ghost before = self.notes@;
        self.notes.push(note);
        assert(text_views(self.notes@) =~= text_views(before).push(note@));
    }

    /// Whether a key was recorded.
    pub fn contains(&self, key: &str) -> (contains: bool)
        requires
            self@.wf(),
        ensures
            contains == self@.facts().contains_key(key@),
    {
        let (at, there): (usize, bool) = self.place(key);
        proof {
            lemma_absent(self@.entries, key@, at as int, there);
        }
        there
    }

    /// Looks a value up.
    pub fn get(&self, key: &str) -> (value: Option<&str>)
        requires
            self@.wf(),
        ensures
            match value {
                Some(value) => self@.facts().contains_key(key@) && self@.facts()[key@] == value@,
                None => !self@.facts().contains_key(key@),
            },
    {
        let (at, there): (usize, bool) = self.place(key);
        proof {
            lemma_absent(self@.entries, key@, at as int, there);
        }
        if there {
            assert(self@.entries[at as int].1 == self.entries@[at as int].1@);
            Some(self.entries[at].1.as_str())
        } else {
            None
        }
    }

    /// How many facts were recorded.
    pub fn len(&self) -> (len: usize)
        ensures
            len == self@.entries.len(),
    {
        self.entries.len()
    }

    /// The body to compare: sorted `key = value`, one per line.
    pub fn render(&self) -> (text: String)
        ensures
            text@ == lines_of(self@.entries),
    {
        let ghost entries = self@.entries;
        let mut text = String::new();
        let mut at: usize = 0;
        assert(text@ =~= lines_of(entries.take(0)));
        while at < self.entries.len()
            invariant
                at <= self.entries.len(),
                entries == self@.entries,
                text@ == lines_of(entries.take(at as int)),
            decreases self.entries.len() - at,
        {
            assert(entries.take(at + 1).drop_last() =~= entries.take(at as int));
            assert(entries.take(at + 1).last() == entries[at as int]);
            text.append(self.entries[at].0.as_str());
            text.append(" = ");
            text.append(self.entries[at].1.as_str());
            text.append("\n");
            at += 1;
        }
        assert(entries.take(at as int) =~= entries);
        text
    }

    /// The notes, as comment lines.
    pub fn render_notes(&self) -> (text: String)
        ensures
            text@ == comments_of(self@.notes),
    {
        let ghost notes = self@.notes;
        let mut text = String::new();
        let mut at: usize = 0;
        assert(text@ =~= comments_of(notes.take(0)));
        while at < self.notes.len()
            invariant
                at <= self.notes.len(),
                notes == self@.notes,
                text@ == comments_of(notes.take(at as int)),
            decreases self.notes.len() - at,
        {
            assert(notes.take(at + 1).drop_last() =~= notes.take(at as int));
            assert(notes.take(at + 1).last() == notes[at as int]);
            text.append("# ");
            text.append(self.notes[at].as_str());
            text.append("\n");
            at += 1;
        }
        assert(notes.take(at as int) =~= notes);
        text
    }
}

/// A key that is not at its place is nowhere.
proof fn lemma_absent(entries: Seq<FactView>, key: Seq<char>, at: int, there: bool)
    requires
        sorted(entries),
        0 <= at <= entries.len(),
        forall|i: int| 0 <= i < at ==> precedes((#[trigger] entries[i]).0, key),
        there ==> at < entries.len() && entries[at].0 == key,
        !there ==> forall|i: int| at <= i < entries.len() ==> precedes(key, (#[trigger] entries[i]).0),
    ensures
        there == facts_of(entries).contains_key(key),
        there ==> facts_of(entries)[key] == entries[at].1,
{
    lemma_facts(entries);
    if !there && facts_of(entries).contains_key(key) {
        let i = choose|i: int| 0 <= i < entries.len() && (#[trigger] entries[i]).0 == key;
        lemma_texts_are_ordered(key, key);
    }
}

/// The last value recorded under a key is the one that stands, and recording
/// one key leaves the others as they were.
pub proof fn the_last_value_stands(
    facts: Map<Seq<char>, Seq<char>>,
    key: Seq<char>,
    first: Seq<char>,
    second: Seq<char>,
)
    ensures
        facts.insert(key, first).insert(key, second) == facts.insert(key, second),
{
    assert(facts.insert(key, first).insert(key, second) =~= facts.insert(key, second));
}

/// A report plus whether the run that produced it succeeded.
///
/// The facts collected before a failure are the most useful ones there are, so
/// a run that fails returns them together with the failure.
#[derive(Debug)]
pub struct Outcome {
    /// What was learned.
    pub report: Report,
    /// Whether the run met its assertions, or why not.
    pub result: Result<(), String>,
}

impl Outcome {
    /// A successful run.
    pub fn ok(report: Report) -> (outcome: Self)
        ensures
            outcome.report == report,
            outcome.result == Ok::<(), String>(()),
    {
        Outcome { report, result: Ok(()) }
    }

    /// A run that collected facts and then failed.
    pub fn failed(report: Report, error: String) -> (outcome: Self)
        ensures
            outcome.report == report,
            outcome.result == Err::<(), String>(error),
    {
        Outcome { report, result: Err(error) }
    }

    /// What a run came to: its report, whatever became of it.
    pub fn from_result(report: Report, result: Result<(), String>) -> (outcome: Self)
        ensures
            outcome.report == report,
            outcome.result == result,
    {
        Outcome { report, result }
    }
}

/// How one character is written on a line of its own.
pub open spec fn escaped(letter: char) -> Seq<char> {
    if letter == '\\' {
        seq!['\\', '\\']
    } else if letter == '\n' {
        seq!['\\', 'n']
    } else if letter == '\r' {
        seq!['\\', 'r']
    } else {
        seq![letter]
    }
}

/// A text with its line breaks and backslashes escaped.
pub open spec fn all_escaped(text: Seq<char>) -> Seq<char>
    decreases text.len(),
{
    if text.len() == 0 {
        seq![]
    } else {
        all_escaped(text.drop_last()) + escaped(text.last())
    }
}

/// A text on one line.
pub open spec fn on_one_line(text: Seq<char>) -> Seq<char> {
    trimmed(all_escaped(text))
}

/// Escapes a value that might contain a newline or a leading space.
///
/// A broker's error message can contain anything, and one stray newline turns a
/// report that can be compared into a corrupt one.
pub fn one_line(value: &str) -> (line: String)
    ensures
        line@ == on_one_line(value@),
{
    let all = letters(value);
    let mut out: Vec<char> = Vec::new();
    let mut at: usize = 0;
    assert(out@ =~= all_escaped(value@.take(0)));
    while at < all.len()
        invariant
            at <= all.len(),
            all@ == value@,
            out@ == all_escaped(value@.take(at as int)),
        decreases all.len() - at,
    {
        let letter: char = all[at];
        let ghost before = out@;
        assert(value@.take(at + 1).drop_last() =~= value@.take(at as int));
        assert(value@.take(at + 1).last() == letter);
        if letter == '\\' {
            out.push('\\');
            out.push('\\');
        } else if letter == '\n' {
            out.push('\\');
            out.push('n');
        } else if letter == '\r' {
            out.push('\\');
            out.push('r');
        } else {
            out.push(letter);
        }
        assert(out@ =~= before + escaped(letter));
        at += 1;
    }
    assert(value@.take(at as int) =~= value@);
    let line = trim(out.as_slice());
    spelled(line.as_slice())
}

/// Nothing that is put on one line breaks it.
pub proof fn one_line_is_one_line(text: Seq<char>)
    ensures
        !on_one_line(text).contains('\n'),
        !on_one_line(text).contains('\r'),
{
    lemma_escaped_has_no_break(text);
    lemma_trimmed_is_part(all_escaped(text), '\n');
    lemma_trimmed_is_part(all_escaped(text), '\r');
}

/// Escaping leaves no line break.
proof fn lemma_escaped_has_no_break(text: Seq<char>)
    ensures
        !all_escaped(text).contains('\n'),
        !all_escaped(text).contains('\r'),
    decreases text.len(),
{
    if text.len() > 0 {
        let before = all_escaped(text.drop_last());
        lemma_escaped_has_no_break(text.drop_last());
        let last = escaped(text.last());
        assert forall|i: int| 0 <= i < all_escaped(text).len() implies all_escaped(text)[i] != '\n'
            && all_escaped(text)[i] != '\r' by {
            if i < before.len() {
                assert(all_escaped(text)[i] == before[i]);
                assert(before.contains(before[i]));
            } else {
                assert(all_escaped(text)[i] == last[i - before.len()]);
            }
        }
    }
}

/// Trimming adds nothing.
proof fn lemma_trimmed_is_part(text: Seq<char>, letter: char)
    requires
        !text.contains(letter),
    ensures
        !trimmed(text).contains(letter),
{
    lemma_leading_is_part(text, letter);
    lemma_trailing_is_part(crate::text::without_leading(text), letter);
}

/// Trimming in front adds nothing.
proof fn lemma_leading_is_part(text: Seq<char>, letter: char)
    requires
        !text.contains(letter),
    ensures
        !crate::text::without_leading(text).contains(letter),
    decreases text.len(),
{
    if text.len() > 0 && crate::text::is_space(text[0]) {
        let rest = text.skip(1);
        assert forall|i: int| 0 <= i < rest.len() implies rest[i] != letter by {
            assert(rest[i] == text[i + 1]);
            assert(text.contains(text[i + 1]));
        }
        lemma_leading_is_part(rest, letter);
    }
}

/// Trimming behind adds nothing.
proof fn lemma_trailing_is_part(text: Seq<char>, letter: char)
    requires
        !text.contains(letter),
    ensures
        !crate::text::without_trailing(text).contains(letter),
    decreases text.len(),
{
    if text.len() > 0 && crate::text::is_space(text.last()) {
        let rest = text.drop_last();
        assert forall|i: int| 0 <= i < rest.len() implies rest[i] != letter by {
            assert(rest[i] == text[i]);
            assert(text.contains(text[i]));
        }
        lemma_trailing_is_part(rest, letter);
    }
}

} // verus!
