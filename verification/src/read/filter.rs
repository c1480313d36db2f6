//! Predicates on decoded records.

use vstd::prelude::*;
use vstd::string::*;

use crate::read::record::{Record, RecordView};
use crate::text::{decimal, decimal_of};
use crate::wire::{headers_of, HeaderView};

verus! {

/// A predicate of the caller's own.
pub trait RecordPredicate {
    /// Whether a record passes.
    fn accepts(&self, record: &Record) -> bool;
}

/// A predicate applied to each record before it is emitted.
///
/// Applied client-side, after decoding: Kafka has no server-side filtering, so
/// a filter reduces what is shown rather than what the cluster sends.
pub enum RecordFilter {
    /// The key contains this byte sequence.
    KeyContains(Vec<u8>),
    /// The value contains this byte sequence.
    ValueContains(Vec<u8>),
    /// A header with this name is present.
    HasHeader(String),
    /// Only tombstones.
    TombstonesOnly,
    /// Anything the caller likes.
    Custom(Box<dyn RecordPredicate>),
}

/// Whether a byte sequence stands at a place inside another.
pub open spec fn occurs_at(haystack: Seq<u8>, needle: Seq<u8>, at: int) -> bool {
    0 <= at <= haystack.len() - needle.len() && haystack.subrange(at, at + needle.len()) == needle
}

/// Whether a byte sequence stands somewhere inside another.
pub open spec fn occurs_in(haystack: Seq<u8>, needle: Seq<u8>) -> bool {
    exists|at: int| occurs_at(haystack, needle, at)
}

/// Whether `needle` stands somewhere inside `haystack`. The empty needle stands
/// in anything.
pub fn contains(haystack: &[u8], needle: &[u8]) -> (found: bool)
    ensures
        found == occurs_in(haystack@, needle@),
{
    if needle.len() == 0 {
        assert(haystack@.subrange(0, 0) =~= needle@);
        assert(occurs_at(haystack@, needle@, 0));
        return true;
    }
    if haystack.len() < needle.len() {
        return false;
    }
    let last: usize = haystack.len() - needle.len();
    let mut at: usize = 0;
    loop
        invariant
            at <= last,
            last == haystack.len() - needle.len(),
            forall|i: int| 0 <= i < at ==> !occurs_at(haystack@, needle@, i),
        decreases last - at,
    {
        let mut same: usize = 0;
        while same < needle.len() && haystack[at + same] == needle[same]
            invariant
                same <= needle@.len(),
                at <= last,
                last == haystack.len() - needle.len(),
                forall|i: int| 0 <= i < same ==> haystack@[at + i] == needle@[i],
            decreases needle.len() - same,
        {
            same += 1;
        }
        if same == needle.len() {
            assert(haystack@.subrange(at as int, at + needle@.len()) =~= needle@);
            assert(occurs_at(haystack@, needle@, at as int));
            return true;
        }
        assert(!occurs_at(haystack@, needle@, at as int)) by {
            if occurs_at(haystack@, needle@, at as int) {
                assert(haystack@.subrange(at as int, at + needle@.len())[same as int]
                    == needle@[same as int]);
            }
        }
        if at == last {
            return false;
        }
        at += 1;
    }
}

/// Whether an optional byte string is there and holds a byte sequence.
pub open spec fn holds(bytes: Option<Seq<u8>>, needle: Seq<u8>) -> bool {
    bytes matches Some(bytes) && occurs_in(bytes, needle)
}

/// Whether a name is among a record's headers.
pub open spec fn has_header(headers: Seq<HeaderView>, name: Seq<char>) -> bool {
    exists|i: int| 0 <= i < headers.len() && (#[trigger] headers[i]).0 == name
}

/// Whether a name is among a record's headers.
fn lists(headers: &Vec<(String, Option<Vec<u8>>)>, name: &String) -> (found: bool)
    ensures
        found == has_header(headers_of(headers@), name@),
{
    let ghost views = headers_of(headers@);
    let mut at: usize = 0;
    while at < headers.len()
        invariant
            at <= headers.len(),
            views == headers_of(headers@),
            forall|i: int| 0 <= i < at ==> (#[trigger] views[i]).0 != name@,
        decreases headers.len() - at,
    {
        assert(views[at as int].0 == headers@[at as int].0@);
        if headers[at].0 == *name {
            return true;
        }
        at += 1;
    }
    false
}

/// Whether it is in order for a filter to answer `passes` about a record. Of a
/// caller's own predicate either answer is.
pub open spec fn may_answer(filter: RecordFilter, record: RecordView, passes: bool) -> bool {
    match filter {
        RecordFilter::KeyContains(needle) => passes == holds(record.key, needle@),
        RecordFilter::ValueContains(needle) => passes == holds(record.value, needle@),
        RecordFilter::HasHeader(name) => passes == has_header(record.headers, name@),
        RecordFilter::TombstonesOnly => passes == (record.value is None),
        RecordFilter::Custom(_) => true,
    }
}

impl RecordFilter {
    /// Whether a record passes.
    pub fn matches(&self, record: &Record) -> (passes: bool)
        ensures
            may_answer(*self, record@, passes),
    {
        match self {
            RecordFilter::KeyContains(needle) => match &record.key {
                Some(key) => contains(key.as_slice(), needle.as_slice()),
                None => false,
            },
            RecordFilter::ValueContains(needle) => match &record.value {
                Some(value) => contains(value.as_slice(), needle.as_slice()),
                None => false,
            },
            RecordFilter::HasHeader(name) => lists(&record.headers, name),
            RecordFilter::TombstonesOnly => record.is_tombstone(),
            RecordFilter::Custom(predicate) => predicate.accepts(record),
        }
    }

    /// What a log line says of this filter: what it looks at, but neither the
    /// bytes it looks for nor anything of a caller's predicate.
    pub fn describe(&self) -> (text: String)
        ensures
            text@ == match self {
                RecordFilter::KeyContains(needle) => "KeyContains("@ + decimal_of(needle@.len())
                    + " bytes)"@,
                RecordFilter::ValueContains(needle) => "ValueContains("@ + decimal_of(needle@.len())
                    + " bytes)"@,
                RecordFilter::HasHeader(name) => "HasHeader("@ + name@ + ")"@,
                RecordFilter::TombstonesOnly => "TombstonesOnly"@,
                RecordFilter::Custom(_) => "Custom(..)"@,
            },
    {
        match self {
            RecordFilter::KeyContains(needle) => {
                let mut text = "KeyContains(".to_owned();
                text.append(decimal(needle.len() as u64).as_str());
                text.append(" bytes)");
                text
            },
            RecordFilter::ValueContains(needle) => {
                let mut text = "ValueContains(".to_owned();
                text.append(decimal(needle.len() as u64).as_str());
                text.append(" bytes)");
                text
            },
            RecordFilter::HasHeader(name) => {
                let mut text = "HasHeader(".to_owned();
                text.append(name.as_str());
                text.append(")");
                text
            },
            RecordFilter::TombstonesOnly => "TombstonesOnly".to_owned(),
            RecordFilter::Custom(_) => "Custom(..)".to_owned(),
        }
    }
}

/// Whether it is in order to let a record through, or to keep it back, under
/// an optional filter.
pub open spec fn may_pass(filter: Option<RecordFilter>, record: RecordView, passes: bool) -> bool {
    match filter {
        Some(filter) => may_answer(filter, record, passes),
        None => passes,
    }
}

/// Whether a record passes an optional filter. Everything passes none.
pub fn passes(filter: &Option<RecordFilter>, record: &Record) -> (passes: bool)
    ensures
        may_pass(*filter, record@, passes),
{
    match filter {
        Some(filter) => filter.matches(record),
        None => true,
    }
}

} // verus!
