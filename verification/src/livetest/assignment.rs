//! Which partitions the members of a group own.

use vstd::prelude::*;
use vstd::string::*;

use crate::keyed::PartitionKey;
use crate::text::{
    lemma_order_is_transitive, lemma_texts_are_ordered, precedes, quote, quoted, signed, signed_of,
    standing, Standing,
};

verus! {

/// Partitions, as plain values.
pub open spec fn key_views(keys: Seq<(String, i32)>) -> Seq<PartitionKey> {
    keys.map_values(|key: (String, i32)| (key.0@, key.1))
}

/// Whether one partition comes before another: by topic, then by number.
pub open spec fn key_precedes(a: PartitionKey, b: PartitionKey) -> bool {
    precedes(a.0, b.0) || (a.0 == b.0 && a.1 < b.1)
}

/// Whether partitions stand in order, each once.
pub open spec fn arranged(keys: Seq<PartitionKey>) -> bool {
    forall|i: int, j: int|
        0 <= i < j < keys.len() ==> key_precedes(#[trigger] keys[i], #[trigger] keys[j])
}

/// Whether partitions are those of an assignment, in order, each once.
pub open spec fn arranges(keys: Seq<PartitionKey>, assignment: Seq<PartitionKey>) -> bool {
    &&& arranged(keys)
    &&& forall|key: PartitionKey| #[trigger] keys.contains(key) == assignment.contains(key)
}

/// Of two partitions that are not the same, one comes before the other.
proof fn lemma_keys_are_ordered(a: PartitionKey, b: PartitionKey)
    ensures
        !key_precedes(a, a),
        !(key_precedes(a, b) && key_precedes(b, a)),
        a != b ==> key_precedes(a, b) || key_precedes(b, a),
{
    lemma_texts_are_ordered(a.0, b.0);
    lemma_texts_are_ordered(a.0, a.0);
}

/// What comes before a partition comes before all that comes after it.
proof fn lemma_key_order_is_transitive(a: PartitionKey, b: PartitionKey, c: PartitionKey)
    requires
        key_precedes(a, b),
        key_precedes(b, c),
    ensures
        key_precedes(a, c),
{
    if precedes(a.0, b.0) && precedes(b.0, c.0) {
        lemma_order_is_transitive(a.0, b.0, c.0);
    }
}

/// How two partitions stand to each other.
fn key_standing(a: &(String, i32), b: &(String, i32)) -> (standing: Standing)
    ensures
        standing == if (a.0@, a.1) == (b.0@, b.1) {
            Standing::Same
        } else if key_precedes((a.0@, a.1), (b.0@, b.1)) {
            Standing::Before
        } else {
            Standing::After
        },
{
    proof {
        lemma_texts_are_ordered(a.0@, b.0@);
    }
    match standing(a.0.as_str(), b.0.as_str()) {
        Standing::Before => Standing::Before,
        Standing::After => Standing::After,
        Standing::Same => {
            if a.1 < b.1 {
                Standing::Before
            } else if a.1 == b.1 {
                Standing::Same
            } else {
                Standing::After
            }
        },
    }
}

/// Where a partition is among partitions that stand in order, or would go.
fn place(keys: &Vec<(String, i32)>, key: &(String, i32)) -> (place: (usize, bool))
    requires
        arranged(key_views(keys@)),
    ensures
        place.0 <= keys@.len(),
        place.1 == key_views(keys@).contains((key.0@, key.1)),
        !place.1 ==> forall|i: int|
            0 <= i < place.0 ==> key_precedes(#[trigger] key_views(keys@)[i], (key.0@, key.1)),
        !place.1 ==> forall|i: int|
            place.0 <= i < keys@.len() ==> key_precedes(
                (key.0@, key.1),
                #[trigger] key_views(keys@)[i],
            ),
{
    let ghost views = key_views(keys@);
    let ghost wanted = (key.0@, key.1);
    let mut at: usize = 0;
    while at < keys.len()
        invariant
            at <= keys.len(),
            views == key_views(keys@),
            arranged(views),
            wanted == (key.0@, key.1),
            forall|i: int| 0 <= i < at ==> key_precedes(#[trigger] views[i], wanted),
        decreases keys.len() - at,
    {
        assert(views[at as int] == (keys@[at as int].0@, keys@[at as int].1));
        match key_standing(&keys[at], key) {
            Standing::Before => {
                at += 1;
            },
            Standing::Same => {
                return (at, true);
            },
            Standing::After => {
                proof {
                    lemma_keys_are_ordered(views[at as int], wanted);
                    assert forall|i: int| at <= i < views.len() implies key_precedes(
                        wanted,
                        #[trigger] views[i],
                    ) by {
                        if i > at {
                            assert(key_precedes(views[at as int], views[i]));
                            lemma_key_order_is_transitive(wanted, views[at as int], views[i]);
                        }
                    }
                    lemma_not_contained(views, wanted, at as int);
                }
                return (at, false);
            },
        }
    }
    proof {
        lemma_not_contained(views, wanted, at as int);
    }
    (at, false)
}

/// A partition that lies between others is not among them.
proof fn lemma_not_contained(keys: Seq<PartitionKey>, key: PartitionKey, at: int)
    requires
        0 <= at <= keys.len(),
        forall|i: int| 0 <= i < at ==> key_precedes(#[trigger] keys[i], key),
        forall|i: int| at <= i < keys.len() ==> key_precedes(key, #[trigger] keys[i]),
    ensures
        !keys.contains(key),
{
    if keys.contains(key) {
        let i = choose|i: int| 0 <= i < keys.len() && keys[i] == key;
        lemma_keys_are_ordered(key, key);
        assert(key_precedes(keys[i], key) || key_precedes(key, keys[i]));
    }
}

/// The partitions of an assignment, in order, each once.
pub fn arrange(assignment: &Vec<(String, i32)>) -> (keys: Vec<(String, i32)>)
    ensures
        arranges(key_views(keys@), key_views(assignment@)),
{
    let ghost views = key_views(assignment@);
    let mut keys: Vec<(String, i32)> = Vec::new();
    let mut at: usize = 0;
    while at < assignment.len()
        invariant
            at <= assignment.len(),
            views == key_views(assignment@),
            arranges(key_views(keys@), views.take(at as int)),
        decreases assignment.len() - at,
    {
        let ghost before = key_views(keys@);
        let ghost key = views[at as int];
        let (spot, there): (usize, bool) = place(&keys, &assignment[at]);
        let ghost earlier = views.take(at as int);
        let ghost later = views.take(at + 1);
        proof {
            assert(later =~= earlier.push(key));
            assert forall|other: PartitionKey| #[trigger]
                later.contains(other) == (earlier.contains(other) || other == key) by {
                if earlier.contains(other) {
                    let i = choose|i: int| 0 <= i < earlier.len() && earlier[i] == other;
                    assert(later[i] == other);
                }
                if later.contains(other) && other != key {
                    let i = choose|i: int| 0 <= i < later.len() && later[i] == other;
                    assert(earlier[i] == other);
                }
                assert(later[at as int] == key);
            }
        }
        if !there {
            keys.insert(spot, (assignment[at].0.clone(), assignment[at].1));
            proof {
                let after = before.insert(spot as int, key);
                assert(key_views(keys@) =~= after);
                assert forall|i: int, j: int| 0 <= i < j < after.len() implies key_precedes(
                    #[trigger] after[i],
                    #[trigger] after[j],
                ) by {
                    let a = if i < spot {
                        i
                    } else {
                        i - 1
                    };
                    let b = if j < spot {
                        j
                    } else {
                        j - 1
                    };
                    if i != spot && j != spot {
                        assert(after[i] == before[a] && after[j] == before[b]);
                    } else if i == spot {
                        assert(after[j] == before[b]);
                    } else {
                        assert(after[i] == before[a]);
                    }
                }
                assert forall|other: PartitionKey| #[trigger]
                    after.contains(other) == (before.contains(other) || other == key) by {
                    if before.contains(other) {
                        let i = choose|i: int| 0 <= i < before.len() && before[i] == other;
                        assert(after[if i < spot {
                            i
                        } else {
                            i + 1
                        }] == other);
                    }
                    if after.contains(other) && other != key {
                        let i = choose|i: int| 0 <= i < after.len() && after[i] == other;
                        assert(before[if i < spot {
                            i
                        } else {
                            i - 1
                        }] == other);
                    }
                    assert(after[spot as int] == key);
                }
            }
        }
        at += 1;
    }
    assert(views.take(at as int) =~= views);
    keys
}

/// The partitions that both of two lists hold, in the order of the first.
pub open spec fn common(a: Seq<PartitionKey>, b: Seq<PartitionKey>) -> Seq<PartitionKey>
    decreases a.len(),
{
    if a.len() == 0 {
        seq![]
    } else {
        let before = common(a.drop_last(), b);
        if b.contains(a.last()) {
            before.push(a.last())
        } else {
            before
        }
    }
}

/// No more partitions are in both lists than in the first.
pub proof fn lemma_common(a: Seq<PartitionKey>, b: Seq<PartitionKey>)
    ensures
        common(a, b).len() <= a.len(),
    decreases a.len(),
{
    if a.len() > 0 {
        lemma_common(a.drop_last(), b);
    }
}

/// The partitions that both of two lists hold.
pub fn overlap(a: &Vec<(String, i32)>, b: &Vec<(String, i32)>) -> (both: Vec<(String, i32)>)
    requires
        arranged(key_views(b@)),
    ensures
        key_views(both@) == common(key_views(a@), key_views(b@)),
{
    let ghost views = key_views(a@);
    let mut both: Vec<(String, i32)> = Vec::new();
    let mut at: usize = 0;
    assert(key_views(both@) =~= common(views.take(0), key_views(b@)));
    while at < a.len()
        invariant
            at <= a.len(),
            views == key_views(a@),
            arranged(key_views(b@)),
            key_views(both@) == common(views.take(at as int), key_views(b@)),
        decreases a.len() - at,
    {
        let ghost before = both@;
        let ghost key = views[at as int];
        assert(views.take(at + 1).drop_last() =~= views.take(at as int));
        assert(views.take(at + 1).last() == key);
        let (_, there): (usize, bool) = place(b, &a[at]);
        if there {
            both.push((a[at].0.clone(), a[at].1));
            assert(key_views(both@) =~= key_views(before).push(key));
        }
        at += 1;
    }
    assert(views.take(at as int) =~= views);
    both
}

/// A partition as the `Debug` format writes it.
pub open spec fn key_text(key: PartitionKey) -> Seq<char> {
    "("@ + quoted(key.0) + ", "@ + signed_of(key.1 as int) + ")"@
}

/// Partitions one after another, with a comma between each two.
pub open spec fn listed_keys(keys: Seq<PartitionKey>) -> Seq<char>
    decreases keys.len(),
{
    if keys.len() == 0 {
        seq![]
    } else if keys.len() == 1 {
        key_text(keys[0])
    } else {
        listed_keys(keys.drop_last()) + ", "@ + key_text(keys.last())
    }
}

/// Partitions one after another, in brackets.
pub fn list_keys(keys: &Vec<(String, i32)>) -> (text: String)
    ensures
        text@ == "["@ + listed_keys(key_views(keys@)) + "]"@,
{
    let ghost views = key_views(keys@);
    let mut inner = String::new();
    let mut at: usize = 0;
    assert(inner@ =~= listed_keys(views.take(0)));
    while at < keys.len()
        invariant
            at <= keys.len(),
            views == key_views(keys@),
            inner@ == listed_keys(views.take(at as int)),
        decreases keys.len() - at,
    {
        assert(views.take(at + 1).drop_last() =~= views.take(at as int));
        assert(views.take(at + 1).last() == views[at as int]);
        let mut text = "(".to_owned();
        text.append(quote(keys[at].0.as_str()).as_str());
        text.append(", ");
        text.append(signed(keys[at].1 as i64).as_str());
        text.append(")");
        assert(text@ =~= key_text(views[at as int]));
        if at > 0 {
            inner.append(", ");
        }
        inner.append(text.as_str());
        at += 1;
        assert(inner@ =~= listed_keys(views.take(at as int)));
    }
    assert(views.take(at as int) =~= views);
    let mut text = "[".to_owned();
    text.append(inner.as_str());
    text.append("]");
    text
}

/// How many partitions two members own together.
pub open spec fn together(a: Seq<PartitionKey>, b: Seq<PartitionKey>) -> int {
    a.len() + b.len() - common(a, b).len()
}

} // verus!
