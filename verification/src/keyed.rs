//! A small map from topic partitions to values.

use vstd::prelude::*;
use vstd::string::*;

verus! {

/// A topic partition, as plain values.
pub type PartitionKey = (Seq<char>, i32);

/// A map from topic partitions to values, in the order they were first added.
pub struct PartitionMap<V> {
    entries: Vec<(String, i32, V)>,
}

/// The key of an entry.
spec fn key_of<V>(entry: (String, i32, V)) -> PartitionKey {
    (entry.0@, entry.1)
}

/// Whether some entry has the key.
spec fn has_key<V>(entries: Seq<(String, i32, V)>, key: PartitionKey) -> bool {
    exists|i: int| 0 <= i < entries.len() && key_of(#[trigger] entries[i]) == key
}

/// The value of an entry that has the key.
spec fn value_at<V>(entries: Seq<(String, i32, V)>, key: PartitionKey) -> V {
    entries[choose|i: int| 0 <= i < entries.len() && key_of(#[trigger] entries[i]) == key].2
}

/// Whether no key occurs twice.
spec fn distinct<V>(entries: Seq<(String, i32, V)>) -> bool {
    forall|i: int, j: int|
        0 <= i < j < entries.len() ==> key_of(#[trigger] entries[i]) != key_of(
            #[trigger] entries[j],
        )
}

/// Entries as a map.
spec fn as_map<V>(entries: Seq<(String, i32, V)>) -> Map<PartitionKey, V> {
    Map::new(|key: PartitionKey| has_key(entries, key), |key: PartitionKey| value_at(entries, key))
}

/// With distinct keys, an entry is the value of its key.
proof fn lemma_value_at<V>(entries: Seq<(String, i32, V)>, i: int)
    requires
        distinct(entries),
        0 <= i < entries.len(),
    ensures
        as_map(entries).contains_key(key_of(entries[i])),
        as_map(entries)[key_of(entries[i])] == entries[i].2,
{
    let key = key_of(entries[i]);
    assert(has_key(entries, key));
    let j = choose|j: int| 0 <= j < entries.len() && key_of(#[trigger] entries[j]) == key;
    assert(j == i);
}

impl<V> PartitionMap<V> {
    /// Whether no key occurs twice.
    pub closed spec fn wf(&self) -> bool {
        distinct(self.entries@)
    }

    /// The map.
    pub closed spec fn map(&self) -> Map<PartitionKey, V> {
        as_map(self.entries@)
    }

    /// An empty map.
    pub fn new() -> (map: Self)
        ensures
            map.wf(),
            map.map() == Map::<PartitionKey, V>::empty(),
    {
        let map = PartitionMap { entries: Vec::new() };
        assert(map.map() =~= Map::<PartitionKey, V>::empty());
        map
    }

    /// Where the key's entry is.
    fn position(&self, topic: &String, partition: i32) -> (position: Option<usize>)
        requires
            self.wf(),
        ensures
            match position {
                Some(i) => i < self.entries@.len() && key_of(self.entries@[i as int]) == (
                    topic@,
                    partition,
                ),
                None => !has_key(self.entries@, (topic@, partition)),
            },
    {
        let mut i: usize = 0;
        while i < self.entries.len()
            invariant
                i <= self.entries@.len(),
                forall|k: int|
                    0 <= k < i ==> key_of(#[trigger] self.entries@[k]) != (topic@, partition),
            decreases self.entries.len() - i,
        {
            if self.entries[i].1 == partition && self.entries[i].0 == *topic {
                return Some(i);
            }
            i += 1;
        }
        None
    }

    /// The value of a key.
    pub fn get(&self, topic: &String, partition: i32) -> (value: Option<&V>)
        requires
            self.wf(),
        ensures
            match value {
                Some(value) => self.map().contains_key((topic@, partition)) && *value
                    == self.map()[(topic@, partition)],
                None => !self.map().contains_key((topic@, partition)),
            },
    {
        match self.position(topic, partition) {
            Some(i) => {
                proof {
                    lemma_value_at(self.entries@, i as int);
                }
                Some(&self.entries[i].2)
            },
            None => None,
        }
    }

    /// Whether the key has a value.
    pub fn contains(&self, topic: &String, partition: i32) -> (contains: bool)
        requires
            self.wf(),
        ensures
            contains == self.map().contains_key((topic@, partition)),
    {
        match self.position(topic, partition) {
            Some(i) => {
                proof {
                    lemma_value_at(self.entries@, i as int);
                }
                true
            },
            None => false,
        }
    }

    /// Gives the key a value, replacing the one it had.
    pub fn insert(&mut self, topic: String, partition: i32, value: V)
        requires
            old(self).wf(),
        ensures
            final(self).wf(),
            final(self).map() == old(self).map().insert((topic@, partition), value),
    {
        let ghost before = self.entries@;
        let ghost key = (topic@, partition);
        match self.position(&topic, partition) {
            Some(i) => {
                self.entries[i] = (topic, partition, value);
                proof {
                    let after = self.entries@;
                    assert(distinct(after)) by {
                        assert forall|a: int, b: int| 0 <= a < b < after.len() implies key_of(
                            #[trigger] after[a],
                        ) != key_of(#[trigger] after[b]) by {
                            assert(key_of(after[a]) == key_of(before[a]));
                            assert(key_of(after[b]) == key_of(before[b]));
                        }
                    }
                    assert forall|k: PartitionKey| as_map(after).contains_key(k) <==> as_map(
                        before,
                    ).insert(key, value).contains_key(k) by {
                        if has_key(before, k) {
                            let j = choose|j: int|
                                0 <= j < before.len() && key_of(#[trigger] before[j]) == k;
                            assert(key_of(after[j]) == k);
                        }
                        if has_key(after, k) {
                            let j = choose|j: int|
                                0 <= j < after.len() && key_of(#[trigger] after[j]) == k;
                            assert(key_of(before[j]) == k);
                        }
                        assert(key_of(after[i as int]) == key);
                    }
                    assert forall|k: PartitionKey| as_map(after).contains_key(
                        k,
                    ) implies #[trigger] as_map(after)[k] == as_map(before).insert(key, value)[k] by {
                        let j = choose|j: int|
                            0 <= j < after.len() && key_of(#[trigger] after[j]) == k;
                        lemma_value_at(after, j);
                        lemma_value_at(before, j);
                        assert(key_of(before[j]) == k);
                        assert(key_of(after[i as int]) == key);
                    }
                    assert(as_map(after) =~= as_map(before).insert(key, value));
                }
            },
            None => {
                self.entries.push((topic, partition, value));
                proof {
                    let after = self.entries@;
                    assert(after[before.len() as int] == (topic, partition, value));
                    assert forall|k: PartitionKey| as_map(after).contains_key(k) <==> as_map(
                        before,
                    ).insert(key, value).contains_key(k) by {
                        if has_key(before, k) {
                            let j = choose|j: int|
                                0 <= j < before.len() && key_of(#[trigger] before[j]) == k;
                            assert(key_of(after[j]) == k);
                        }
                        if has_key(after, k) {
                            let j = choose|j: int|
                                0 <= j < after.len() && key_of(#[trigger] after[j]) == k;
                            if j < before.len() {
                                assert(key_of(before[j]) == k);
                            }
                        }
                        assert(key_of(after[before.len() as int]) == key);
                    }
                    assert(distinct(after)) by {
                        assert forall|a: int, b: int| 0 <= a < b < after.len() implies key_of(
                            #[trigger] after[a],
                        ) != key_of(#[trigger] after[b]) by {
                            assert(after[a] == before[a]);
                            if b < before.len() {
                                assert(after[b] == before[b]);
                            }
                        }
                    }
                    assert forall|k: PartitionKey| as_map(after).contains_key(
                        k,
                    ) implies #[trigger] as_map(after)[k] == as_map(before).insert(key, value)[k] by {
                        let j = choose|j: int|
                            0 <= j < after.len() && key_of(#[trigger] after[j]) == k;
                        lemma_value_at(after, j);
                        if j < before.len() {
                            lemma_value_at(before, j);
                            assert(after[j] == before[j]);
                        }
                    }
                    assert(as_map(after) =~= as_map(before).insert(key, value));
                }
            },
        }
    }

    /// Removes every key.
    pub fn clear(&mut self)
        ensures
            final(self).wf(),
            final(self).map() == Map::<PartitionKey, V>::empty(),
    {
        self.entries.clear();
        assert(self.map() =~= Map::<PartitionKey, V>::empty());
    }
}

/// Where a key's group is.
pub open spec fn group_position<K, T>(groups: Seq<(K, Seq<T>)>, key: K) -> Option<int>
    decreases groups.len(),
{
    if groups.len() == 0 {
        None
    } else {
        match group_position(groups.drop_last(), key) {
            Some(at) => Some(at),
            None => if groups.last().0 == key {
                Some(groups.len() - 1)
            } else {
                None
            },
        }
    }
}

/// Items by key: topics in the order they first occur, and each key's items
/// in theirs.
pub open spec fn grouped<K, T>(items: Seq<(K, T)>) -> Seq<(K, Seq<T>)>
    decreases items.len(),
{
    if items.len() == 0 {
        seq![]
    } else {
        let before = grouped(items.drop_last());
        let (key, item) = items.last();
        match group_position(before, key) {
            Some(at) => before.update(at, (key, before[at].1.push(item))),
            None => before.push((key, seq![item])),
        }
    }
}

/// The items of one key, in order.
pub open spec fn items_of<K, T>(items: Seq<(K, T)>, key: K) -> Seq<T>
    decreases items.len(),
{
    if items.len() == 0 {
        seq![]
    } else {
        let before = items_of(items.drop_last(), key);
        if items.last().0 == key {
            before.push(items.last().1)
        } else {
            before
        }
    }
}

/// A first group is a group, and there is none before it; without one the key
/// has no group.
pub proof fn lemma_group_position<K, T>(groups: Seq<(K, Seq<T>)>, key: K)
    ensures
        match group_position(groups, key) {
            Some(at) => 0 <= at < groups.len() && groups[at].0 == key && forall|k: int|
                0 <= k < at ==> (#[trigger] groups[k]).0 != key,
            None => forall|k: int| 0 <= k < groups.len() ==> (#[trigger] groups[k]).0 != key,
        },
    decreases groups.len(),
{
    if groups.len() > 0 {
        let shorter = groups.drop_last();
        lemma_group_position(shorter, key);
        assert forall|k: int| 0 <= k < shorter.len() implies shorter[k] == #[trigger] groups[k] by {}
    }
}

/// Grouping loses nothing and repeats nothing: every key with an item has one
/// group, which holds exactly its items in order.
pub proof fn grouping_keeps_every_item<K, T>(items: Seq<(K, T)>, key: K)
    ensures
        match group_position(grouped(items), key) {
            Some(at) => grouped(items)[at] == (key, items_of(items, key)) && items_of(
                items,
                key,
            ).len() > 0,
            None => items_of(items, key) == Seq::<T>::empty(),
        },
        forall|i: int, j: int|
            0 <= i < j < grouped(items).len() ==> (#[trigger] grouped(items)[i]).0 != (
            #[trigger] grouped(items)[j]).0,
    decreases items.len(),
{
    lemma_group_position(grouped(items), key);
    if items.len() > 0 {
        let shorter = items.drop_last();
        let before = grouped(shorter);
        let last = items.last().0;
        grouping_keeps_every_item(shorter, key);
        grouping_keeps_every_item(shorter, last);
        lemma_group_position(before, key);
        lemma_group_position(before, last);
        let after = grouped(items);
        match group_position(before, last) {
            Some(at) => {
                assert forall|k: int| 0 <= k < after.len() implies (#[trigger] after[k]).0
                    == before[k].0 by {}
                assert(after.len() == before.len());
                if key == last {
                    assert(after[at].0 == key);
                    assert(group_position(after, key) == Some(at));
                } else {
                    match group_position(after, key) {
                        Some(here) => {
                            assert(before[here].0 == key);
                            assert(group_position(before, key) == Some(here));
                            assert(after[here] == before[here]);
                        },
                        None => {
                            assert(group_position(before, key) is None) by {
                                if let Some(there) = group_position(before, key) {
                                    assert(after[there].0 == key);
                                }
                            }
                        },
                    }
                }
            },
            None => {
                assert forall|k: int| 0 <= k < before.len() implies (#[trigger] after[k])
                    == before[k] by {}
                assert(after[before.len() as int].0 == last);
                if key == last {
                    assert(group_position(after, key) == Some(before.len() as int));
                    assert(items_of(items, key) =~= seq![items.last().1]);
                } else {
                    match group_position(after, key) {
                        Some(here) => {
                            assert(after[here] == before[here]);
                            assert(group_position(before, key) == Some(here));
                        },
                        None => {
                            assert(group_position(before, key) is None) by {
                                if let Some(there) = group_position(before, key) {
                                    assert(after[there].0 == key);
                                }
                            }
                        },
                    }
                }
            },
        }
    }
}

/// Items, as plain values.
pub open spec fn item_views<T>(items: Seq<(String, T)>) -> Seq<(Seq<char>, T)> {
    items.map_values(|item: (String, T)| (item.0@, item.1))
}

/// Groups, as plain values.
pub open spec fn group_views<T>(groups: Seq<(String, Vec<T>)>) -> Seq<(Seq<char>, Seq<T>)> {
    groups.map_values(|group: (String, Vec<T>)| (group.0@, group.1@))
}

/// Items by topic: topics in the order they first occur, and each topic's items
/// in theirs.
pub fn group_by_topic<T: Copy>(items: &Vec<(String, T)>) -> (groups: Vec<(String, Vec<T>)>)
    ensures
        group_views(groups@) == grouped(item_views(items@)),
{
    let mut groups: Vec<(String, Vec<T>)> = Vec::new();
    let ghost views = item_views(items@);
    let mut i: usize = 0;
    assert(group_views(groups@) =~= grouped(views.take(0)));
    while i < items.len()
        invariant
            i <= items.len(),
            views == item_views(items@),
            group_views(groups@) == grouped(views.take(i as int)),
        decreases items.len() - i,
    {
        let ghost before = group_views(groups@);
        let ghost topic = views[i as int].0;
        let item: T = items[i].1;
        proof {
            assert(views.take(i + 1).drop_last() =~= views.take(i as int));
            assert(views.take(i + 1).last() == views[i as int]);
            lemma_group_position(before, topic);
        }
        let mut at: usize = 0;
        while at < groups.len() && groups[at].0 != items[i].0
            invariant
                at <= groups.len(),
                i < items.len(),
                topic == items@[i as int].0@,
                before == group_views(groups@),
                forall|k: int| 0 <= k < at ==> (#[trigger] before[k]).0 != topic,
            decreases groups.len() - at,
        {
            assert(before[at as int].0 == groups@[at as int].0@);
            at += 1;
        }
        if at < groups.len() {
            assert(before[at as int].0 == topic);
            let ghost grown = before[at as int].1.push(item);
            let mut group = groups.remove(at);
            group.1.push(item);
            groups.insert(at, group);
            assert(group_views(groups@) =~= before.update(at as int, (topic, grown)));
        } else {
            let mut group: Vec<T> = Vec::new();
            group.push(item);
            assert(group@ =~= seq![item]);
            groups.push((items[i].0.clone(), group));
            assert(group_views(groups@) =~= before.push((topic, seq![item])));
        }
        i += 1;
    }
    assert(views.take(i as int) =~= views);
    groups
}

} // verus!
