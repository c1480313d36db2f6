//! Choosing a partition: murmur2 by key, sticky without one.
//!
//! A murmur2 that is nearly Java's still returns a partition; it just puts a
//! key somewhere a Java consumer of the same topic does not expect. A null-key
//! partitioner that round-robins per record spreads perfectly and leaves
//! nothing to batch; KIP-480's sticky partitioner is what this implements.

use rand::Rng;
use vstd::hash_map::StringHashMap;
use vstd::prelude::*;
use vstd::string::*;

verus! {

/// The multiplier of the hash.
pub const M: u32 = 0x5bd1_e995;

/// The seed every Kafka client uses.
pub const SEED: u32 = 0x9747_b28c;

/// The little-endian word at `at`.
pub open spec fn word_at(data: Seq<u8>, at: int) -> u32 {
    (data[at] + 0x100 * data[at + 1] + 0x1_0000 * data[at + 2] + 0x100_0000 * data[at + 3]) as u32
}

/// One word, scrambled.
pub open spec fn scrambled(word: u32) -> u32 {
    let k = word.wrapping_mul(M);
    (k ^ (k >> 24u32)).wrapping_mul(M)
}

/// The hash state after the first `words` whole words.
pub open spec fn absorbed(data: Seq<u8>, words: nat) -> u32
    decreases words,
{
    if words == 0 {
        SEED ^ (if data.len() > u32::MAX {
            u32::MAX
        } else {
            data.len() as u32
        })
    } else {
        let before = absorbed(data, (words - 1) as nat);
        before.wrapping_mul(M) ^ scrambled(word_at(data, 4 * (words - 1)))
    }
}

/// The hash state after the bytes that do not fill a word. Every non-empty
/// tail ends with a multiplication.
pub open spec fn with_tail(data: Seq<u8>, state: u32) -> u32 {
    let at = 4 * (data.len() / 4) as int;
    let left = data.len() % 4;
    let high = if left >= 3 {
        state ^ ((data[at + 2] as u32) << 16u32)
    } else {
        state
    };
    let middle = if left >= 2 {
        high ^ ((data[at + 1] as u32) << 8u32)
    } else {
        high
    };
    if left >= 1 {
        (middle ^ (data[at] as u32)).wrapping_mul(M)
    } else {
        middle
    }
}

/// The finishing mix.
pub open spec fn finished(state: u32) -> u32 {
    let a = (state ^ (state >> 13u32)).wrapping_mul(M);
    a ^ (a >> 15u32)
}

/// The hash of `data`, as a bit pattern.
pub open spec fn hash_bits(data: Seq<u8>) -> u32 {
    finished(with_tail(data, absorbed(data, data.len() / 4)))
}

/// The hash of `data`, with its top bit read as a sign.
pub open spec fn hash_of(data: Seq<u8>) -> i32 {
    crate::read::batch::twos_complement(hash_bits(data) as nat, 0x1_0000_0000) as i32
}

/// The hash of `data`, as a bit pattern.
fn murmur2_bits(data: &[u8]) -> (bits: u32)
    ensures
        bits == hash_bits(data@),
{
    // A slice longer than u32::MAX cannot be produced to Kafka under any
    // configuration, so saturating here is unreachable rather than lossy.
    let length: u32 = if data.len() as u64 > u32::MAX as u64 {
        u32::MAX
    } else {
        data.len() as u32
    };
    let mut h: u32 = SEED ^ length;
    let words: usize = data.len() / 4;
    let mut i: usize = 0;
    while i < words
        invariant
            i <= words,
            words == data@.len() / 4,
            data@.len() <= usize::MAX,
            h == absorbed(data@, i as nat),
        decreases words - i,
    {
        let at: usize = 4 * i;
        let mut k: u32 = data[at] as u32 + 0x100 * (data[at + 1] as u32) + 0x1_0000 * (data[at
            + 2] as u32) + 0x100_0000 * (data[at + 3] as u32);
        assert(k == word_at(data@, 4 * i));
        k = k.wrapping_mul(M);
        k = k ^ (k >> 24);
        k = k.wrapping_mul(M);
        h = h.wrapping_mul(M) ^ k;
        i += 1;
    }
    // The tail cases fall through, so a 3-byte tail applies all three shifts.
    let at: usize = 4 * words;
    let left: usize = data.len() % 4;
    if left >= 3 {
        h = h ^ ((data[at + 2] as u32) << 16);
    }
    if left >= 2 {
        h = h ^ ((data[at + 1] as u32) << 8);
    }
    if left >= 1 {
        h = h ^ (data[at] as u32);
        h = h.wrapping_mul(M);
    }
    h = h ^ (h >> 13);
    h = h.wrapping_mul(M);
    h ^ (h >> 15)
}

/// Java's `Utils.murmur2`, which is what every Kafka client's default
/// partitioner hashes with.
pub fn murmur2(data: &[u8]) -> (hash: i32)
    ensures
        hash == hash_of(data@),
{
    let bits: u32 = murmur2_bits(data);
    if bits < 0x8000_0000 {
        bits as i32
    } else {
        (bits as i64 - 0x1_0000_0000) as i32
    }
}

/// The partition count a key is spread over: at least one.
pub open spec fn spread(partition_count: i32) -> int {
    if partition_count < 1 {
        1
    } else {
        partition_count as int
    }
}

/// The partition a key belongs to.
pub open spec fn key_partition(key: Seq<u8>, partition_count: i32) -> int {
    (hash_bits(key) & 0x7fff_ffffu32) as int % spread(partition_count)
}

/// The partition a keyed record belongs to, exactly as Java's default
/// partitioner computes it: the hash with its sign bit masked off, modulo the
/// topic's total partition count.
pub fn partition_for_key(key: &[u8], partition_count: i32) -> (partition: i32)
    ensures
        partition == key_partition(key@, partition_count),
        0 <= partition < spread(partition_count),
{
    let positive: u32 = murmur2_bits(key) & 0x7fff_ffff;
    let count: u32 = if partition_count < 1 {
        1
    } else {
        partition_count as u32
    };
    let partition: u32 = positive % count;
    partition as i32
}

/// The sign bit of a hash plays no part: the partition is the signed hash's
/// remainder, with a negative hash lifted by 2^31.
pub proof fn the_sign_is_masked_not_negated(key: Seq<u8>, partition_count: i32)
    ensures
        key_partition(key, partition_count) == (if hash_of(key) < 0 {
            hash_of(key) + 0x8000_0000
        } else {
            hash_of(key) as int
        }) % spread(partition_count),
        0 <= key_partition(key, partition_count) < spread(partition_count),
{
    let bits = hash_bits(key);
    assert(bits < 0x8000_0000u32 ==> bits & 0x7fff_ffffu32 == bits) by (bit_vector);
    assert(bits >= 0x8000_0000u32 ==> bits & 0x7fff_ffffu32 == bits - 0x8000_0000u32) by (bit_vector);
}

/// Picks a partition for records that did not name one.
///
/// Keyed records hash. Unkeyed records stick: one partition per topic, reused
/// until [`Partitioner::rotate`] is called.
pub struct Partitioner {
    sticky: StringHashMap<i32>,
}

impl View for Partitioner {
    type V = Map<Seq<char>, i32>;

    closed spec fn view(&self) -> Map<Seq<char>, i32> {
        self.sticky@
    }
}

/// A stuck choice, held below the partition count.
pub open spec fn clamped(chosen: i32, partition_count: i32) -> i32 {
    if chosen >= partition_count {
        if partition_count - 1 > 0 {
            (partition_count - 1) as i32
        } else {
            0
        }
    } else {
        chosen
    }
}

/// Draws a partition with `rand::Rng::random_range` on `rand::rng()`.
///
/// The draw is a random one, so the contract claims only what holds of every
/// draw: it is one of the partitions. An empty range would panic.
#[verifier::external_body]
fn draw(partition_count: i32) -> (partition: i32)
    requires
        partition_count > 0,
    ensures
        0 <= partition < partition_count,
{
    rand::rng().random_range(0..partition_count)
}

impl Partitioner {
    /// Whether every stuck choice is a partition number.
    pub closed spec fn wf(&self) -> bool {
        forall|topic: Seq<char>| #[trigger] self@.contains_key(topic) ==> self@[topic] >= 0
    }

    /// A partitioner with no topic stuck yet.
    pub fn new() -> (partitioner: Self)
        ensures
            partitioner.wf(),
            partitioner@ == Map::<Seq<char>, i32>::empty(),
    {
        Partitioner { sticky: StringHashMap::new() }
    }

    /// The partition for a record, or `None` when the topic has none.
    pub fn assign(&mut self, topic: &str, key: Option<&[u8]>, partition_count: i32) -> (partition:
        Option<i32>)
        requires
            old(self).wf(),
        ensures
            final(self).wf(),
            partition_count <= 0 ==> partition is None && final(self)@ == old(self)@,
            partition_count > 0 ==> match key {
                Some(key) => partition == Some(key_partition(key@, partition_count) as i32)
                    && final(self)@ == old(self)@,
                None => partition matches Some(chosen) && 0 <= chosen < partition_count && final(self)@ == old(self)@.insert(topic@, chosen) && (old(self)@.contains_key(topic@)
                    ==> chosen == clamped(old(self)@[topic@], partition_count)),
            },
    {
        if partition_count <= 0 {
            return None;
        }
        match key {
            Some(key) => Some(partition_for_key(key, partition_count)),
            None => Some(self.sticky_for(topic, partition_count)),
        }
    }

    /// Releases the topic's stuck partition, so the next unkeyed record picks a
    /// new one.
    ///
    /// The replacement is drawn afresh rather than stepped, so it may be the
    /// same partition again.
    pub fn rotate(&mut self, topic: &str)
        requires
            old(self).wf(),
        ensures
            final(self).wf(),
            final(self)@ == old(self)@.remove(topic@),
    {
        self.sticky.remove(topic);
    }

    /// The topic's stuck partition, drawing one if it has none.
    fn sticky_for(&mut self, topic: &str, partition_count: i32) -> (chosen: i32)
        requires
            old(self).wf(),
            partition_count > 0,
        ensures
            final(self).wf(),
            0 <= chosen < partition_count,
            final(self)@ == old(self)@.insert(topic@, chosen),
            old(self)@.contains_key(topic@) ==> chosen == clamped(
                old(self)@[topic@],
                partition_count,
            ),
    {
        let known: Option<i32> = match self.sticky.get(topic) {
            Some(chosen) => {
                assert(self@.contains_key(topic@));
                Some(*chosen)
            },
            None => None,
        };
        let chosen: i32 = match known {
            Some(chosen) => chosen,
            None => draw(partition_count),
        };
        self.stick(topic, chosen, partition_count)
    }

    /// Sticks a topic to a choice, held below the partition count.
    ///
    /// A topic can gain partitions under us; it can never lose them. The choice
    /// is held in range anyway, because the alternative is producing to a
    /// partition that does not exist.
    pub fn stick(&mut self, topic: &str, chosen: i32, partition_count: i32) -> (partition: i32)
        requires
            old(self).wf(),
            partition_count > 0,
            chosen >= 0,
        ensures
            final(self).wf(),
            partition == clamped(chosen, partition_count),
            0 <= partition < partition_count,
            final(self)@ == old(self)@.insert(topic@, partition),
    {
        let partition: i32 = if chosen >= partition_count {
            if partition_count - 1 > 0 {
                partition_count - 1
            } else {
                0
            }
        } else {
            chosen
        };
        self.sticky.insert(topic.to_owned(), partition);
        assert(self.wf()) by {
            assert(self@ == old(self)@.insert(topic@, partition));
        }
        partition
    }
}

impl Default for Partitioner {
    /// A partitioner with no topic stuck yet.
    fn default() -> (partitioner: Self)
        ensures
            partitioner.wf(),
            partitioner@ == Map::<Seq<char>, i32>::empty(),
    {
        Partitioner::new()
    }
}

/// A topic stuck to a partition that exists stays stuck to it, and sticking
/// another topic, or any number of keyed records, leaves it alone.
pub proof fn a_stuck_topic_stays_stuck(
    sticky: Map<Seq<char>, i32>,
    topic: Seq<char>,
    other: Seq<char>,
    elsewhere: i32,
    partition_count: i32,
)
    requires
        sticky.contains_key(topic),
        0 <= sticky[topic] < partition_count,
        other != topic,
    ensures
        clamped(sticky[topic], partition_count) == sticky[topic],
        sticky.insert(topic, clamped(sticky[topic], partition_count)) == sticky,
        sticky.insert(other, elsewhere)[topic] == sticky[topic],
        sticky.remove(other)[topic] == sticky[topic],
{
    assert(sticky.insert(topic, sticky[topic]) =~= sticky);
}

} // verus!
