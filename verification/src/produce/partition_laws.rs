//! What holds of every choice of a partition.

use vstd::prelude::*;

use crate::produce::partition::{
    absorbed, clamped, hash_bits, hash_of, key_partition, with_tail,
};

verus! {

/// The number that some bytes are, the least significant first.
#[verifier::opaque]
pub open spec fn little_endian(bytes: Seq<u8>) -> nat
    decreases bytes.len(),
{
    if bytes.len() == 0 {
        0
    } else {
        bytes[0] as nat + 256 * little_endian(bytes.skip(1))
    }
}

/// A product, in 32 bits.
#[verifier::opaque]
pub open spec fn product(a: u32, b: u32) -> u32 {
    ((a as nat * b as nat) % 0x1_0000_0000) as u32
}

/// A state with a key stirred in: four bytes at a time from the front, and what
/// is left over, be it one byte, two or three, as one number.
#[verifier::opaque]
pub open spec fn stirred(state: u32, data: Seq<u8>) -> u32
    decreases data.len(),
{
    if data.len() >= 4 {
        let k = product(little_endian(data.take(4)) as u32, 0x5bd1_e995);
        stirred(
            product(state, 0x5bd1_e995) ^ product(k ^ (k >> 24u32), 0x5bd1_e995),
            data.skip(4),
        )
    } else if data.len() > 0 {
        product(state ^ (little_endian(data) as u32), 0x5bd1_e995)
    } else {
        state
    }
}

/// A product with the multiplier that was worked out.
proof fn lemma_product(a: u32, b: u32)
    requires
        (a as nat * 0x5bd1_e995nat) % 0x1_0000_0000 == b as nat,
    ensures
        product(a, 0x5bd1_e995) == b,
{
    reveal(product);
}

/// What four bytes or fewer are as a number.
proof fn lemma_little_endian(bytes: Seq<u8>)
    requires
        bytes.len() <= 4,
    ensures
        little_endian(bytes) == if bytes.len() == 0 {
            0int
        } else if bytes.len() == 1 {
            bytes[0] as int
        } else if bytes.len() == 2 {
            bytes[0] + 0x100 * bytes[1]
        } else if bytes.len() == 3 {
            bytes[0] + 0x100 * bytes[1] + 0x1_0000 * bytes[2]
        } else {
            bytes[0] + 0x100 * bytes[1] + 0x1_0000 * bytes[2] + 0x100_0000 * bytes[3]
        },
    decreases bytes.len(),
{
    reveal_with_fuel(little_endian, 2);
    if bytes.len() > 0 {
        lemma_little_endian(bytes.skip(1));
    }
}

/// One word is stirred in.
proof fn lemma_stir_word(state: u32, data: Seq<u8>)
    requires
        data.len() >= 4,
    ensures
        ({
            let word = (data[0] + 0x100 * data[1] + 0x1_0000 * data[2] + 0x100_0000
                * data[3]) as u32;
            let k = product(word, 0x5bd1_e995);
            stirred(state, data) == stirred(
                product(state, 0x5bd1_e995) ^ product(k ^ (k >> 24u32), 0x5bd1_e995),
                data.skip(4),
            )
        }),
{
    reveal_with_fuel(stirred, 2);
    lemma_little_endian(data.take(4));
}

/// What is left over is stirred in.
proof fn lemma_stir_tail(state: u32, data: Seq<u8>)
    requires
        data.len() < 4,
    ensures
        data.len() == 0 ==> stirred(state, data) == state,
        data.len() == 1 ==> stirred(state, data) == product(state ^ (data[0] as u32), 0x5bd1_e995),
        data.len() == 2 ==> stirred(state, data) == product(
            state ^ ((data[0] + 0x100 * data[1]) as u32),
            0x5bd1_e995,
        ),
        data.len() == 3 ==> stirred(state, data) == product(
            state ^ ((data[0] + 0x100 * data[1] + 0x1_0000 * data[2]) as u32),
            0x5bd1_e995,
        ),
{
    reveal_with_fuel(stirred, 2);
    lemma_little_endian(data);
}

/// The bytes that do not fill a word go into the state as one number.
proof fn lemma_tail(data: Seq<u8>, state: u32)
    ensures
        with_tail(data, state) == stirred(state, data.skip(4 * (data.len() / 4) as int)),
{
    let at = 4 * (data.len() / 4) as int;
    let rest = data.skip(at);
    reveal(product);
    lemma_stir_tail(state, rest);
    let a = if rest.len() > 0 { rest[0] } else { 0u8 };
    let b = if rest.len() > 1 { rest[1] } else { 0u8 };
    let c = if rest.len() > 2 { rest[2] } else { 0u8 };
    let two: u32 = (a as u32 + 256 * (b as u32)) as u32;
    let three: u32 = (a as u32 + 256 * (b as u32) + 65536 * (c as u32)) as u32;
    assert((state ^ ((b as u32) << 8u32)) ^ (a as u32) == state ^ two) by (bit_vector)
        requires
            two == a as u32 + 256 * (b as u32),
    ;
    assert(((state ^ ((c as u32) << 16u32)) ^ ((b as u32) << 8u32)) ^ (a as u32) == state ^ three)
        by (bit_vector)
        requires
            three == a as u32 + 256 * (b as u32) + 65536 * (c as u32),
    ;
}

/// The first words go into the state from the front.
proof fn lemma_words(data: Seq<u8>, words: nat)
    requires
        4 * words <= data.len(),
        data.len() <= u32::MAX,
    ensures
        stirred(0x9747_b28cu32 ^ (data.len() as u32), data) == stirred(
            absorbed(data, words),
            data.skip(4 * words as int),
        ),
    decreases words,
{
    if words == 0 {
        assert(data.skip(0) =~= data);
    } else {
        let before = (words - 1) as nat;
        lemma_words(data, before);
        let rest = data.skip(4 * before as int);
        assert(rest.skip(4) =~= data.skip(4 * words as int));
        reveal(product);
        lemma_stir_word(absorbed(data, before), rest);
    }
}

/// The hash is Java's `murmur2`, for a key of any length: whole words from the
/// front, the one to three bytes that are left over as one number with a
/// multiplication after it, and the finishing mix.
pub proof fn the_hash_is_javas(data: Seq<u8>)
    requires
        data.len() <= u32::MAX,
    ensures
        ({
            let state = stirred(0x9747_b28cu32 ^ (data.len() as u32), data);
            let mixed = product(state ^ (state >> 13u32), 0x5bd1_e995);
            hash_bits(data) == mixed ^ (mixed >> 15u32)
        }),
{
    reveal(product);
    lemma_words(data, data.len() / 4);
    lemma_tail(data, absorbed(data, data.len() / 4));
}

/// A key of two bytes, "21".
proof fn lemma_two_bytes()
    ensures
        hash_bits(seq![50u8, 49u8]) == 3321034988u32,
{
    let data = seq![50u8, 49u8];
    the_hash_is_javas(data);
    assert(0x9747_b28cu32 ^ 2u32 == 2538058382u32) by (bit_vector);
    lemma_stir_tail(2538058382, data);
    assert(2538058382u32 ^ 12594u32 == 2538046396u32) by (bit_vector);
    lemma_product(2538046396, 2214709356);
    assert(2214709356u32 ^ (2214709356u32 >> 13u32) == 2214979682u32) by (bit_vector);
    lemma_product(2214979682, 3321066250);
    assert(3321066250u32 ^ (3321066250u32 >> 15u32) == 3321034988u32) by (bit_vector);
}

/// A key of three bytes, "abc".
proof fn lemma_three_bytes()
    ensures
        hash_bits(seq![97u8, 98u8, 99u8]) == 479470107u32,
{
    let data = seq![97u8, 98u8, 99u8];
    the_hash_is_javas(data);
    assert(0x9747_b28cu32 ^ 3u32 == 2538058383u32) by (bit_vector);
    lemma_stir_tail(2538058383, data);
    assert(2538058383u32 ^ 6513249u32 == 2535772398u32) by (bit_vector);
    lemma_product(2535772398, 2799974534);
    assert(2799974534u32 ^ (2799974534u32 >> 13u32) == 2799767463u32) by (bit_vector);
    lemma_product(2799767463, 479468339);
    assert(479468339u32 ^ (479468339u32 >> 15u32) == 479470107u32) by (bit_vector);
}

/// A key of four bytes, "test".
proof fn lemma_four_bytes()
    ensures
        hash_bits(seq![116u8, 101u8, 115u8, 116u8]) == 716234879u32,
{
    let data = seq![116u8, 101u8, 115u8, 116u8];
    the_hash_is_javas(data);
    assert(0x9747_b28cu32 ^ 4u32 == 2538058376u32) by (bit_vector);
    lemma_stir_word(2538058376, data);
    lemma_product(1953719668, 3727990916);
    assert(3727990916u32 ^ (3727990916u32 >> 24u32) == 3727990874u32) by (bit_vector);
    lemma_product(3727990874, 571293282);
    lemma_product(2538058376, 1732292904);
    assert(1732292904u32 ^ 571293282u32 == 1162710858u32) by (bit_vector);
    lemma_stir_tail(1162710858, data.skip(4));
    assert(1162710858u32 ^ (1162710858u32 >> 13u32) == 1162847526u32) by (bit_vector);
    lemma_product(1162847526, 716223774);
    assert(716223774u32 ^ (716223774u32 >> 15u32) == 716234879u32) by (bit_vector);
}

/// A key of five bytes, "alice".
proof fn lemma_five_bytes()
    ensures
        hash_bits(seq![97u8, 108u8, 105u8, 99u8, 101u8]) == 1951417749u32,
{
    let data = seq![97u8, 108u8, 105u8, 99u8, 101u8];
    the_hash_is_javas(data);
    assert(0x9747_b28cu32 ^ 5u32 == 2538058377u32) by (bit_vector);
    lemma_stir_word(2538058377, data);
    lemma_product(1667853409, 3325123957);
    assert(3325123957u32 ^ (3325123957u32 >> 24u32) == 3325124019u32) by (bit_vector);
    lemma_product(3325124019, 1764127791);
    lemma_product(2538058377, 3272776381);
    assert(3272776381u32 ^ 1764127791u32 == 2855595666u32) by (bit_vector);
    lemma_stir_tail(2855595666, data.skip(4));
    assert(2855595666u32 ^ 101u32 == 2855595767u32) by (bit_vector);
    lemma_product(2855595767, 586474691);
    assert(586474691u32 ^ (586474691u32 >> 13u32) == 586543972u32) by (bit_vector);
    lemma_product(586543972, 1951444276);
    assert(1951444276u32 ^ (1951444276u32 >> 15u32) == 1951417749u32) by (bit_vector);
}

/// And so it gives the values that other clients give, for a key of every length
/// modulo four.
pub proof fn known_keys_hash_as_elsewhere()
    ensures
        hash_bits(seq![50u8, 49u8]) == 3321034988u32,
        hash_bits(seq![97u8, 98u8, 99u8]) == 479470107u32,
        hash_bits(seq![116u8, 101u8, 115u8, 116u8]) == 716234879u32,
        hash_bits(seq![97u8, 108u8, 105u8, 99u8, 101u8]) == 1951417749u32,
{
    lemma_two_bytes();
    lemma_three_bytes();
    lemma_four_bytes();
    lemma_five_bytes();
}

/// A keyed record goes where Java's default partitioner puts it: to the hash
/// without its top bit, modulo the number of partitions; so keys with the same
/// bytes go together, and what the signed hash is of says nothing else.
pub proof fn a_key_goes_where_java_puts_it(key: Seq<u8>, partition_count: i32)
    requires
        partition_count > 0,
    ensures
        key_partition(key, partition_count) == (hash_bits(key) % 0x8000_0000) as int
            % partition_count as int,
        hash_bits(key) < 0x8000_0000 ==> hash_of(key) == hash_bits(key),
        hash_bits(key) >= 0x8000_0000 ==> hash_of(key) == hash_bits(key) - 0x1_0000_0000,
{
    let bits = hash_bits(key);
    assert(bits & 0x7fff_ffffu32 == bits % 0x8000_0000u32) by (bit_vector);
}

/// A choice that exists is kept, and one that does not becomes the last
/// partition.
pub proof fn a_choice_is_held_in_range(chosen: i32, partition_count: i32)
    requires
        chosen >= 0,
        partition_count > 0,
    ensures
        0 <= clamped(chosen, partition_count) < partition_count,
        chosen < partition_count ==> clamped(chosen, partition_count) == chosen,
        chosen >= partition_count ==> clamped(chosen, partition_count) == partition_count - 1,
{
}

} // verus!
