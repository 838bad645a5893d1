//! Fixed-width bit sets stored as little-endian 64-bit words.

use vstd::math::min;
use vstd::prelude::*;

verus! {

/// Membership of `index` in the set that `bits` stores.
pub open spec fn has_bit(bits: Seq<u64>, index: int) -> bool {
    (bits[index / 64] >> ((index % 64) as u64)) & 1u64 == 1u64
}

/// Words needed for a set over `0..n`.
pub open spec fn word_count(n: int) -> int {
    (n + 63) / 64
}

/// Positions that a set over `0..n` stores.
pub open spec fn bit_width(n: int) -> int {
    64 * word_count(n)
}

proof fn lemma_set_in_word(word: u64, at: u64, probe: u64)
    by (bit_vector)
    requires
        at < 64,
        probe < 64,
    ensures
        ((word | (1u64 << at)) >> probe) & 1u64 == 1u64 <==> (probe == at || (word >> probe) & 1u64
            == 1u64),
{
}

proof fn lemma_or_in_word(left: u64, right: u64, probe: u64)
    by (bit_vector)
    requires
        probe < 64,
    ensures
        ((left | right) >> probe) & 1u64 == 1u64 <==> ((left >> probe) & 1u64 == 1u64 || (right
            >> probe) & 1u64 == 1u64),
{
}

proof fn lemma_zero_word(probe: u64)
    by (bit_vector)
    requires
        probe < 64,
    ensures
        (0u64 >> probe) & 1u64 != 1u64,
{
}

proof fn lemma_common_bit(left: u64, right: u64, probe: u64)
    by (bit_vector)
    requires
        probe < 64,
        (left >> probe) & 1u64 == 1u64,
        (right >> probe) & 1u64 == 1u64,
    ensures
        left & right != 0,
{
}

/// A nonzero word has a bit somewhere.
proof fn lemma_some_bit(word: u64)
    requires
        word != 0,
    ensures
        exists|probe: u64| probe < 64 && (word >> probe) & 1u64 == 1u64,
    decreases word,
{
    if word & 1u64 == 1u64 {
        assert((word >> 0u64) & 1u64 == 1u64) by (bit_vector)
            requires
                word & 1u64 == 1u64,
        ;
    } else {
        let half = word >> 1u64;
        assert(half != 0 && half < word) by (bit_vector)
            requires
                word != 0,
                word & 1u64 != 1u64,
                half == word >> 1u64,
        ;
        lemma_some_bit(half);
        let probe: u64 = choose|probe: u64| probe < 64 && (half >> probe) & 1u64 == 1u64;
        let next: u64 = (probe + 1) as u64;
        assert(next < 64 && (word >> next) & 1u64 == 1u64) by (bit_vector)
            requires
                half == word >> 1u64,
                probe < 64,
                next == probe + 1,
                (half >> probe) & 1u64 == 1u64,
        ;
    }
}

fn low_bits(index: usize) -> (r: u64)
    ensures
        r == index % 64,
{
    (index % 64) as u64
}

/// An empty set with room for `0..n`.
pub fn bit_empty(n: usize) -> (bits: Vec<u64>)
    ensures
        bits@.len() == word_count(n as int),
        forall|i: int| 0 <= i < bit_width(n as int) ==> !(#[trigger] has_bit(bits@, i)),
{
    let words: usize = n / 64 + (if n % 64 != 0 { 1usize } else { 0usize });
    let bits: Vec<u64> = vec![0u64; words];
    proof {
        assert forall|i: int| 0 <= i < bit_width(n as int) implies !(#[trigger] has_bit(bits@, i)) by {
            lemma_zero_word((i % 64) as u64);
        }
    }
    bits
}

/// Inserts `index`.
pub fn bit_set(bits: &mut Vec<u64>, index: usize)
    requires
        index / 64 < old(bits)@.len(),
    ensures
        final(bits)@.len() == old(bits)@.len(),
        forall|i: int|
            0 <= i < 64 * old(bits)@.len() ==> (#[trigger] has_bit(final(bits)@, i) <==> (i == index
                || has_bit(old(bits)@, i))),
{
    let word: usize = index / 64;
    let at: u64 = low_bits(index);
    let ghost before = bits@;
    let value: u64 = bits[word] | (1u64 << at);
    bits.set(word, value);
    proof {
        assert forall|i: int| 0 <= i < 64 * before.len() implies (#[trigger] has_bit(bits@, i)
            <==> (i == index || has_bit(before, i))) by {
            if i / 64 == word {
                lemma_set_in_word(before[word as int], at, (i % 64) as u64);
            }
        }
    }
}

/// Whether `index` is in the set.
pub fn bit_test(bits: &Vec<u64>, index: usize) -> (present: bool)
    requires
        index / 64 < bits@.len(),
    ensures
        present == has_bit(bits@, index as int),
{
    (bits[index / 64] >> low_bits(index)) & 1 == 1
}

/// Adds every member of `source` to `destination`.
pub fn bit_or_into(destination: &mut Vec<u64>, source: &Vec<u64>)
    requires
        old(destination)@.len() <= source@.len(),
    ensures
        final(destination)@.len() == old(destination)@.len(),
        forall|i: int|
            0 <= i < 64 * old(destination)@.len() ==> (#[trigger] has_bit(final(destination)@, i)
                <==> (has_bit(old(destination)@, i) || has_bit(source@, i))),
{
    let ghost before = destination@;
    let mut index: usize = 0;
    while index < destination.len()
        invariant
            destination@.len() == before.len(),
            before.len() <= source@.len(),
            index <= destination@.len(),
            forall|w: int| 0 <= w < index ==> destination@[w] == before[w] | source@[w],
            forall|w: int| index <= w < before.len() ==> destination@[w] == before[w],
        decreases before.len() - index,
    {
        let value: u64 = destination[index] | source[index];
        destination.set(index, value);
        index = index + 1;
    }
    proof {
        assert forall|i: int| 0 <= i < 64 * before.len() implies (#[trigger] has_bit(
            destination@,
            i,
        ) <==> (has_bit(before, i) || has_bit(source@, i))) by {
            lemma_or_in_word(before[i / 64], source@[i / 64], (i % 64) as u64);
        }
    }
}

/// Whether the two sets share a member, as far as both store positions.
pub fn bit_intersects(left: &Vec<u64>, right: &Vec<u64>) -> (shared: bool)
    ensures
        shared == exists|i: int|
            0 <= i < 64 * min(left@.len() as int, right@.len() as int) && #[trigger] has_bit(
                left@,
                i,
            ) && has_bit(right@, i),
{
    let mut index: usize = 0;
    while index < left.len() && index < right.len()
        invariant
            index <= left@.len(),
            index <= right@.len(),
            forall|w: int| 0 <= w < index ==> left@[w] & right@[w] == 0,
        decreases left@.len() - index,
    {
        let word: u64 = left[index] & right[index];
        if word != 0 {
            proof {
                lemma_some_bit(word);
                let probe: u64 = choose|probe: u64| probe < 64 && (word >> probe) & 1u64 == 1u64;
                let a = left@[index as int];
                let b = right@[index as int];
                assert((a >> probe) & 1u64 == 1u64 && (b >> probe) & 1u64 == 1u64) by (bit_vector)
                    requires
                        ((a & b) >> probe) & 1u64 == 1u64,
                        probe < 64,
                ;
                let i = 64 * index + probe;
                assert(i / 64 == index && i % 64 == probe);
                assert(has_bit(left@, i));
                assert(has_bit(right@, i));
            }
            return true;
        }
        index = index + 1;
    }
    proof {
        assert forall|i: int|
            0 <= i < 64 * min(left@.len() as int, right@.len() as int) && #[trigger] has_bit(
                left@,
                i,
            ) implies !has_bit(right@, i) by {
            if has_bit(right@, i) {
                lemma_common_bit(left@[i / 64], right@[i / 64], (i % 64) as u64);
            }
        }
    }
    false
}

} // verus!
