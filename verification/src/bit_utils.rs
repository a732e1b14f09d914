//! Bit manipulation utilities for packed bit arrays.
//!
//! A bit vector is stored as an array of `u64` words, bit `i` being bit
//! `i % 64` of word `i / 64`.  All parity and error-register manipulation in
//! the crate goes through these operations, so the packed layout is a single
//! point of change.

use vstd::prelude::*;

verus! {

/// Bit `i` of the bit vector packed into `words`.
pub open spec fn bit_get(words: Seq<u64>, i: int) -> bool
    recommends
        0 <= i < words.len() * 64,
{
    (words[i / 64] >> ((i % 64) as u64)) & 1u64 == 1u64
}

proof fn lemma_bit_xor(w: u64, b: u64, c: u64)
    by (bit_vector)
    requires
        b < 64,
        c < 64,
    ensures
        ((w ^ (1u64 << b)) >> c) & 1u64 == 1u64 <==> (if b == c {
            !((w >> c) & 1u64 == 1u64)
        } else {
            (w >> c) & 1u64 == 1u64
        }),
{
}

proof fn lemma_bit_or(w: u64, b: u64, c: u64)
    by (bit_vector)
    requires
        b < 64,
        c < 64,
    ensures
        ((w | (1u64 << b)) >> c) & 1u64 == 1u64 <==> (if b == c {
            true
        } else {
            (w >> c) & 1u64 == 1u64
        }),
{
}

proof fn lemma_bit_clear(w: u64, b: u64, c: u64)
    by (bit_vector)
    requires
        b < 64,
        c < 64,
    ensures
        ((w & !(1u64 << b)) >> c) & 1u64 == 1u64 <==> (if b == c {
            false
        } else {
            (w >> c) & 1u64 == 1u64
        }),
{
}

proof fn lemma_zero_bit(c: u64)
    by (bit_vector)
    requires
        c < 64,
    ensures
        (0u64 >> c) & 1u64 != 1u64,
{
}

/// Every bit of the all-zero word vector is clear.
pub proof fn lemma_zero_words(words: Seq<u64>)
    requires
        forall|k: int| 0 <= k < words.len() ==> words[k] == 0u64,
    ensures
        forall|i: int| 0 <= i < words.len() * 64 ==> !bit_get(words, i),
{
    assert forall|i: int| 0 <= i < words.len() * 64 implies !bit_get(words, i) by {
        lemma_zero_bit((i % 64) as u64);
    }
}

/// Static utility functions for bit-level operations on `u64` word arrays.
pub struct BitPack;

impl BitPack {
    /// Reads a single bit from a packed bit array.
    pub fn get(storage: &[u64], index: usize) -> (r: bool)
        requires
            index < storage@.len() * 64,
        ensures
            r == bit_get(storage@, index as int),
    {
        let word: u64 = *vstd::slice::slice_index_get(storage, index / 64);
        let bit: u64 = (index % 64) as u64;
        (word >> bit) & 1u64 == 1u64
    }

    /// Toggles a single bit in a packed bit array, leaving every other bit
    /// as it was.
    pub fn toggle(storage: &mut [u64], index: usize)
        requires
            index < old(storage)@.len() * 64,
        ensures
            final(storage)@.len() == old(storage)@.len(),
            forall|j: int|
                0 <= j < old(storage)@.len() * 64 ==> bit_get(final(storage)@, j) == (if j
                    == index as int {
                    !bit_get(old(storage)@, j)
                } else {
                    bit_get(old(storage)@, j)
                }),
    {
        let word_idx = index / 64;
        let bit_idx: u64 = (index % 64) as u64;
        let word: u64 = *vstd::slice::slice_index_get(storage, word_idx);
        storage[word_idx] = word ^ (1u64 << bit_idx);
        proof {
            assert forall|j: int| 0 <= j < old(storage)@.len() * 64 implies bit_get(
                storage@,
                j,
            ) == (if j == index as int {
                !bit_get(old(storage)@, j)
            } else {
                bit_get(old(storage)@, j)
            }) by {
                if j / 64 == word_idx as int {
                    lemma_bit_xor(word, bit_idx, (j % 64) as u64);
                }
            }
        }
    }

    /// Writes a single bit of a packed bit array, leaving every other bit
    /// as it was.
    pub fn set(storage: &mut [u64], index: usize, val: bool)
        requires
            index < old(storage)@.len() * 64,
        ensures
            final(storage)@.len() == old(storage)@.len(),
            forall|j: int|
                0 <= j < old(storage)@.len() * 64 ==> bit_get(final(storage)@, j) == (if j
                    == index as int {
                    val
                } else {
                    bit_get(old(storage)@, j)
                }),
    {
        let word_idx = index / 64;
        let bit_idx: u64 = (index % 64) as u64;
        let word: u64 = *vstd::slice::slice_index_get(storage, word_idx);
        if val {
            storage[word_idx] = word | (1u64 << bit_idx);
        } else {
            storage[word_idx] = word & !(1u64 << bit_idx);
        }
        proof {
            assert forall|j: int| 0 <= j < old(storage)@.len() * 64 implies bit_get(
                storage@,
                j,
            ) == (if j == index as int {
                val
            } else {
                bit_get(old(storage)@, j)
            }) by {
                if j / 64 == word_idx as int {
                    if val {
                        lemma_bit_or(word, bit_idx, (j % 64) as u64);
                    } else {
                        lemma_bit_clear(word, bit_idx, (j % 64) as u64);
                    }
                }
            }
        }
    }
}

/// Packs a vector of booleans into `u64` words, bit `i` of the result being
/// `bits[i]`.  Together with `BitPack::get` this is an exact round trip: for
/// every index the decoded bit reproduces the input.
pub fn pack_bits(bits: &[bool]) -> (words: Vec<u64>)
    requires
        bits@.len() + 63 <= usize::MAX,
    ensures
        words@.len() == (bits@.len() + 63) / 64,
        forall|i: int| 0 <= i < bits@.len() ==> bit_get(words@, i) == bits@[i],
{
    let n = bits.len();
    let num_words = (n + 63) / 64;
    let mut words: Vec<u64> = Vec::new();
    while words.len() < num_words
        invariant
            words@.len() <= num_words,
            forall|k: int| 0 <= k < words@.len() ==> words@[k] == 0u64,
        decreases num_words - words@.len(),
    {
        words.push(0u64);
    }
    proof {
        lemma_zero_words(words@);
    }
    let mut i: usize = 0;
    while i < n
        invariant
            i <= n,
            n == bits@.len(),
            words@.len() == num_words,
            num_words == (n + 63) / 64,
            n <= words@.len() * 64,
            forall|j: int| 0 <= j < i ==> bit_get(words@, j) == bits@[j],
            forall|j: int| i <= j < n ==> !bit_get(words@, j),
        decreases n - i,
    {
        if *vstd::slice::slice_index_get(bits, i) {
            BitPack::set(words.as_mut_slice(), i, true);
        }
        i = i + 1;
    }
    words
}

} // verus!
