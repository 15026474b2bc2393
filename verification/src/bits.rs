//! Bit-level facts about `u8` words.
//!
//! A packed bit-vector stores bit `i` in word `i / 8`, at position `i % 8`
//! counted from the most-significant bit of the word.  `word_bit` is the
//! reading of one such position; the lemmas here bridge the machine's bitwise
//! operators and that reading.

use vstd::prelude::*;

verus! {

/// Number of 8-bit words needed to hold `size` bits.
pub open spec fn nbr_words(size: int) -> int {
    (size + 7) / 8
}

/// True iff bit `j` of `w` is set, counting position 0 as the most-significant
/// bit of the word (big-endian bit order within a word).
pub open spec fn word_bit(w: u8, j: u8) -> bool {
    (w >> ((7 - j) as u8)) & 1u8 == 1u8
}

/// The mask test `(w & (1 << (7 - pos))) > 0` reads exactly bit `pos`.
pub proof fn lemma_word_bit_mask(w: u8, pos: u8)
    by (bit_vector)
    requires
        pos < 8,
    ensures
        ((w & (1u8 << ((7 - pos) as u8))) > 0) == word_bit(w, pos),
{
}

/// Or-ing the mask of `pos` sets that bit and leaves the others alone.
pub proof fn lemma_word_bit_set(w: u8, pos: u8, t: u8)
    by (bit_vector)
    requires
        pos < 8,
        t < 8,
    ensures
        word_bit(w | (1u8 << ((7 - pos) as u8)), t) == (t == pos || word_bit(w, t)),
{
}

/// And-ing the complemented mask of `pos` clears that bit and leaves the
/// others alone.
pub proof fn lemma_word_bit_clear(w: u8, pos: u8, t: u8)
    by (bit_vector)
    requires
        pos < 8,
        t < 8,
    ensures
        word_bit(w & !(1u8 << ((7 - pos) as u8)), t) == (t != pos && word_bit(w, t)),
{
}

/// Bitwise and is pointwise conjunction.
pub proof fn lemma_word_bit_and(a: u8, b: u8, j: u8)
    by (bit_vector)
    requires
        j < 8,
    ensures
        word_bit(a & b, j) == (word_bit(a, j) && word_bit(b, j)),
{
}

/// `a & !b` is pointwise difference.
pub proof fn lemma_word_bit_diff(a: u8, b: u8, j: u8)
    by (bit_vector)
    requires
        j < 8,
    ensures
        word_bit(a & !b, j) == (word_bit(a, j) && !word_bit(b, j)),
{
}

/// Bitwise complement is pointwise negation.
pub proof fn lemma_word_bit_not(a: u8, j: u8)
    by (bit_vector)
    requires
        j < 8,
    ensures
        word_bit(!a, j) == !word_bit(a, j),
{
}

/// The all-zero and all-one words, read pointwise.
pub proof fn lemma_word_bit_const(j: u8)
    by (bit_vector)
    requires
        j < 8,
    ensures
        !word_bit(0u8, j),
        word_bit(255u8, j),
{
}

/// A word is zero exactly when each of its eight bits is unset.
pub proof fn lemma_word_bit_zero_enum(w: u8)
    by (bit_vector)
    ensures
        (w == 0) == (!word_bit(w, 0) && !word_bit(w, 1) && !word_bit(w, 2) && !word_bit(w, 3)
            && !word_bit(w, 4) && !word_bit(w, 5) && !word_bit(w, 6) && !word_bit(w, 7)),
{
}

/// A word is zero exactly when no bit position reads as set.
pub proof fn lemma_word_bit_zero(w: u8)
    ensures
        (w == 0) == (forall|j: u8| j < 8 ==> !word_bit(w, j)),
{
    lemma_word_bit_zero_enum(w);
    if w == 0 {
        assert forall|j: u8| j < 8 implies !word_bit(w, j) by {
            assert(j == 0 || j == 1 || j == 2 || j == 3 || j == 4 || j == 5 || j == 6 || j == 7);
        }
    }
}

/// One of the four word-wise set-algebra combinations: or, and, and-not, xor,
/// selected by `op`.
pub open spec fn combine_word(op: u8, a: u8, b: u8) -> u8 {
    if op == 0 {
        a | b
    } else if op == 1 {
        a & b
    } else if op == 2 {
        a & !b
    } else {
        a ^ b
    }
}

/// The same four combinations, read on a single bit.
pub open spec fn combine_bit(op: u8, x: bool, y: bool) -> bool {
    if op == 0 {
        x || y
    } else if op == 1 {
        x && y
    } else if op == 2 {
        x && !y
    } else {
        x != y
    }
}

/// A word-wise combination reads back pointwise.
pub proof fn lemma_combine_word_bit(op: u8, a: u8, b: u8, j: u8)
    by (bit_vector)
    requires
        j < 8,
    ensures
        word_bit(combine_word(op, a, b), j) == combine_bit(op, word_bit(a, j), word_bit(b, j)),
{
}

/// Where bit `i` of a packed vector lives: word `i / 8`, position `i % 8`.
/// Also bounds the word index by the word count of any vector holding `size`
/// bits.
pub proof fn lemma_bit_position(i: int, size: int)
    requires
        0 <= i < size,
    ensures
        8 * (i / 8) + i % 8 == i,
        0 <= i % 8 < 8,
        0 <= i / 8 < nbr_words(size),
        i / 8 == nbr_words(size) - 1 ==> i % 8 < size - 8 * (nbr_words(size) - 1),
{
    vstd::arithmetic::div_mod::lemma_fundamental_div_mod(i, 8);
    vstd::arithmetic::div_mod::lemma_fundamental_div_mod(size + 7, 8);
    assert(0 <= i % 8 < 8) by {
        vstd::arithmetic::div_mod::lemma_mod_bound(i, 8);
    }
    assert(0 <= (size + 7) % 8 < 8) by {
        vstd::arithmetic::div_mod::lemma_mod_bound(size + 7, 8);
    }
}

/// Distinct bit indices differ in their word or in their position.
pub proof fn lemma_bit_position_injective(i: int, n: int)
    requires
        0 <= i,
        0 <= n,
        i / 8 == n / 8,
        i % 8 == n % 8,
    ensures
        i == n,
{
    vstd::arithmetic::div_mod::lemma_fundamental_div_mod(i, 8);
    vstd::arithmetic::div_mod::lemma_fundamental_div_mod(n, 8);
}

} // verus!
