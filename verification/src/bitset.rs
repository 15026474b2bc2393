//! A packed bit-vector: a set over the dense index range `[0, size)`, stored
//! as an array of 8-bit words with big-endian bit order inside each word.
//!
//! The vector is generic over its backing storage through the [`Table1D`]
//! capability.  Its view is the sequence of its `size` membership bits; bits
//! of the last word beyond `size` are kept at zero so that no operation can
//! leak them into an observation.

use vstd::prelude::*;

use crate::bits::lemma_bit_position;
use crate::bits::lemma_bit_position_injective;
use crate::bits::lemma_word_bit_clear;
use crate::bits::lemma_word_bit_const;
use crate::bits::lemma_combine_word_bit;
use crate::bits::combine_word;
use crate::bits::combine_bit;
use crate::bits::lemma_word_bit_mask;
use crate::bits::lemma_word_bit_set;
use crate::bits::nbr_words;
use crate::bits::word_bit;
use crate::table1d::Table1D;

verus! {

/// Pointwise disjunction of two equal-length bit sequences.
pub open spec fn union_bits(a: Seq<bool>, b: Seq<bool>) -> Seq<bool>
    recommends
        a.len() == b.len(),
{
    Seq::new(a.len(), |i: int| a[i] || b[i])
}

/// Pointwise conjunction of two equal-length bit sequences.
pub open spec fn intersection_bits(a: Seq<bool>, b: Seq<bool>) -> Seq<bool>
    recommends
        a.len() == b.len(),
{
    Seq::new(a.len(), |i: int| a[i] && b[i])
}

/// Pointwise difference of two equal-length bit sequences.
pub open spec fn difference_bits(a: Seq<bool>, b: Seq<bool>) -> Seq<bool>
    recommends
        a.len() == b.len(),
{
    Seq::new(a.len(), |i: int| a[i] && !b[i])
}

/// Pointwise symmetric difference of two equal-length bit sequences.
pub open spec fn symmetric_difference_bits(a: Seq<bool>, b: Seq<bool>) -> Seq<bool>
    recommends
        a.len() == b.len(),
{
    Seq::new(a.len(), |i: int| a[i] != b[i])
}

/// Pointwise negation of a bit sequence.
pub open spec fn complement_bits(a: Seq<bool>) -> Seq<bool> {
    Seq::new(a.len(), |i: int| !a[i])
}

/// Every index set in `a` is set in `b`.
pub open spec fn subset_bits(a: Seq<bool>, b: Seq<bool>) -> bool
    recommends
        a.len() == b.len(),
{
    forall|i: int| 0 <= i < a.len() ==> (a[i] ==> b[i])
}

/// No index is set in both `a` and `b`.
pub open spec fn disjoint_bits(a: Seq<bool>, b: Seq<bool>) -> bool
    recommends
        a.len() == b.len(),
{
    forall|i: int| 0 <= i < a.len() ==> !(a[i] && b[i])
}

/// The number of set indices of a bit sequence.
pub open spec fn count_ones(s: Seq<bool>) -> nat
    decreases s.len(),
{
    if s.len() == 0 {
        0nat
    } else {
        count_ones(s.drop_last()) + if s.last() {
            1nat
        } else {
            0nat
        }
    }
}

pub struct BitSet<TABLE: Table1D<u8>> {
    data: TABLE,
    size: usize,
}

impl<TABLE: Table1D<u8>> View for BitSet<TABLE> {
    type V = Seq<bool>;

    /// The membership bit of each index in `[0, size)`.
    closed spec fn view(&self) -> Seq<bool> {
        Seq::new(
            self.size as nat,
            |i: int| word_bit(self.data.contents()[i / 8], (i % 8) as u8),
        )
    }
}

impl<TABLE: Table1D<u8>> BitSet<TABLE> {
    /// The words backing the vector.
    pub closed spec fn words(&self) -> Seq<u8> {
        self.data.contents()
    }

    /// The index universe `[0, size)` of the vector.
    pub closed spec fn spec_size(&self) -> int {
        self.size as int
    }

    /// Well-formed: exactly the words needed for `size` bits, and every bit
    /// at an index at or beyond `size` reads as unset.
    pub open spec fn wf(&self) -> bool {
        &&& self.spec_size() + 7 <= usize::MAX
        &&& self.words().len() == nbr_words(self.spec_size())
        &&& self@.len() == self.spec_size()
        &&& forall|k: int|
            self.spec_size() <= k < 8 * self.words().len() ==> !word_bit(
                #[trigger] self.words()[k / 8],
                (k % 8) as u8,
            )
    }

    pub fn size(&self) -> (r: usize)
        ensures
            r == self.spec_size(),
            r == self@.len(),
    {
        self.size
    }

    fn nbr_uints(&self) -> (r: usize)
        ensures
            r == self.words().len(),
    {
        self.data.size()
    }

    /// A vector of `size` bits, all set or all unset according to `value`.
    pub fn new_filled(value: bool, size: usize) -> (r: BitSet<TABLE>)
        requires
            size + 7 <= usize::MAX,
        ensures
            r.wf(),
            r.spec_size() == size,
            r@.len() == size,
            forall|i: int| 0 <= i < size ==> r@[i] == value,
    {
        proof {
            vstd::arithmetic::div_mod::lemma_fundamental_div_mod(size + 7, 8);
            vstd::arithmetic::div_mod::lemma_mod_bound(size + 7, 8);
        }
        let nbr: usize = (size + 7) / 8;
        let word: u8 = if value {
            255u8
        } else {
            0u8
        };
        let data: TABLE = TABLE::new_filled(word, nbr);
        let mut r = BitSet { data, size };
        proof {
            assert forall|i: int| 0 <= i < 8 * nbr implies word_bit(
                #[trigger] r.words()[i / 8],
                (i % 8) as u8,
            ) == value by {
                lemma_bit_position(i, 8 * nbr as int);
                lemma_word_bit_const((i % 8) as u8);
            }
        }
        if value {
            // An all-one fill sets the bits of the last word beyond `size`;
            // clear them so the vector is well formed.
            r.clear_tail();
        }
        assert forall|i: int| 0 <= i < size implies r@[i] == value by {
            lemma_bit_position(i, size as int);
            assert(word_bit(r.words()[i / 8], (i % 8) as u8) == value);
            assert(r@[i] == word_bit(r.words()[i / 8], (i % 8) as u8));
        }
        r
    }

    /// A vector of `size` bits over the given backing table, which must hold
    /// exactly the words needed for `size` bits.  Table bits at or beyond
    /// `size` are don't-care: they are masked away and never observed.
    pub fn new(table: TABLE, size: usize) -> (r: BitSet<TABLE>)
        requires
            table.contents().len() == nbr_words(size as int),
            size + 7 <= usize::MAX,
        ensures
            r.wf(),
            r.spec_size() == size,
            forall|i: int|
                0 <= i < size ==> r@[i] == word_bit(#[trigger] table.contents()[i / 8], (i
                    % 8) as u8),
    {
        let mut r = BitSet { data: table, size };
        r.clear_tail();
        proof {
            assert forall|i: int| 0 <= i < size implies r@[i] == word_bit(
                #[trigger] table.contents()[i / 8],
                (i % 8) as u8,
            ) by {
                lemma_bit_position(i, size as int);
            }
        }
        r
    }

    /// Clear one bit position `n` of the underlying words, `n` ranging over
    /// all allocated bit positions, in or beyond the index universe.
    fn clear_bit(&mut self, n: usize)
        requires
            n < 8 * old(self).words().len(),
        ensures
            final(self).size == old(self).size,
            final(self).words().len() == old(self).words().len(),
            forall|k: int|
                0 <= k < 8 * final(self).words().len() && k != n ==> word_bit(
                    #[trigger] final(self).words()[k / 8],
                    (k % 8) as u8,
                ) == word_bit(old(self).words()[k / 8], (k % 8) as u8),
            !word_bit(final(self).words()[n as int / 8], (n as int % 8) as u8),
    {
        proof {
            lemma_bit_position(n as int, 8 * old(self).words().len() as int);
        }
        let wi: usize = n / 8;
        let pos: u8 = (n % 8) as u8;
        let sh: u8 = 7 - pos;
        let mask: u8 = 1u8 << sh;
        let w: u8 = *self.data.get(wi);
        self.data.set(w & !mask, wi);
        proof {
            lemma_word_bit_clear(w, pos, pos);
            assert forall|k: int|
                0 <= k < 8 * self.words().len() && k != n implies word_bit(
                #[trigger] self.words()[k / 8],
                (k % 8) as u8,
            ) == word_bit(old(self).words()[k / 8], (k % 8) as u8) by {
                lemma_bit_position(k, 8 * self.words().len() as int);
                if k / 8 == n as int / 8 {
                    if k % 8 == n as int % 8 {
                        lemma_bit_position_injective(k, n as int);
                    }
                    lemma_word_bit_clear(w, pos, (k % 8) as u8);
                }
            }
        }
    }

    /// Clear every bit position at or beyond the index universe, so that a
    /// word-wise operation cannot leak out-of-range bits into an observation.
    fn clear_tail(&mut self)
        requires
            old(self).spec_size() + 7 <= usize::MAX,
            old(self).words().len() == nbr_words(old(self).spec_size()),
        ensures
            final(self).size == old(self).size,
            final(self).words().len() == old(self).words().len(),
            forall|k: int|
                0 <= k < old(self).spec_size() ==> word_bit(
                    #[trigger] final(self).words()[k / 8],
                    (k % 8) as u8,
                ) == word_bit(old(self).words()[k / 8], (k % 8) as u8),
            forall|k: int|
                old(self).spec_size() <= k < 8 * final(self).words().len() ==> !word_bit(
                    #[trigger] final(self).words()[k / 8],
                    (k % 8) as u8,
                ),
    {
        proof {
            vstd::arithmetic::div_mod::lemma_fundamental_div_mod(old(self).spec_size() + 7, 8);
            vstd::arithmetic::div_mod::lemma_mod_bound(old(self).spec_size() + 7, 8);
        }
        let nbr: usize = self.nbr_uints();
        let total_bits: usize = 8 * nbr;
        let mut k: usize = self.size;
        while k < total_bits
            invariant
                total_bits == 8 * nbr,
                self.size <= k <= total_bits,
                self.size == old(self).size,
                self.words().len() == nbr,
                nbr == old(self).words().len(),
                forall|i: int|
                    0 <= i < self.size ==> word_bit(#[trigger] self.words()[i / 8], (i % 8) as u8)
                        == word_bit(old(self).words()[i / 8], (i % 8) as u8),
                forall|i: int|
                    self.size <= i < k ==> !word_bit(#[trigger] self.words()[i / 8], (i % 8) as u8),
            decreases total_bits - k,
        {
            self.clear_bit(k);
            k = k + 1;
        }
    }

    /// Membership of index `n`.
    pub fn contains(&self, n: usize) -> (r: bool)
        requires
            self.wf(),
            n < self.spec_size(),
        ensures
            r == self@[n as int],
    {
        proof {
            lemma_bit_position(n as int, self.spec_size());
        }
        let wi: usize = n / 8;
        let pos: u8 = (n % 8) as u8;
        let sh: u8 = 7 - pos;
        let bit_mask: u8 = 1u8 << sh;
        let w: u8 = *self.data.get(wi);
        let r: bool = (w & bit_mask) > 0;
        proof {
            lemma_word_bit_mask(w, pos);
        }
        r
    }

    /// Add index `n` to the set.
    pub fn insert(&mut self, n: usize)
        requires
            old(self).wf(),
            n < old(self).spec_size(),
        ensures
            final(self).wf(),
            final(self).spec_size() == old(self).spec_size(),
            final(self)@ == old(self)@.update(n as int, true),
    {
        proof {
            lemma_bit_position(n as int, old(self).spec_size());
        }
        let wi: usize = n / 8;
        let pos: u8 = (n % 8) as u8;
        let sh: u8 = 7 - pos;
        let bit_mask: u8 = 1u8 << sh;
        let w: u8 = *self.data.get(wi);
        self.data.set(w | bit_mask, wi);
        proof {
            assert forall|k: int|
                self.spec_size() <= k < 8 * self.words().len() implies !word_bit(
                #[trigger] self.words()[k / 8],
                (k % 8) as u8,
            ) by {
                lemma_bit_position(k, 8 * self.words().len() as int);
                if k / 8 == n as int / 8 {
                    if k % 8 == n as int % 8 {
                        lemma_bit_position_injective(k, n as int);
                    }
                    lemma_word_bit_set(w, pos, (k % 8) as u8);
                }
            }
            assert forall|i: int| 0 <= i < self@.len() implies self@[i] == old(self)@.update(
                n as int,
                true,
            )[i] by {
                lemma_bit_position(i, self.spec_size());
                if i / 8 == n as int / 8 {
                    if i % 8 == n as int % 8 {
                        lemma_bit_position_injective(i, n as int);
                    }
                    lemma_word_bit_set(w, pos, (i % 8) as u8);
                }
            }
            assert(self@ =~= old(self)@.update(n as int, true));
        }
    }

    /// Remove index `n` from the set.
    pub fn remove(&mut self, n: usize)
        requires
            old(self).wf(),
            n < old(self).spec_size(),
        ensures
            final(self).wf(),
            final(self).spec_size() == old(self).spec_size(),
            final(self)@ == old(self)@.update(n as int, false),
    {
        proof {
            lemma_bit_position(n as int, old(self).spec_size());
        }
        let wi: usize = n / 8;
        let pos: u8 = (n % 8) as u8;
        let sh: u8 = 7 - pos;
        let bit_mask: u8 = 1u8 << sh;
        let w: u8 = *self.data.get(wi);
        self.data.set(w & !bit_mask, wi);
        proof {
            assert forall|k: int|
                self.spec_size() <= k < 8 * self.words().len() implies !word_bit(
                #[trigger] self.words()[k / 8],
                (k % 8) as u8,
            ) by {
                lemma_bit_position(k, 8 * self.words().len() as int);
                if k / 8 == n as int / 8 {
                    lemma_word_bit_clear(w, pos, (k % 8) as u8);
                }
            }
            assert forall|i: int| 0 <= i < self@.len() implies self@[i] == old(self)@.update(
                n as int,
                false,
            )[i] by {
                lemma_bit_position(i, self.spec_size());
                if i / 8 == n as int / 8 {
                    if i % 8 == n as int % 8 {
                        lemma_bit_position_injective(i, n as int);
                    }
                    lemma_word_bit_clear(w, pos, (i % 8) as u8);
                }
            }
            assert(self@ =~= old(self)@.update(n as int, false));
        }
    }

    /// The words of a new vector combining `self` and `other` word-wise with
    /// bitwise or.
    fn combined_words(&self, other: &Self, op: u8) -> (out: TABLE)
        requires
            self.wf(),
            other.wf(),
            self.spec_size() == other.spec_size(),
            op < 4,
        ensures
            out.contents().len() == self.words().len(),
            forall|w: int|
                0 <= w < out.contents().len() ==> out.contents()[w] == combine_word(
                    op,
                    self.words()[w],
                    other.words()[w],
                ),
    {
        let nbr: usize = self.nbr_uints();
        let mut out: TABLE = TABLE::new_filled(0u8, nbr);
        let mut i: usize = 0;
        while i < nbr
            invariant
                self.wf(),
                other.wf(),
                self.spec_size() == other.spec_size(),
                op < 4,
                i <= nbr,
                nbr == self.words().len(),
                nbr == other.words().len(),
                out.contents().len() == nbr,
                forall|w: int|
                    0 <= w < i ==> out.contents()[w] == combine_word(
                        op,
                        self.words()[w],
                        other.words()[w],
                    ),
            decreases nbr - i,
        {
            let a: u8 = *self.data.get(i);
            let b: u8 = *other.data.get(i);
            let w: u8 = if op == 0 {
                a | b
            } else if op == 1 {
                a & b
            } else if op == 2 {
                a & !b
            } else {
                a ^ b
            };
            out.set(w, i);
            i = i + 1;
        }
        out
    }

    /// The set of indices in either operand.  The operands must share one
    /// index universe.
    pub fn union(&self, other: &Self) -> (r: Self)
        requires
            self.wf(),
            other.wf(),
            self.spec_size() == other.spec_size(),
        ensures
            r.wf(),
            r.spec_size() == self.spec_size(),
            r@ == union_bits(self@, other@),
    {
        let out: TABLE = self.combined_words(other, 0);
        let r = BitSet { data: out, size: self.size };
        proof {
            self.lemma_combine_view(other, &r, 0);
            assert(r@ =~= union_bits(self@, other@));
        }
        r
    }

    /// The set of indices in both operands.  The operands must share one
    /// index universe.
    pub fn intersection(&self, other: &Self) -> (r: Self)
        requires
            self.wf(),
            other.wf(),
            self.spec_size() == other.spec_size(),
        ensures
            r.wf(),
            r.spec_size() == self.spec_size(),
            r@ == intersection_bits(self@, other@),
    {
        let out: TABLE = self.combined_words(other, 1);
        let r = BitSet { data: out, size: self.size };
        proof {
            self.lemma_combine_view(other, &r, 1);
            assert(r@ =~= intersection_bits(self@, other@));
        }
        r
    }

    /// The set of indices in `self` but not in `other`.  The operands must
    /// share one index universe.
    pub fn difference(&self, other: &Self) -> (r: Self)
        requires
            self.wf(),
            other.wf(),
            self.spec_size() == other.spec_size(),
        ensures
            r.wf(),
            r.spec_size() == self.spec_size(),
            r@ == difference_bits(self@, other@),
    {
        let out: TABLE = self.combined_words(other, 2);
        let r = BitSet { data: out, size: self.size };
        proof {
            self.lemma_combine_view(other, &r, 2);
            assert(r@ =~= difference_bits(self@, other@));
        }
        r
    }

    /// The set of indices in exactly one operand.  The operands must share
    /// one index universe.
    pub fn symmetric_difference(&self, other: &Self) -> (r: Self)
        requires
            self.wf(),
            other.wf(),
            self.spec_size() == other.spec_size(),
        ensures
            r.wf(),
            r.spec_size() == self.spec_size(),
            r@ == symmetric_difference_bits(self@, other@),
    {
        let out: TABLE = self.combined_words(other, 3);
        let r = BitSet { data: out, size: self.size };
        proof {
            self.lemma_combine_view(other, &r, 3);
            assert(r@ =~= symmetric_difference_bits(self@, other@));
        }
        r
    }

    /// How a word-wise combination reads back bit by bit.
    proof fn lemma_combine_view(&self, other: &Self, r: &Self, op: u8)
        requires
            self.wf(),
            other.wf(),
            self.spec_size() == other.spec_size(),
            op < 4,
            r.spec_size() == self.spec_size(),
            r.words().len() == self.words().len(),
            forall|w: int|
                0 <= w < r.words().len() ==> r.words()[w] == combine_word(
                    op,
                    self.words()[w],
                    other.words()[w],
                ),
        ensures
            r.wf(),
            forall|i: int|
                0 <= i < r@.len() ==> r@[i] == combine_bit(op, self@[i], other@[i]),
    {
        assert forall|k: int|
            r.spec_size() <= k < 8 * r.words().len() implies !word_bit(
            #[trigger] r.words()[k / 8],
            (k % 8) as u8,
        ) by {
            lemma_bit_position(k, 8 * r.words().len() as int);
            lemma_combine_word_bit(op, self.words()[k / 8], other.words()[k / 8], (k % 8) as u8);
        }
        assert forall|i: int| 0 <= i < r@.len() implies r@[i] == combine_bit(
            op,
            self@[i],
            other@[i],
        ) by {
            lemma_bit_position(i, r.spec_size());
            lemma_combine_word_bit(op, self.words()[i / 8], other.words()[i / 8], (i % 8) as u8);
        }
    }

    /// Replace `self` by its union with `other`, in place.  The operands must
    /// share one index universe.
    pub fn update_union(&mut self, other: &Self)
        requires
            old(self).wf(),
            other.wf(),
            old(self).spec_size() == other.spec_size(),
        ensures
            final(self).wf(),
            final(self).spec_size() == old(self).spec_size(),
            final(self)@ == union_bits(old(self)@, other@),
    {
        let out: TABLE = self.combined_words(other, 0);
        self.data = out;
        proof {
            old(self).lemma_combine_view(other, self, 0);
            assert(self@ =~= union_bits(old(self)@, other@));
        }
    }

    /// Replace `self` by its intersection with `other`, in place.  The
    /// operands must share one index universe.
    pub fn update_intersection(&mut self, other: &Self)
        requires
            old(self).wf(),
            other.wf(),
            old(self).spec_size() == other.spec_size(),
        ensures
            final(self).wf(),
            final(self).spec_size() == old(self).spec_size(),
            final(self)@ == intersection_bits(old(self)@, other@),
    {
        let out: TABLE = self.combined_words(other, 1);
        self.data = out;
        proof {
            old(self).lemma_combine_view(other, self, 1);
            assert(self@ =~= intersection_bits(old(self)@, other@));
        }
    }

    /// Replace `self` by its difference with `other`, in place.  The operands
    /// must share one index universe.
    pub fn update_difference(&mut self, other: &Self)
        requires
            old(self).wf(),
            other.wf(),
            old(self).spec_size() == other.spec_size(),
        ensures
            final(self).wf(),
            final(self).spec_size() == old(self).spec_size(),
            final(self)@ == difference_bits(old(self)@, other@),
    {
        let out: TABLE = self.combined_words(other, 2);
        self.data = out;
        proof {
            old(self).lemma_combine_view(other, self, 2);
            assert(self@ =~= difference_bits(old(self)@, other@));
        }
    }

    /// Replace `self` by its symmetric difference with `other`, in place.
    /// The operands must share one index universe.
    pub fn update_symmetric_difference(&mut self, other: &Self)
        requires
            old(self).wf(),
            other.wf(),
            old(self).spec_size() == other.spec_size(),
        ensures
            final(self).wf(),
            final(self).spec_size() == old(self).spec_size(),
            final(self)@ == symmetric_difference_bits(old(self)@, other@),
    {
        let out: TABLE = self.combined_words(other, 3);
        self.data = out;
        proof {
            old(self).lemma_combine_view(other, self, 3);
            assert(self@ =~= symmetric_difference_bits(old(self)@, other@));
        }
    }

    /// The set of indices not in `self`, over the same index universe.
    pub fn complement(&self) -> (r: Self)
        requires
            self.wf(),
        ensures
            r.wf(),
            r.spec_size() == self.spec_size(),
            r@ == complement_bits(self@),
    {
        let nbr: usize = self.nbr_uints();
        let mut out: TABLE = TABLE::new_filled(0u8, nbr);
        let mut i: usize = 0;
        while i < nbr
            invariant
                self.wf(),
                i <= nbr,
                nbr == self.words().len(),
                out.contents().len() == nbr,
                forall|w: int| 0 <= w < i ==> out.contents()[w] == !self.words()[w],
            decreases nbr - i,
        {
            let w: u8 = !*self.data.get(i);
            out.set(w, i);
            i = i + 1;
        }
        let mut r = BitSet { data: out, size: self.size };
        // The complement of the last word would set the bits beyond `size`.
        r.clear_tail();
        proof {
            assert forall|i: int| 0 <= i < r@.len() implies r@[i] == complement_bits(self@)[i] by {
                lemma_bit_position(i, r.spec_size());
                crate::bits::lemma_word_bit_not(self.words()[i / 8], (i % 8) as u8);
            }
            assert(r@ =~= complement_bits(self@));
        }
        r
    }

    /// Replace `self` by its complement, in place.
    pub fn update_complement(&mut self)
        requires
            old(self).wf(),
        ensures
            final(self).wf(),
            final(self).spec_size() == old(self).spec_size(),
            final(self)@ == complement_bits(old(self)@),
    {
        let nbr: usize = self.nbr_uints();
        let mut i: usize = 0;
        while i < nbr
            invariant
                i <= nbr,
                self.size == old(self).size,
                self.words().len() == nbr,
                nbr == old(self).words().len(),
                forall|w: int| 0 <= w < i ==> self.words()[w] == !old(self).words()[w],
                forall|w: int| i <= w < nbr ==> self.words()[w] == old(self).words()[w],
            decreases nbr - i,
        {
            let w: u8 = !*self.data.get(i);
            self.data.set(w, i);
            i = i + 1;
        }
        self.clear_tail();
        proof {
            assert forall|i: int| 0 <= i < self@.len() implies self@[i] == complement_bits(
                old(self)@,
            )[i] by {
                lemma_bit_position(i, self.spec_size());
                crate::bits::lemma_word_bit_not(old(self).words()[i / 8], (i % 8) as u8);
            }
            assert(self@ =~= complement_bits(old(self)@));
        }
    }

    /// Empty the set: no index is a member afterwards.
    pub fn clear(&mut self)
        requires
            old(self).wf(),
        ensures
            final(self).wf(),
            final(self).spec_size() == old(self).spec_size(),
            final(self)@ == Seq::new(old(self)@.len(), |i: int| false),
    {
        let nbr: usize = self.nbr_uints();
        let mut i: usize = 0;
        while i < nbr
            invariant
                i <= nbr,
                self.size == old(self).size,
                self.words().len() == nbr,
                nbr == old(self).words().len(),
                forall|w: int| 0 <= w < i ==> self.words()[w] == 0u8,
            decreases nbr - i,
        {
            self.data.set(0u8, i);
            i = i + 1;
        }
        proof {
            assert forall|k: int| 0 <= k < 8 * self.words().len() implies !word_bit(
                #[trigger] self.words()[k / 8],
                (k % 8) as u8,
            ) by {
                lemma_bit_position(k, 8 * self.words().len() as int);
                lemma_word_bit_const((k % 8) as u8);
            }
            assert(self@ =~= Seq::new(old(self)@.len(), |i: int| false));
        }
    }

    /// Fill the set: every index of the universe is a member afterwards.
    pub fn fill(&mut self)
        requires
            old(self).wf(),
        ensures
            final(self).wf(),
            final(self).spec_size() == old(self).spec_size(),
            final(self)@ == Seq::new(old(self)@.len(), |i: int| true),
    {
        let nbr: usize = self.nbr_uints();
        let mut i: usize = 0;
        while i < nbr
            invariant
                i <= nbr,
                self.size == old(self).size,
                self.words().len() == nbr,
                nbr == old(self).words().len(),
                forall|w: int| 0 <= w < i ==> self.words()[w] == 255u8,
            decreases nbr - i,
        {
            self.data.set(255u8, i);
            i = i + 1;
        }
        // The all-one fill sets the bits beyond `size` of the last word.
        self.clear_tail();
        proof {
            assert forall|i: int| 0 <= i < self@.len() implies self@[i] by {
                lemma_bit_position(i, self.spec_size());
                lemma_word_bit_const((i % 8) as u8);
            }
            assert(self@ =~= Seq::new(old(self)@.len(), |i: int| true));
        }
    }

    /// Write membership `value` at index `n`.
    pub fn set_value(&mut self, n: usize, value: bool)
        requires
            old(self).wf(),
            n < old(self).spec_size(),
        ensures
            final(self).wf(),
            final(self).spec_size() == old(self).spec_size(),
            final(self)@ == old(self)@.update(n as int, value),
    {
        if value {
            self.insert(n);
        } else {
            self.remove(n);
        }
    }

    /// True iff `self` and `other` share no index.  The operands must share
    /// one index universe.
    pub fn is_disjoint(&self, other: &Self) -> (r: bool)
        requires
            self.wf(),
            other.wf(),
            self.spec_size() == other.spec_size(),
        ensures
            r == disjoint_bits(self@, other@),
    {
        let nbr: usize = self.nbr_uints();
        let mut i: usize = 0;
        while i < nbr
            invariant
                self.wf(),
                other.wf(),
                self.spec_size() == other.spec_size(),
                i <= nbr,
                nbr == self.words().len(),
                nbr == other.words().len(),
                forall|w: int| 0 <= w < i ==> (self.words()[w] & other.words()[w]) == 0u8,
            decreases nbr - i,
        {
            let w: u8 = *self.data.get(i) & *other.data.get(i);
            if w > 0 {
                proof {
                    self.lemma_shared_bit_witness(other, i as int, 1);
                }
                return false;
            }
            i = i + 1;
        }
        proof {
            assert forall|k: int| 0 <= k < self@.len() implies !(self@[k] && other@[k]) by {
                lemma_bit_position(k, self.spec_size());
                crate::bits::lemma_word_bit_zero(self.words()[k / 8] & other.words()[k / 8]);
                crate::bits::lemma_word_bit_and(self.words()[k / 8], other.words()[k / 8], (k
                    % 8) as u8);
            }
        }
        true
    }

    /// True iff no index is a member.
    pub fn is_empty(&self) -> (r: bool)
        requires
            self.wf(),
        ensures
            r == (forall|i: int| 0 <= i < self@.len() ==> !self@[i]),
    {
        let nbr: usize = self.nbr_uints();
        let mut i: usize = 0;
        while i < nbr
            invariant
                self.wf(),
                i <= nbr,
                nbr == self.words().len(),
                forall|w: int| 0 <= w < i ==> self.words()[w] == 0u8,
            decreases nbr - i,
        {
            let w: u8 = *self.data.get(i);
            if w > 0 {
                proof {
                    crate::bits::lemma_word_bit_zero(w);
                    let j: u8 = choose|j: u8| j < 8 && word_bit(w, j);
                    let idx: int = 8 * (i as int) + j;
                    vstd::arithmetic::div_mod::lemma_fundamental_div_mod_converse(
                        idx,
                        8,
                        i as int,
                        j as int,
                    );
                    assert(word_bit(self.words()[idx / 8], (idx % 8) as u8));
                    assert(idx < self.spec_size());
                    assert(self@[idx]);
                }
                return false;
            }
            i = i + 1;
        }
        proof {
            assert forall|k: int| 0 <= k < self@.len() implies !self@[k] by {
                lemma_bit_position(k, self.spec_size());
                crate::bits::lemma_word_bit_zero(self.words()[k / 8]);
            }
        }
        true
    }

    /// True iff every index of `self` is an index of `other`.  The operands
    /// must share one index universe.
    pub fn is_subset(&self, other: &Self) -> (r: bool)
        requires
            self.wf(),
            other.wf(),
            self.spec_size() == other.spec_size(),
        ensures
            r == subset_bits(self@, other@),
    {
        let nbr: usize = self.nbr_uints();
        let mut i: usize = 0;
        while i < nbr
            invariant
                self.wf(),
                other.wf(),
                self.spec_size() == other.spec_size(),
                i <= nbr,
                nbr == self.words().len(),
                nbr == other.words().len(),
                forall|w: int| 0 <= w < i ==> (self.words()[w] & !other.words()[w]) == 0u8,
            decreases nbr - i,
        {
            let w: u8 = *self.data.get(i) & !*other.data.get(i);
            if w > 0 {
                proof {
                    self.lemma_shared_bit_witness(other, i as int, 2);
                }
                return false;
            }
            i = i + 1;
        }
        proof {
            assert forall|k: int| 0 <= k < self@.len() && self@[k] implies other@[k] by {
                lemma_bit_position(k, self.spec_size());
                crate::bits::lemma_word_bit_zero(self.words()[k / 8] & !other.words()[k / 8]);
                crate::bits::lemma_word_bit_diff(self.words()[k / 8], other.words()[k / 8], (k
                    % 8) as u8);
            }
        }
        true
    }

    /// True iff every index of `other` is an index of `self`.  The operands
    /// must share one index universe.
    pub fn is_superset(&self, other: &Self) -> (r: bool)
        requires
            self.wf(),
            other.wf(),
            self.spec_size() == other.spec_size(),
        ensures
            r == subset_bits(other@, self@),
    {
        other.is_subset(self)
    }

    /// In word `wi`, the combination `op` of the operands' words has a set
    /// bit: some in-range index witnesses the combined bit.
    proof fn lemma_shared_bit_witness(&self, other: &Self, wi: int, op: u8)
        requires
            self.wf(),
            other.wf(),
            self.spec_size() == other.spec_size(),
            op < 4,
            0 <= wi < self.words().len(),
            combine_word(op, self.words()[wi], other.words()[wi]) != 0u8,
        ensures
            exists|idx: int|
                0 <= idx < self@.len() && combine_bit(op, #[trigger] self@[idx], other@[idx]),
    {
        let w: u8 = combine_word(op, self.words()[wi], other.words()[wi]);
        crate::bits::lemma_word_bit_zero(w);
        let j: u8 = choose|j: u8| j < 8 && word_bit(w, j);
        let idx: int = 8 * wi + j;
        vstd::arithmetic::div_mod::lemma_fundamental_div_mod_converse(idx, 8, wi, j as int);
        lemma_combine_word_bit(op, self.words()[wi], other.words()[wi], j);
        if idx >= self.spec_size() {
            // Out-of-range bits are unset in both operands, so the
            // combination of the two words cannot set one there.
            assert(!word_bit(self.words()[idx / 8], (idx % 8) as u8));
            assert(!word_bit(other.words()[idx / 8], (idx % 8) as u8));
            assert(combine_bit(op, false, false) == false) by (bit_vector);
            assert(false);
        }
        assert(self@[idx] == word_bit(self.words()[wi], j));
        assert(other@[idx] == word_bit(other.words()[wi], j));
    }

    /// The number of members of the set.  Not constant time: the whole index
    /// range is scanned.
    pub fn len(&self) -> (r: usize)
        requires
            self.wf(),
        ensures
            r == count_ones(self@),
    {
        let sz: usize = self.size;
        let mut count: usize = 0;
        let mut i: usize = 0;
        while i < sz
            invariant
                self.wf(),
                sz == self.spec_size(),
                i <= sz,
                count <= i,
                count == count_ones(self@.take(i as int)),
            decreases sz - i,
        {
            if self.contains(i) {
                count = count + 1;
            }
            i = i + 1;
            proof {
                assert(self@.take(i as int).drop_last() =~= self@.take(i as int - 1));
                assert(self@.take(i as int).last() == self@[i as int - 1]);
            }
        }
        proof {
            assert(self@.take(sz as int) =~= self@);
        }
        count
    }

    /// Repack `other`'s bits after `self`'s into one new heap-backed vector
    /// over the combined index universe.
    pub fn concatenate(&self, other: &Self) -> (r: BitSet<Vec<u8>>)
        requires
            self.wf(),
            other.wf(),
            self.spec_size() + other.spec_size() + 7 <= usize::MAX,
        ensures
            r.wf(),
            r.spec_size() == self.spec_size() + other.spec_size(),
            r@ == self@ + other@,
    {
        let m: usize = self.size;
        let n: usize = other.size;
        let mut r: BitSet<Vec<u8>> = BitSet::<Vec<u8>>::new_filled(false, m + n);
        let mut i: usize = 0;
        while i < m
            invariant
                self.wf(),
                r.wf(),
                m == self.spec_size(),
                n == other.spec_size(),
                r.spec_size() == m + n,
                i <= m,
                forall|k: int| 0 <= k < i ==> r@[k] == self@[k],
                forall|k: int| i <= k < m + n ==> !r@[k],
            decreases m - i,
        {
            r.set_value(i, self.contains(i));
            i = i + 1;
        }
        let mut j: usize = 0;
        while j < n
            invariant
                other.wf(),
                r.wf(),
                m == self.spec_size(),
                n == other.spec_size(),
                r.spec_size() == m + n,
                j <= n,
                forall|k: int| 0 <= k < m ==> r@[k] == self@[k],
                forall|k: int| m <= k < m + j ==> r@[k] == other@[k - m],
                forall|k: int| m + j <= k < m + n ==> !r@[k],
            decreases n - j,
        {
            r.set_value(m + j, other.contains(j));
            j = j + 1;
        }
        proof {
            assert(r@ =~= self@ + other@);
        }
        r
    }

    /// The members of the set, in ascending order.
    pub fn indices(&self) -> (r: Vec<usize>)
        requires
            self.wf(),
        ensures
            forall|a: int, b: int| 0 <= a < b < r@.len() ==> r@[a] < r@[b],
            forall|j: int| 0 <= j < r@.len() ==> r@[j] < self@.len() && self@[r@[j] as int],
            forall|i: int| 0 <= i < self@.len() && self@[i] ==> r@.contains(i as usize),
    {
        let sz: usize = self.size;
        let mut out: Vec<usize> = Vec::new();
        let mut i: usize = 0;
        while i < sz
            invariant
                self.wf(),
                sz == self.spec_size(),
                i <= sz,
                forall|a: int, b: int| 0 <= a < b < out@.len() ==> out@[a] < out@[b],
                forall|j: int| 0 <= j < out@.len() ==> out@[j] < i && self@[out@[j] as int],
                forall|k: int| 0 <= k < i && self@[k] ==> out@.contains(k as usize),
            decreases sz - i,
        {
            if self.contains(i) {
                let ghost prev = out@;
                out.push(i);
                proof {
                    assert forall|k: int| 0 <= k < i + 1 && self@[k] implies out@.contains(
                        k as usize,
                    ) by {
                        if k < i {
                            assert(prev.contains(k as usize));
                            let idx: int = choose|idx: int|
                                0 <= idx < prev.len() && prev[idx] == k as usize;
                            assert(out@[idx] == k as usize);
                        } else {
                            assert(out@[out@.len() - 1] == i as usize);
                        }
                    }
                }
            }
            i = i + 1;
        }
        out
    }
}

impl<TABLE: Table1D<u8>> Clone for BitSet<TABLE> {
    /// A fresh vector over a fresh backing table, reading the same words.
    fn clone(&self) -> (res: Self)
        ensures
            res@ == self@,
            res.spec_size() == self.spec_size(),
            res.words() == self.words(),
            self.wf() ==> res.wf(),
    {
        let nbr: usize = self.nbr_uints();
        let mut out: TABLE = TABLE::new_filled(0u8, nbr);
        let mut i: usize = 0;
        while i < nbr
            invariant
                i <= nbr,
                nbr == self.words().len(),
                out.contents().len() == nbr,
                forall|w: int| 0 <= w < i ==> out.contents()[w] == self.words()[w],
            decreases nbr - i,
        {
            let w: u8 = *self.data.get(i);
            out.set(w, i);
            i = i + 1;
        }
        let res = BitSet { data: out, size: self.size };
        proof {
            assert(res.words() =~= self.words());
            assert(res@ =~= self@);
        }
        res
    }
}

/// A union holds both of its operands: it is a superset of each.
pub proof fn lemma_union_is_superset(a: Seq<bool>, b: Seq<bool>)
    requires
        a.len() == b.len(),
    ensures
        subset_bits(a, union_bits(a, b)),
        subset_bits(b, union_bits(a, b)),
{
}

/// An intersection is held by both of its operands: it is a subset of each.
pub proof fn lemma_intersection_is_subset(a: Seq<bool>, b: Seq<bool>)
    requires
        a.len() == b.len(),
    ensures
        subset_bits(intersection_bits(a, b), a),
        subset_bits(intersection_bits(a, b), b),
{
}

/// A difference shares no index with what was taken away.
pub proof fn lemma_difference_is_disjoint(a: Seq<bool>, b: Seq<bool>)
    requires
        a.len() == b.len(),
    ensures
        disjoint_bits(difference_bits(a, b), b),
{
}

/// The symmetric difference is the union minus the intersection.
pub proof fn lemma_symmetric_difference_decomposition(a: Seq<bool>, b: Seq<bool>)
    requires
        a.len() == b.len(),
    ensures
        symmetric_difference_bits(a, b) == difference_bits(
            union_bits(a, b),
            intersection_bits(a, b),
        ),
{
    assert(symmetric_difference_bits(a, b) =~= difference_bits(
        union_bits(a, b),
        intersection_bits(a, b),
    ));
}

/// Complementing twice restores every membership bit.
pub proof fn lemma_complement_involution(a: Seq<bool>)
    ensures
        complement_bits(complement_bits(a)) == a,
{
    assert(complement_bits(complement_bits(a)) =~= a);
}

/// Writing one membership bit moves the cardinality by at most one: up by
/// one on a fresh insertion, down by one on a real removal, not at all
/// otherwise.
pub proof fn lemma_count_ones_update(s: Seq<bool>, i: int, v: bool)
    requires
        0 <= i < s.len(),
    ensures
        count_ones(s.update(i, v)) == count_ones(s) - (if s[i] {
            1int
        } else {
            0int
        }) + (if v {
            1int
        } else {
            0int
        }),
    decreases s.len(),
{
    let t = s.update(i, v);
    if i == s.len() - 1 {
        assert(t.drop_last() =~= s.drop_last());
        assert(t.last() == v);
    } else {
        assert(t.drop_last() =~= s.drop_last().update(i, v));
        lemma_count_ones_update(s.drop_last(), i, v);
        assert(t.last() == s.last());
    }
}

} // verus!
