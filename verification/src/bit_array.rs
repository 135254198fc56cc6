//! The bit set itself: packed storage, invariant-preserving mutation, and
//! the scanning and rendering operations.

use crate::bits::{
    compact_chars, count_true, grouped_chars, lemma_andnot_mask, lemma_count_true_bounds,
    lemma_count_true_update, lemma_full_word_bit, lemma_index_in_words, lemma_join_index,
    lemma_low_mask_all_ones, lemma_low_mask_all_zeros, lemma_low_mask_empty,
    lemma_low_mask_grow_ones, lemma_low_mask_grow_zeros, lemma_mask_test, lemma_or_mask,
    lemma_split_index, lemma_word_count, lemma_zero_word_bit, low_mask, nth_bit, word_bit,
};
use vstd::prelude::*;
use vstd::string::StringExecFns;

verus! {

/// Number of logical bits packed into one storage word.
pub(crate) const BITS_PER_WORD: usize = 32;

/// A fixed-capacity set of boolean flags, packed 32 to a word.
///
/// The capacity is chosen at construction and never changes. A running
/// count of set bits is maintained on every mutation, so the occupancy
/// queries are constant-time. The view of a `BitArray` is the sequence of
/// its logical bits, in index order.
pub struct BitArray {
    words: Vec<u32>,
    bit_count: usize,
    set_count: usize,
}

impl View for BitArray {
    type V = Seq<bool>;

    closed spec fn view(&self) -> Seq<bool> {
        Seq::new(self.bit_count as nat, |i: int| word_bit(self.words@, i))
    }
}

impl BitArray {
    /// The internal invariant: the storage holds exactly enough words for
    /// the capacity, the running count matches the bits actually set, and
    /// the unused high bits of the last word are all zero.
    pub closed spec fn well_formed(&self) -> bool {
        &&& 0 < self.bit_count <= usize::MAX - 31
        &&& self.words@.len() == (self.bit_count + 31) as int / 32
        &&& self.set_count == count_true(self@)
        &&& forall|j: int|
            self.bit_count <= j < 32 * self.words@.len() ==> !word_bit(self.words@, j)
    }

    /// Creates a bit set holding `bit_count` flags, all initially clear.
    ///
    /// The capacity must be positive; the upper bound leaves room for the
    /// word-aligned index arithmetic to stay within `usize`.
    pub fn new(bit_count: usize) -> (r: Self)
        requires
            0 < bit_count <= usize::MAX - 31,
        ensures
            r.well_formed(),
            r@.len() == bit_count,
            forall|i: int| 0 <= i < bit_count ==> !r@[i],
            count_true(r@) == 0,
    {
        let word_count = (bit_count - 1) / BITS_PER_WORD + 1;
        let words: Vec<u32> = vec![0u32; word_count];
        let r = BitArray { words, bit_count, set_count: 0 };
        proof {
            lemma_word_count(bit_count as int);
            assert forall|j: int| 0 <= j < 32 * r.words@.len() implies !word_bit(
                r.words@,
                j,
            ) by {
                lemma_split_index(j);
                lemma_zero_word_bit((j % 32) as u32);
            }
            lemma_count_true_bounds(r@);
        }
        r
    }

    /// Returns the total number of addressable bit positions.
    pub fn bit_count(&self) -> (r: usize)
        ensures
            r == self@.len(),
    {
        self.bit_count
    }

    /// Returns the number of bits currently set, in constant time.
    pub fn count_set_bits(&self) -> (r: usize)
        requires
            self.well_formed(),
        ensures
            r == count_true(self@),
    {
        self.set_count
    }

    /// Returns whether every bit is set, in constant time: the running
    /// count is compared against the capacity, which is sound because no
    /// bit beyond the capacity is ever counted.
    pub fn all_set(&self) -> (r: bool)
        requires
            self.well_formed(),
        ensures
            r == (count_true(self@) == self@.len()),
            r == (forall|i: int| 0 <= i < self@.len() ==> self@[i]),
    {
        proof {
            lemma_count_true_bounds(self@);
        }
        self.bit_count == self.set_count
    }

    /// Returns the bit at `index`. The index must be in range.
    pub fn get(&self, index: usize) -> (r: bool)
        requires
            self.well_formed(),
            index < self@.len(),
        ensures
            r == self@[index as int],
    {
        let wi = index / BITS_PER_WORD;
        let bi = (index % BITS_PER_WORD) as u32;
        proof {
            lemma_index_in_words(self.bit_count as int, index as int);
        }
        (self.words[wi] >> bi) & 1u32 == 1u32
    }

    /// Writes `value` to the bit at `index`, adjusting the running count by
    /// whether the bit actually changed. The index must be in range.
    pub fn set_bit(&mut self, index: usize, value: bool)
        requires
            old(self).well_formed(),
            index < old(self)@.len(),
        ensures
            final(self).well_formed(),
            final(self)@ == old(self)@.update(index as int, value),
    {
        let ghost old_ws = self.words@;
        let ghost cap = self.bit_count as int;
        let wi = index / BITS_PER_WORD;
        let bi = (index % BITS_PER_WORD) as u32;
        let mask: u32 = 1u32 << bi;
        proof {
            lemma_index_in_words(cap, index as int);
            lemma_split_index(index as int);
            lemma_mask_test(old_ws[wi as int], bi);
            lemma_count_true_bounds(old(self)@);
        }
        let w = self.words[wi];
        proof {
            assert(old(self)@[index as int] == nth_bit(w, bi));
            if nth_bit(w, bi) {
                assert(count_true(old(self)@) != 0);
            } else {
                assert(count_true(old(self)@) != old(self)@.len());
            }
        }
        if value {
            if w & mask == 0 {
                self.set_count = self.set_count + 1;
            }
            self.words[wi] = w | mask;
        } else {
            if w & mask != 0 {
                self.set_count = self.set_count - 1;
            }
            self.words[wi] = w & !mask;
        }
        proof {
            let new_ws = self.words@;
            assert forall|j: int|
                0 <= j < 32 * new_ws.len() && j != index implies word_bit(new_ws, j) == word_bit(
                old_ws,
                j,
            ) by {
                lemma_split_index(j);
                if j / 32 == wi as int {
                    if value {
                        lemma_or_mask(w, bi, (j % 32) as u32);
                    } else {
                        lemma_andnot_mask(w, bi, (j % 32) as u32);
                    }
                }
            }
            if value {
                lemma_or_mask(w, bi, bi);
            } else {
                lemma_andnot_mask(w, bi, bi);
            }
            assert(word_bit(new_ws, index as int) == value);
            assert(self@ =~= old(self)@.update(index as int, value));
            lemma_count_true_update(old(self)@, index as int, value);
        }
    }

    /// Sets the bit at `index` to 1. Setting an already-set bit changes
    /// nothing. The index must be in range.
    pub fn set(&mut self, index: usize)
        requires
            old(self).well_formed(),
            index < old(self)@.len(),
        ensures
            final(self).well_formed(),
            final(self)@ == old(self)@.update(index as int, true),
    {
        self.set_bit(index, true);
    }

    /// Clears the bit at `index`. Clearing an already-clear bit changes
    /// nothing. The index must be in range.
    pub fn unset(&mut self, index: usize)
        requires
            old(self).well_formed(),
            index < old(self)@.len(),
        ensures
            final(self).well_formed(),
            final(self)@ == old(self)@.update(index as int, false),
    {
        self.set_bit(index, false);
    }

    /// Finds the first set bit: scans the words in ascending order for one
    /// that is not all-zero, then scans its bits least-significant-first.
    ///
    /// Returns the index of the smallest set bit, or `None` when no bit is
    /// set.
    pub fn first_set_bit(&self) -> (r: Option<usize>)
        requires
            self.well_formed(),
        ensures
            match r {
                Some(k) => k < self@.len() && self@[k as int] && forall|j: int|
                    0 <= j < k ==> !self@[j],
                None => forall|j: int| 0 <= j < self@.len() ==> !self@[j],
            },
    {
        let ghost cap = self.bit_count as int;
        let n = self.words.len();
        let mut i: usize = 0;
        while i < n
            invariant
                self.well_formed(),
                cap == self.bit_count as int,
                n == self.words@.len(),
                i <= n,
                forall|j: int| 0 <= j < 32 * i ==> !word_bit(self.words@, j),
            decreases n - i,
        {
            let atom = self.words[i];
            if atom != 0u32 {
                proof {
                    lemma_low_mask_empty(atom);
                    lemma_word_count(cap);
                }
                let mut b: usize = 0;
                while b < 32
                    invariant
                        self.well_formed(),
                        cap == self.bit_count as int,
                        n == self.words@.len(),
                        i < n,
                        atom == self.words@[i as int],
                        atom != 0u32,
                        b <= 32,
                        atom & low_mask(b as u32) == 0,
                        forall|j: int| 0 <= j < 32 * i ==> !word_bit(self.words@, j),
                        forall|k: int| 0 <= k < b ==> !nth_bit(atom, #[trigger] (k as u32)),
                    decreases 32 - b,
                {
                    if (atom >> (b as u32)) & 1u32 == 1u32 {
                        proof {
                            lemma_word_count(cap);
                            lemma_join_index(i as int, b as int);
                            assert(word_bit(self.words@, 32 * i + b));
                            assert(32 * i + b < cap);
                            assert forall|j: int| 0 <= j < 32 * i + b implies !word_bit(
                                self.words@,
                                j,
                            ) by {
                                if 32 * i <= j {
                                    lemma_join_index(i as int, j - 32 * i);
                                }
                            }
                        }
                        return Some(i * BITS_PER_WORD + b);
                    }
                    proof {
                        lemma_low_mask_grow_zeros(atom, b as u32);
                    }
                    b = b + 1;
                }
                proof {
                    lemma_low_mask_all_zeros(atom);
                }
            }
            proof {
                assert forall|j: int| 0 <= j < 32 * (i + 1) implies !word_bit(
                    self.words@,
                    j,
                ) by {
                    if 32 * i <= j {
                        lemma_join_index(i as int, j - 32 * i);
                        lemma_zero_word_bit((j - 32 * i) as u32);
                    }
                }
            }
            i = i + 1;
        }
        proof {
            lemma_word_count(cap);
        }
        None
    }

    /// Finds the first unset bit: scans the words in ascending order for
    /// one that is not all-ones, then scans its bits
    /// least-significant-first.
    ///
    /// When every addressable bit is set and the capacity is not a
    /// multiple of the word width, the scan reaches the zero padding bits
    /// of the last word and reports the capacity itself; `None` comes back
    /// exactly when every word, padding included, is all-ones.
    pub fn first_unset_bit(&self) -> (r: Option<usize>)
        requires
            self.well_formed(),
        ensures
            match r {
                Some(k) => {
                    &&& forall|j: int| 0 <= j < k && j < self@.len() ==> self@[j]
                    &&& (k < self@.len() ==> !self@[k as int])
                    &&& (k >= self@.len() ==> k == self@.len() && self@.len() % 32 != 0)
                },
                None => self@.len() % 32 == 0 && forall|j: int|
                    0 <= j < self@.len() ==> self@[j],
            },
    {
        let ghost cap = self.bit_count as int;
        let n = self.words.len();
        let mut i: usize = 0;
        while i < n
            invariant
                self.well_formed(),
                cap == self.bit_count as int,
                n == self.words@.len(),
                i <= n,
                forall|j: int| 0 <= j < 32 * i ==> word_bit(self.words@, j),
            decreases n - i,
        {
            let atom = self.words[i];
            if atom != u32::MAX {
                proof {
                    lemma_low_mask_empty(atom);
                    lemma_word_count(cap);
                }
                let mut b: usize = 0;
                while b < 32
                    invariant
                        self.well_formed(),
                        cap == self.bit_count as int,
                        n == self.words@.len(),
                        i < n,
                        atom == self.words@[i as int],
                        atom != u32::MAX,
                        b <= 32,
                        atom & low_mask(b as u32) == low_mask(b as u32),
                        forall|j: int| 0 <= j < 32 * i ==> word_bit(self.words@, j),
                        forall|k: int| 0 <= k < b ==> nth_bit(atom, #[trigger] (k as u32)),
                    decreases 32 - b,
                {
                    if (atom >> (b as u32)) & 1u32 != 1u32 {
                        proof {
                            lemma_word_count(cap);
                            lemma_join_index(i as int, b as int);
                            assert(!word_bit(self.words@, 32 * i + b));
                            assert forall|j: int| 0 <= j < 32 * i + b implies word_bit(
                                self.words@,
                                j,
                            ) by {
                                if 32 * i <= j {
                                    lemma_join_index(i as int, j - 32 * i);
                                }
                            }
                            let k = 32 * i + b;
                            if k > cap {
                                assert(word_bit(self.words@, cap));
                                assert(!word_bit(self.words@, cap));
                            }
                            if k == cap && cap % 32 == 0 {
                                assert(b == 0);
                                assert(cap == 32 * n);
                                assert(false);
                            }
                        }
                        return Some(i * BITS_PER_WORD + b);
                    }
                    proof {
                        lemma_low_mask_grow_ones(atom, b as u32);
                    }
                    b = b + 1;
                }
                proof {
                    lemma_low_mask_all_ones(atom);
                }
            }
            proof {
                assert forall|j: int| 0 <= j < 32 * (i + 1) implies word_bit(
                    self.words@,
                    j,
                ) by {
                    if 32 * i <= j {
                        lemma_join_index(i as int, j - 32 * i);
                        lemma_full_word_bit((j - 32 * i) as u32);
                    }
                }
            }
            i = i + 1;
        }
        proof {
            lemma_word_count(cap);
            if cap % 32 != 0 {
                assert(cap < 32 * n);
                assert(word_bit(self.words@, cap));
                assert(!word_bit(self.words@, cap));
            }
        }
        None
    }

    /// Clears every bit, returning the set to its freshly constructed
    /// state.
    pub fn reset(&mut self)
        requires
            old(self).well_formed(),
        ensures
            final(self).well_formed(),
            final(self)@.len() == old(self)@.len(),
            forall|i: int| 0 <= i < final(self)@.len() ==> !final(self)@[i],
            count_true(final(self)@) == 0,
    {
        self.words = vec![0u32; self.words.len()];
        self.set_count = 0;
        proof {
            assert forall|j: int| 0 <= j < 32 * self.words@.len() implies !word_bit(
                self.words@,
                j,
            ) by {
                lemma_split_index(j);
                lemma_zero_word_bit((j % 32) as u32);
            }
            lemma_count_true_bounds(self@);
        }
    }

    /// Builds a 32-bit window of the logical bit sequence starting at
    /// `from_index`: bit `b` of the result is the bit at `from_index + b`,
    /// and every position at or beyond the capacity reads as 0.
    ///
    /// The window ignores word alignment, so a caller can extract
    /// arbitrary fixed-width chunks without tracking word boundaries.
    pub fn atom_from_index(&self, from_index: usize) -> (r: u32)
        requires
            self.well_formed(),
        ensures
            forall|b: int|
                0 <= b < 32 ==> (nth_bit(r, #[trigger] (b as u32)) == (from_index + b
                    < self@.len() && self@[from_index + b])),
    {
        let mut result: u32 = 0;
        let mut b: usize = 0;
        proof {
            assert forall|k: int| 0 <= k < 32 implies !nth_bit(result, #[trigger] (k as u32)) by {
                lemma_zero_word_bit(k as u32);
            }
        }
        while b < 32
            invariant
                self.well_formed(),
                b <= 32,
                forall|k: int|
                    0 <= k < b ==> (nth_bit(result, #[trigger] (k as u32)) == (from_index + k
                        < self@.len() && self@[from_index + k])),
                forall|k: int| b <= k < 32 ==> !nth_bit(result, #[trigger] (k as u32)),
            decreases 32 - b,
        {
            if from_index < self.bit_count && b < self.bit_count - from_index {
                if self.get(from_index + b) {
                    let ghost previous = result;
                    result = result | (1u32 << (b as u32));
                    proof {
                        assert forall|k: int| 0 <= k < 32 implies nth_bit(
                            result,
                            #[trigger] (k as u32),
                        ) == (k == b || nth_bit(previous, k as u32)) by {
                            lemma_or_mask(previous, b as u32, k as u32);
                        }
                    }
                }
            }
            b = b + 1;
        }
        result
    }

    /// Renders the bit sequence as a string of `'0'` and `'1'` characters
    /// in index order, with no separators.
    pub fn to_compact_string(&self) -> (r: String)
        requires
            self.well_formed(),
        ensures
            r@ == compact_chars(self@),
    {
        let mut s = String::new();
        let n = self.bit_count;
        let mut i: usize = 0;
        while i < n
            invariant
                self.well_formed(),
                n == self@.len(),
                i <= n,
                s@ == compact_chars(self@.take(i as int)),
            decreases n - i,
        {
            if self.get(i) {
                s.append("1");
            } else {
                s.append("0");
            }
            proof {
                reveal_strlit("0");
                reveal_strlit("1");
                let t = self@.take(i + 1);
                assert(t.drop_last() =~= self@.take(i as int));
                assert(t.last() == self@[i as int]);
                assert(s@ =~= compact_chars(t));
            }
            i = i + 1;
        }
        proof {
            assert(self@.take(n as int) =~= self@);
        }
        s
    }

    /// Renders the bit sequence as [`Self::to_compact_string`] does, but
    /// with a single space inserted before every eighth bit, for
    /// readability.
    pub fn to_debug_string(&self) -> (r: String)
        requires
            self.well_formed(),
        ensures
            r@ == grouped_chars(self@),
    {
        let mut s = String::new();
        let n = self.bit_count;
        let mut i: usize = 0;
        while i < n
            invariant
                self.well_formed(),
                n == self@.len(),
                i <= n,
                s@ == grouped_chars(self@.take(i as int)),
            decreases n - i,
        {
            if i > 0 && i % 8 == 0 {
                s.append(" ");
            }
            if self.get(i) {
                s.append("1");
            } else {
                s.append("0");
            }
            proof {
                reveal_strlit("0");
                reveal_strlit("1");
                reveal_strlit(" ");
                let t = self@.take(i + 1);
                assert(t.drop_last() =~= self@.take(i as int));
                assert(t.last() == self@[i as int]);
                assert(s@ =~= grouped_chars(t));
            }
            i = i + 1;
        }
        proof {
            assert(self@.take(n as int) =~= self@);
        }
        s
    }
}

impl Clone for BitArray {
    /// Clones the bit set; the copy holds the same bits and is well
    /// formed whenever the original is.
    fn clone(&self) -> (r: Self)
        ensures
            r@ == self@,
            self.well_formed() ==> r.well_formed(),
    {
        let r = BitArray {
            words: self.words.clone(),
            bit_count: self.bit_count,
            set_count: self.set_count,
        };
        proof {
            assert(r.words@ =~= self.words@);
            assert(r@ =~= self@);
        }
        r
    }
}

} // verus!
