//! The mathematical model of the bit set: bits of a packed word sequence,
//! the population count of a boolean sequence, and the character sequences
//! of the two textual renderings, together with the lemmas the executable
//! code needs about them.

use vstd::arithmetic::div_mod::{
    lemma_div_is_ordered, lemma_div_plus_one, lemma_fundamental_div_mod,
    lemma_fundamental_div_mod_converse,
};
use vstd::prelude::*;

verus! {

/// True iff bit `k` of word `w` is 1 (the least-significant bit is bit 0).
pub open spec fn nth_bit(w: u32, k: u32) -> bool {
    (w >> k) & 1u32 == 1u32
}

/// Bit `i` of a word sequence that packs 32 bits per word, least-significant
/// bit first within each word.
pub(crate) open spec fn word_bit(ws: Seq<u32>, i: int) -> bool {
    nth_bit(ws[i / 32], (i % 32) as u32)
}

/// Number of `true` entries in a boolean sequence.
pub open spec fn count_true(s: Seq<bool>) -> nat
    decreases s.len(),
{
    if s.len() == 0 {
        0
    } else {
        count_true(s.drop_last()) + if s.last() {
            1nat
        } else {
            0nat
        }
    }
}

/// The character a single bit renders as.
pub open spec fn bit_char(b: bool) -> char {
    if b {
        '1'
    } else {
        '0'
    }
}

/// The compact textual rendering: one `'0'`/`'1'` character per bit, in
/// index order, with no separators.
pub open spec fn compact_chars(s: Seq<bool>) -> Seq<char>
    decreases s.len(),
{
    if s.len() == 0 {
        Seq::empty()
    } else {
        compact_chars(s.drop_last()).push(bit_char(s.last()))
    }
}

/// The grouped textual rendering: as [`compact_chars`], but with a single
/// space before every eighth bit (that is, before the bits at indices 8, 16,
/// 24, ...).
pub open spec fn grouped_chars(s: Seq<bool>) -> Seq<char>
    decreases s.len(),
{
    if s.len() == 0 {
        Seq::empty()
    } else if s.len() > 1 && (s.len() - 1) % 8 == 0 {
        grouped_chars(s.drop_last()).push(' ').push(bit_char(s.last()))
    } else {
        grouped_chars(s.drop_last()).push(bit_char(s.last()))
    }
}

// ---------------------------------------------------------------------------
// Word-level bit facts, proved by bit blasting.
// ---------------------------------------------------------------------------

pub(crate) proof fn lemma_or_mask(w: u32, j: u32, k: u32)
    by (bit_vector)
    requires
        j < 32,
        k < 32,
    ensures
        nth_bit(w | (1u32 << j), k) == (k == j || nth_bit(w, k)),
{
}

pub(crate) proof fn lemma_andnot_mask(w: u32, j: u32, k: u32)
    by (bit_vector)
    requires
        j < 32,
        k < 32,
    ensures
        nth_bit(w & !(1u32 << j), k) == (k != j && nth_bit(w, k)),
{
}

pub(crate) proof fn lemma_mask_test(w: u32, j: u32)
    by (bit_vector)
    requires
        j < 32,
    ensures
        (w & (1u32 << j) == 0) == !nth_bit(w, j),
{
}

pub(crate) proof fn lemma_full_word_bit(k: u32)
    by (bit_vector)
    requires
        k < 32,
    ensures
        nth_bit(0xffff_ffffu32, k),
{
}

pub(crate) proof fn lemma_zero_word_bit(k: u32)
    by (bit_vector)
    requires
        k < 32,
    ensures
        !nth_bit(0u32, k),
{
}

/// The word mask covering bit offsets below `b`.
pub(crate) open spec fn low_mask(b: u32) -> u32 {
    if b >= 32 {
        0xffff_ffffu32
    } else {
        ((1u32 << b) - 1) as u32
    }
}

pub(crate) proof fn lemma_low_mask_empty(w: u32)
    by (bit_vector)
    ensures
        w & low_mask(0) == low_mask(0),
        w & low_mask(0) == 0,
{
}

/// Extending a run of set low bits by one more set bit.
pub(crate) proof fn lemma_low_mask_grow_ones(w: u32, b: u32)
    by (bit_vector)
    requires
        b < 32,
        w & low_mask(b) == low_mask(b),
        nth_bit(w, b),
    ensures
        w & low_mask((b + 1) as u32) == low_mask((b + 1) as u32),
{
}

/// Extending a run of clear low bits by one more clear bit.
pub(crate) proof fn lemma_low_mask_grow_zeros(w: u32, b: u32)
    by (bit_vector)
    requires
        b < 32,
        w & low_mask(b) == 0,
        !nth_bit(w, b),
    ensures
        w & low_mask((b + 1) as u32) == 0,
{
}

/// A word whose 32 low bits are all set is the all-ones word.
pub(crate) proof fn lemma_low_mask_all_ones(w: u32)
    by (bit_vector)
    requires
        w & low_mask(32) == low_mask(32),
    ensures
        w == 0xffff_ffffu32,
{
}

/// A word whose 32 low bits are all clear is zero.
pub(crate) proof fn lemma_low_mask_all_zeros(w: u32)
    by (bit_vector)
    requires
        w & low_mask(32) == 0,
    ensures
        w == 0,
{
}

// ---------------------------------------------------------------------------
// Index arithmetic: splitting a bit index into word index and bit offset.
// ---------------------------------------------------------------------------

/// A bit index splits into its word index `i / 32` and bit offset `i % 32`.
pub(crate) proof fn lemma_split_index(i: int)
    requires
        0 <= i,
    ensures
        i == 32 * (i / 32) + i % 32,
        0 <= i % 32 < 32,
        0 <= i / 32,
{
    lemma_fundamental_div_mod(i, 32);
}

/// The word index and bit offset are the unique such decomposition.
pub(crate) proof fn lemma_join_index(q: int, r: int)
    requires
        0 <= q,
        0 <= r < 32,
    ensures
        (32 * q + r) / 32 == q,
        (32 * q + r) % 32 == r,
{
    lemma_fundamental_div_mod_converse(32 * q + r, 32, q, r);
}

/// Facts about the number of words needed to hold `cap` bits,
/// `n == (cap + 31) / 32`: the words cover at least `cap` bit positions,
/// less than a whole word beyond, and exactly `cap` of them iff `cap` is
/// word-aligned.
pub(crate) proof fn lemma_word_count(cap: int)
    requires
        1 <= cap,
    ensures
        (cap - 1) / 32 + 1 == (cap + 31) / 32,
        cap <= 32 * ((cap + 31) / 32) < cap + 32,
        (cap % 32 == 0) == (cap == 32 * ((cap + 31) / 32)),
{
    lemma_split_index(cap + 31);
    lemma_split_index(cap);
    lemma_div_plus_one(cap - 1, 32);
    lemma_fundamental_div_mod(cap - 1, 32);
}

/// Every index below `cap` falls in a word below `(cap + 31) / 32`.
pub(crate) proof fn lemma_index_in_words(cap: int, i: int)
    requires
        1 <= cap,
        0 <= i < cap,
    ensures
        i / 32 < (cap + 31) / 32,
        i == 32 * (i / 32) + i % 32,
        0 <= i % 32 < 32,
{
    lemma_split_index(i);
    lemma_word_count(cap);
    lemma_div_is_ordered(i, cap - 1, 32);
}

// ---------------------------------------------------------------------------
// Lemmas about the population count of a boolean sequence.
// ---------------------------------------------------------------------------

/// The population count never exceeds the length, reaches the length
/// exactly when every entry is true, and reaches zero exactly when none is.
pub proof fn lemma_count_true_bounds(s: Seq<bool>)
    ensures
        count_true(s) <= s.len(),
        (count_true(s) == s.len()) == (forall|i: int| 0 <= i < s.len() ==> s[i]),
        (count_true(s) == 0) == (forall|i: int| 0 <= i < s.len() ==> !s[i]),
    decreases s.len(),
{
    if s.len() > 0 {
        lemma_count_true_bounds(s.drop_last());
        assert(forall|i: int| 0 <= i < s.len() - 1 ==> s.drop_last()[i] == s[i]);
    }
}

/// Updating one entry moves the population count by exactly the change in
/// that entry.
pub proof fn lemma_count_true_update(s: Seq<bool>, i: int, v: bool)
    requires
        0 <= i < s.len(),
    ensures
        count_true(s.update(i, v)) == count_true(s) - (if s[i] {
            1int
        } else {
            0int
        }) + (if v {
            1int
        } else {
            0int
        }),
    decreases s.len(),
{
    let t = s.update(i, v);
    if i == s.len() - 1 {
        assert(t.drop_last() =~= s.drop_last());
    } else {
        assert(t.drop_last() =~= s.drop_last().update(i, v));
        lemma_count_true_update(s.drop_last(), i, v);
    }
}

} // verus!
