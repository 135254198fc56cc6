//! General laws of the bit set, stated over the same sequence model that
//! the executable contracts use, and proved once for every capacity and
//! every bit pattern.

use crate::bits::{count_true, lemma_count_true_bounds};
use vstd::prelude::*;

verus! {

broadcast use vstd::set::group_set_axioms;

/// A freshly constructed (or freshly reset) bit set is empty: an
/// all-clear bit sequence of positive length has population count zero,
/// and is not full, so `all_set` reports false and `first_set_bit` has
/// nothing to find.
pub proof fn lemma_fresh_set_is_empty(s: Seq<bool>)
    requires
        s.len() > 0,
        forall|i: int| 0 <= i < s.len() ==> !s[i],
    ensures
        count_true(s) == 0,
        count_true(s) != s.len(),
{
    lemma_count_true_bounds(s);
}

/// Writing a bit and reading it back returns what was written: after
/// `set(i)` the bit at `i` reads true, and after `unset(i)` it reads
/// false.
pub proof fn lemma_write_then_read(s: Seq<bool>, i: int)
    requires
        0 <= i < s.len(),
    ensures
        s.update(i, true)[i],
        !s.update(i, false)[i],
{
}

/// Setting a bit is idempotent: setting it twice leaves the same bit
/// sequence, and therefore the same population count, as setting it once.
/// The same holds of clearing.
pub proof fn lemma_write_twice_is_once(s: Seq<bool>, i: int)
    requires
        0 <= i < s.len(),
    ensures
        s.update(i, true).update(i, true) == s.update(i, true),
        count_true(s.update(i, true).update(i, true)) == count_true(s.update(i, true)),
        s.update(i, false).update(i, false) == s.update(i, false),
{
    assert(s.update(i, true).update(i, true) =~= s.update(i, true));
    assert(s.update(i, false).update(i, false) =~= s.update(i, false));
}

/// The population count is the number of set positions: `count_true`
/// equals the cardinality of the set of indices holding a true bit.
/// Since every mutation keeps `count_set_bits` equal to `count_true` of
/// the bit sequence, the running count always equals the number of
/// indices whose bit reads true.
pub proof fn lemma_count_is_number_of_set_indices(s: Seq<bool>)
    ensures
        Set::new(|i: int| 0 <= i < s.len() && s[i]).finite(),
        count_true(s) == Set::new(|i: int| 0 <= i < s.len() && s[i]).len(),
    decreases s.len(),
{
    let full = Set::new(|i: int| 0 <= i < s.len() && s[i]);
    if s.len() == 0 {
        assert(full =~= Set::empty());
    } else {
        let t = s.drop_last();
        lemma_count_is_number_of_set_indices(t);
        let sub = Set::new(|i: int| 0 <= i < t.len() && t[i]);
        if s.last() {
            assert(full =~= sub.insert(s.len() - 1));
            assert(!sub.contains(s.len() - 1));
        } else {
            assert(full =~= sub);
        }
    }
}

/// The set is full exactly when the population count reaches the length:
/// `all_set` reports true iff every bit reads true.
pub proof fn lemma_full_means_every_bit(s: Seq<bool>)
    ensures
        (count_true(s) == s.len()) == (forall|i: int| 0 <= i < s.len() ==> s[i]),
{
    lemma_count_true_bounds(s);
}

/// There is only one empty state per capacity: two all-clear bit
/// sequences of the same length are equal, so `reset` restores exactly
/// the freshly constructed state.
pub proof fn lemma_clear_state_is_unique(a: Seq<bool>, b: Seq<bool>)
    requires
        a.len() == b.len(),
        forall|i: int| 0 <= i < a.len() ==> !a[i],
        forall|i: int| 0 <= i < b.len() ==> !b[i],
    ensures
        a == b,
{
    assert(a =~= b);
}

} // verus!
