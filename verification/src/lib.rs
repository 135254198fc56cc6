//! A fixed-capacity bit set backed by packed 32-bit words.
//!
//! [`BitArray`] records up to a fixed number of boolean flags, addressable by
//! index, with constant-time set/clear/query operations, an incrementally
//! maintained population count, and linear scans for the first set or unset
//! bit.

mod bit_array;
mod bits;
mod laws;

pub use bit_array::BitArray;
pub use laws::lemma_clear_state_is_unique;
pub use laws::lemma_count_is_number_of_set_indices;
pub use laws::lemma_fresh_set_is_empty;
pub use laws::lemma_full_means_every_bit;
pub use laws::lemma_write_then_read;
pub use laws::lemma_write_twice_is_once;

pub use bits::bit_char;
pub use bits::compact_chars;
pub use bits::count_true;
pub use bits::grouped_chars;
pub use bits::lemma_count_true_bounds;
pub use bits::lemma_count_true_update;
pub use bits::nth_bit;
