use bit_array_rs::BitArray;

#[test]
fn basic_bit_array_functions() {
    let mut array = BitArray::new(10);

    array.set(4);

    assert_eq!(array.first_unset_bit().unwrap(), 0);
    assert_eq!(array.first_set_bit().unwrap(), 4);
    assert_eq!(array.bit_count(), 10);
    assert_eq!(array.get(1), false);
    assert_eq!(array.get(0), false);
    assert_eq!(array.get(4), true);
    array.unset(4);
    assert_eq!(array.first_set_bit(), None);
    assert_eq!(array.get(4), false);
    array.set_bit(9, true);
    assert_eq!(array.get(9), true);
    assert_eq!(array.get(8), false);
    assert_eq!(array.get(9), true);
    assert_eq!(array.all_set(), false);

    println!("{}", array.to_compact_string());
    println!("{:?}", array.to_debug_string());
}

#[test]
fn bitarray_debug_output() {
    let mut bit_array = BitArray::new(16);
    bit_array.set(3);
    bit_array.set(7);
    bit_array.set(9);
    bit_array.set(15);

    let output = bit_array.to_debug_string();
    const EXPECTED_OUTPUT: &str = "00010001 01000001";

    assert_eq!(output, EXPECTED_OUTPUT);
}

#[test]
fn fresh_set_is_empty() {
    for bit_count in [1usize, 31, 32, 33, 64, 100] {
        let array = BitArray::new(bit_count);
        assert_eq!(array.bit_count(), bit_count);
        assert_eq!(array.count_set_bits(), 0);
        assert_eq!(array.all_set(), false);
        assert_eq!(array.first_set_bit(), None);
        assert_eq!(array.first_unset_bit(), Some(0));
        for i in 0..bit_count {
            assert_eq!(array.get(i), false);
        }
    }
}

#[test]
fn write_then_read_every_index() {
    let mut array = BitArray::new(70);
    for i in 0..70 {
        array.set(i);
        assert_eq!(array.get(i), true);
        array.unset(i);
        assert_eq!(array.get(i), false);
    }
}

#[test]
fn setting_twice_counts_once() {
    let mut array = BitArray::new(20);
    array.set(5);
    let once = array.count_set_bits();
    array.set(5);
    assert_eq!(array.count_set_bits(), once);
    assert_eq!(once, 1);
    array.unset(5);
    array.unset(5);
    assert_eq!(array.count_set_bits(), 0);
}

#[test]
fn count_matches_scan_of_gets() {
    let mut array = BitArray::new(100);
    for i in (0..100).step_by(2) {
        array.set(i);
    }
    for i in (0..100).step_by(4) {
        array.unset(i);
    }
    for i in 0..100 {
        array.set_bit(i, i % 3 == 0);
    }
    let mut counted: usize = 0;
    for i in 0..100 {
        if array.get(i) {
            counted += 1;
        }
    }
    assert_eq!(array.count_set_bits(), counted);
    assert_eq!(counted, 34);
}

#[test]
fn all_set_iff_count_reaches_capacity() {
    for bit_count in [10usize, 32, 33] {
        let mut array = BitArray::new(bit_count);
        for i in 0..bit_count {
            assert_eq!(array.all_set(), false);
            array.set(i);
        }
        assert_eq!(array.all_set(), true);
        assert_eq!(array.count_set_bits(), bit_count);
        array.unset(bit_count / 2);
        assert_eq!(array.all_set(), false);
        assert_eq!(array.count_set_bits(), bit_count - 1);
    }
}

#[test]
fn first_unset_bit_is_smallest() {
    let mut array = BitArray::new(70);
    for i in 0..5 {
        array.set(i);
    }
    assert_eq!(array.first_unset_bit(), Some(5));
    for i in 5..40 {
        array.set(i);
    }
    assert_eq!(array.first_unset_bit(), Some(40));
    array.unset(33);
    assert_eq!(array.first_unset_bit(), Some(33));
}

#[test]
fn first_unset_bit_on_full_word_aligned_set() {
    let mut array = BitArray::new(32);
    for i in 0..32 {
        array.set(i);
    }
    assert_eq!(array.first_unset_bit(), None);
    assert_eq!(array.all_set(), true);
}

#[test]
fn first_unset_bit_on_full_partial_word_set() {
    // With a capacity that is not word-aligned, the scan reaches the zero
    // padding of the last word once every addressable bit is set, and
    // reports the capacity itself rather than `None`.
    let mut array = BitArray::new(3);
    array.set(0);
    array.set(1);
    array.set(2);
    assert_eq!(array.all_set(), true);
    assert_eq!(array.first_unset_bit(), Some(3));

    let mut single = BitArray::new(1);
    single.set(0);
    assert_eq!(single.all_set(), true);
    assert_eq!(single.first_unset_bit(), Some(1));
}

#[test]
fn first_set_bit_is_smallest() {
    let mut array = BitArray::new(70);
    assert_eq!(array.first_set_bit(), None);
    array.set(40);
    assert_eq!(array.first_set_bit(), Some(40));
    array.set(20);
    assert_eq!(array.first_set_bit(), Some(20));
    array.set(64);
    assert_eq!(array.first_set_bit(), Some(20));
    array.unset(20);
    array.unset(40);
    assert_eq!(array.first_set_bit(), Some(64));
    array.unset(64);
    assert_eq!(array.first_set_bit(), None);
}

#[test]
fn reset_restores_fresh_state() {
    let mut array = BitArray::new(50);
    for i in [0usize, 7, 31, 32, 49] {
        array.set(i);
    }
    assert_eq!(array.count_set_bits(), 5);
    array.reset();
    assert_eq!(array.count_set_bits(), 0);
    assert_eq!(array.all_set(), false);
    assert_eq!(array.first_set_bit(), None);
    assert_eq!(array.first_unset_bit(), Some(0));
    for i in 0..50 {
        assert_eq!(array.get(i), false);
    }
}

#[test]
fn atom_window_reads_bits_with_zero_padding() {
    let mut array = BitArray::new(16);
    array.set(3);
    array.set(7);
    array.set(9);
    array.set(15);
    // Bits 3, 7, 9 and 15 of the window starting at 0.
    assert_eq!(array.atom_from_index(0), (1 << 3) | (1 << 7) | (1 << 9) | (1 << 15));
    // Shifted by 8: bits 1 and 7 remain; positions 16..39 read as zero.
    assert_eq!(array.atom_from_index(8), (1 << 1) | (1 << 7));
    // Entirely past the capacity: all zero.
    assert_eq!(array.atom_from_index(20), 0);
}

#[test]
fn atom_window_crosses_word_boundaries() {
    let mut array = BitArray::new(40);
    array.set(31);
    array.set(32);
    array.set(39);
    assert_eq!(array.atom_from_index(24), (1 << 7) | (1 << 8) | (1 << 15));
    assert_eq!(array.atom_from_index(31), 0b1_0000_0011);
    assert_eq!(array.atom_from_index(39), 1);
}

#[test]
fn compact_rendering_lists_every_bit() {
    let mut array = BitArray::new(16);
    array.set(3);
    array.set(7);
    array.set(9);
    array.set(15);
    assert_eq!(array.to_compact_string(), "0001000101000001");

    let mut short = BitArray::new(10);
    short.set_bit(9, true);
    assert_eq!(short.to_compact_string(), "0000000001");
    assert_eq!(short.to_debug_string(), "00000000 01");

    let eight = BitArray::new(8);
    assert_eq!(eight.to_compact_string(), "00000000");
    assert_eq!(eight.to_debug_string(), "00000000");
}

#[test]
fn clone_preserves_bits() {
    let mut array = BitArray::new(40);
    array.set(1);
    array.set(33);
    let copy = array.clone();
    assert_eq!(copy.bit_count(), 40);
    assert_eq!(copy.count_set_bits(), 2);
    for i in 0..40 {
        assert_eq!(copy.get(i), array.get(i));
    }
    // The copy owns its storage: mutating it leaves the original alone.
    let mut copy = copy;
    copy.set(2);
    assert_eq!(copy.count_set_bits(), 3);
    assert_eq!(array.count_set_bits(), 2);
    assert_eq!(array.get(2), false);
}
