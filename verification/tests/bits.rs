use stride_layout::bits::{bits_at_depth, bits_for_count, capacity_for_bits, count_positions};

#[test]
fn positions_double_with_every_bit() {
    assert_eq!(count_positions(0), 0);
    assert_eq!(count_positions(1), 2);
    assert_eq!(count_positions(2), 6);
    assert_eq!(count_positions(3), 14);
    assert_eq!(count_positions(4), 30);
    assert_eq!(count_positions(5), 62);
}

#[test]
fn positions_at_the_deepest_counted_depth() {
    assert_eq!(count_positions(62), (1u64 << 63) - 2);
}

#[test]
fn bits_are_the_logarithm_rounded_up() {
    assert_eq!(bits_for_count(0), 0);
    assert_eq!(bits_for_count(1), 0);
    assert_eq!(bits_for_count(2), 1);
    assert_eq!(bits_for_count(3), 2);
    assert_eq!(bits_for_count(4), 2);
    assert_eq!(bits_for_count(5), 3);
    assert_eq!(bits_for_count(14), 4);
    assert_eq!(bits_for_count(16), 4);
    assert_eq!(bits_for_count(17), 5);
    assert_eq!(bits_for_count(62), 6);
}

#[test]
fn bits_for_the_largest_counts() {
    assert_eq!(bits_for_count(1u64 << 63), 63);
    assert_eq!(bits_for_count((1u64 << 63) + 1), 64);
    assert_eq!(bits_for_count(u64::MAX), 64);
}

#[test]
fn table_entries_for_the_depths_of_a_stride() {
    assert_eq!(bits_at_depth(0), 0);
    assert_eq!(bits_at_depth(1), 1);
    assert_eq!(bits_at_depth(2), 3);
    assert_eq!(bits_at_depth(3), 4);
    assert_eq!(bits_at_depth(4), 5);
    assert_eq!(bits_at_depth(5), 6);
}

#[test]
fn table_entry_covers_the_positions_and_one_bit_less_does_not() {
    for depth in 0u8..=20 {
        let count = count_positions(depth);
        let bits = bits_at_depth(depth);
        assert!(count <= 1u64 << bits);
        if bits > 0 {
            assert!(1u64 << (bits - 1) < count);
        }
    }
}

#[test]
fn capacity_is_two_to_the_bits() {
    assert_eq!(capacity_for_bits(0), 1);
    assert_eq!(capacity_for_bits(1), 2);
    assert_eq!(capacity_for_bits(6), 64);
    assert_eq!(capacity_for_bits(12), 4096);
    assert_eq!(capacity_for_bits(31), 1usize << 31);
}
