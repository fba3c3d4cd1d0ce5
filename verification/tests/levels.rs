use stride_layout::dispatch::build_dispatch_table;
use stride_layout::family::AddressFamily;
use stride_layout::levels::{build_levels, Level};

#[test]
fn levels_start_at_the_running_sum() {
    let levels = build_levels(&[5, 5, 4, 3, 3, 3, 3, 3, 3]);
    let starts: Vec<u8> = levels.iter().map(|level| level.start_bit).collect();
    let widths: Vec<u8> = levels.iter().map(|level| level.stride_width).collect();
    assert_eq!(starts, vec![0, 5, 10, 14, 17, 20, 23, 26, 29]);
    assert_eq!(widths, vec![5, 5, 4, 3, 3, 3, 3, 3, 3]);
}

#[test]
fn each_level_starts_where_the_last_one_ends() {
    let levels = build_levels(&[3, 5, 4, 4, 5, 3, 4, 4]);
    assert_eq!(levels[0].start_bit, 0);
    for pair in levels.windows(2) {
        assert_eq!(pair[1].start_bit, pair[0].start_bit + pair[0].stride_width);
    }
    let last = levels[levels.len() - 1];
    assert_eq!(last.start_bit + last.stride_width, 32);
}

#[test]
fn no_strides_give_no_levels() {
    assert_eq!(build_levels(&[]), Vec::<Level>::new());
}

#[test]
fn one_stride_gives_one_level_at_zero() {
    assert_eq!(build_levels(&[4]), vec![Level { start_bit: 0, stride_width: 4 }]);
}

#[test]
fn dispatch_table_has_one_entry_for_each_length() {
    let levels = build_levels(&[4; 8]);
    let table = build_dispatch_table(&levels, AddressFamily::IPv4);
    assert_eq!(table.len(), 33);
    let levels6 = build_levels(&[4; 32]);
    let table6 = build_dispatch_table(&levels6, AddressFamily::IPv6);
    assert_eq!(table6.len(), 129);
}

#[test]
fn dispatch_entries_of_uniform_strides() {
    let levels = build_levels(&[4; 8]);
    let table = build_dispatch_table(&levels, AddressFamily::IPv4);
    for length in 0usize..32 {
        assert_eq!(table[length].level_index, length / 4);
        assert_eq!(table[length].level.start_bit as usize, length / 4 * 4);
        assert_eq!(table[length].level.stride_width, 4);
    }
    assert_eq!(table[32].level_index, 7);
    assert_eq!(table[32].level, Level { start_bit: 28, stride_width: 4 });
}

#[test]
fn dispatch_entries_of_mixed_strides() {
    let levels = build_levels(&[5, 5, 4, 3, 3, 3, 3, 3, 3]);
    let table = build_dispatch_table(&levels, AddressFamily::IPv4);
    let owners: Vec<u8> = table.iter().map(|entry| entry.level.start_bit).collect();
    assert_eq!(
        owners,
        vec![
            0, 0, 0, 0, 0, 5, 5, 5, 5, 5, 10, 10, 10, 10, 14, 14, 14, 17, 17, 17, 20, 20, 20, 23,
            23, 23, 26, 26, 26, 29, 29, 29, 29
        ]
    );
    assert_eq!(table[9].level_index, 1);
    assert_eq!(table[10].level_index, 2);
    assert_eq!(table[10].level.stride_width, 4);
    assert_eq!(table[32].level_index, 8);
}
