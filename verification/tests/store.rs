use stride_layout::family::{AddressFamily, LayoutError};
use stride_layout::store::create_store;

#[test]
fn store_holds_a_layout_for_each_family() {
    let store = create_store(&[5, 5, 4, 3, 3, 3, 3, 3, 3], &[4]).unwrap();
    let v4 = store.layout_for(AddressFamily::IPv4);
    let v6 = store.layout_for(AddressFamily::IPv6);
    assert_eq!(v4.family(), AddressFamily::IPv4);
    assert_eq!(v6.family(), AddressFamily::IPv6);
    assert_eq!(v4.level_count(), 9);
    assert_eq!(v6.level_count(), 32);
    assert_eq!(v4.dispatch_table().len(), 33);
    assert_eq!(v6.dispatch_table().len(), 129);
    assert_eq!(v4.level_start_for_length(24), Ok(23));
    assert_eq!(v6.level_start_for_length(24), Ok(24));
    assert_eq!(v4.get_node_bucket(33).err(), Some(LayoutError::LengthOutOfRange));
    assert_eq!(v6.get_node_bucket(33).unwrap().key(), 32);
}

#[test]
fn store_is_not_built_when_one_sequence_is_rejected() {
    assert_eq!(create_store(&[4], &[6]).err(), Some(LayoutError::InvalidStrideWidth));
    assert_eq!(create_store(&[4], &[5]).err(), Some(LayoutError::StrideSumMismatch));
    assert_eq!(create_store(&[2], &[4]).err(), Some(LayoutError::InvalidStrideWidth));
    assert_eq!(create_store(&[3], &[4]).err(), Some(LayoutError::StrideSumMismatch));
}

#[test]
fn the_ipv4_sequence_is_judged_first() {
    assert_eq!(create_store(&[3], &[6]).err(), Some(LayoutError::StrideSumMismatch));
    assert_eq!(create_store(&[6], &[3]).err(), Some(LayoutError::InvalidStrideWidth));
}
