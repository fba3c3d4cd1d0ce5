use stride_layout::family::{AddressFamily, LayoutError};
use stride_layout::strides::{validate_strides, MAX_STRIDE_WIDTH, MIN_STRIDE_WIDTH};

#[test]
fn stride_width_bounds_are_three_and_five() {
    assert_eq!(MIN_STRIDE_WIDTH, 3);
    assert_eq!(MAX_STRIDE_WIDTH, 5);
}

#[test]
fn bit_widths_of_the_families() {
    assert_eq!(AddressFamily::IPv4.bit_width(), 32);
    assert_eq!(AddressFamily::IPv6.bit_width(), 128);
}

#[test]
fn exact_sequence_is_kept_as_given() {
    let given = [5u8, 5, 4, 3, 3, 3, 3, 3, 3];
    let effective = validate_strides(AddressFamily::IPv4, &given).unwrap();
    assert_eq!(effective, vec![5, 5, 4, 3, 3, 3, 3, 3, 3]);
    assert_eq!(effective.iter().map(|w| *w as u32).sum::<u32>(), 32);
}

#[test]
fn single_stride_is_repeated_for_ipv4() {
    let effective = validate_strides(AddressFamily::IPv4, &[4]).unwrap();
    assert_eq!(effective, vec![4u8; 8]);
}

#[test]
fn single_stride_is_repeated_for_ipv6() {
    let effective = validate_strides(AddressFamily::IPv6, &[4]).unwrap();
    assert_eq!(effective, vec![4u8; 32]);
    assert_eq!(effective.iter().map(|w| *w as u32).sum::<u32>(), 128);
}

#[test]
fn pair_is_repeated_in_whole_cycles() {
    let effective = validate_strides(AddressFamily::IPv4, &[5, 3]).unwrap();
    assert_eq!(effective, vec![5, 3, 5, 3, 5, 3, 5, 3]);
}

#[test]
fn completion_may_stop_inside_a_cycle() {
    let effective = validate_strides(AddressFamily::IPv4, &[5, 4, 5, 4, 5, 4]).unwrap();
    assert_eq!(effective, vec![5, 4, 5, 4, 5, 4, 5]);
}

#[test]
fn completion_for_ipv6_may_stop_inside_a_cycle() {
    // 5 + 4 + 3 = 12; ten cycles give 120, then 5 and 4 step over 128.
    assert_eq!(
        validate_strides(AddressFamily::IPv6, &[5, 4, 3]),
        Err(LayoutError::StrideSumMismatch)
    );
    // 3 + 5 = 8; sixteen cycles give 128.
    let effective = validate_strides(AddressFamily::IPv6, &[3, 5]).unwrap();
    assert_eq!(effective.len(), 32);
    assert_eq!(effective[0], 3);
    assert_eq!(effective[31], 5);
}

#[test]
fn width_six_is_invalid() {
    assert_eq!(
        validate_strides(AddressFamily::IPv4, &[5, 6, 4]),
        Err(LayoutError::InvalidStrideWidth)
    );
}

#[test]
fn widths_below_three_are_invalid() {
    assert_eq!(validate_strides(AddressFamily::IPv4, &[0]), Err(LayoutError::InvalidStrideWidth));
    assert_eq!(validate_strides(AddressFamily::IPv4, &[2]), Err(LayoutError::InvalidStrideWidth));
    assert_eq!(
        validate_strides(AddressFamily::IPv6, &[4, 4, 255]),
        Err(LayoutError::InvalidStrideWidth)
    );
}

#[test]
fn invalid_width_is_reported_before_a_wrong_sum() {
    // The sum is 38, beyond 32, and the last width is invalid.
    assert_eq!(
        validate_strides(AddressFamily::IPv4, &[5, 5, 5, 5, 5, 5, 8]),
        Err(LayoutError::InvalidStrideWidth)
    );
    // The valid part alone sums to 32.
    assert_eq!(
        validate_strides(AddressFamily::IPv4, &[4, 4, 4, 4, 4, 4, 4, 4, 1]),
        Err(LayoutError::InvalidStrideWidth)
    );
}

#[test]
fn sum_of_thirty_is_not_completed_to_thirty_two() {
    assert_eq!(
        validate_strides(AddressFamily::IPv4, &[5, 5, 5, 5, 5, 5]),
        Err(LayoutError::StrideSumMismatch)
    );
    assert_eq!(
        validate_strides(AddressFamily::IPv4, &[3; 10]),
        Err(LayoutError::StrideSumMismatch)
    );
}

#[test]
fn overshooting_sequence_is_not_truncated() {
    // The first eight strides sum to 32, the ninth overshoots.
    assert_eq!(
        validate_strides(AddressFamily::IPv4, &[4; 9]),
        Err(LayoutError::StrideSumMismatch)
    );
    assert_eq!(
        validate_strides(AddressFamily::IPv4, &[5, 5, 4, 3, 3, 3, 3, 3, 3, 3]),
        Err(LayoutError::StrideSumMismatch)
    );
}

#[test]
fn repetition_that_steps_over_the_width_is_rejected() {
    assert_eq!(validate_strides(AddressFamily::IPv4, &[3]), Err(LayoutError::StrideSumMismatch));
    assert_eq!(validate_strides(AddressFamily::IPv4, &[5]), Err(LayoutError::StrideSumMismatch));
    assert_eq!(validate_strides(AddressFamily::IPv6, &[3]), Err(LayoutError::StrideSumMismatch));
    assert_eq!(validate_strides(AddressFamily::IPv6, &[5]), Err(LayoutError::StrideSumMismatch));
}

#[test]
fn empty_sequence_is_rejected() {
    assert_eq!(validate_strides(AddressFamily::IPv4, &[]), Err(LayoutError::StrideSumMismatch));
    assert_eq!(validate_strides(AddressFamily::IPv6, &[]), Err(LayoutError::StrideSumMismatch));
}

#[test]
fn longest_ipv6_sequence_has_forty_two_strides() {
    let mut given = vec![3u8; 40];
    given.push(4);
    given.push(4);
    let effective = validate_strides(AddressFamily::IPv6, &given).unwrap();
    assert_eq!(effective.len(), 42);
    assert_eq!(effective, given);
}

#[test]
fn error_messages_name_the_fault() {
    assert_eq!(LayoutError::InvalidStrideWidth.message(), "stride width is not 3, 4 or 5");
    assert_eq!(
        LayoutError::StrideSumMismatch.message(),
        "stride widths do not add up to the bit width"
    );
    assert_eq!(LayoutError::LengthOutOfRange.message(), "prefix length exceeds the bit width");
}
