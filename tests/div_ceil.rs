use forma::DivCeil;

#[test]
fn div_ceil_rounds_up_u32() {
    assert_eq!(7u32.div_ceil_(2), 4);
    assert_eq!(8u32.div_ceil_(2), 4);
    assert_eq!(0u32.div_ceil_(5), 0);
    assert_eq!(1u32.div_ceil_(1), 1);
    assert_eq!(9u32.div_ceil_(10), 1);
}

#[test]
fn div_ceil_rounds_up_usize() {
    assert_eq!(7usize.div_ceil_(2), 4);
    assert_eq!(8usize.div_ceil_(2), 4);
    assert_eq!(0usize.div_ceil_(5), 0);
    assert_eq!(17usize.div_ceil_(16), 2);
}

#[test]
fn div_ceil_has_no_overflow_at_the_top_of_the_range() {
    assert_eq!(u32::MAX.div_ceil_(2), 2_147_483_648);
    assert_eq!(u32::MAX.div_ceil_(u32::MAX), 1);
    assert_eq!(u32::MAX.div_ceil_(1), u32::MAX);
    assert_eq!(usize::MAX.div_ceil_(usize::MAX), 1);
    assert_eq!(usize::MAX.div_ceil_(1), usize::MAX);
}
