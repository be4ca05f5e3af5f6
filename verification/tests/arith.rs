use phonk::div_ceil;

#[test]
fn div_ceil_rounds_up() {
    assert_eq!(div_ceil(44_100, 8_000), 6);
    assert_eq!(div_ceil(1_000, 500), 2);
    assert_eq!(div_ceil(0, 7), 0);
    assert_eq!(div_ceil(u32::MAX, 2), 2_147_483_648);
    assert_eq!(div_ceil(u32::MAX, 1), u32::MAX);
}
