use mcstructs::utils::bitshift_i32_with_sign;
use mcstructs::utils::bitshift_i64_with_sign;

#[test]
fn shift_i32_positive() {
    assert_eq!(bitshift_i32_with_sign(300, 7), 2);
    assert_eq!(bitshift_i32_with_sign(i32::MAX, 7), 0x00FF_FFFF);
    assert_eq!(bitshift_i32_with_sign(1, 1), 0);
}

#[test]
fn shift_i32_negative_fills_with_zero() {
    assert_eq!(bitshift_i32_with_sign(-1, 7), 0x01FF_FFFF);
    assert_eq!(bitshift_i32_with_sign(-1, 1), i32::MAX);
    assert_eq!(bitshift_i32_with_sign(i32::MIN, 31), 1);
    assert_eq!(bitshift_i32_with_sign(-128, 7), 0x01FF_FFFF);
}

#[test]
fn shift_i32_by_nothing() {
    assert_eq!(bitshift_i32_with_sign(-5, 0), -5);
    assert_eq!(bitshift_i32_with_sign(77, 0), 77);
}

#[test]
fn shift_i32_past_the_width() {
    assert_eq!(bitshift_i32_with_sign(-1, 32), 0);
    assert_eq!(bitshift_i32_with_sign(i32::MAX, 33), 0);
    assert_eq!(bitshift_i32_with_sign(-1, 255), 0);
}

#[test]
fn shift_i64_positive() {
    assert_eq!(bitshift_i64_with_sign(300, 7), 2);
    assert_eq!(bitshift_i64_with_sign(i64::MAX, 7), 0x00FF_FFFF_FFFF_FFFF);
}

#[test]
fn shift_i64_negative_fills_with_zero() {
    assert_eq!(bitshift_i64_with_sign(-1, 7), 0x01FF_FFFF_FFFF_FFFF);
    assert_eq!(bitshift_i64_with_sign(-1, 1), i64::MAX);
    assert_eq!(bitshift_i64_with_sign(i64::MIN, 63), 1);
}

#[test]
fn shift_i64_by_nothing() {
    assert_eq!(bitshift_i64_with_sign(-5, 0), -5);
}

#[test]
fn shift_i64_past_the_width() {
    assert_eq!(bitshift_i64_with_sign(-1, 64), 0);
    assert_eq!(bitshift_i64_with_sign(i64::MIN, 200), 0);
}
