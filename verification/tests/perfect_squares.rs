use integer_square_root::isqrt_16;
use integer_square_root::isqrt_32;
use integer_square_root::isqrt_64;
use integer_square_root::isqrt_8;
use integer_square_root::is_valid_signed;
use integer_square_root::SquareRoot;

#[test]
fn perfect_squares_u64() {
    let b: u64 = u32::MAX as u64;
    let a: u64 = b - u16::MAX as u64;
    for i in a..b {
        assert_eq!(isqrt_64(&(i * i)), i);
    }

    assert_eq!(16u64.sqrt(), 4);
}

#[test]
fn perfect_squares_u32() {
    for i in 0..(u16::MAX as u32) {
        assert_eq!(isqrt_32(&(i * i)), i);
    }

    assert_eq!(16u32.sqrt(), 4);
}

#[test]
fn perfect_squares_u16() {
    for i in 0..(u8::MAX as u16) {
        assert_eq!(isqrt_16(&(i * i)), i);
    }

    assert_eq!(16u16.sqrt(), 4);
}

#[test]
fn perfect_squares_u8() {
    for i in 0..16 {
        assert_eq!(isqrt_8(&(i * i)), i);
    }

    assert_eq!(16u8.sqrt(), 4);
}

#[test]
fn valid_signed_integer() {
    for i in -256isize..-1isize {
        assert_eq!(is_valid_signed(&i), false);
    }

    for i in 0..256isize {
        assert_eq!(is_valid_signed(&i), true);
    }

    assert_eq!(16i64.sqrt(), 4);
    assert_eq!(16i32.sqrt(), 4);
    assert_eq!(16i16.sqrt(), 4);
    assert_eq!(16i8.sqrt(), 4);
}
