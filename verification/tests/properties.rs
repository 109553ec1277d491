use integer_square_root::isqrt_16;
use integer_square_root::isqrt_32;
use integer_square_root::isqrt_64;
use integer_square_root::isqrt_8;
use integer_square_root::is_valid_signed;
use integer_square_root::SquareRoot;

#[test]
fn zero_gives_zero() {
    assert_eq!(isqrt_8(&0), 0);
    assert_eq!(isqrt_16(&0), 0);
    assert_eq!(isqrt_32(&0), 0);
    assert_eq!(isqrt_64(&0), 0);
    assert_eq!(0u8.sqrt(), 0);
    assert_eq!(0i8.sqrt(), 0);
    assert_eq!(0usize.sqrt(), 0);
    assert_eq!(0isize.sqrt(), 0);
}

#[test]
fn maximum_values() {
    assert_eq!(isqrt_8(&u8::MAX), 15);
    assert_eq!(isqrt_16(&u16::MAX), 255);
    assert_eq!(isqrt_32(&u32::MAX), 65535);
    assert_eq!(isqrt_64(&u64::MAX), 4294967295);
    assert_eq!(i8::MAX.sqrt(), 11);
    assert_eq!(i16::MAX.sqrt(), 181);
    assert_eq!(i32::MAX.sqrt(), 46340);
    assert_eq!(i64::MAX.sqrt(), 3037000499);
}

#[test]
fn exactness_around_squares() {
    assert_eq!(isqrt_64(&15), 3);
    assert_eq!(isqrt_64(&16), 4);
    assert_eq!(isqrt_64(&17), 4);
    assert_eq!(isqrt_64(&24), 4);
    assert_eq!(isqrt_64(&25), 5);
    assert_eq!(isqrt_64(&26), 5);
    assert_eq!(isqrt_8(&195), 13);
    assert_eq!(isqrt_8(&196), 14);
    assert_eq!(isqrt_8(&224), 14);
    assert_eq!(isqrt_16(&65024), 254);
    assert_eq!(isqrt_16(&65025), 255);
}

#[test]
fn exactness_exhaustive_u8() {
    // every 8-bit input: the result squares to at most n, and the next
    // integer squares past it
    for n in 0..=u8::MAX {
        let r: u16 = isqrt_8(&n) as u16;
        let n: u16 = n as u16;
        assert!(r * r <= n);
        assert!((r + 1) * (r + 1) > n);
    }
}

#[test]
fn exactness_sampled_u64() {
    let mut n: u64 = 1;
    while n < u64::MAX / 3 {
        let r: u128 = isqrt_64(&n) as u128;
        assert!(r * r <= n as u128);
        assert!((r + 1) * (r + 1) > n as u128);
        n = n * 3 + 1;
    }
}

#[test]
fn monotonic_prefix_u16() {
    let mut previous: u16 = 0;
    for n in 0..=u16::MAX {
        let r: u16 = isqrt_16(&n);
        assert!(previous <= r);
        previous = r;
    }
}

#[test]
fn squares_all_u16() {
    for i in 0..=255u16 {
        assert_eq!(isqrt_16(&(i * i)), i);
    }
}

#[test]
fn squares_all_u32() {
    for i in 0..=65535u32 {
        assert_eq!(isqrt_32(&(i * i)), i);
    }
}

#[test]
fn negative_sentinels() {
    assert_eq!((-1i8).sqrt(), i8::MIN);
    assert_eq!((-1i16).sqrt(), i16::MIN);
    assert_eq!((-1i32).sqrt(), i32::MIN);
    assert_eq!((-1i64).sqrt(), i64::MIN);
    assert_eq!((-1isize).sqrt(), isize::MIN);
    assert_eq!(i8::MIN.sqrt(), i8::MIN);
    assert_eq!(i16::MIN.sqrt(), i16::MIN);
    assert_eq!(i32::MIN.sqrt(), i32::MIN);
    assert_eq!(i64::MIN.sqrt(), i64::MIN);
    assert_eq!(isize::MIN.sqrt(), isize::MIN);
    assert!(!is_valid_signed(&isize::MIN));
}

#[test]
fn signed_matches_unsigned() {
    for x in 0..=i8::MAX {
        assert_eq!(x.sqrt(), isqrt_8(&(x as u8)) as i8);
    }
    for x in 0..=i16::MAX {
        assert_eq!(x.sqrt(), isqrt_16(&(x as u16)) as i16);
    }
    assert_eq!(i32::MAX.sqrt(), isqrt_32(&(i32::MAX as u32)) as i32);
    assert_eq!(i64::MAX.sqrt(), isqrt_64(&(i64::MAX as u64)) as i64);
}

#[test]
fn pointer_sized_values() {
    assert_eq!(16usize.sqrt(), 4);
    assert_eq!(usize::MAX.sqrt(), isqrt_64(&(usize::MAX as u64)) as usize);
    assert_eq!(isize::MAX.sqrt(), isqrt_64(&(isize::MAX as u64)) as isize);
    assert_eq!(1000000usize.sqrt(), 1000);
    assert_eq!(999999usize.sqrt(), 999);
}
