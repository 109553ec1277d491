use integer_square_root::SquareRoot;

#[test]
fn tests() {
    // the accuracy of the root itself is covered elsewhere; this ensures the
    // exported trait works as intended on every supported type

    assert_eq!(16usize.sqrt(), 4);
    assert_eq!(16u64.sqrt(), 4);
    assert_eq!(16u32.sqrt(), 4);
    assert_eq!(16u16.sqrt(), 4);
    assert_eq!(16u8.sqrt(), 4);

    assert_eq!((-16isize).sqrt(), isize::MIN);
    assert_eq!((-16i64).sqrt(), i64::MIN);
    assert_eq!((-16i32).sqrt(), i32::MIN);
    assert_eq!((-16i16).sqrt(), i16::MIN);
    assert_eq!((-16i8).sqrt(), i8::MIN);

    assert_eq!(16isize.sqrt(), 4);
    assert_eq!(16i64.sqrt(), 4);
    assert_eq!(16i32.sqrt(), 4);
    assert_eq!(16i16.sqrt(), 4);
    assert_eq!(16i8.sqrt(), 4);
}
