use gix_index::util::{read_u32, read_u64, split_at_byte_exclusive, split_at_checked, var_int, write_u32, write_u64};

#[test]
fn big_endian_numbers_are_read_and_written() {
    assert_eq!(read_u32(&[0x01, 0x02, 0x03, 0x04, 0x05]), Some((0x0102_0304, &[0x05][..])));
    assert_eq!(read_u32(&[0x01, 0x02, 0x03]), None);
    assert_eq!(
        read_u64(&[0x01, 0x02, 0x03, 0x04, 0x05, 0x06, 0x07, 0x08]),
        Some((0x0102_0304_0506_0708, &[][..]))
    );
    assert_eq!(read_u64(&[0; 7]), None);

    let mut out = Vec::new();
    write_u32(&mut out, 0xfedc_ba98);
    write_u64(&mut out, 0xfedc_ba98_7654_3210);
    assert_eq!(out, [0xfe, 0xdc, 0xba, 0x98, 0xfe, 0xdc, 0xba, 0x98, 0x76, 0x54, 0x32, 0x10]);
    let (small, rest) = read_u32(&out).expect("four bytes");
    let (large, rest) = read_u64(rest).expect("eight bytes");
    assert_eq!((small, large, rest), (0xfedc_ba98, 0xfedc_ba98_7654_3210, &[][..]));
}

#[test]
fn data_is_split_at_bytes_and_positions() {
    assert_eq!(split_at_byte_exclusive(b"a\0b\0c", 0), Some((&b"a"[..], &b"b\0c"[..])));
    assert_eq!(split_at_byte_exclusive(b"\0", 0), Some((&b""[..], &b""[..])));
    assert_eq!(split_at_byte_exclusive(b"abc", 0), None);
    assert_eq!(split_at_byte_exclusive(b"", 0), None);
    assert_eq!(split_at_checked(b"abc", 2), Some((&b"ab"[..], &b"c"[..])));
    assert_eq!(split_at_checked(b"abc", 4), None);
}

#[test]
fn variable_length_integers_are_read() {
    assert_eq!(var_int(&[0x00, 0xaa]), Some((0, &[0xaa][..])));
    assert_eq!(var_int(&[0x7f]), Some((127, &[][..])));
    assert_eq!(var_int(&[0x80, 0x00]), Some((128, &[][..])));
    assert_eq!(var_int(&[0xff, 0x7f]), Some((16_511, &[][..])));
    assert_eq!(var_int(&[0x80, 0x80, 0x00]), Some((16_512, &[][..])));
}

#[test]
fn variable_length_integers_that_are_cut_short_or_too_large_are_refused() {
    assert_eq!(var_int(&[]), None);
    assert_eq!(var_int(&[0x80]), None);
    assert_eq!(var_int(&[0xff; 9]), None);
    let mut too_large = vec![0xff; 12];
    too_large.push(0x7f);
    assert_eq!(var_int(&too_large), None);
}
