use ustar_archive::numtext::{format_octal, parse_number};

#[test]
fn format_octal_pads_to_width() {
    assert_eq!(format_octal(0o644, 7), b"0000644".to_vec());
    assert_eq!(format_octal(0, 7), b"0000000".to_vec());
    assert_eq!(format_octal(2, 11), b"00000000002".to_vec());
    assert_eq!(format_octal(1000, 7), b"0001750".to_vec());
}

#[test]
fn format_octal_without_padding() {
    assert_eq!(format_octal(0, 0), b"0".to_vec());
    assert_eq!(format_octal(1_700_000_000, 0), b"14524770400".to_vec());
    assert_eq!(format_octal(8, 1), b"10".to_vec());
}

#[test]
fn format_octal_grows_past_width() {
    assert_eq!(format_octal(0o10000000, 7), b"10000000".to_vec());
    assert_eq!(format_octal(u64::MAX, 7), b"1777777777777777777777".to_vec());
}

#[test]
fn parse_number_reads_octal() {
    assert_eq!(parse_number(b"0000644", 8, u64::MAX), Some(0o644));
    assert_eq!(parse_number(b"0", 8, u64::MAX), Some(0));
    assert_eq!(parse_number(b"00000000002", 8, u64::MAX), Some(2));
}

#[test]
fn parse_number_reads_decimal() {
    assert_eq!(parse_number(b"1000", 10, u32::MAX as u64), Some(1000));
    assert_eq!(parse_number(b"4294967295", 10, u32::MAX as u64), Some(4294967295));
}

#[test]
fn parse_number_takes_one_leading_plus() {
    assert_eq!(parse_number(b"+17", 8, u64::MAX), Some(0o17));
    assert_eq!(parse_number(b"++17", 8, u64::MAX), None);
    assert_eq!(parse_number(b"+", 8, u64::MAX), None);
}

#[test]
fn parse_number_refuses_what_is_no_number() {
    assert_eq!(parse_number(b"", 8, u64::MAX), None);
    assert_eq!(parse_number(b"-", 8, u64::MAX), None);
    assert_eq!(parse_number(b"-5", 8, u64::MAX), None);
    assert_eq!(parse_number(b"8", 8, u64::MAX), None);
    assert_eq!(parse_number(b"12 ", 8, u64::MAX), None);
    assert_eq!(parse_number(b"1\x002", 8, u64::MAX), None);
    assert_eq!(parse_number(b"12a", 10, u64::MAX), None);
}

#[test]
fn parse_number_refuses_what_exceeds_the_limit() {
    assert_eq!(parse_number(b"4294967296", 10, u32::MAX as u64), None);
    assert_eq!(parse_number(b"777", 8, 0o776), None);
    assert_eq!(parse_number(b"777", 8, 0o777), Some(0o777));
    assert_eq!(parse_number(b"18446744073709551615", 10, u64::MAX), Some(u64::MAX));
    assert_eq!(parse_number(b"18446744073709551616", 10, u64::MAX), None);
    assert_eq!(parse_number(b"99999999999999999999999", 10, u64::MAX), None);
}

#[test]
fn parse_number_reads_back_format_octal() {
    for n in [0u64, 1, 7, 8, 511, 512, 0o7777777, 1 << 33, u64::MAX] {
        assert_eq!(parse_number(&format_octal(n, 7), 8, u64::MAX), Some(n));
    }
}
