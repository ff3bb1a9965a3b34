use quake3::number::{format_number, parse_number};

#[test]
fn parse_number_reads_digits() {
    assert_eq!(parse_number(b"0"), Some(0));
    assert_eq!(parse_number(b"7"), Some(7));
    assert_eq!(parse_number(b"20"), Some(20));
    assert_eq!(parse_number(b"15"), Some(15));
    assert_eq!(parse_number(b"1234567890"), Some(1234567890));
}

#[test]
fn parse_number_takes_leading_zeros() {
    assert_eq!(parse_number(b"007"), Some(7));
    assert_eq!(parse_number(b"00000000000000000000"), Some(0));
}

#[test]
fn parse_number_reads_up_to_32_bits() {
    assert_eq!(parse_number(b"4294967295"), Some(u32::MAX));
    assert_eq!(parse_number(b"4294967296"), None);
    assert_eq!(parse_number(b"4294967300"), None);
    assert_eq!(parse_number(b"99999999999"), None);
    assert_eq!(parse_number(b"99999999999999999999999999"), None);
}

#[test]
fn parse_number_rejects_no_digits() {
    assert_eq!(parse_number(b""), None);
}

#[test]
fn parse_number_rejects_a_sign() {
    assert_eq!(parse_number(b"-5"), None);
    assert_eq!(parse_number(b"-0"), None);
    assert_eq!(parse_number(b"+5"), None);
}

#[test]
fn parse_number_rejects_other_bytes() {
    assert_eq!(parse_number(b"12a"), None);
    assert_eq!(parse_number(b"a12"), None);
    assert_eq!(parse_number(b" 12"), None);
    assert_eq!(parse_number(b"12 "), None);
    assert_eq!(parse_number(b"1.5"), None);
    assert_eq!(parse_number(b"/"), None);
    assert_eq!(parse_number(b":"), None);
    assert_eq!(parse_number(b"99999999999x"), None);
}

#[test]
fn format_number_writes_digits() {
    assert_eq!(format_number(0), b"0".to_vec());
    assert_eq!(format_number(9), b"9".to_vec());
    assert_eq!(format_number(10), b"10".to_vec());
    assert_eq!(format_number(20), b"20".to_vec());
    assert_eq!(format_number(105), b"105".to_vec());
    assert_eq!(format_number(u32::MAX), b"4294967295".to_vec());
}

#[test]
fn parse_number_reads_back_what_format_number_wrote() {
    for n in [0u32, 1, 9, 10, 11, 99, 100, 101, 65535, 65536, 1000000, u32::MAX - 1, u32::MAX] {
        assert_eq!(parse_number(&format_number(n)), Some(n));
    }
}
